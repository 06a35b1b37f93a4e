use vstd::prelude::*;
use crate::command::TreeCommand;
use crate::graph::{
    DependencyGraph, GraphError, dedup_refs, first_unresolved, forest_text, graph_roots,
    is_error_for, ordered_by_ref, selected, target_outcome, texts,
};
use crate::package::Lockfile;

verus! {

impl TreeCommand {
    /// The dependency tree of `lockfile` as the command shows it: `None` when no package is
    /// installed; otherwise the whole tree, or the trees of the selected packages (see
    /// `DependencyGraph::render_targeted`). A reverse tree needs at least one package.
    pub fn render(&self, lockfile: &Lockfile) -> (r: Result<Option<String>, GraphError>)
        ensures
            lockfile.packages@.len() == 0 ==> r matches Ok(None),
            lockfile.packages@.len() > 0 && self.packages@.len() == 0 ==> if self.reverse {
                r matches Err(GraphError::ReverseWithoutTarget)
            } else {
                r matches Ok(Some(t)) && t@ == forest_text(
                    lockfile.packages@,
                    false,
                    graph_roots(lockfile.packages@),
                )
            },
            lockfile.packages@.len() > 0 && self.packages@.len() > 0 ==> match first_unresolved(
                lockfile.packages@,
                texts(self.packages@),
            ) {
                Some(k) => r matches Err(e) && is_error_for(
                    e,
                    target_outcome(lockfile.packages@, texts(self.packages@)[k]),
                    texts(self.packages@)[k],
                ),
                None => r matches Ok(Some(t)) && t@ == forest_text(
                    lockfile.packages@,
                    self.reverse,
                    dedup_refs(
                        lockfile.packages@,
                        ordered_by_ref(lockfile.packages@, selected(lockfile.packages@, texts(self.packages@))),
                    ),
                ),
            },
    {
        if lockfile.packages.len() == 0 {
            return Ok(None);
        }
        let graph = DependencyGraph::new(lockfile);
        if self.packages.len() == 0 {
            if self.reverse {
                return Err(GraphError::ReverseWithoutTarget);
            }
            return Ok(Some(graph.render()));
        }
        match graph.render_targeted(&self.packages, self.reverse) {
            Ok(t) => Ok(Some(t)),
            Err(e) => Err(e),
        }
    }
}

} // verus!
