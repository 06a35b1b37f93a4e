use vstd::prelude::*;
use crate::order::{
    OrderKey, SortKey, in_key_order, is_arrangement, key_lt, lemma_arrangement_covers,
    lemma_key_lt_strict_total,
    lemma_stable_order_by_sorts, lemma_stable_order_len, stable_order, stable_sort_positions,
};
use crate::package::{Dependency, LockedPackage, Lockfile, PackageRef};
use crate::text::{chars_to_string, has_segment, lowercase, push_all, segment_matches, str_chars};

verus! {

/// The index of the package that `pkgs` lists last with the id `id`, if any.
pub open spec fn lookup(pkgs: Seq<LockedPackage>, id: Seq<char>) -> Option<int>
    decreases pkgs.len(),
{
    if pkgs.len() == 0 {
        None
    } else if pkgs.last().ref_.id@ == id {
        Some(pkgs.len() - 1)
    } else {
        lookup(pkgs.drop_last(), id)
    }
}

pub proof fn lemma_lookup(pkgs: Seq<LockedPackage>, id: Seq<char>)
    ensures
        lookup(pkgs, id) matches Some(i) ==> 0 <= i < pkgs.len() && pkgs[i].ref_.id@ == id
            && forall|k: int| i < k < pkgs.len() ==> (#[trigger] pkgs[k]).ref_.id@ != id,
        lookup(pkgs, id) is None ==> forall|k: int|
            0 <= k < pkgs.len() ==> (#[trigger] pkgs[k]).ref_.id@ != id,
    decreases pkgs.len(),
{
    if pkgs.len() > 0 {
        let d = pkgs.drop_last();
        lemma_lookup(d, id);
        assert forall|k: int| 0 <= k < d.len() implies d[k] == pkgs[k] by {}
    }
}

/// `lookup` finds index `i` when `i` holds the id and no later package does.
pub proof fn lemma_lookup_is(pkgs: Seq<LockedPackage>, id: Seq<char>, i: int)
    requires
        0 <= i < pkgs.len(),
        pkgs[i].ref_.id@ == id,
        forall|k: int| i < k < pkgs.len() ==> pkgs[k].ref_.id@ != id,
    ensures
        lookup(pkgs, id) == Some(i),
    decreases pkgs.len(),
{
    if i < pkgs.len() - 1 {
        lemma_lookup_is(pkgs.drop_last(), id, i);
    }
}

/// A child in the rendered tree: a package of the lockfile (by index), or a dependency that no
/// package of the lockfile provides (by its index among the parent's dependencies).
#[derive(PartialEq, Eq, Structural, Clone, Copy, Debug)]
pub enum Child {
    Resolved(usize),
    Missing(usize),
}

/// The mathematical form of a `Child`.
pub enum ChildView {
    Resolved(int),
    Missing(int),
}

impl View for Child {
    type V = ChildView;

    open spec fn view(&self) -> ChildView {
        match self {
            Child::Resolved(i) => ChildView::Resolved(*i as int),
            Child::Missing(d) => ChildView::Missing(*d as int),
        }
    }
}

/// The order key of a package reference: its id, then its version.
pub open spec fn ref_key(r: PackageRef) -> OrderKey {
    OrderKey {
        rank: 0,
        text: r.id@,
        major: r.version.major as nat,
        minor: r.version.minor as nat,
        patch: r.version.patch as nat,
    }
}

/// The order key of a text alone.
pub open spec fn text_key(t: Seq<char>) -> OrderKey {
    OrderKey { rank: 0, text: t, major: 0, minor: 0, patch: 0 }
}

/// How a missing dependency is named when children are ordered: `id@requirement`.
pub open spec fn missing_key_text(d: Dependency) -> Seq<char> {
    d.id@ + seq!['@'] + d.version_req@
}

/// The text by which a child of package `parent` is ordered among its siblings.
pub open spec fn child_text(pkgs: Seq<LockedPackage>, parent: int, c: ChildView) -> Seq<char> {
    match c {
        ChildView::Resolved(j) => pkgs[j].ref_.spec_text(),
        ChildView::Missing(d) => missing_key_text(pkgs[parent].deps@[d]),
    }
}

/// The dependencies of package `p`, each resolved to the package that the lockfile lists last
/// with its id, or missing.
pub open spec fn dependency_children(pkgs: Seq<LockedPackage>, p: int) -> Seq<ChildView> {
    Seq::new(
        pkgs[p].deps@.len(),
        |d: int|
            match lookup(pkgs, pkgs[p].deps@[d].id@) {
                Some(j) => ChildView::Resolved(j),
                None => ChildView::Missing(d),
            },
    )
}

/// How many of `deps` are on the package `id`.
pub open spec fn count_deps_on(deps: Seq<Dependency>, id: Seq<char>) -> nat
    decreases deps.len(),
{
    if deps.len() == 0 {
        0
    } else {
        count_deps_on(deps.drop_last(), id) + if deps.last().id@ == id {
            1nat
        } else {
            0nat
        }
    }
}

/// The packages among the first `n` of the lockfile that depend on `id`, in lockfile order,
/// each as often as it lists a dependency on `id`.
pub open spec fn dependants(pkgs: Seq<LockedPackage>, id: Seq<char>, n: int) -> Seq<ChildView>
    decreases n,
{
    if n <= 0 {
        Seq::empty()
    } else {
        dependants(pkgs, id, n - 1) + Seq::new(
            count_deps_on(pkgs[n - 1].deps@, id),
            |k: int| ChildView::Resolved(n - 1),
        )
    }
}

/// The children of package `p` before ordering: its dependencies, or (reversed) the packages
/// that depend on it.
pub open spec fn unordered_children(pkgs: Seq<LockedPackage>, p: int, reverse: bool) -> Seq<ChildView> {
    if reverse {
        dependants(pkgs, pkgs[p].ref_.id@, pkgs.len() as int)
    } else {
        dependency_children(pkgs, p)
    }
}

/// The items of `items` in the order `order` (a sequence of positions).
pub open spec fn reorder<A>(items: Seq<A>, order: Seq<int>) -> Seq<A> {
    order.map_values(|k: int| items[k])
}

/// The children of package `p` as they are rendered: in stable order of their texts.
pub open spec fn ordered_children(pkgs: Seq<LockedPackage>, p: int, reverse: bool) -> Seq<ChildView> {
    let u = unordered_children(pkgs, p, reverse);
    reorder(
        u,
        stable_order(u.map_values(|c: ChildView| text_key(child_text(pkgs, p, c))), u.len()),
    )
}

/// Whether a package (by index) is among the packages of `pkgs`, and children only name
/// packages and dependencies that exist.
pub open spec fn child_in_range(pkgs: Seq<LockedPackage>, p: int, c: ChildView) -> bool {
    match c {
        ChildView::Resolved(j) => 0 <= j < pkgs.len(),
        ChildView::Missing(d) => 0 <= d < pkgs[p].deps@.len(),
    }
}

/// A dependency graph over the packages of a lockfile.
pub struct DependencyGraph<'a> {
    lockfile: &'a Lockfile,
    roots: Vec<usize>,
}

impl<'a> DependencyGraph<'a> {
    /// The packages of the graph.
    pub closed spec fn packages(&self) -> Seq<LockedPackage> {
        self.lockfile.packages@
    }

    /// The index of the package listed last with the id `id`.
    fn find_package(&self, id: &String) -> (r: Option<usize>)
        ensures
            r matches Some(i) ==> lookup(self.packages(), id@) == Some(i as int),
            r is None ==> lookup(self.packages(), id@) is None,
    {
        let pkgs = &self.lockfile.packages;
        let mut i = pkgs.len();
        while i > 0
            invariant
                i <= pkgs@.len(),
                pkgs@ == self.packages(),
                forall|k: int| i <= k < pkgs@.len() ==> pkgs@[k].ref_.id@ != id@,
            decreases i,
        {
            if pkgs[i - 1].ref_.id == *id {
                proof {
                    lemma_lookup_is(pkgs@, id@, i - 1);
                }
                return Some(i - 1);
            }
            i -= 1;
        }
        proof {
            lemma_lookup(pkgs@, id@);
            if lookup(pkgs@, id@) is Some {
                let j = lookup(pkgs@, id@)->0;
                assert(pkgs@[j].ref_.id@ == id@);
            }
        }
        None
    }

    /// The text by which child `c` of package `p` is ordered.
    fn child_key_text(&self, p: usize, c: Child) -> (r: Vec<char>)
        requires
            p < self.packages().len(),
            child_in_range(self.packages(), p as int, c@),
        ensures
            r@ == child_text(self.packages(), p as int, c@),
    {
        let pkgs = &self.lockfile.packages;
        let mut out: Vec<char> = Vec::new();
        match c {
            Child::Resolved(j) => {
                pkgs[j].ref_.push_text(&mut out);
            },
            Child::Missing(d) => {
                let dep = &pkgs[p].deps[d];
                let id = str_chars(dep.id.as_str());
                push_all(&mut out, &id);
                out.push('@');
                let req = str_chars(dep.version_req.as_str());
                push_all(&mut out, &req);
            },
        }
        assert(out@ =~= child_text(self.packages(), p as int, c@));
        out
    }

    /// The children of package `p` before ordering.
    fn unordered_children(&self, p: usize, reverse: bool) -> (r: Vec<Child>)
        requires
            p < self.packages().len(),
        ensures
            r@.map_values(|c: Child| c@) == unordered_children(self.packages(), p as int, reverse),
            forall|k: int| 0 <= k < r@.len() ==> child_in_range(self.packages(), p as int, #[trigger] r@[k]@),
    {
        let pkgs = &self.lockfile.packages;
        let ghost ps = self.packages();
        let mut r: Vec<Child> = Vec::new();
        if reverse {
            let id = &pkgs[p].ref_.id;
            for j in 0..pkgs.len()
                invariant
                    pkgs@ == ps,
                    p < ps.len(),
                    id@ == ps[p as int].ref_.id@,
                    r@.map_values(|c: Child| c@) == dependants(ps, id@, j as int),
                    forall|k: int| 0 <= k < r@.len() ==> child_in_range(ps, p as int, #[trigger] r@[k]@),
            {
                let deps = &pkgs[j].deps;
                let ghost before = r@.map_values(|c: Child| c@);
                for d in 0..deps.len()
                    invariant
                        pkgs@ == ps,
                        p < ps.len(),
                        j < ps.len(),
                        deps@ == ps[j as int].deps@,
                        r@.map_values(|c: Child| c@) == before + Seq::new(
                            count_deps_on(deps@.take(d as int), id@),
                            |k: int| ChildView::Resolved(j as int),
                        ),
                        forall|k: int| 0 <= k < r@.len() ==> child_in_range(ps, p as int, #[trigger] r@[k]@),
                {
                    assert(deps@.take(d + 1).drop_last() =~= deps@.take(d as int));
                    let ghost n = count_deps_on(deps@.take(d as int), id@);
                    let ghost prev = r@.map_values(|c: Child| c@);
                    if deps[d].id == *id {
                        r.push(Child::Resolved(j));
                        assert(r@.map_values(|c: Child| c@) =~= prev.push(ChildView::Resolved(j as int)));
                        assert(Seq::new(n + 1, |k: int| ChildView::Resolved(j as int)) =~= Seq::new(
                            n,
                            |k: int| ChildView::Resolved(j as int),
                        ).push(ChildView::Resolved(j as int)));
                    }
                    assert(r@.map_values(|c: Child| c@) =~= before + Seq::new(
                        count_deps_on(deps@.take(d + 1), id@),
                        |k: int| ChildView::Resolved(j as int),
                    ));
                }
                assert(deps@.take(deps@.len() as int) =~= deps@);
            }
        } else {
            let deps = &pkgs[p].deps;
            for d in 0..deps.len()
                invariant
                    pkgs@ == ps,
                    ps == self.packages(),
                    p < ps.len(),
                    deps@ == ps[p as int].deps@,
                    r@.map_values(|c: Child| c@) == dependency_children(ps, p as int).take(d as int),
                    forall|k: int| 0 <= k < r@.len() ==> child_in_range(ps, p as int, #[trigger] r@[k]@),
            {
                let c = match self.find_package(&deps[d].id) {
                    Some(j) => Child::Resolved(j),
                    None => Child::Missing(d),
                };
                proof {
                    lemma_lookup(ps, deps@[d as int].id@);
                }
                let ghost prev = r@.map_values(|c: Child| c@);
                r.push(c);
                assert(r@.map_values(|c: Child| c@) =~= prev.push(c@));
                assert(r@.map_values(|c: Child| c@) =~= dependency_children(ps, p as int).take(d + 1));
            }
            assert(dependency_children(ps, p as int).take(deps@.len() as int) =~= dependency_children(ps, p as int));
        }
        r
    }

    /// The children of package `p`, in the order in which they are rendered.
    fn children(&self, p: usize, reverse: bool) -> (r: Vec<Child>)
        requires
            p < self.packages().len(),
        ensures
            r@.map_values(|c: Child| c@) == ordered_children(self.packages(), p as int, reverse),
            forall|k: int| 0 <= k < r@.len() ==> child_in_range(self.packages(), p as int, #[trigger] r@[k]@),
    {
        let ghost ps = self.packages();
        let u = self.unordered_children(p, reverse);
        let ghost uv = u@.map_values(|c: Child| c@);
        let mut keys: Vec<SortKey> = Vec::new();
        for k in 0..u.len()
            invariant
                p < ps.len(),
                ps == self.packages(),
                uv == u@.map_values(|c: Child| c@),
                forall|k: int| 0 <= k < u@.len() ==> child_in_range(ps, p as int, #[trigger] u@[k]@),
                keys@.len() == k,
                forall|m: int| 0 <= m < k ==> (#[trigger] keys@[m])@ == text_key(child_text(ps, p as int, uv[m])),
        {
            let text = self.child_key_text(p, u[k]);
            keys.push(SortKey { rank: 0, text, major: 0, minor: 0, patch: 0 });
        }
        let ghost kv = uv.map_values(|c: ChildView| text_key(child_text(ps, p as int, c)));
        assert(keys@.map_values(|k: SortKey| k@) =~= kv);
        let positions = stable_sort_positions(&keys);
        proof {
            lemma_stable_order_len(kv, uv.len());
        }
        let mut r: Vec<Child> = Vec::new();
        for k in 0..positions.len()
            invariant
                positions@.len() == u@.len(),
                uv == u@.map_values(|c: Child| c@),
                forall|i: int| 0 <= i < positions@.len() ==> #[trigger] positions@[i] as int == stable_order(kv, uv.len())[i],
                forall|i: int| 0 <= i < uv.len() ==> 0 <= #[trigger] stable_order(kv, uv.len())[i] < uv.len(),
                stable_order(kv, uv.len()).len() == uv.len(),
                forall|k: int| 0 <= k < u@.len() ==> child_in_range(ps, p as int, #[trigger] u@[k]@),
                forall|m: int| 0 <= m < r@.len() ==> child_in_range(ps, p as int, #[trigger] r@[m]@),
                r@.map_values(|c: Child| c@) == reorder(uv, stable_order(kv, uv.len())).take(k as int),
        {
            let pos = positions[k];
            assert(stable_order(kv, uv.len())[k as int] == pos as int);
            let ghost prev = r@.map_values(|c: Child| c@);
            r.push(u[pos]);
            assert(r@.map_values(|c: Child| c@) =~= prev.push(uv[pos as int]));
            assert(r@.map_values(|c: Child| c@) =~= reorder(uv, stable_order(kv, uv.len())).take(k + 1));
        }
        assert(reorder(uv, stable_order(kv, uv.len())).take(positions@.len() as int) =~= reorder(uv, stable_order(kv, uv.len())));
        r
    }
}


/// The ids of the packages (by index) on a path from a root.
pub open spec fn ids_of(pkgs: Seq<LockedPackage>, path: Seq<usize>) -> Seq<Seq<char>> {
    path.map_values(|k: usize| pkgs[k as int].ref_.id@)
}

/// How many packages of `pkgs` have an id that is not in `seen`.
pub open spec fn unvisited(pkgs: Seq<LockedPackage>, seen: Seq<Seq<char>>) -> nat
    decreases pkgs.len(),
{
    if pkgs.len() == 0 {
        0
    } else {
        unvisited(pkgs.drop_last(), seen) + if seen.contains(pkgs.last().ref_.id@) {
            0nat
        } else {
            1nat
        }
    }
}

/// Adding the id of a package to `seen` never adds unvisited packages, and removes at least
/// one when some package has that id and it was not seen.
pub proof fn lemma_unvisited_push(pkgs: Seq<LockedPackage>, seen: Seq<Seq<char>>, x: Seq<char>)
    ensures
        unvisited(pkgs, seen.push(x)) <= unvisited(pkgs, seen),
        !seen.contains(x) && (exists|k: int| 0 <= k < pkgs.len() && (#[trigger] pkgs[k]).ref_.id@ == x)
            ==> unvisited(pkgs, seen.push(x)) < unvisited(pkgs, seen),
    decreases pkgs.len(),
{
    if pkgs.len() > 0 {
        let d = pkgs.drop_last();
        lemma_unvisited_push(d, seen, x);
        let y = pkgs.last().ref_.id@;
        assert(seen.push(x).contains(y) <==> (seen.contains(y) || y == x)) by {
            if seen.contains(y) {
                let m = choose|m: int| 0 <= m < seen.len() && seen[m] == y;
                assert(seen.push(x)[m] == y);
            }
            if y == x {
                assert(seen.push(x)[seen.len() as int] == y);
            }
            if seen.push(x).contains(y) && y != x {
                let m = choose|m: int| 0 <= m < seen.push(x).len() && seen.push(x)[m] == y;
                assert(seen[m] == y);
            }
        }
        if !seen.contains(x) && (exists|k: int| 0 <= k < pkgs.len() && (#[trigger] pkgs[k]).ref_.id@ == x) {
            let k = choose|k: int| 0 <= k < pkgs.len() && (#[trigger] pkgs[k]).ref_.id@ == x;
            if k < pkgs.len() - 1 {
                assert(d[k] == pkgs[k]);
            }
        }
    }
}

/// The indentation drawn for the ancestors of a node: a bar below each ancestor that has
/// later siblings, blank space below each that is the last of its siblings.
pub open spec fn indent_text(ancestors: Seq<bool>) -> Seq<char>
    decreases ancestors.len(),
{
    if ancestors.len() == 0 {
        Seq::empty()
    } else {
        indent_text(ancestors.drop_last()) + if ancestors.last() {
            seq![' ', ' ', ' ', ' ']
        } else {
            seq!['│', ' ', ' ', ' ']
        }
    }
}

/// The text before a node's name: the indentation, then a branch (`└── ` for the last of its
/// siblings, `├── ` for the others); a root has no branch.
pub open spec fn prefix_text(ancestors: Seq<bool>, branch: Option<bool>) -> Seq<char> {
    indent_text(ancestors) + match branch {
        Some(last) => if last {
            seq!['└', '─', '─', ' ']
        } else {
            seq!['├', '─', '─', ' ']
        },
        None => Seq::empty(),
    }
}

/// The line of a dependency that no package provides: `id requirement (missing)`.
pub open spec fn missing_line(ancestors: Seq<bool>, last: bool, d: Dependency) -> Seq<char> {
    prefix_text(ancestors, Some(last)) + d.id@ + seq![' '] + d.version_req@ + seq![
        ' ',
        '(',
        'm',
        'i',
        's',
        's',
        'i',
        'n',
        'g',
        ')',
        '\n',
    ]
}

/// The rendering of package `p` and, unless its id is already on the path from the root
/// (`path`), of its children below it.
pub open spec fn node_text(
    pkgs: Seq<LockedPackage>,
    reverse: bool,
    p: int,
    branch: Option<bool>,
    ancestors: Seq<bool>,
    path: Seq<Seq<char>>,
) -> Seq<char>
    decreases unvisited(pkgs, path), 0nat, 0int,
{
    let line = prefix_text(ancestors, branch) + pkgs[p].ref_.spec_text() + seq!['\n'];
    if !(0 <= p < pkgs.len()) || path.contains(pkgs[p].ref_.id@) {
        line
    } else {
        proof {
            lemma_unvisited_push(pkgs, path, pkgs[p].ref_.id@);
        }
        let inner = match branch {
            Some(last) => ancestors.push(last),
            None => ancestors,
        };
        line + children_text(
            pkgs,
            reverse,
            p,
            ordered_children(pkgs, p, reverse),
            0,
            inner,
            path.push(pkgs[p].ref_.id@),
        )
    }
}

/// The rendering of the children `cs[i..]` of package `parent`.
pub open spec fn children_text(
    pkgs: Seq<LockedPackage>,
    reverse: bool,
    parent: int,
    cs: Seq<ChildView>,
    i: int,
    ancestors: Seq<bool>,
    path: Seq<Seq<char>>,
) -> Seq<char>
    decreases unvisited(pkgs, path), 1nat, cs.len() - i,
{
    if i < 0 || i >= cs.len() {
        Seq::empty()
    } else {
        let last = i + 1 == cs.len();
        let t = match cs[i] {
            ChildView::Resolved(j) => node_text(pkgs, reverse, j, Some(last), ancestors, path),
            ChildView::Missing(d) => missing_line(ancestors, last, pkgs[parent].deps@[d]),
        };
        t + children_text(pkgs, reverse, parent, cs, i + 1, ancestors, path)
    }
}

/// The rendering of the trees rooted at `roots`, separated by blank lines.
pub open spec fn forest_text(pkgs: Seq<LockedPackage>, reverse: bool, roots: Seq<int>) -> Seq<char>
    decreases roots.len(),
{
    if roots.len() == 0 {
        Seq::empty()
    } else if roots.len() == 1 {
        node_text(pkgs, reverse, roots[0], None, Seq::empty(), Seq::empty())
    } else {
        forest_text(pkgs, reverse, roots.drop_last()) + seq!['\n'] + node_text(
            pkgs,
            reverse,
            roots.last(),
            None,
            Seq::empty(),
            Seq::empty(),
        )
    }
}


/// The positions held by a vector of indices, as integers.
pub open spec fn as_ints(v: Seq<usize>) -> Seq<int> {
    v.map_values(|i: usize| i as int)
}

fn copy_indices(v: &Vec<usize>) -> (r: Vec<usize>)
    ensures
        r@ == v@,
{
    let mut r: Vec<usize> = Vec::new();
    for i in 0..v.len()
        invariant
            r@ == v@.take(i as int),
    {
        r.push(v[i]);
        assert(r@ =~= v@.take(i + 1));
    }
    assert(v@.take(v.len() as int) =~= v@);
    r
}

fn copy_flags(v: &Vec<bool>) -> (r: Vec<bool>)
    ensures
        r@ == v@,
{
    let mut r: Vec<bool> = Vec::new();
    for i in 0..v.len()
        invariant
            r@ == v@.take(i as int),
    {
        r.push(v[i]);
        assert(r@ =~= v@.take(i + 1));
    }
    assert(v@.take(v.len() as int) =~= v@);
    r
}

/// The text before a node's name (see `prefix_text`).
fn prefix(ancestors: &Vec<bool>, branch: Option<bool>) -> (r: Vec<char>)
    ensures
        r@ == prefix_text(ancestors@, branch),
{
    let mut out: Vec<char> = Vec::new();
    for i in 0..ancestors.len()
        invariant
            out@ == indent_text(ancestors@.take(i as int)),
    {
        if ancestors[i] {
            push_all(&mut out, &vec![' ', ' ', ' ', ' ']);
        } else {
            push_all(&mut out, &vec!['│', ' ', ' ', ' ']);
        }
        assert(ancestors@.take(i + 1).drop_last() =~= ancestors@.take(i as int));
        assert(out@ =~= indent_text(ancestors@.take(i + 1)));
    }
    assert(ancestors@.take(ancestors.len() as int) =~= ancestors@);
    match branch {
        Some(last) => {
            if last {
                push_all(&mut out, &vec!['└', '─', '─', ' ']);
            } else {
                push_all(&mut out, &vec!['├', '─', '─', ' ']);
            }
        },
        None => {},
    }
    assert(out@ =~= prefix_text(ancestors@, branch));
    out
}

impl<'a> DependencyGraph<'a> {
    /// The line of the missing dependency `d` of package `parent`.
    fn missing(&self, parent: usize, d: usize, ancestors: &Vec<bool>, last: bool) -> (r: Vec<char>)
        requires
            parent < self.packages().len(),
            d < self.packages()[parent as int].deps@.len(),
        ensures
            r@ == missing_line(ancestors@, last, self.packages()[parent as int].deps@[d as int]),
    {
        let dep = &self.lockfile.packages[parent].deps[d];
        let mut out = prefix(ancestors, Some(last));
        let id = str_chars(dep.id.as_str());
        push_all(&mut out, &id);
        out.push(' ');
        let req = str_chars(dep.version_req.as_str());
        push_all(&mut out, &req);
        push_all(&mut out, &vec![' ', '(', 'm', 'i', 's', 's', 'i', 'n', 'g', ')', '\n']);
        assert(out@ =~= missing_line(ancestors@, last, self.packages()[parent as int].deps@[d as int]));
        out
    }

    /// Whether the id of package `p` is on `path`.
    fn on_path(&self, path: &Vec<usize>, p: usize) -> (r: bool)
        requires
            p < self.packages().len(),
            forall|k: int| 0 <= k < path@.len() ==> (#[trigger] path@[k] as int) < self.packages().len(),
        ensures
            r == ids_of(self.packages(), path@).contains(self.packages()[p as int].ref_.id@),
    {
        let pkgs = &self.lockfile.packages;
        let ghost ids = ids_of(self.packages(), path@);
        let ghost id = self.packages()[p as int].ref_.id@;
        for k in 0..path.len()
            invariant
                pkgs@ == self.packages(),
                p < pkgs@.len(),
                ids == ids_of(pkgs@, path@),
                id == pkgs@[p as int].ref_.id@,
                forall|k: int| 0 <= k < path@.len() ==> (#[trigger] path@[k] as int) < pkgs@.len(),
                forall|m: int| 0 <= m < k ==> ids[m] != id,
        {
            if pkgs[path[k]].ref_.id == pkgs[p].ref_.id {
                assert(ids[k as int] == id);
                return true;
            }
        }
        assert(!ids.contains(id));
        false
    }

    /// The rendering of package `p` below the ancestors `ancestors`, on the path `path`.
    fn render_node(
        &self,
        p: usize,
        branch: Option<bool>,
        reverse: bool,
        ancestors: &Vec<bool>,
        path: &Vec<usize>,
    ) -> (r: Vec<char>)
        requires
            p < self.packages().len(),
            forall|k: int| 0 <= k < path@.len() ==> (#[trigger] path@[k] as int) < self.packages().len(),
        ensures
            r@ == node_text(self.packages(), reverse, p as int, branch, ancestors@, ids_of(self.packages(), path@)),
        decreases unvisited(self.packages(), ids_of(self.packages(), path@)), 0nat,
    {
        let ghost ps = self.packages();
        let ghost ids = ids_of(ps, path@);
        let mut out = prefix(ancestors, branch);
        self.lockfile.packages[p].ref_.push_text(&mut out);
        out.push('\n');
        let ghost line = out@;
        assert(line == prefix_text(ancestors@, branch) + ps[p as int].ref_.spec_text() + seq!['\n']);
        if self.on_path(path, p) {
            return out;
        }
        let mut inner = copy_flags(ancestors);
        match branch {
            Some(last) => inner.push(last),
            None => {},
        }
        let mut deeper = copy_indices(path);
        deeper.push(p);
        let ghost id = ps[p as int].ref_.id@;
        proof {
            assert(ids_of(ps, deeper@) =~= ids.push(id));
            assert(ps[p as int].ref_.id@ == id);
            lemma_unvisited_push(ps, ids, id);
        }
        let cs = self.children(p, reverse);
        let ghost csv = cs@.map_values(|c: Child| c@);
        let ghost deeper_ids = ids_of(ps, deeper@);
        assert(out@ + children_text(ps, reverse, p as int, csv, 0, inner@, deeper_ids) == node_text(
            ps,
            reverse,
            p as int,
            branch,
            ancestors@,
            ids,
        ));
        for i in 0..cs.len()
            invariant
                ps == self.packages(),
                p < ps.len(),
                csv == cs@.map_values(|c: Child| c@),
                csv == ordered_children(ps, p as int, reverse),
                forall|k: int| 0 <= k < cs@.len() ==> child_in_range(ps, p as int, #[trigger] cs@[k]@),
                forall|k: int| 0 <= k < deeper@.len() ==> (#[trigger] deeper@[k] as int) < ps.len(),
                deeper_ids == ids_of(ps, deeper@),
                unvisited(ps, deeper_ids) < unvisited(ps, ids),
                ids == ids_of(ps, path@),
                out@ + children_text(ps, reverse, p as int, csv, i as int, inner@, deeper_ids)
                    == node_text(ps, reverse, p as int, branch, ancestors@, ids),
        {
            let last = i + 1 == cs.len();
            let ghost before = out@;
            assert(csv[i as int] == cs@[i as int]@);
            let piece = match cs[i] {
                Child::Resolved(j) => self.render_node(j, Some(last), reverse, &inner, &deeper),
                Child::Missing(d) => self.missing(p, d, &inner, last),
            };
            push_all(&mut out, &piece);
            assert(out@ + children_text(ps, reverse, p as int, csv, i + 1, inner@, deeper_ids) =~= before
                + children_text(ps, reverse, p as int, csv, i as int, inner@, deeper_ids));
        }
        out
    }

    /// The rendering of the trees rooted at `roots`.
    fn render_forest(&self, roots: &Vec<usize>, reverse: bool) -> (r: Vec<char>)
        requires
            forall|k: int| 0 <= k < roots@.len() ==> (#[trigger] roots@[k] as int) < self.packages().len(),
        ensures
            r@ == forest_text(self.packages(), reverse, as_ints(roots@)),
    {
        let ghost rs = as_ints(roots@);
        let mut out: Vec<char> = Vec::new();
        let empty_flags: Vec<bool> = Vec::new();
        let empty_path: Vec<usize> = Vec::new();
        for i in 0..roots.len()
            invariant
                rs == as_ints(roots@),
                forall|k: int| 0 <= k < roots@.len() ==> (#[trigger] roots@[k] as int) < self.packages().len(),
                empty_flags@ == Seq::<bool>::empty(),
                empty_path@ == Seq::<usize>::empty(),
                out@ == forest_text(self.packages(), reverse, rs.take(i as int)),
        {
            if i > 0 {
                out.push('\n');
            }
            let tree = self.render_node(roots[i], None, reverse, &empty_flags, &empty_path);
            assert(ids_of(self.packages(), empty_path@) =~= Seq::<Seq<char>>::empty());
            push_all(&mut out, &tree);
            assert(rs.take(i + 1).drop_last() =~= rs.take(i as int));
            assert(rs.take(i + 1).last() == roots@[i as int] as int);
            assert(out@ =~= forest_text(self.packages(), reverse, rs.take(i + 1)));
        }
        assert(rs.take(roots.len() as int) =~= rs);
        out
    }
}


/// The indices of the packages among the first `n` that are not transitive, in lockfile order.
pub open spec fn non_transitive(pkgs: Seq<LockedPackage>, n: int) -> Seq<int>
    decreases n,
{
    if n <= 0 {
        Seq::empty()
    } else {
        non_transitive(pkgs, n - 1) + if !pkgs[n - 1].transitive {
            seq![n - 1]
        } else {
            Seq::empty()
        }
    }
}

/// The packages from which the tree grows: those that are not transitive or, when every
/// package is transitive, all of them.
pub open spec fn root_candidates(pkgs: Seq<LockedPackage>) -> Seq<int> {
    let nt = non_transitive(pkgs, pkgs.len() as int);
    if nt.len() == 0 {
        Seq::new(pkgs.len(), |i: int| i)
    } else {
        nt
    }
}

/// The packages `items` (by index) in stable order of their references (id, then version).
pub open spec fn ordered_by_ref(pkgs: Seq<LockedPackage>, items: Seq<int>) -> Seq<int> {
    reorder(
        items,
        stable_order(items.map_values(|i: int| ref_key(pkgs[i].ref_)), items.len()),
    )
}

/// The roots of the dependency tree, in the order in which they are rendered.
pub open spec fn graph_roots(pkgs: Seq<LockedPackage>) -> Seq<int> {
    ordered_by_ref(pkgs, root_candidates(pkgs))
}

/// Whether package `i` is the one that `pkgs` lists last with its id.
pub open spec fn listed_last(pkgs: Seq<LockedPackage>, i: int) -> bool {
    lookup(pkgs, pkgs[i].ref_.id@) == Some(i)
}

/// The packages among the first `n` (one per id: the one listed last) with an id that, in
/// lowercase, has the lowercase `query` as one of its `-`-separated pieces.
pub open spec fn fuzzy_matches(pkgs: Seq<LockedPackage>, query: Seq<char>, n: int) -> Seq<int>
    decreases n,
{
    if n <= 0 {
        Seq::empty()
    } else {
        fuzzy_matches(pkgs, query, n - 1) + if listed_last(pkgs, n - 1) && has_segment(
            lowercase(pkgs[n - 1].ref_.id@),
            lowercase(query),
        ) {
            seq![n - 1]
        } else {
            Seq::empty()
        }
    }
}

/// What a package query selects.
pub enum TargetOutcome {
    /// The package (by index).
    Found(int),
    /// No package.
    NotFound,
    /// Several packages, this many.
    Ambiguous(nat),
}

/// What `query` selects: the package listed last with exactly that id; otherwise the one
/// package whose id has the query as a `-`-separated piece (ignoring case), if there is
/// exactly one.
pub open spec fn target_outcome(pkgs: Seq<LockedPackage>, query: Seq<char>) -> TargetOutcome {
    match lookup(pkgs, query) {
        Some(i) => TargetOutcome::Found(i),
        None => {
            let m = fuzzy_matches(pkgs, query, pkgs.len() as int);
            if m.len() == 0 {
                TargetOutcome::NotFound
            } else if m.len() == 1 {
                TargetOutcome::Found(m[0])
            } else {
                TargetOutcome::Ambiguous(m.len())
            }
        },
    }
}

/// The index of the first of `targets` that selects no single package, if any.
pub open spec fn first_unresolved(pkgs: Seq<LockedPackage>, targets: Seq<Seq<char>>) -> Option<int>
    decreases targets.len(),
{
    if targets.len() == 0 {
        None
    } else {
        match first_unresolved(pkgs, targets.drop_last()) {
            Some(k) => Some(k),
            None => if target_outcome(pkgs, targets.last()) is Found {
                None
            } else {
                Some(targets.len() - 1)
            },
        }
    }
}

/// The packages that `targets` select, in order.
pub open spec fn selected(pkgs: Seq<LockedPackage>, targets: Seq<Seq<char>>) -> Seq<int> {
    targets.map_values(|t: Seq<char>| target_outcome(pkgs, t)->Found_0)
}

/// `items` with every package whose reference equals that of the package kept before it
/// dropped.
pub open spec fn dedup_refs(pkgs: Seq<LockedPackage>, items: Seq<int>) -> Seq<int>
    decreases items.len(),
{
    if items.len() == 0 {
        Seq::empty()
    } else {
        let d = dedup_refs(pkgs, items.drop_last());
        if d.len() > 0 && pkgs[d.last()].ref_.id@ == pkgs[items.last()].ref_.id@
            && pkgs[d.last()].ref_.version == pkgs[items.last()].ref_.version {
            d
        } else {
            d.push(items.last())
        }
    }
}

/// Why a tree could not be rendered.
#[derive(Debug)]
pub enum GraphError {
    /// No package matches the query.
    NoMatch(String),
    /// Several packages match the query; this many.
    Ambiguous(String, usize),
    /// A reverse tree was asked for without naming a package.
    ReverseWithoutTarget,
}

/// The packages `items` (by index) in stable order of their references.
fn order_by_ref(pkgs: &Vec<LockedPackage>, items: &Vec<usize>) -> (r: Vec<usize>)
    requires
        forall|k: int| 0 <= k < items@.len() ==> (#[trigger] items@[k] as int) < pkgs@.len(),
    ensures
        as_ints(r@) == ordered_by_ref(pkgs@, as_ints(items@)),
        forall|k: int| 0 <= k < r@.len() ==> (#[trigger] r@[k] as int) < pkgs@.len(),
{
    let ghost ps = pkgs@;
    let ghost iv = as_ints(items@);
    let mut keys: Vec<SortKey> = Vec::new();
    for k in 0..items.len()
        invariant
            pkgs@ == ps,
            iv == as_ints(items@),
            forall|k: int| 0 <= k < items@.len() ==> (#[trigger] items@[k] as int) < ps.len(),
            keys@.len() == k,
            forall|m: int| 0 <= m < k ==> (#[trigger] keys@[m])@ == ref_key(ps[iv[m]].ref_),
    {
        let r = &pkgs[items[k]].ref_;
        let text = str_chars(r.id.as_str());
        keys.push(SortKey { rank: 0, text, major: r.version.major, minor: r.version.minor, patch: r.version.patch });
    }
    let ghost kv = iv.map_values(|i: int| ref_key(ps[i].ref_));
    assert(keys@.map_values(|k: SortKey| k@) =~= kv);
    let positions = stable_sort_positions(&keys);
    proof {
        lemma_stable_order_len(kv, iv.len());
    }
    let ghost order = stable_order(kv, iv.len());
    let mut r: Vec<usize> = Vec::new();
    for k in 0..positions.len()
        invariant
            positions@.len() == items@.len(),
            iv == as_ints(items@),
            order == stable_order(kv, iv.len()),
            forall|i: int| 0 <= i < positions@.len() ==> #[trigger] positions@[i] as int == order[i],
            forall|i: int| 0 <= i < iv.len() ==> 0 <= #[trigger] order[i] < iv.len(),
            order.len() == iv.len(),
            forall|k: int| 0 <= k < items@.len() ==> (#[trigger] items@[k] as int) < ps.len(),
            forall|m: int| 0 <= m < r@.len() ==> (#[trigger] r@[m] as int) < ps.len(),
            as_ints(r@) == reorder(iv, order).take(k as int),
    {
        let pos = positions[k];
        assert(order[k as int] == pos as int);
        let ghost prev = as_ints(r@);
        r.push(items[pos]);
        assert(as_ints(r@) =~= prev.push(iv[pos as int]));
        assert(as_ints(r@) =~= reorder(iv, order).take(k + 1));
    }
    assert(reorder(iv, order).take(positions@.len() as int) =~= reorder(iv, order));
    r
}


impl<'a> DependencyGraph<'a> {
    #[verifier::type_invariant]
    spec fn roots_are_ordered(self) -> bool {
        &&& as_ints(self.roots@) == graph_roots(self.lockfile.packages@)
        &&& forall|k: int| 0 <= k < self.roots@.len() ==> (#[trigger] self.roots@[k] as int) < self.lockfile.packages@.len()
    }

    /// The dependency graph of `lockfile`.
    pub fn new(lockfile: &'a Lockfile) -> (g: DependencyGraph<'a>)
        ensures
            g.packages() == lockfile.packages@,
    {
        let pkgs = &lockfile.packages;
        let mut candidates: Vec<usize> = Vec::new();
        for i in 0..pkgs.len()
            invariant
                as_ints(candidates@) == non_transitive(pkgs@, i as int),
                forall|k: int| 0 <= k < candidates@.len() ==> (#[trigger] candidates@[k] as int) < pkgs@.len(),
        {
            let ghost prev = as_ints(candidates@);
            if !pkgs[i].transitive {
                candidates.push(i);
                assert(as_ints(candidates@) =~= prev.push(i as int));
            }
            assert(as_ints(candidates@) =~= non_transitive(pkgs@, i + 1));
        }
        if candidates.len() == 0 {
            assert(as_ints(candidates@) =~= Seq::new(0, |k: int| k));
            for i in 0..pkgs.len()
                invariant
                    as_ints(candidates@) == Seq::new(i as nat, |k: int| k),
                    forall|k: int| 0 <= k < candidates@.len() ==> (#[trigger] candidates@[k] as int) < pkgs@.len(),
            {
                let ghost prev = as_ints(candidates@);
                candidates.push(i);
                assert(as_ints(candidates@) =~= prev.push(i as int));
                assert(as_ints(candidates@) =~= Seq::new((i + 1) as nat, |k: int| k));
            }
        }
        assert(as_ints(candidates@) =~= root_candidates(pkgs@));
        let roots = order_by_ref(pkgs, &candidates);
        DependencyGraph { lockfile, roots }
    }
}


/// Whether `e` is the error that `query` gives when it selects no single package.
pub open spec fn is_error_for(e: GraphError, outcome: TargetOutcome, query: Seq<char>) -> bool {
    match outcome {
        TargetOutcome::NotFound => e matches GraphError::NoMatch(q) && q@ == query,
        TargetOutcome::Ambiguous(n) => e matches GraphError::Ambiguous(q, c) && q@ == query && c
            == n,
        TargetOutcome::Found(_) => false,
    }
}

/// The texts of `targets`.
pub open spec fn texts(targets: Seq<String>) -> Seq<Seq<char>> {
    targets.map_values(|t: String| t@)
}

pub proof fn lemma_dedup_refs_nonempty(pkgs: Seq<LockedPackage>, items: Seq<int>)
    requires
        items.len() > 0,
    ensures
        dedup_refs(pkgs, items).len() > 0,
    decreases items.len(),
{
}

impl<'a> DependencyGraph<'a> {
    /// Renders the dependency tree: every root (see `graph_roots`) with the packages it depends
    /// on below it, trees separated by blank lines.
    pub fn render(&self) -> (r: String)
        ensures
            r@ == forest_text(self.packages(), false, graph_roots(self.packages())),
    {
        proof {
            use_type_invariant(self);
        }
        let out = self.render_forest(&self.roots, false);
        chars_to_string(&out)
    }

    /// The package that `query` selects (see `target_outcome`).
    fn resolve_target(&self, query: &String) -> (r: Result<usize, GraphError>)
        ensures
            match target_outcome(self.packages(), query@) {
                TargetOutcome::Found(i) => r matches Ok(j) && j == i,
                outcome => r matches Err(e) && is_error_for(e, outcome, query@),
            },
    {
        let ghost ps = self.packages();
        if let Some(i) = self.find_package(query) {
            return Ok(i);
        }
        let pkgs = &self.lockfile.packages;
        let lower_query = str_chars(crate::text::to_lowercase(query.as_str()).as_str());
        let mut matches: Vec<usize> = Vec::new();
        for i in 0..pkgs.len()
            invariant
                ps == self.packages(),
                pkgs@ == ps,
                lower_query@ == lowercase(query@),
                as_ints(matches@) == fuzzy_matches(ps, query@, i as int),
        {
            let id = &pkgs[i].ref_.id;
            let last = match self.find_package(id) {
                Some(j) => j == i,
                None => false,
            };
            let ghost prev = as_ints(matches@);
            if last {
                let lower = str_chars(crate::text::to_lowercase(id.as_str()).as_str());
                if segment_matches(&lower, &lower_query) {
                    matches.push(i);
                    assert(as_ints(matches@) =~= prev.push(i as int));
                }
            }
            assert(as_ints(matches@) =~= fuzzy_matches(ps, query@, i + 1));
        }
        if matches.len() == 0 {
            Err(GraphError::NoMatch(query.clone()))
        } else if matches.len() == 1 {
            assert(fuzzy_matches(ps, query@, ps.len() as int)[0] == matches@[0] as int);
            Ok(matches[0])
        } else {
            Err(GraphError::Ambiguous(query.clone(), matches.len()))
        }
    }

    /// The packages that `targets` select, ordered by reference with repeats removed; the
    /// roots when there are no targets.
    fn resolve_targets(&self, targets: &Vec<String>) -> (r: Result<Vec<usize>, GraphError>)
        ensures
            targets@.len() == 0 ==> (r matches Ok(v) && as_ints(v@) == graph_roots(self.packages())),
            targets@.len() > 0 ==> match first_unresolved(self.packages(), texts(targets@)) {
                Some(k) => r matches Err(e) && is_error_for(
                    e,
                    target_outcome(self.packages(), texts(targets@)[k]),
                    texts(targets@)[k],
                ),
                None => r matches Ok(v) && as_ints(v@) == dedup_refs(
                    self.packages(),
                    ordered_by_ref(self.packages(), selected(self.packages(), texts(targets@))),
                ),
            },
            r matches Ok(v) ==> forall|k: int| 0 <= k < v@.len() ==> (#[trigger] v@[k] as int) < self.packages().len(),
    {
        proof {
            use_type_invariant(self);
        }
        let ghost ps = self.packages();
        let ghost tv = texts(targets@);
        let pkgs = &self.lockfile.packages;
        if targets.len() == 0 {
            return Ok(copy_indices(&self.roots));
        }
        let mut found: Vec<usize> = Vec::new();
        for k in 0..targets.len()
            invariant
                ps == self.packages(),
                pkgs@ == ps,
                tv == texts(targets@),
                first_unresolved(ps, tv.take(k as int)) is None,
                as_ints(found@) == selected(ps, tv.take(k as int)),
                forall|m: int| 0 <= m < found@.len() ==> (#[trigger] found@[m] as int) < ps.len(),
        {
            assert(tv.take(k + 1).drop_last() =~= tv.take(k as int));
            assert(tv.take(k + 1).last() == targets@[k as int]@);
            match self.resolve_target(&targets[k]) {
                Ok(i) => {
                    proof {
                        lemma_lookup(ps, tv[k as int]);
                        if lookup(ps, tv[k as int]) is None {
                            lemma_fuzzy_matches_in_range(ps, tv[k as int], ps.len() as int);
                        }
                    }
                    let ghost prev = as_ints(found@);
                    found.push(i);
                    assert(as_ints(found@) =~= prev.push(i as int));
                    assert(as_ints(found@) =~= selected(ps, tv.take(k + 1)));
                },
                Err(e) => {
                    proof {
                        lemma_first_unresolved_prefix(ps, tv, k as int);
                    }
                    return Err(e);
                },
            }
        }
        assert(tv.take(targets.len() as int) =~= tv);
        let ordered = order_by_ref(pkgs, &found);
        let mut kept: Vec<usize> = Vec::new();
        let ghost ov = as_ints(ordered@);
        for k in 0..ordered.len()
            invariant
                pkgs@ == ps,
                ov == as_ints(ordered@),
                forall|m: int| 0 <= m < ordered@.len() ==> (#[trigger] ordered@[m] as int) < ps.len(),
                forall|m: int| 0 <= m < kept@.len() ==> (#[trigger] kept@[m] as int) < ps.len(),
                as_ints(kept@) == dedup_refs(ps, ov.take(k as int)),
        {
            assert(ov.take(k + 1).drop_last() =~= ov.take(k as int));
            let i = ordered[k];
            let ghost prev = as_ints(kept@);
            let same = kept.len() > 0 && {
                let last = kept[kept.len() - 1];
                pkgs[last].ref_.id == pkgs[i].ref_.id && pkgs[last].ref_.version == pkgs[i].ref_.version
            };
            if !same {
                kept.push(i);
                assert(as_ints(kept@) =~= prev.push(i as int));
            }
        }
        assert(ov.take(ordered.len() as int) =~= ov);
        Ok(kept)
    }

    /// Renders the trees rooted at the packages that `targets` select (see `target_outcome`),
    /// ordered by reference and without repeats, or at the roots when there are no targets.
    /// With `reverse`, each package is shown with the packages that depend on it below it.
    ///
    /// The first target that selects no single package is reported as an error; so is a
    /// reverse tree without any package to start from.
    pub fn render_targeted(&self, targets: &Vec<String>, reverse: bool) -> (r: Result<String, GraphError>)
        ensures
            targets@.len() == 0 ==> if reverse && graph_roots(self.packages()).len() == 0 {
                r matches Err(GraphError::ReverseWithoutTarget)
            } else {
                r matches Ok(t) && t@ == forest_text(self.packages(), reverse, graph_roots(self.packages()))
            },
            targets@.len() > 0 ==> match first_unresolved(self.packages(), texts(targets@)) {
                Some(k) => r matches Err(e) && is_error_for(
                    e,
                    target_outcome(self.packages(), texts(targets@)[k]),
                    texts(targets@)[k],
                ),
                None => r matches Ok(t) && t@ == forest_text(
                    self.packages(),
                    reverse,
                    dedup_refs(
                        self.packages(),
                        ordered_by_ref(self.packages(), selected(self.packages(), texts(targets@))),
                    ),
                ),
            },
    {
        let roots = match self.resolve_targets(targets) {
            Ok(roots) => roots,
            Err(e) => return Err(e),
        };
        proof {
            if targets@.len() > 0 && first_unresolved(self.packages(), texts(targets@)) is None {
                lemma_selected_len(self.packages(), texts(targets@));
                lemma_ordered_len(self.packages(), selected(self.packages(), texts(targets@)));
                lemma_dedup_refs_nonempty(
                    self.packages(),
                    ordered_by_ref(self.packages(), selected(self.packages(), texts(targets@))),
                );
            }
        }
        if reverse && roots.len() == 0 {
            return Err(GraphError::ReverseWithoutTarget);
        }
        let out = self.render_forest(&roots, reverse);
        Ok(chars_to_string(&out))
    }
}

pub proof fn lemma_selected_len(pkgs: Seq<LockedPackage>, targets: Seq<Seq<char>>)
    ensures
        selected(pkgs, targets).len() == targets.len(),
{
}

pub proof fn lemma_ordered_len(pkgs: Seq<LockedPackage>, items: Seq<int>)
    ensures
        ordered_by_ref(pkgs, items).len() == items.len(),
{
    lemma_stable_order_len(items.map_values(|i: int| ref_key(pkgs[i].ref_)), items.len());
}

pub proof fn lemma_fuzzy_matches_in_range(pkgs: Seq<LockedPackage>, query: Seq<char>, n: int)
    requires
        n <= pkgs.len(),
    ensures
        forall|k: int| 0 <= k < fuzzy_matches(pkgs, query, n).len() ==> 0 <= #[trigger] fuzzy_matches(pkgs, query, n)[k] < n,
    decreases n,
{
    if n > 0 {
        lemma_fuzzy_matches_in_range(pkgs, query, n - 1);
        let prev = fuzzy_matches(pkgs, query, n - 1);
        assert forall|k: int| 0 <= k < fuzzy_matches(pkgs, query, n).len() implies 0
            <= #[trigger] fuzzy_matches(pkgs, query, n)[k] < n by {
            if k < prev.len() {
                assert(fuzzy_matches(pkgs, query, n)[k] == prev[k]);
            }
        }
    }
}

/// When the first `k` targets all select a package and target `k` does not, target `k` is the
/// first that does not.
pub proof fn lemma_first_unresolved_prefix(pkgs: Seq<LockedPackage>, targets: Seq<Seq<char>>, k: int)
    requires
        0 <= k < targets.len(),
        first_unresolved(pkgs, targets.take(k)) is None,
        !(target_outcome(pkgs, targets[k]) is Found),
    ensures
        first_unresolved(pkgs, targets) == Some(k),
    decreases targets.len(),
{
    if k < targets.len() - 1 {
        assert(targets.drop_last().take(k) =~= targets.take(k));
        lemma_first_unresolved_prefix(pkgs, targets.drop_last(), k);
    } else {
        assert(targets.drop_last() =~= targets.take(k));
    }
}

/// The indices that `non_transitive` gives are below `n`.
proof fn lemma_non_transitive_in_range(pkgs: Seq<LockedPackage>, n: int)
    ensures
        forall|k: int| 0 <= k < non_transitive(pkgs, n).len() ==> 0 <= #[trigger] non_transitive(pkgs, n)[k] < n,
    decreases n,
{
    if n > 0 {
        lemma_non_transitive_in_range(pkgs, n - 1);
        let prev = non_transitive(pkgs, n - 1);
        assert forall|k: int| 0 <= k < non_transitive(pkgs, n).len() implies 0
            <= #[trigger] non_transitive(pkgs, n)[k] < n by {
            if k < prev.len() {
                assert(non_transitive(pkgs, n)[k] == prev[k]);
            }
        }
    }
}

/// A lockfile with packages always has a tree to show: its roots are packages of the
/// lockfile, there is at least one, and they come in order of their references.
pub proof fn law_graph_roots(pkgs: Seq<LockedPackage>)
    ensures
        pkgs.len() > 0 ==> graph_roots(pkgs).len() > 0,
        forall|k: int| 0 <= k < graph_roots(pkgs).len() ==> 0 <= #[trigger] graph_roots(pkgs)[k] < pkgs.len(),
        forall|i: int, j: int|
            0 <= i < j < graph_roots(pkgs).len() ==> !key_lt(
                ref_key(pkgs[#[trigger] graph_roots(pkgs)[j]].ref_),
                ref_key(pkgs[#[trigger] graph_roots(pkgs)[i]].ref_),
            ),
{
    let c = root_candidates(pkgs);
    let keys = c.map_values(|i: int| ref_key(pkgs[i].ref_));
    let order = stable_order(keys, c.len());
    let r = graph_roots(pkgs);
    lemma_non_transitive_in_range(pkgs, pkgs.len() as int);
    lemma_stable_order_len(keys, c.len());
    lemma_stable_order_by_sorts(keys, c.len(), false);
    assert(r == reorder(c, order));
    assert forall|k: int| 0 <= k < c.len() implies 0 <= #[trigger] c[k] < pkgs.len() by {}
    assert forall|k: int| 0 <= k < r.len() implies 0 <= #[trigger] r[k] < pkgs.len() by {
        assert(r[k] == c[order[k]]);
    }
    assert forall|i: int, j: int| 0 <= i < j < r.len() implies !key_lt(
        ref_key(pkgs[#[trigger] r[j]].ref_),
        ref_key(pkgs[#[trigger] r[i]].ref_),
    ) by {
        assert(r[i] == c[order[i]] && r[j] == c[order[j]]);
        assert(keys[order[i]] == ref_key(pkgs[r[i]].ref_));
        assert(keys[order[j]] == ref_key(pkgs[r[j]].ref_));
        assert(in_key_order(keys, order, false));
    }
}

/// Every package in `items` lies in the lockfile and is the one listed last with its id.
pub open spec fn all_listed_last(pkgs: Seq<LockedPackage>, items: Seq<int>) -> bool {
    forall|k: int| 0 <= k < items.len() ==> 0 <= #[trigger] items[k] < pkgs.len() && listed_last(pkgs, items[k])
}

/// The packages of `items` come in strictly ascending order of their references.
pub open spec fn ascending_refs(pkgs: Seq<LockedPackage>, items: Seq<int>) -> bool {
    forall|a: int, b: int|
        0 <= a < b < items.len() ==> key_lt(ref_key(pkgs[#[trigger] items[a]].ref_), ref_key(pkgs[#[trigger] items[b]].ref_))
}

/// Packages listed last with their ids are told apart by their references.
proof fn lemma_listed_last_keys(pkgs: Seq<LockedPackage>, i: int, j: int)
    requires
        0 <= i < pkgs.len(),
        0 <= j < pkgs.len(),
        listed_last(pkgs, i),
        listed_last(pkgs, j),
        ref_key(pkgs[i].ref_) == ref_key(pkgs[j].ref_),
    ensures
        i == j,
{
    assert(ref_key(pkgs[i].ref_).text == pkgs[i].ref_.id@);
    assert(ref_key(pkgs[j].ref_).text == pkgs[j].ref_.id@);
}

/// The packages that `fuzzy_matches` gives are each listed last with their ids.
proof fn lemma_fuzzy_matches_listed_last(pkgs: Seq<LockedPackage>, query: Seq<char>, n: int)
    requires
        n <= pkgs.len(),
    ensures
        all_listed_last(pkgs, fuzzy_matches(pkgs, query, n)),
    decreases n,
{
    lemma_fuzzy_matches_in_range(pkgs, query, n);
    if n > 0 {
        lemma_fuzzy_matches_listed_last(pkgs, query, n - 1);
        let prev = fuzzy_matches(pkgs, query, n - 1);
        let m = fuzzy_matches(pkgs, query, n);
        assert forall|k: int| 0 <= k < m.len() implies listed_last(pkgs, #[trigger] m[k]) by {
            if k < prev.len() {
                assert(m[k] == prev[k]);
            }
        }
    }
}

/// When every target selects a package, each selected package lies in the lockfile and is
/// the one listed last with its id.
proof fn lemma_selected_listed_last(pkgs: Seq<LockedPackage>, targets: Seq<Seq<char>>)
    requires
        first_unresolved(pkgs, targets) is None,
    ensures
        all_listed_last(pkgs, selected(pkgs, targets)),
    decreases targets.len(),
{
    if targets.len() > 0 {
        lemma_selected_listed_last(pkgs, targets.drop_last());
        let s = selected(pkgs, targets);
        let prev = selected(pkgs, targets.drop_last());
        let t = targets.last();
        assert(target_outcome(pkgs, t) is Found);
        let i = target_outcome(pkgs, t)->Found_0;
        lemma_lookup(pkgs, t);
        match lookup(pkgs, t) {
            Some(j) => {
                lemma_lookup_is(pkgs, pkgs[j].ref_.id@, j);
            },
            None => {
                lemma_fuzzy_matches_listed_last(pkgs, t, pkgs.len() as int);
                assert(fuzzy_matches(pkgs, t, pkgs.len() as int)[0] == i);
            },
        }
        assert forall|k: int| 0 <= k < s.len() implies 0 <= #[trigger] s[k] < pkgs.len() && listed_last(pkgs, s[k]) by {
            if k < prev.len() {
                assert(s[k] == prev[k]);
            } else {
                assert(s[k] == i);
            }
        }
    }
}

/// Ordering packages by reference keeps the same packages and puts them in order.
proof fn lemma_ordered_by_ref(pkgs: Seq<LockedPackage>, items: Seq<int>)
    ensures
        forall|x: int| ordered_by_ref(pkgs, items).contains(x) <==> items.contains(x),
        forall|a: int, b: int|
            0 <= a < b < ordered_by_ref(pkgs, items).len() ==> !key_lt(
                ref_key(pkgs[#[trigger] ordered_by_ref(pkgs, items)[b]].ref_),
                ref_key(pkgs[#[trigger] ordered_by_ref(pkgs, items)[a]].ref_),
            ),
{
    let keys = items.map_values(|i: int| ref_key(pkgs[i].ref_));
    let order = stable_order(keys, items.len());
    let o = ordered_by_ref(pkgs, items);
    lemma_stable_order_len(keys, items.len());
    lemma_stable_order_by_sorts(keys, items.len(), false);
    assert(o == reorder(items, order));
    assert forall|x: int| o.contains(x) <==> items.contains(x) by {
        if o.contains(x) {
            let a = choose|a: int| 0 <= a < o.len() && o[a] == x;
            assert(items[order[a]] == x);
        }
        if items.contains(x) {
            let q = choose|q: int| 0 <= q < items.len() && items[q] == x;
            lemma_arrangement_covers(order, items.len(), q);
            let a = choose|a: int| 0 <= a < order.len() && order[a] == q;
            assert(o[a] == x);
        }
    }
    assert forall|a: int, b: int| 0 <= a < b < o.len() implies !key_lt(
        ref_key(pkgs[#[trigger] o[b]].ref_),
        ref_key(pkgs[#[trigger] o[a]].ref_),
    ) by {
        assert(o[a] == items[order[a]] && o[b] == items[order[b]]);
        assert(keys[order[a]] == ref_key(pkgs[o[a]].ref_));
        assert(keys[order[b]] == ref_key(pkgs[o[b]].ref_));
        assert(in_key_order(keys, order, false));
    }
}

/// Dropping repeated references from packages in reference order leaves the same packages in
/// strictly ascending order.
proof fn lemma_dedup_sorted(pkgs: Seq<LockedPackage>, items: Seq<int>)
    requires
        all_listed_last(pkgs, items),
        forall|a: int, b: int|
            0 <= a < b < items.len() ==> !key_lt(ref_key(pkgs[#[trigger] items[b]].ref_), ref_key(pkgs[#[trigger] items[a]].ref_)),
    ensures
        all_listed_last(pkgs, dedup_refs(pkgs, items)),
        ascending_refs(pkgs, dedup_refs(pkgs, items)),
        forall|x: int| dedup_refs(pkgs, items).contains(x) <==> items.contains(x),
    decreases items.len(),
{
    if items.len() > 0 {
        let rest = items.drop_last();
        let y = items.last();
        assert forall|k: int| 0 <= k < rest.len() implies 0 <= #[trigger] rest[k] < pkgs.len() && listed_last(pkgs, rest[k]) by {
            assert(rest[k] == items[k]);
        }
        assert forall|a: int, b: int| 0 <= a < b < rest.len() implies !key_lt(
            ref_key(pkgs[#[trigger] rest[b]].ref_),
            ref_key(pkgs[#[trigger] rest[a]].ref_),
        ) by {
            assert(rest[a] == items[a] && rest[b] == items[b]);
        }
        lemma_dedup_sorted(pkgs, rest);
        let d = dedup_refs(pkgs, rest);
        assert(items[items.len() - 1] == y);
        let ky = ref_key(pkgs[y].ref_);
        if d.len() > 0 && pkgs[d.last()].ref_.id@ == pkgs[y].ref_.id@ && pkgs[d.last()].ref_.version
            == pkgs[y].ref_.version {
            assert(d[d.len() - 1] == d.last());
            lemma_listed_last_keys(pkgs, d.last(), y);
            assert forall|x: int| d.contains(x) <==> items.contains(x) by {
                if items.contains(x) {
                    let q = choose|q: int| 0 <= q < items.len() && items[q] == x;
                    if q < rest.len() {
                        assert(rest[q] == x);
                        assert(rest.contains(x));
                    } else {
                        assert(d[d.len() - 1] == x);
                    }
                }
                if d.contains(x) {
                    assert(rest.contains(x));
                    let q = choose|q: int| 0 <= q < rest.len() && rest[q] == x;
                    assert(items[q] == x);
                }
            }
        } else {
            let e = d.push(y);
            assert(dedup_refs(pkgs, items) == e);
            // every kept package orders strictly before `y`
            assert forall|a: int| 0 <= a < d.len() implies key_lt(ref_key(pkgs[#[trigger] d[a]].ref_), ky) by {
                assert(rest.contains(d[a]));
                let m = choose|m: int| 0 <= m < rest.len() && rest[m] == d[a];
                assert(items[m] == d[a]);
                assert(!key_lt(ky, ref_key(pkgs[items[m]].ref_)));
                lemma_key_lt_strict_total(ref_key(pkgs[d[a]].ref_), ky, ky);
                if ref_key(pkgs[d[a]].ref_) == ky {
                    lemma_listed_last_keys(pkgs, d[a], y);
                    let last = d.len() - 1;
                    assert(d[last] == d.last());
                    if a < last {
                        assert(key_lt(ref_key(pkgs[d[a]].ref_), ref_key(pkgs[d[last]].ref_)));
                        assert(rest.contains(d[last]));
                        let m2 = choose|m2: int| 0 <= m2 < rest.len() && rest[m2] == d[last];
                        assert(items[m2] == d[last]);
                        assert(!key_lt(ky, ref_key(pkgs[items[m2]].ref_)));
                        lemma_key_lt_strict_total(ky, ref_key(pkgs[d[last]].ref_), ky);
                    } else {
                        assert(pkgs[d.last()].ref_.id@ == pkgs[y].ref_.id@);
                    }
                }
            }
            assert forall|k: int| 0 <= k < e.len() implies 0 <= #[trigger] e[k] < pkgs.len() && listed_last(pkgs, e[k]) by {
                if k < d.len() {
                    assert(e[k] == d[k]);
                } else {
                    assert(e[k] == items[items.len() - 1]);
                }
            }
            assert forall|a: int, b: int| 0 <= a < b < e.len() implies key_lt(
                ref_key(pkgs[#[trigger] e[a]].ref_),
                ref_key(pkgs[#[trigger] e[b]].ref_),
            ) by {
                assert(e[a] == d[a]);
                if b < d.len() {
                    assert(e[b] == d[b]);
                } else {
                    assert(e[b] == y);
                }
            }
            assert forall|x: int| e.contains(x) <==> items.contains(x) by {
                if items.contains(x) {
                    let q = choose|q: int| 0 <= q < items.len() && items[q] == x;
                    if q < rest.len() {
                        assert(rest[q] == x);
                        assert(rest.contains(x));
                        assert(d.contains(x));
                        let a = choose|a: int| 0 <= a < d.len() && d[a] == x;
                        assert(e[a] == x);
                    } else {
                        assert(e[d.len() as int] == x);
                    }
                }
                if e.contains(x) {
                    let a = choose|a: int| 0 <= a < e.len() && e[a] == x;
                    if a < d.len() {
                        assert(d[a] == x);
                        assert(d.contains(x));
                        assert(rest.contains(x));
                        let q = choose|q: int| 0 <= q < rest.len() && rest[q] == x;
                        assert(items[q] == x);
                    } else {
                        assert(items[items.len() - 1] == x);
                    }
                }
            }
        }
    }
}

/// Two sequences of packages in strictly ascending reference order that hold the same
/// packages are equal.
proof fn lemma_ascending_unique(pkgs: Seq<LockedPackage>, d1: Seq<int>, d2: Seq<int>)
    requires
        all_listed_last(pkgs, d1),
        all_listed_last(pkgs, d2),
        ascending_refs(pkgs, d1),
        ascending_refs(pkgs, d2),
        forall|x: int| d1.contains(x) <==> d2.contains(x),
    ensures
        d1 == d2,
    decreases d1.len() + d2.len(),
{
    if d1.len() == 0 && d2.len() > 0 {
        assert(d2.contains(d2[0]));
    } else if d2.len() == 0 && d1.len() > 0 {
        assert(d1.contains(d1[0]));
    } else if d1.len() > 0 && d2.len() > 0 {
        let l1 = d1.len() - 1;
        let l2 = d2.len() - 1;
        let x1 = d1[l1];
        let x2 = d2[l2];
        assert(d1.contains(x1));
        assert(d2.contains(x2));
        let b = choose|b: int| 0 <= b < d2.len() && d2[b] == x1;
        let a = choose|a: int| 0 <= a < d1.len() && d1[a] == x2;
        if x1 != x2 {
            assert(b < l2);
            assert(a < l1);
            assert(key_lt(ref_key(pkgs[d2[b]].ref_), ref_key(pkgs[d2[l2]].ref_)));
            assert(key_lt(ref_key(pkgs[d1[a]].ref_), ref_key(pkgs[d1[l1]].ref_)));
            lemma_key_lt_strict_total(ref_key(pkgs[x1].ref_), ref_key(pkgs[x2].ref_), ref_key(pkgs[x1].ref_));
        }
        let r1 = d1.drop_last();
        let r2 = d2.drop_last();
        assert forall|k: int| 0 <= k < r1.len() implies 0 <= #[trigger] r1[k] < pkgs.len() && listed_last(pkgs, r1[k]) by {
            assert(r1[k] == d1[k]);
        }
        assert forall|k: int| 0 <= k < r2.len() implies 0 <= #[trigger] r2[k] < pkgs.len() && listed_last(pkgs, r2[k]) by {
            assert(r2[k] == d2[k]);
        }
        assert forall|p: int, q: int| 0 <= p < q < r1.len() implies key_lt(
            ref_key(pkgs[#[trigger] r1[p]].ref_),
            ref_key(pkgs[#[trigger] r1[q]].ref_),
        ) by {
            assert(r1[p] == d1[p] && r1[q] == d1[q]);
        }
        assert forall|p: int, q: int| 0 <= p < q < r2.len() implies key_lt(
            ref_key(pkgs[#[trigger] r2[p]].ref_),
            ref_key(pkgs[#[trigger] r2[q]].ref_),
        ) by {
            assert(r2[p] == d2[p] && r2[q] == d2[q]);
        }
        assert forall|x: int| r1.contains(x) <==> r2.contains(x) by {
            if r1.contains(x) {
                let p = choose|p: int| 0 <= p < r1.len() && r1[p] == x;
                assert(d1[p] == x);
                assert(key_lt(ref_key(pkgs[d1[p]].ref_), ref_key(pkgs[d1[l1]].ref_)));
                lemma_key_lt_strict_total(ref_key(pkgs[x].ref_), ref_key(pkgs[x].ref_), ref_key(pkgs[x].ref_));
                assert(x != x1);
                assert(d1.contains(x));
                let q = choose|q: int| 0 <= q < d2.len() && d2[q] == x;
                assert(q != l2);
                assert(r2[q] == x);
            }
            if r2.contains(x) {
                let p = choose|p: int| 0 <= p < r2.len() && r2[p] == x;
                assert(d2[p] == x);
                assert(key_lt(ref_key(pkgs[d2[p]].ref_), ref_key(pkgs[d2[l2]].ref_)));
                lemma_key_lt_strict_total(ref_key(pkgs[x].ref_), ref_key(pkgs[x].ref_), ref_key(pkgs[x].ref_));
                assert(x != x2);
                assert(d2.contains(x));
                let q = choose|q: int| 0 <= q < d1.len() && d1[q] == x;
                assert(q != l1);
                assert(r1[q] == x);
            }
        }
        lemma_ascending_unique(pkgs, r1, r2);
        assert(d1 =~= r1.push(x1));
        assert(d2 =~= r2.push(x2));
    }
}

/// The trees that `render_targeted` shows depend only on which packages the targets select:
/// any reordering or repetition of the targets, or other queries selecting the same packages,
/// give the same packages to start from (in the same order), and so the same text.
pub proof fn law_targets_order_does_not_matter(
    pkgs: Seq<LockedPackage>,
    targets1: Seq<Seq<char>>,
    targets2: Seq<Seq<char>>,
    reverse: bool,
)
    requires
        first_unresolved(pkgs, targets1) is None,
        first_unresolved(pkgs, targets2) is None,
        forall|x: int| selected(pkgs, targets1).contains(x) <==> selected(pkgs, targets2).contains(x),
    ensures
        dedup_refs(pkgs, ordered_by_ref(pkgs, selected(pkgs, targets1))) == dedup_refs(
            pkgs,
            ordered_by_ref(pkgs, selected(pkgs, targets2)),
        ),
        forest_text(pkgs, reverse, dedup_refs(pkgs, ordered_by_ref(pkgs, selected(pkgs, targets1))))
            == forest_text(pkgs, reverse, dedup_refs(pkgs, ordered_by_ref(pkgs, selected(pkgs, targets2)))),
{
    let s1 = selected(pkgs, targets1);
    let s2 = selected(pkgs, targets2);
    let o1 = ordered_by_ref(pkgs, s1);
    let o2 = ordered_by_ref(pkgs, s2);
    lemma_selected_listed_last(pkgs, targets1);
    lemma_selected_listed_last(pkgs, targets2);
    lemma_ordered_by_ref(pkgs, s1);
    lemma_ordered_by_ref(pkgs, s2);
    assert forall|k: int| 0 <= k < o1.len() implies 0 <= #[trigger] o1[k] < pkgs.len() && listed_last(pkgs, o1[k]) by {
        assert(o1.contains(o1[k]));
        assert(s1.contains(o1[k]));
        let q = choose|q: int| 0 <= q < s1.len() && s1[q] == o1[k];
        assert(0 <= s1[q] < pkgs.len() && listed_last(pkgs, s1[q]));
    }
    assert forall|k: int| 0 <= k < o2.len() implies 0 <= #[trigger] o2[k] < pkgs.len() && listed_last(pkgs, o2[k]) by {
        assert(o2.contains(o2[k]));
        assert(s2.contains(o2[k]));
        let q = choose|q: int| 0 <= q < s2.len() && s2[q] == o2[k];
        assert(0 <= s2[q] < pkgs.len() && listed_last(pkgs, s2[q]));
    }
    lemma_dedup_sorted(pkgs, o1);
    lemma_dedup_sorted(pkgs, o2);
    let d1 = dedup_refs(pkgs, o1);
    let d2 = dedup_refs(pkgs, o2);
    assert forall|x: int| d1.contains(x) <==> d2.contains(x) by {
        if d1.contains(x) {
            assert(o1.contains(x));
            assert(s1.contains(x));
            assert(s2.contains(x));
            assert(o2.contains(x));
        }
        if d2.contains(x) {
            assert(o2.contains(x));
            assert(s2.contains(x));
            assert(s1.contains(x));
            assert(o1.contains(x));
        }
    }
    lemma_ascending_unique(pkgs, d1, d2);
}

/// No two packages of `pkgs` share an id.
pub open spec fn ids_distinct(pkgs: Seq<LockedPackage>) -> bool {
    forall|i: int, j: int| 0 <= i < j < pkgs.len() ==> #[trigger] pkgs[i].ref_.id@ != #[trigger] pkgs[j].ref_.id@
}

/// `pkgs2` holds the packages of `pkgs1` in another order: package `i` of `pkgs1` is package
/// `perm[i]` of `pkgs2`.
pub open spec fn reordered(pkgs1: Seq<LockedPackage>, pkgs2: Seq<LockedPackage>, perm: Seq<int>) -> bool {
    &&& pkgs2.len() == pkgs1.len()
    &&& is_arrangement(perm, pkgs1.len())
    &&& forall|i: int| 0 <= i < pkgs1.len() ==> pkgs2[#[trigger] perm[i]] == pkgs1[i]
}

/// A child of a package of `pkgs1` as the same child in `pkgs2`.
pub open spec fn moved_child(perm: Seq<int>, c: ChildView) -> ChildView {
    match c {
        ChildView::Resolved(j) => ChildView::Resolved(perm[j]),
        ChildView::Missing(d) => ChildView::Missing(d),
    }
}

/// Every package of `pkgs2` is one of `pkgs1`, moved.
proof fn lemma_reordered_covers(pkgs1: Seq<LockedPackage>, pkgs2: Seq<LockedPackage>, perm: Seq<int>, k: int)
    requires
        reordered(pkgs1, pkgs2, perm),
        0 <= k < pkgs2.len(),
    ensures
        exists|m: int| 0 <= m < pkgs1.len() && perm[m] == k,
{
    lemma_arrangement_covers(perm, pkgs1.len(), k);
}

/// Looking an id up in the reordered packages finds the moved package.
proof fn lemma_lookup_reordered(pkgs1: Seq<LockedPackage>, pkgs2: Seq<LockedPackage>, perm: Seq<int>, id: Seq<char>)
    requires
        ids_distinct(pkgs1),
        reordered(pkgs1, pkgs2, perm),
    ensures
        lookup(pkgs2, id) == match lookup(pkgs1, id) {
            Some(i) => Some(perm[i]),
            None => None,
        },
{
    lemma_lookup(pkgs1, id);
    lemma_lookup(pkgs2, id);
    match lookup(pkgs1, id) {
        Some(i) => {
            assert(pkgs2[perm[i]] == pkgs1[i]);
            assert forall|k: int| perm[i] < k < pkgs2.len() implies pkgs2[k].ref_.id@ != id by {
                lemma_reordered_covers(pkgs1, pkgs2, perm, k);
                let m = choose|m: int| 0 <= m < pkgs1.len() && perm[m] == k;
                assert(pkgs2[perm[m]] == pkgs1[m]);
                if pkgs1[m].ref_.id@ == id && m != i {
                    if m < i {
                        assert(pkgs1[m].ref_.id@ != pkgs1[i].ref_.id@);
                    } else {
                        assert(pkgs1[i].ref_.id@ != pkgs1[m].ref_.id@);
                    }
                }
            }
            lemma_lookup_is(pkgs2, id, perm[i]);
        },
        None => {
            match lookup(pkgs2, id) {
                Some(k) => {
                    lemma_reordered_covers(pkgs1, pkgs2, perm, k);
                    let m = choose|m: int| 0 <= m < pkgs1.len() && perm[m] == k;
                    assert(pkgs2[perm[m]] == pkgs1[m]);
                    assert(pkgs1[m].ref_.id@ != id);
                },
                None => {},
            }
        },
    }
}

/// The children of a package come out moved, and in range.
proof fn lemma_children_reordered(pkgs1: Seq<LockedPackage>, pkgs2: Seq<LockedPackage>, perm: Seq<int>, p: int)
    requires
        ids_distinct(pkgs1),
        reordered(pkgs1, pkgs2, perm),
        0 <= p < pkgs1.len(),
    ensures
        ordered_children(pkgs2, perm[p], false) == ordered_children(pkgs1, p, false).map_values(
            |c: ChildView| moved_child(perm, c),
        ),
        forall|k: int|
            0 <= k < ordered_children(pkgs1, p, false).len() ==> child_in_range(
                pkgs1,
                p,
                #[trigger] ordered_children(pkgs1, p, false)[k],
            ),
{
    let q = perm[p];
    assert(pkgs2[q] == pkgs1[p]);
    let u1 = unordered_children(pkgs1, p, false);
    let u2 = unordered_children(pkgs2, q, false);
    assert forall|d: int| 0 <= d < u1.len() implies #[trigger] u2[d] == moved_child(perm, u1[d]) && child_in_range(pkgs1, p, u1[d]) by {
        lemma_lookup_reordered(pkgs1, pkgs2, perm, pkgs1[p].deps@[d].id@);
        lemma_lookup(pkgs1, pkgs1[p].deps@[d].id@);
    }
    assert(u2 =~= u1.map_values(|c: ChildView| moved_child(perm, c)));
    let k1 = u1.map_values(|c: ChildView| text_key(child_text(pkgs1, p, c)));
    let k2 = u2.map_values(|c: ChildView| text_key(child_text(pkgs2, q, c)));
    assert forall|d: int| 0 <= d < u1.len() implies k2[d] == k1[d] by {
        assert(u2[d] == moved_child(perm, u1[d]));
        match u1[d] {
            ChildView::Resolved(j) => {
                assert(pkgs2[perm[j]] == pkgs1[j]);
            },
            ChildView::Missing(e) => {},
        }
    }
    assert(k2 =~= k1);
    let order = stable_order(k1, u1.len());
    lemma_stable_order_len(k1, u1.len());
    assert(ordered_children(pkgs1, p, false) == reorder(u1, order));
    assert(ordered_children(pkgs2, q, false) == reorder(u2, order));
    assert(ordered_children(pkgs2, q, false) =~= ordered_children(pkgs1, p, false).map_values(
        |c: ChildView| moved_child(perm, c),
    ));
    assert forall|k: int| 0 <= k < ordered_children(pkgs1, p, false).len() implies child_in_range(
        pkgs1,
        p,
        #[trigger] ordered_children(pkgs1, p, false)[k],
    ) by {
        assert(0 <= order[k] < u1.len());
        assert(ordered_children(pkgs1, p, false)[k] == u1[order[k]]);
        assert(u2[order[k]] == moved_child(perm, u1[order[k]]));
    }
}

/// A package renders the same in the reordered packages.
proof fn lemma_node_text_reordered(
    pkgs1: Seq<LockedPackage>,
    pkgs2: Seq<LockedPackage>,
    perm: Seq<int>,
    p: int,
    branch: Option<bool>,
    ancestors: Seq<bool>,
    path: Seq<Seq<char>>,
)
    requires
        ids_distinct(pkgs1),
        reordered(pkgs1, pkgs2, perm),
        0 <= p < pkgs1.len(),
    ensures
        node_text(pkgs2, false, perm[p], branch, ancestors, path) == node_text(pkgs1, false, p, branch, ancestors, path),
    decreases unvisited(pkgs1, path), 0nat, 0int,
{
    assert(pkgs2[perm[p]] == pkgs1[p]);
    if !path.contains(pkgs1[p].ref_.id@) {
        lemma_unvisited_push(pkgs1, path, pkgs1[p].ref_.id@);
        lemma_children_reordered(pkgs1, pkgs2, perm, p);
        let inner = match branch {
            Some(last) => ancestors.push(last),
            None => ancestors,
        };
        lemma_children_text_reordered(
            pkgs1,
            pkgs2,
            perm,
            p,
            ordered_children(pkgs1, p, false),
            0,
            inner,
            path.push(pkgs1[p].ref_.id@),
        );
    }
}

/// Children render the same in the reordered packages.
proof fn lemma_children_text_reordered(
    pkgs1: Seq<LockedPackage>,
    pkgs2: Seq<LockedPackage>,
    perm: Seq<int>,
    parent: int,
    cs: Seq<ChildView>,
    i: int,
    ancestors: Seq<bool>,
    path: Seq<Seq<char>>,
)
    requires
        ids_distinct(pkgs1),
        reordered(pkgs1, pkgs2, perm),
        0 <= parent < pkgs1.len(),
        forall|k: int| 0 <= k < cs.len() ==> child_in_range(pkgs1, parent, #[trigger] cs[k]),
    ensures
        children_text(
            pkgs2,
            false,
            perm[parent],
            cs.map_values(|c: ChildView| moved_child(perm, c)),
            i,
            ancestors,
            path,
        ) == children_text(pkgs1, false, parent, cs, i, ancestors, path),
    decreases unvisited(pkgs1, path), 1nat, cs.len() - i,
{
    let ms = cs.map_values(|c: ChildView| moved_child(perm, c));
    assert(pkgs2[perm[parent]] == pkgs1[parent]);
    if 0 <= i < cs.len() {
        assert(child_in_range(pkgs1, parent, cs[i]));
        match cs[i] {
            ChildView::Resolved(j) => {
                lemma_node_text_reordered(pkgs1, pkgs2, perm, j, Some(i + 1 == cs.len()), ancestors, path);
            },
            ChildView::Missing(d) => {},
        }
        lemma_children_text_reordered(pkgs1, pkgs2, perm, parent, cs, i + 1, ancestors, path);
    }
}

/// Trees render the same in the reordered packages.
proof fn lemma_forest_text_reordered(pkgs1: Seq<LockedPackage>, pkgs2: Seq<LockedPackage>, perm: Seq<int>, roots: Seq<int>)
    requires
        ids_distinct(pkgs1),
        reordered(pkgs1, pkgs2, perm),
        forall|k: int| 0 <= k < roots.len() ==> 0 <= #[trigger] roots[k] < pkgs1.len(),
    ensures
        forest_text(pkgs2, false, roots.map_values(|r: int| perm[r])) == forest_text(pkgs1, false, roots),
    decreases roots.len(),
{
    let mr = roots.map_values(|r: int| perm[r]);
    if roots.len() == 1 {
        lemma_node_text_reordered(pkgs1, pkgs2, perm, roots[0], None, Seq::empty(), Seq::empty());
    } else if roots.len() > 1 {
        let d = roots.drop_last();
        assert(mr.drop_last() =~= d.map_values(|r: int| perm[r]));
        lemma_forest_text_reordered(pkgs1, pkgs2, perm, d);
        lemma_node_text_reordered(pkgs1, pkgs2, perm, roots.last(), None, Seq::empty(), Seq::empty());
    }
}

/// `non_transitive` holds, in increasing order, exactly the packages below `n` that are not
/// transitive.
proof fn lemma_non_transitive_members(pkgs: Seq<LockedPackage>, n: int)
    ensures
        forall|x: int| non_transitive(pkgs, n).contains(x) <==> (0 <= x < n && !pkgs[x].transitive),
        forall|a: int, b: int|
            0 <= a < b < non_transitive(pkgs, n).len() ==> #[trigger] non_transitive(pkgs, n)[a]
                < #[trigger] non_transitive(pkgs, n)[b],
    decreases n,
{
    lemma_non_transitive_in_range(pkgs, n);
    if n > 0 {
        lemma_non_transitive_members(pkgs, n - 1);
        lemma_non_transitive_in_range(pkgs, n - 1);
        let prev = non_transitive(pkgs, n - 1);
        let cur = non_transitive(pkgs, n);
        assert forall|x: int| cur.contains(x) <==> (0 <= x < n && !pkgs[x].transitive) by {
            if cur.contains(x) {
                let k = choose|k: int| 0 <= k < cur.len() && cur[k] == x;
                if k < prev.len() {
                    assert(prev[k] == x);
                    assert(prev.contains(x));
                }
            }
            if 0 <= x < n && !pkgs[x].transitive {
                if x < n - 1 {
                    assert(prev.contains(x));
                    let k = choose|k: int| 0 <= k < prev.len() && prev[k] == x;
                    assert(cur[k] == x);
                } else {
                    assert(cur[prev.len() as int] == x);
                }
            }
        }
        assert forall|a: int, b: int| 0 <= a < b < cur.len() implies #[trigger] cur[a] < #[trigger] cur[b] by {
            assert(cur[a] == prev[a]);
            if b < prev.len() {
                assert(cur[b] == prev[b]);
            } else {
                assert(cur[b] == n - 1);
            }
        }
    }
}

/// The root candidates, exactly: the non-transitive packages, or all of them when every
/// package is transitive; none occurs twice.
proof fn lemma_root_candidates(pkgs: Seq<LockedPackage>)
    ensures
        forall|x: int| root_candidates(pkgs).contains(x) <==> (0 <= x < pkgs.len() && (!pkgs[x].transitive
            || forall|k: int| 0 <= k < pkgs.len() ==> (#[trigger] pkgs[k]).transitive)),
        forall|a: int, b: int|
            0 <= a < b < root_candidates(pkgs).len() ==> #[trigger] root_candidates(pkgs)[a]
                != #[trigger] root_candidates(pkgs)[b],
{
    let nt = non_transitive(pkgs, pkgs.len() as int);
    lemma_non_transitive_members(pkgs, pkgs.len() as int);
    let c = root_candidates(pkgs);
    if nt.len() == 0 {
        assert forall|k: int| 0 <= k < pkgs.len() implies (#[trigger] pkgs[k]).transitive by {
            if !pkgs[k].transitive {
                assert(nt.contains(k));
            }
        }
        assert forall|x: int| c.contains(x) <==> 0 <= x < pkgs.len() by {
            if 0 <= x < pkgs.len() {
                assert(c[x] == x);
            }
        }
    } else {
        assert(nt.contains(nt[0]));
        assert(!pkgs[nt[0]].transitive);
    }
}

/// The indices of a lockfile whose ids are distinct are each the one listed last with its id.
proof fn lemma_distinct_listed_last(pkgs: Seq<LockedPackage>, i: int)
    requires
        ids_distinct(pkgs),
        0 <= i < pkgs.len(),
    ensures
        listed_last(pkgs, i),
{
    assert forall|k: int| i < k < pkgs.len() implies pkgs[k].ref_.id@ != pkgs[i].ref_.id@ by {
        assert(pkgs[i].ref_.id@ != pkgs[k].ref_.id@);
    }
    lemma_lookup_is(pkgs, pkgs[i].ref_.id@, i);
}

/// Packages without repeats, in reference order, of a lockfile with distinct ids come in
/// strictly ascending reference order.
proof fn lemma_strictly_ascending(pkgs: Seq<LockedPackage>, o: Seq<int>)
    requires
        ids_distinct(pkgs),
        forall|k: int| 0 <= k < o.len() ==> 0 <= #[trigger] o[k] < pkgs.len(),
        forall|a: int, b: int| 0 <= a < b < o.len() ==> #[trigger] o[a] != #[trigger] o[b],
        forall|a: int, b: int|
            0 <= a < b < o.len() ==> !key_lt(ref_key(pkgs[#[trigger] o[b]].ref_), ref_key(pkgs[#[trigger] o[a]].ref_)),
    ensures
        all_listed_last(pkgs, o),
        ascending_refs(pkgs, o),
{
    assert forall|k: int| 0 <= k < o.len() implies 0 <= #[trigger] o[k] < pkgs.len() && listed_last(pkgs, o[k]) by {
        lemma_distinct_listed_last(pkgs, o[k]);
    }
    assert forall|a: int, b: int| 0 <= a < b < o.len() implies key_lt(
        ref_key(pkgs[#[trigger] o[a]].ref_),
        ref_key(pkgs[#[trigger] o[b]].ref_),
    ) by {
        lemma_key_lt_strict_total(ref_key(pkgs[o[a]].ref_), ref_key(pkgs[o[b]].ref_), ref_key(pkgs[o[b]].ref_));
        if ref_key(pkgs[o[a]].ref_) == ref_key(pkgs[o[b]].ref_) {
            lemma_distinct_listed_last(pkgs, o[a]);
            lemma_distinct_listed_last(pkgs, o[b]);
            lemma_listed_last_keys(pkgs, o[a], o[b]);
        }
    }
}

/// Ordering packages without repeats by reference repeats none of them.
proof fn lemma_ordered_by_ref_distinct(pkgs: Seq<LockedPackage>, items: Seq<int>)
    requires
        forall|a: int, b: int| 0 <= a < b < items.len() ==> #[trigger] items[a] != #[trigger] items[b],
    ensures
        forall|a: int, b: int|
            0 <= a < b < ordered_by_ref(pkgs, items).len() ==> #[trigger] ordered_by_ref(pkgs, items)[a]
                != #[trigger] ordered_by_ref(pkgs, items)[b],
        ordered_by_ref(pkgs, items).len() == items.len(),
{
    let keys = items.map_values(|i: int| ref_key(pkgs[i].ref_));
    let order = stable_order(keys, items.len());
    lemma_stable_order_len(keys, items.len());
    lemma_stable_order_by_sorts(keys, items.len(), false);
    let o = ordered_by_ref(pkgs, items);
    assert forall|a: int, b: int| 0 <= a < b < o.len() implies #[trigger] o[a] != #[trigger] o[b] by {
        assert(o[a] == items[order[a]] && o[b] == items[order[b]]);
        assert(order[a] != order[b]);
        if order[a] < order[b] {
            assert(items[order[a]] != items[order[b]]);
        } else {
            assert(items[order[b]] != items[order[a]]);
        }
    }
}

/// A lockfile whose packages have distinct ids renders the same tree whatever order it lists
/// its packages in.
pub proof fn law_render_ignores_package_order(pkgs1: Seq<LockedPackage>, pkgs2: Seq<LockedPackage>, perm: Seq<int>)
    requires
        ids_distinct(pkgs1),
        reordered(pkgs1, pkgs2, perm),
    ensures
        graph_roots(pkgs2) == graph_roots(pkgs1).map_values(|r: int| perm[r]),
        forest_text(pkgs2, false, graph_roots(pkgs2)) == forest_text(pkgs1, false, graph_roots(pkgs1)),
{
    assert(ids_distinct(pkgs2)) by {
        assert forall|a: int, b: int| 0 <= a < b < pkgs2.len() implies #[trigger] pkgs2[a].ref_.id@
            != #[trigger] pkgs2[b].ref_.id@ by {
            lemma_reordered_covers(pkgs1, pkgs2, perm, a);
            lemma_reordered_covers(pkgs1, pkgs2, perm, b);
            let ma = choose|m: int| 0 <= m < pkgs1.len() && perm[m] == a;
            let mb = choose|m: int| 0 <= m < pkgs1.len() && perm[m] == b;
            assert(pkgs2[perm[ma]] == pkgs1[ma]);
            assert(pkgs2[perm[mb]] == pkgs1[mb]);
            if ma < mb {
                assert(pkgs1[ma].ref_.id@ != pkgs1[mb].ref_.id@);
            } else {
                assert(pkgs1[mb].ref_.id@ != pkgs1[ma].ref_.id@);
            }
        }
    }
    let c1 = root_candidates(pkgs1);
    let c2 = root_candidates(pkgs2);
    lemma_root_candidates(pkgs1);
    lemma_root_candidates(pkgs2);
    let o1 = graph_roots(pkgs1);
    let o2 = graph_roots(pkgs2);
    lemma_ordered_by_ref(pkgs1, c1);
    lemma_ordered_by_ref(pkgs2, c2);
    lemma_ordered_by_ref_distinct(pkgs1, c1);
    lemma_ordered_by_ref_distinct(pkgs2, c2);
    law_graph_roots(pkgs1);
    law_graph_roots(pkgs2);
    let m = o1.map_values(|r: int| perm[r]);
    // every package is transitive in one lockfile exactly when it is in the other
    let all1 = forall|k: int| 0 <= k < pkgs1.len() ==> (#[trigger] pkgs1[k]).transitive;
    let all2 = forall|k: int| 0 <= k < pkgs2.len() ==> (#[trigger] pkgs2[k]).transitive;
    assert(all1 == all2) by {
        if all1 {
            assert forall|k: int| 0 <= k < pkgs2.len() implies (#[trigger] pkgs2[k]).transitive by {
                lemma_reordered_covers(pkgs1, pkgs2, perm, k);
                let j = choose|j: int| 0 <= j < pkgs1.len() && perm[j] == k;
                assert(pkgs2[perm[j]] == pkgs1[j]);
            }
        }
        if all2 {
            assert forall|k: int| 0 <= k < pkgs1.len() implies (#[trigger] pkgs1[k]).transitive by {
                assert(pkgs2[perm[k]] == pkgs1[k]);
            }
        }
    }
    assert forall|x: int| m.contains(x) <==> o2.contains(x) by {
        if m.contains(x) {
            let a = choose|a: int| 0 <= a < m.len() && m[a] == x;
            assert(o1.contains(o1[a]));
            assert(c1.contains(o1[a]));
            assert(pkgs2[perm[o1[a]]] == pkgs1[o1[a]]);
            assert(c2.contains(x));
        }
        if o2.contains(x) {
            assert(c2.contains(x));
            lemma_reordered_covers(pkgs1, pkgs2, perm, x);
            let j = choose|j: int| 0 <= j < pkgs1.len() && perm[j] == x;
            assert(pkgs2[perm[j]] == pkgs1[j]);
            assert(c1.contains(j));
            assert(o1.contains(j));
            let a = choose|a: int| 0 <= a < o1.len() && o1[a] == j;
            assert(m[a] == x);
        }
    }
    assert forall|k: int| 0 <= k < m.len() implies 0 <= #[trigger] m[k] < pkgs2.len() by {
        assert(0 <= o1[k] < pkgs1.len());
    }
    assert forall|a: int, b: int| 0 <= a < b < m.len() implies #[trigger] m[a] != #[trigger] m[b] by {
        assert(o1[a] != o1[b]);
        if o1[a] < o1[b] {
            assert(perm[o1[a]] != perm[o1[b]]);
        } else {
            assert(perm[o1[b]] != perm[o1[a]]);
        }
    }
    assert forall|a: int, b: int| 0 <= a < b < m.len() implies !key_lt(
        ref_key(pkgs2[#[trigger] m[b]].ref_),
        ref_key(pkgs2[#[trigger] m[a]].ref_),
    ) by {
        assert(pkgs2[perm[o1[a]]] == pkgs1[o1[a]]);
        assert(pkgs2[perm[o1[b]]] == pkgs1[o1[b]]);
        assert(!key_lt(ref_key(pkgs1[o1[b]].ref_), ref_key(pkgs1[o1[a]].ref_)));
    }
    lemma_strictly_ascending(pkgs2, m);
    lemma_strictly_ascending(pkgs2, o2);
    lemma_ascending_unique(pkgs2, o2, m);
    lemma_forest_text_reordered(pkgs1, pkgs2, perm, o1);
}

/// `fuzzy_matches` holds, in increasing order, exactly the packages below `n` that are
/// listed last with their ids and match the query.
proof fn lemma_fuzzy_members(pkgs: Seq<LockedPackage>, query: Seq<char>, n: int)
    ensures
        forall|x: int| #[trigger] fuzzy_matches(pkgs, query, n).contains(x) <==> (0 <= x < n && listed_last(pkgs, x)
            && has_segment(lowercase(pkgs[x].ref_.id@), lowercase(query))),
        forall|a: int, b: int|
            0 <= a < b < fuzzy_matches(pkgs, query, n).len() ==> #[trigger] fuzzy_matches(pkgs, query, n)[a]
                < #[trigger] fuzzy_matches(pkgs, query, n)[b],
    decreases n,
{
    if n > 0 {
        lemma_fuzzy_members(pkgs, query, n - 1);
        let prev = fuzzy_matches(pkgs, query, n - 1);
        let cur = fuzzy_matches(pkgs, query, n);
        assert forall|x: int| cur.contains(x) <==> (0 <= x < n && listed_last(pkgs, x) && has_segment(
            lowercase(pkgs[x].ref_.id@),
            lowercase(query),
        )) by {
            if cur.contains(x) {
                let k = choose|k: int| 0 <= k < cur.len() && cur[k] == x;
                if k < prev.len() {
                    assert(prev[k] == x);
                    assert(prev.contains(x));
                } else {
                    assert(listed_last(pkgs, n - 1) && has_segment(lowercase(pkgs[n - 1].ref_.id@), lowercase(query)));
                    assert(cur[k] == n - 1);
                }
            }
            if 0 <= x < n && listed_last(pkgs, x) && has_segment(lowercase(pkgs[x].ref_.id@), lowercase(query)) {
                if x < n - 1 {
                    assert(prev.contains(x));
                    let k = choose|k: int| 0 <= k < prev.len() && prev[k] == x;
                    assert(cur[k] == x);
                } else {
                    assert(cur[prev.len() as int] == x);
                }
            }
        }
        assert forall|a: int, b: int| 0 <= a < b < cur.len() implies #[trigger] cur[a] < #[trigger] cur[b] by {
            assert(a < prev.len());
            assert(cur[a] == prev[a]);
            assert(prev.contains(prev[a]));
            assert(prev[a] < n - 1);
            if b < prev.len() {
                assert(cur[b] == prev[b]);
                assert(prev[a] < prev[b]);
            } else {
                assert(cur.len() == prev.len() + 1);
                assert(cur[b] == n - 1);
            }
        }
    }
}

/// A sequence without repeats has as many elements as its set.
proof fn lemma_distinct_len(s: Seq<int>)
    requires
        forall|a: int, b: int| 0 <= a < b < s.len() ==> #[trigger] s[a] < #[trigger] s[b],
    ensures
        s.to_set().len() == s.len(),
        s.to_set().finite(),
{
    assert(s.no_duplicates()) by {
        assert forall|i: int, j: int| 0 <= i < s.len() && 0 <= j < s.len() && i != j implies s[i] != s[j] by {
            if i < j {
                assert(s[i] < s[j]);
            } else {
                assert(s[j] < s[i]);
            }
        }
    }
    s.unique_seq_to_set();
    vstd::seq_lib::seq_to_set_is_finite(s);
}

/// A query selects the moved package in the reordered packages, and fails the same way.
proof fn lemma_outcome_reordered(pkgs1: Seq<LockedPackage>, pkgs2: Seq<LockedPackage>, perm: Seq<int>, query: Seq<char>)
    requires
        ids_distinct(pkgs1),
        ids_distinct(pkgs2),
        reordered(pkgs1, pkgs2, perm),
    ensures
        target_outcome(pkgs2, query) == match target_outcome(pkgs1, query) {
            TargetOutcome::Found(i) => TargetOutcome::Found(perm[i]),
            other => other,
        },
        target_outcome(pkgs1, query) matches TargetOutcome::Found(i) ==> 0 <= i < pkgs1.len(),
{
    lemma_lookup_reordered(pkgs1, pkgs2, perm, query);
    lemma_lookup(pkgs1, query);
    if lookup(pkgs1, query) is None {
        let n = pkgs1.len() as int;
        let f1 = fuzzy_matches(pkgs1, query, n);
        let f2 = fuzzy_matches(pkgs2, query, n);
        lemma_fuzzy_members(pkgs1, query, n);
        lemma_fuzzy_members(pkgs2, query, n);
        lemma_fuzzy_matches_in_range(pkgs1, query, n);
        // membership corresponds through `perm`
        assert forall|x: int| 0 <= x < n implies (f1.contains(x) <==> f2.contains(perm[x])) by {
            assert(pkgs2[perm[x]] == pkgs1[x]);
            lemma_distinct_listed_last(pkgs1, x);
            lemma_distinct_listed_last(pkgs2, perm[x]);
        }
        let f = |x: int| perm[x];
        assert(f1.to_set().map(f) =~= f2.to_set()) by {
            assert forall|y: int| f1.to_set().map(f).contains(y) implies f2.to_set().contains(y) by {
                let x = choose|x: int| f1.to_set().contains(x) && f(x) == y;
                assert(f1.contains(x));
                let k = choose|k: int| 0 <= k < f1.len() && f1[k] == x;
                assert(0 <= f1[k] < n);
                assert(f2.contains(y));
            }
            assert forall|y: int| f2.to_set().contains(y) implies f1.to_set().map(f).contains(y) by {
                assert(f2.contains(y));
                lemma_fuzzy_matches_in_range(pkgs2, query, n);
                let k = choose|k: int| 0 <= k < f2.len() && f2[k] == y;
                lemma_reordered_covers(pkgs1, pkgs2, perm, y);
                let x = choose|x: int| 0 <= x < pkgs1.len() && perm[x] == y;
                assert(f1.contains(x));
                assert(f1.to_set().contains(x));
                assert(f(x) == y);
            }
        }
        assert(vstd::relations::injective_on(f, f1.to_set())) by {
            assert forall|a: int, b: int| f1.to_set().contains(a) && f1.to_set().contains(b) && #[trigger] f(a)
                == #[trigger] f(b) implies a == b by {
                assert(f1.contains(a) && f1.contains(b));
                let ka = choose|k: int| 0 <= k < f1.len() && f1[k] == a;
                let kb = choose|k: int| 0 <= k < f1.len() && f1[k] == b;
                assert(0 <= f1[ka] < n && 0 <= f1[kb] < n);
                if a < b {
                    assert(perm[a] != perm[b]);
                } else if b < a {
                    assert(perm[b] != perm[a]);
                }
            }
        }
        lemma_distinct_len(f1);
        lemma_distinct_len(f2);
        vstd::set_lib::lemma_map_size(f1.to_set(), f2.to_set(), f);
        if f1.len() == 1 {
            assert(f1.contains(f1[0]));
            assert(0 <= f1[0] < n);
            assert(f2.contains(perm[f1[0]]));
            let k = choose|k: int| 0 <= k < f2.len() && f2[k] == perm[f1[0]];
        }
    }
}

/// Targets select the moved packages in the reordered packages, and the first that selects
/// none is the same.
proof fn lemma_selected_reordered(pkgs1: Seq<LockedPackage>, pkgs2: Seq<LockedPackage>, perm: Seq<int>, targets: Seq<Seq<char>>)
    requires
        ids_distinct(pkgs1),
        ids_distinct(pkgs2),
        reordered(pkgs1, pkgs2, perm),
    ensures
        first_unresolved(pkgs2, targets) == first_unresolved(pkgs1, targets),
        first_unresolved(pkgs1, targets) is None ==> selected(pkgs2, targets) == selected(pkgs1, targets).map_values(
            |i: int| perm[i],
        ),
    decreases targets.len(),
{
    if targets.len() > 0 {
        lemma_selected_reordered(pkgs1, pkgs2, perm, targets.drop_last());
        lemma_outcome_reordered(pkgs1, pkgs2, perm, targets.last());
        if first_unresolved(pkgs1, targets) is None {
            let s1 = selected(pkgs1, targets);
            let s2 = selected(pkgs2, targets);
            assert forall|k: int| 0 <= k < targets.len() implies #[trigger] s2[k] == perm[s1[k]] by {
                lemma_outcome_reordered(pkgs1, pkgs2, perm, targets[k]);
                if k < targets.len() - 1 {
                    assert(s1[k] == selected(pkgs1, targets.drop_last())[k]);
                    assert(s2[k] == selected(pkgs2, targets.drop_last())[k]);
                }
            }
            assert(s2 =~= s1.map_values(|i: int| perm[i]));
        }
    }
}

/// With distinct ids, the packages that targets select render the same whatever order the
/// lockfile lists its packages in, and a target that selects none fails the same way.
pub proof fn law_targeted_render_ignores_package_order(
    pkgs1: Seq<LockedPackage>,
    pkgs2: Seq<LockedPackage>,
    perm: Seq<int>,
    targets: Seq<Seq<char>>,
)
    requires
        ids_distinct(pkgs1),
        reordered(pkgs1, pkgs2, perm),
    ensures
        first_unresolved(pkgs2, targets) == first_unresolved(pkgs1, targets),
        forall|k: int|
            0 <= k < targets.len() && !(target_outcome(pkgs1, targets[k]) is Found) ==> target_outcome(
                pkgs2,
                #[trigger] targets[k],
            ) == target_outcome(pkgs1, targets[k]),
        first_unresolved(pkgs1, targets) is None ==> forest_text(
            pkgs2,
            false,
            dedup_refs(pkgs2, ordered_by_ref(pkgs2, selected(pkgs2, targets))),
        ) == forest_text(pkgs1, false, dedup_refs(pkgs1, ordered_by_ref(pkgs1, selected(pkgs1, targets)))),
{
    law_render_ignores_package_order(pkgs1, pkgs2, perm);
    assert(ids_distinct(pkgs2)) by {
        assert forall|a: int, b: int| 0 <= a < b < pkgs2.len() implies #[trigger] pkgs2[a].ref_.id@
            != #[trigger] pkgs2[b].ref_.id@ by {
            lemma_reordered_covers(pkgs1, pkgs2, perm, a);
            lemma_reordered_covers(pkgs1, pkgs2, perm, b);
            let ma = choose|m: int| 0 <= m < pkgs1.len() && perm[m] == a;
            let mb = choose|m: int| 0 <= m < pkgs1.len() && perm[m] == b;
            assert(pkgs2[perm[ma]] == pkgs1[ma]);
            assert(pkgs2[perm[mb]] == pkgs1[mb]);
            if ma < mb {
                assert(pkgs1[ma].ref_.id@ != pkgs1[mb].ref_.id@);
            } else {
                assert(pkgs1[mb].ref_.id@ != pkgs1[ma].ref_.id@);
            }
        }
    }
    lemma_selected_reordered(pkgs1, pkgs2, perm, targets);
    assert forall|k: int| 0 <= k < targets.len() && !(target_outcome(pkgs1, targets[k]) is Found) implies target_outcome(
        pkgs2,
        #[trigger] targets[k],
    ) == target_outcome(pkgs1, targets[k]) by {
        lemma_outcome_reordered(pkgs1, pkgs2, perm, targets[k]);
    }
    if first_unresolved(pkgs1, targets) is None {
        let s1 = selected(pkgs1, targets);
        let s2 = selected(pkgs2, targets);
        lemma_selected_listed_last(pkgs1, targets);
        lemma_selected_listed_last(pkgs2, targets);
        let o1 = ordered_by_ref(pkgs1, s1);
        let o2 = ordered_by_ref(pkgs2, s2);
        lemma_ordered_by_ref(pkgs1, s1);
        lemma_ordered_by_ref(pkgs2, s2);
        assert forall|k: int| 0 <= k < o1.len() implies 0 <= #[trigger] o1[k] < pkgs1.len() && listed_last(pkgs1, o1[k]) by {
            assert(o1.contains(o1[k]));
            assert(s1.contains(o1[k]));
            let q = choose|q: int| 0 <= q < s1.len() && s1[q] == o1[k];
            assert(0 <= s1[q] < pkgs1.len() && listed_last(pkgs1, s1[q]));
        }
        assert forall|k: int| 0 <= k < o2.len() implies 0 <= #[trigger] o2[k] < pkgs2.len() && listed_last(pkgs2, o2[k]) by {
            assert(o2.contains(o2[k]));
            assert(s2.contains(o2[k]));
            let q = choose|q: int| 0 <= q < s2.len() && s2[q] == o2[k];
            assert(0 <= s2[q] < pkgs2.len() && listed_last(pkgs2, s2[q]));
        }
        lemma_dedup_sorted(pkgs1, o1);
        lemma_dedup_sorted(pkgs2, o2);
        let d1 = dedup_refs(pkgs1, o1);
        let d2 = dedup_refs(pkgs2, o2);
        let m = d1.map_values(|r: int| perm[r]);
        assert forall|k: int| 0 <= k < m.len() implies 0 <= #[trigger] m[k] < pkgs2.len() && listed_last(pkgs2, m[k]) by {
            assert(0 <= d1[k] < pkgs1.len());
            lemma_distinct_listed_last(pkgs2, m[k]);
        }
        assert forall|a: int, b: int| 0 <= a < b < m.len() implies key_lt(
            ref_key(pkgs2[#[trigger] m[a]].ref_),
            ref_key(pkgs2[#[trigger] m[b]].ref_),
        ) by {
            assert(0 <= d1[a] < pkgs1.len() && 0 <= d1[b] < pkgs1.len());
            assert(pkgs2[perm[d1[a]]] == pkgs1[d1[a]]);
            assert(pkgs2[perm[d1[b]]] == pkgs1[d1[b]]);
            assert(key_lt(ref_key(pkgs1[d1[a]].ref_), ref_key(pkgs1[d1[b]].ref_)));
        }
        assert forall|x: int| m.contains(x) <==> d2.contains(x) by {
            if m.contains(x) {
                let a = choose|a: int| 0 <= a < m.len() && m[a] == x;
                assert(d1.contains(d1[a]));
                assert(o1.contains(d1[a]));
                assert(s1.contains(d1[a]));
                let q = choose|q: int| 0 <= q < s1.len() && s1[q] == d1[a];
                assert(s2[q] == x);
                assert(s2.contains(x));
                assert(o2.contains(x));
            }
            if d2.contains(x) {
                assert(o2.contains(x));
                assert(s2.contains(x));
                let q = choose|q: int| 0 <= q < s2.len() && s2[q] == x;
                assert(s2[q] == perm[s1[q]]);
                assert(s1.contains(s1[q]));
                assert(o1.contains(s1[q]));
                assert(d1.contains(s1[q]));
                let a = choose|a: int| 0 <= a < d1.len() && d1[a] == s1[q];
                assert(m[a] == x);
            }
        }
        lemma_ascending_unique(pkgs2, d2, m);
        assert forall|k: int| 0 <= k < d1.len() implies 0 <= #[trigger] d1[k] < pkgs1.len() by {}
        lemma_forest_text_reordered(pkgs1, pkgs2, perm, d1);
    }
}

/// The number of lines ended in `s`: its newline characters.
pub open spec fn line_count(s: Seq<char>) -> nat
    decreases s.len(),
{
    if s.len() == 0 {
        0
    } else {
        line_count(s.drop_last()) + if s.last() == '\n' {
            1nat
        } else {
            0nat
        }
    }
}

/// Lines add up over concatenated text.
proof fn lemma_line_count_add(a: Seq<char>, b: Seq<char>)
    ensures
        line_count(a + b) == line_count(a) + line_count(b),
    decreases b.len(),
{
    if b.len() == 0 {
        assert(a + b =~= a);
    } else {
        lemma_line_count_add(a, b.drop_last());
        assert((a + b).drop_last() =~= a + b.drop_last());
        assert((a + b).last() == b.last());
    }
}

/// Text that ends with a newline has at least one line.
proof fn lemma_line_count_ends_in_newline(a: Seq<char>, b: Seq<char>)
    ensures
        line_count(a + b + seq!['\n']) >= 1,
{
    let s = a + b + seq!['\n'];
    assert(s.last() == '\n');
}

/// Every package's rendering starts with a line of its own.
proof fn lemma_node_text_has_line(
    pkgs: Seq<LockedPackage>,
    reverse: bool,
    p: int,
    branch: Option<bool>,
    ancestors: Seq<bool>,
    path: Seq<Seq<char>>,
)
    ensures
        line_count(node_text(pkgs, reverse, p, branch, ancestors, path)) >= 1,
{
    let line = prefix_text(ancestors, branch) + pkgs[p].ref_.spec_text() + seq!['\n'];
    lemma_line_count_ends_in_newline(prefix_text(ancestors, branch), pkgs[p].ref_.spec_text());
    if 0 <= p < pkgs.len() && !path.contains(pkgs[p].ref_.id@) {
        let inner = match branch {
            Some(last) => ancestors.push(last),
            None => ancestors,
        };
        lemma_line_count_add(
            line,
            children_text(pkgs, reverse, p, ordered_children(pkgs, p, reverse), 0, inner, path.push(pkgs[p].ref_.id@)),
        );
    }
}

/// The children `cs[i..]` take at least a line each.
proof fn lemma_children_text_lines(
    pkgs: Seq<LockedPackage>,
    reverse: bool,
    parent: int,
    cs: Seq<ChildView>,
    i: int,
    ancestors: Seq<bool>,
    path: Seq<Seq<char>>,
)
    requires
        0 <= i <= cs.len(),
    ensures
        line_count(children_text(pkgs, reverse, parent, cs, i, ancestors, path)) >= cs.len() - i,
    decreases cs.len() - i,
{
    if i < cs.len() {
        let last = i + 1 == cs.len();
        let t = match cs[i] {
            ChildView::Resolved(j) => node_text(pkgs, reverse, j, Some(last), ancestors, path),
            ChildView::Missing(d) => missing_line(ancestors, last, pkgs[parent].deps@[d]),
        };
        match cs[i] {
            ChildView::Resolved(j) => {
                lemma_node_text_has_line(pkgs, reverse, j, Some(last), ancestors, path);
            },
            ChildView::Missing(d) => {
                let dep = pkgs[parent].deps@[d];
                let body = prefix_text(ancestors, Some(last)) + dep.id@ + seq![' '] + dep.version_req@ + seq![
                    ' ', '(', 'm', 'i', 's', 's', 'i', 'n', 'g', ')'];
                assert(t =~= body + Seq::<char>::empty() + seq!['\n']);
                lemma_line_count_ends_in_newline(body, Seq::empty());
            },
        }
        lemma_children_text_lines(pkgs, reverse, parent, cs, i + 1, ancestors, path);
        lemma_line_count_add(t, children_text(pkgs, reverse, parent, cs, i + 1, ancestors, path));
    }
}

/// A package whose id is not yet on the path from the root is drawn with all its children
/// below it, whether it is the last of its siblings or not: its rendering has a line of its
/// own and at least one more per child. Its children are one per dependency (forward).
pub proof fn law_children_are_drawn(
    pkgs: Seq<LockedPackage>,
    reverse: bool,
    p: int,
    branch: Option<bool>,
    ancestors: Seq<bool>,
    path: Seq<Seq<char>>,
)
    requires
        0 <= p < pkgs.len(),
        !path.contains(pkgs[p].ref_.id@),
    ensures
        line_count(node_text(pkgs, reverse, p, branch, ancestors, path)) >= 1 + ordered_children(pkgs, p, reverse).len(),
        ordered_children(pkgs, p, false).len() == pkgs[p].deps@.len(),
{
    let line = prefix_text(ancestors, branch) + pkgs[p].ref_.spec_text() + seq!['\n'];
    let inner = match branch {
        Some(last) => ancestors.push(last),
        None => ancestors,
    };
    let cs = ordered_children(pkgs, p, reverse);
    let rest = children_text(pkgs, reverse, p, cs, 0, inner, path.push(pkgs[p].ref_.id@));
    assert(node_text(pkgs, reverse, p, branch, ancestors, path) == line + rest);
    lemma_line_count_ends_in_newline(prefix_text(ancestors, branch), pkgs[p].ref_.spec_text());
    lemma_children_text_lines(pkgs, reverse, p, cs, 0, inner, path.push(pkgs[p].ref_.id@));
    lemma_line_count_add(line, rest);
    let u = unordered_children(pkgs, p, false);
    lemma_stable_order_len(u.map_values(|c: ChildView| text_key(child_text(pkgs, p, c))), u.len());
}

} // verus!
