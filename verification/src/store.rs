use vstd::prelude::*;
use crate::package::{PackageRef, Version};
use crate::text::{
    chars_equal, chars_to_string, decimal, lemma_decimal, lemma_split_after, lemma_split_at_last, lowercase,
    path_push, push_path, str_chars, sub_chars, to_lowercase, views,
};
use crate::profile::{components, path_components};

verus! {

/// The directory in which downloaded packages are kept, one directory per package version.
pub struct PackageStore {
    root: String,
}

/// The first (at most) two characters of `id`, lowercased: the directory that groups packages
/// in the store.
pub open spec fn store_prefix(id: Seq<char>) -> Seq<char> {
    lowercase(id.take(if id.len() < 2 { id.len() as int } else { 2 }))
}

impl PackageStore {
    /// The store's root directory.
    pub closed spec fn spec_root(&self) -> Seq<char> {
        self.root@
    }

    pub fn new(root: String) -> (r: PackageStore)
        ensures
            r.spec_root() == root@,
    {
        PackageStore { root }
    }

    /// The root directory of the store.
    pub fn root(&self) -> (r: &String)
        ensures
            r@ == self.spec_root(),
    {
        &self.root
    }

    /// Where the store keeps `package`: `<root>/<prefix>/<id>/<version>`, with the prefix as in
    /// `store_prefix`.
    pub open spec fn spec_path_of(&self, package: PackageRef) -> Seq<char> {
        path_push(
            path_push(path_push(self.spec_root(), store_prefix(package.id@)), package.id@),
            package.version.spec_text(),
        )
    }

    /// The directory in which the store keeps `package`.
    pub fn path_of(&self, package: &PackageRef) -> (r: String)
        ensures
            r@ == self.spec_path_of(*package),
    {
        let id = str_chars(package.id.as_str());
        let n = if id.len() < 2 { id.len() } else { 2 };
        let head = sub_chars(&id, 0, n);
        let head_string = chars_to_string(&head);
        let prefix = str_chars(to_lowercase(head_string.as_str()).as_str());
        let mut path = str_chars(self.root.as_str());
        push_path(&mut path, &prefix);
        push_path(&mut path, &id);
        let mut version: Vec<char> = Vec::new();
        package.version.push_text(&mut version);
        assert(version@ =~= package.version.spec_text());
        push_path(&mut path, &version);
        assert(id@.subrange(0, n as int) =~= id@.take(n as int));
        chars_to_string(&path)
    }
}


/// A package directory found in the store, with the hard-link count of each file in it
/// (`None` where the file's metadata could not be read).
pub struct StoreEntry {
    pub path: String,
    pub file_links: Vec<Option<u64>>,
}

/// Whether a package directory is used by no profile: every file in it could be inspected and
/// has no other hard link.
pub open spec fn spec_is_unused(file_links: Seq<Option<u64>>) -> bool {
    forall|i: int| 0 <= i < file_links.len() ==> (#[trigger] file_links[i] matches Some(n) && n <= 1)
}

/// The entries among `entries` that are unused, in order.
pub open spec fn unused_paths(entries: Seq<StoreEntry>) -> Seq<Seq<char>>
    decreases entries.len(),
{
    if entries.len() == 0 {
        Seq::empty()
    } else {
        unused_paths(entries.drop_last()) + if spec_is_unused(entries.last().file_links@) {
            seq![entries.last().path@]
        } else {
            Seq::empty()
        }
    }
}

/// What happened when an emptied parent directory was to be removed.
#[derive(PartialEq, Eq, Structural, Clone, Copy, Debug)]
pub enum RemoveDirOutcome {
    Removed,
    NotEmpty,
    NotFound,
    PermissionDenied,
    OtherError,
}

/// What to do next while removing the empty parents of a removed package directory.
#[derive(PartialEq, Eq, Structural, Clone, Copy, Debug)]
pub enum ParentStep {
    /// Go on with the next parent.
    Continue,
    /// Stop: the parent is still in use or already gone.
    Stop,
    /// Stop and warn that a parent could not be removed for lack of permission.
    StopWithWarning,
    /// Stop with the error.
    Fail,
}

/// What to do after trying to remove an emptied parent directory.
pub fn parent_step(outcome: RemoveDirOutcome) -> (r: ParentStep)
    ensures
        r == match outcome {
            RemoveDirOutcome::Removed => ParentStep::Continue,
            RemoveDirOutcome::NotEmpty | RemoveDirOutcome::NotFound => ParentStep::Stop,
            RemoveDirOutcome::PermissionDenied => ParentStep::StopWithWarning,
            RemoveDirOutcome::OtherError => ParentStep::Fail,
        },
{
    match outcome {
        RemoveDirOutcome::Removed => ParentStep::Continue,
        RemoveDirOutcome::NotEmpty | RemoveDirOutcome::NotFound => ParentStep::Stop,
        RemoveDirOutcome::PermissionDenied => ParentStep::StopWithWarning,
        RemoveDirOutcome::OtherError => ParentStep::Fail,
    }
}

/// Whether `prefix` is a prefix of `s`.
pub open spec fn is_prefix_of<A>(prefix: Seq<A>, s: Seq<A>) -> bool {
    prefix.len() <= s.len() && s.take(prefix.len() as int) == prefix
}

impl PackageStore {
    /// Whether a package directory is unused (see `spec_is_unused`).
    pub fn is_unused(file_links: &Vec<Option<u64>>) -> (r: bool)
        ensures
            r == spec_is_unused(file_links@),
    {
        for i in 0..file_links.len()
            invariant
                forall|k: int| 0 <= k < i ==> (#[trigger] file_links@[k] matches Some(n) && n <= 1),
        {
            match file_links[i] {
                Some(n) => {
                    if n > 1 {
                        return false;
                    }
                },
                None => {
                    return false;
                },
            }
        }
        true
    }

    /// The paths of the package directories among `entries` that no profile uses.
    pub fn unused_entries(entries: &Vec<StoreEntry>) -> (r: Vec<String>)
        ensures
            r@.map_values(|p: String| p@) == unused_paths(entries@),
    {
        let mut r: Vec<String> = Vec::new();
        for i in 0..entries.len()
            invariant
                r@.map_values(|p: String| p@) == unused_paths(entries@.take(i as int)),
        {
            assert(entries@.take(i + 1).drop_last() =~= entries@.take(i as int));
            let ghost prev = r@.map_values(|p: String| p@);
            if PackageStore::is_unused(&entries[i].file_links) {
                r.push(entries[i].path.clone());
                assert(r@.map_values(|p: String| p@) =~= prev.push(entries@[i as int].path@));
            }
            assert(r@.map_values(|p: String| p@) =~= unused_paths(entries@.take(i + 1)));
        }
        assert(entries@.take(entries@.len() as int) =~= entries@);
        r
    }

    /// Whether `path` lies inside the store: the components of the root are the first
    /// components of `path`. The store refuses to remove anything else.
    pub fn holds_path(&self, path: &str) -> (r: bool)
        ensures
            r == is_prefix_of(path_components(self.spec_root()), path_components(path@)),
    {
        let root = str_chars(self.root.as_str());
        let p = str_chars(path);
        let rc = components(&root);
        let pc = components(&p);
        let ghost rv = views(rc@);
        let ghost pv = views(pc@);
        if rc.len() > pc.len() {
            return false;
        }
        for i in 0..rc.len()
            invariant
                rc@.len() <= pc@.len(),
                rv == views(rc@),
                pv == views(pc@),
                rv == path_components(self.spec_root()),
                pv == path_components(path@),
                pv.take(i as int) == rv.take(i as int),
        {
            if !chars_equal(&rc[i], &pc[i]) {
                assert(rv[i as int] == rc@[i as int]@);
                assert(pv[i as int] == pc@[i as int]@);
                assert(pv.take(rc@.len() as int)[i as int] == pv[i as int]);
                assert(pv.take(rc@.len() as int) != rv);
                return false;
            }
            assert(pv.take(i + 1) =~= pv.take(i as int).push(pv[i as int]));
            assert(rv.take(i + 1) =~= rv.take(i as int).push(rv[i as int]));
        }
        assert(rv.take(rc@.len() as int) =~= rv);
        true
    }
}

/// The textual form of a version holds no `/`, starts with a digit, and tells the version.
proof fn lemma_version_text(a: Version, b: Version)
    ensures
        a.spec_text().len() > 0,
        '0' <= a.spec_text()[0] <= '9',
        forall|i: int| 0 <= i < a.spec_text().len() ==> #[trigger] a.spec_text()[i] != '/',
        a.spec_text() == b.spec_text() ==> a == b,
{
    lemma_decimal(a.major as nat, b.major as nat);
    lemma_decimal(a.minor as nat, b.minor as nat);
    lemma_decimal(a.patch as nat, b.patch as nat);
    lemma_decimal(b.major as nat, a.major as nat);
    lemma_decimal(b.minor as nat, a.minor as nat);
    lemma_decimal(b.patch as nat, a.patch as nat);
    let (am, an, ap) = (decimal(a.major as nat), decimal(a.minor as nat), decimal(a.patch as nat));
    let (bm, bn, bp) = (decimal(b.major as nat), decimal(b.minor as nat), decimal(b.patch as nat));
    let t = a.spec_text();
    assert(t == am + seq!['.'] + an + seq!['.'] + ap);
    assert(t[0] == am[0]);
    assert forall|i: int| 0 <= i < t.len() implies #[trigger] t[i] != '/' by {
        let x = am + seq!['.'] + an;
        if i < x.len() {
            if i >= am.len() + 1 {
                assert(t[i] == an[i - am.len() - 1]);
            } else if i < am.len() {
                assert(t[i] == am[i]);
            }
        } else if i > x.len() {
            assert(t[i] == ap[i - x.len() - 1]);
        }
    }
    if t == b.spec_text() {
        assert forall|i: int| 0 <= i < ap.len() implies #[trigger] ap[i] != '.' by {}
        assert forall|i: int| 0 <= i < bp.len() implies #[trigger] bp[i] != '.' by {}
        assert forall|i: int| 0 <= i < an.len() implies #[trigger] an[i] != '.' by {}
        assert forall|i: int| 0 <= i < bn.len() implies #[trigger] bn[i] != '.' by {}
        lemma_split_at_last(am + seq!['.'] + an, ap, bm + seq!['.'] + bn, bp, '.');
        lemma_split_at_last(am, an, bm, bn, '.');
    }
}

/// A directory `x` with `id` and then `text` pushed onto it: some leading part that is empty
/// or ends in `/`, then `id`, `/` and `text`.
proof fn lemma_pushed_twice(x: Seq<char>, id: Seq<char>, text: Seq<char>) -> (lead: Seq<char>)
    requires
        id.len() > 0,
        forall|i: int| 0 <= i < id.len() ==> #[trigger] id[i] != '/',
        text.len() > 0,
        text[0] != '/',
    ensures
        lead.len() == 0 || lead.last() == '/',
        path_push(path_push(x, id), text) == lead + id + seq!['/'] + text,
{
    let lead = if x.len() > 0 && x.last() != '/' {
        x + seq!['/']
    } else {
        x
    };
    assert(path_push(x, id) == lead + id);
    let p = lead + id;
    assert(p.last() == id.last());
    assert(id.last() == id[id.len() - 1]);
    lead
}

/// Two packages with different references never share a directory in the store, when their
/// ids are non-empty and hold no `/`.
pub proof fn law_store_paths_distinct(store: PackageStore, p: PackageRef, q: PackageRef)
    requires
        p.id@.len() > 0,
        q.id@.len() > 0,
        forall|i: int| 0 <= i < p.id@.len() ==> #[trigger] p.id@[i] != '/',
        forall|i: int| 0 <= i < q.id@.len() ==> #[trigger] q.id@[i] != '/',
        store.spec_path_of(p) == store.spec_path_of(q),
    ensures
        p.id@ == q.id@,
        p.version == q.version,
{
    lemma_version_text(p.version, q.version);
    lemma_version_text(q.version, p.version);
    let root = store.spec_root();
    let lp = lemma_pushed_twice(path_push(root, store_prefix(p.id@)), p.id@, p.version.spec_text());
    let lq = lemma_pushed_twice(path_push(root, store_prefix(q.id@)), q.id@, q.version.spec_text());
    lemma_split_at_last(lp + p.id@, p.version.spec_text(), lq + q.id@, q.version.spec_text(), '/');
    lemma_split_after(lp, p.id@, lq, q.id@, '/');
}

} // verus!
