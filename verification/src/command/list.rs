use vstd::prelude::*;
use crate::command::ListCommand;
use crate::graph::{as_ints, text_key};
use crate::order::{
    Order, SortKey, compare_text, is_arrangement, lemma_stable_order_by_sorts, lemma_stable_order_len,
    stable_order, stable_sort_positions,
};
use crate::package::{LockedPackage, Lockfile};
use crate::text::str_chars;

verus! {

/// The positions of `pkgs` in the order in which they are listed: stably by id.
pub open spec fn listing_order(pkgs: Seq<LockedPackage>) -> Seq<int> {
    stable_order(pkgs.map_values(|p: LockedPackage| text_key(p.ref_.id@)), pkgs.len())
}

/// The cells of a listed package: its id, its version, its source, and `x` when it was
/// installed only as a dependency of another.
pub open spec fn row_text(p: LockedPackage) -> (Seq<char>, Seq<char>, Seq<char>, Seq<char>) {
    (p.ref_.id@, p.ref_.version.spec_text(), p.source@, if p.transitive {
        "x"@
    } else {
        ""@
    })
}

/// The texts of the cells of a row.
pub open spec fn row_view(r: (String, String, String, String)) -> (Seq<char>, Seq<char>, Seq<char>, Seq<char>) {
    (r.0@, r.1@, r.2@, r.3@)
}

/// The heading row of the listing.
pub open spec fn heading_text() -> (Seq<char>, Seq<char>, Seq<char>, Seq<char>) {
    ("package"@, "version"@, "source"@, "transitive"@)
}

/// Every package is listed exactly once, and no listed id comes after a greater one.
pub proof fn law_listing_sorted(pkgs: Seq<LockedPackage>)
    ensures
        is_arrangement(listing_order(pkgs), pkgs.len()),
        forall|i: int, j: int|
            0 <= i < j < pkgs.len() ==> compare_text(
                pkgs[#[trigger] listing_order(pkgs)[j]].ref_.id@,
                pkgs[#[trigger] listing_order(pkgs)[i]].ref_.id@,
            ) != Order::Less,
{
    let keys = pkgs.map_values(|p: LockedPackage| text_key(p.ref_.id@));
    let order = listing_order(pkgs);
    lemma_stable_order_len(keys, pkgs.len());
    lemma_stable_order_by_sorts(keys, pkgs.len(), false);
    assert forall|i: int, j: int| 0 <= i < j < pkgs.len() implies compare_text(
        pkgs[#[trigger] order[j]].ref_.id@,
        pkgs[#[trigger] order[i]].ref_.id@,
    ) != Order::Less by {
        assert(keys[order[i]] == text_key(pkgs[order[i]].ref_.id@));
        assert(keys[order[j]] == text_key(pkgs[order[j]].ref_.id@));
        assert(!crate::order::precedes(keys[order[j]], keys[order[i]], false));
    }
}

impl ListCommand {
    /// The rows of the table of installed packages: the heading, then one row per package of
    /// `lockfile` (see `row_text`), ordered by id, packages with the same id in lockfile order.
    pub fn rows(&self, lockfile: &Lockfile) -> (r: Vec<(String, String, String, String)>)
        ensures
            r@.len() == lockfile.packages@.len() + 1,
            row_view(r@[0]) == heading_text(),
            forall|i: int|
                0 <= i < lockfile.packages@.len() ==> row_view(#[trigger] r@[i + 1]) == row_text(
                    lockfile.packages@[listing_order(lockfile.packages@)[i]],
                ),
    {
        let pkgs = &lockfile.packages;
        let mut keys: Vec<SortKey> = Vec::new();
        for k in 0..pkgs.len()
            invariant
                keys@.len() == k,
                forall|m: int| 0 <= m < k ==> (#[trigger] keys@[m])@ == text_key(pkgs@[m].ref_.id@),
        {
            let text = str_chars(pkgs[k].ref_.id.as_str());
            keys.push(SortKey { rank: 0, text, major: 0, minor: 0, patch: 0 });
        }
        let ghost kv = pkgs@.map_values(|p: LockedPackage| text_key(p.ref_.id@));
        assert(keys@.map_values(|k: SortKey| k@) =~= kv);
        let order = stable_sort_positions(&keys);
        proof {
            lemma_stable_order_len(kv, pkgs@.len());
        }
        let ghost ov = as_ints(order@);
        assert(ov =~= listing_order(pkgs@));
        let mut r: Vec<(String, String, String, String)> = Vec::new();
        r.push(("package".to_string(), "version".to_string(), "source".to_string(), "transitive".to_string()));
        for i in 0..order.len()
            invariant
                order@.len() == pkgs@.len(),
                ov == as_ints(order@),
                ov == listing_order(pkgs@),
                forall|m: int| 0 <= m < pkgs@.len() ==> 0 <= #[trigger] ov[m] < pkgs@.len(),
                r@.len() == i + 1,
                row_view(r@[0]) == heading_text(),
                forall|m: int| 0 <= m < i ==> row_view(#[trigger] r@[m + 1]) == row_text(pkgs@[ov[m]]),
        {
            assert(ov[i as int] == order@[i as int] as int);
            let p = &pkgs[order[i]];
            let transitive = if p.transitive {
                "x".to_string()
            } else {
                "".to_string()
            };
            r.push((p.ref_.id.clone(), p.ref_.version.to_string(), p.source.clone(), transitive));
        }
        r
    }
}

} // verus!
