use vstd::prelude::*;
use crate::graph::{as_ints, reorder};
use crate::order::{OrderKey, SortKey, stable_order_by, stable_sort_positions_by};
use crate::package::LockedPackage;
use crate::text::str_chars;

verus! {

/// The order key of a package to install: its download size (unknown sizes first), then its
/// reference.
pub open spec fn install_key(p: LockedPackage) -> OrderKey {
    OrderKey {
        rank: match p.size {
            Some(n) => (n + 1) as nat,
            None => 0,
        },
        text: p.ref_.id@,
        major: p.ref_.version.major as nat,
        minor: p.ref_.version.minor as nat,
        patch: p.ref_.version.patch as nat,
    }
}

/// The order in which packages are installed: largest first (by size, then reference),
/// packages with equal keys in their original order.
pub open spec fn install_order_of(pkgs: Seq<LockedPackage>) -> Seq<int> {
    stable_order_by(pkgs.map_values(|p: LockedPackage| install_key(p)), pkgs.len(), true)
}

/// The positions of `packages` in the order in which they are installed (see
/// `install_order_of`).
pub fn install_order(packages: &Vec<LockedPackage>) -> (r: Vec<usize>)
    ensures
        as_ints(r@) == install_order_of(packages@),
{
    let mut keys: Vec<SortKey> = Vec::new();
    for k in 0..packages.len()
        invariant
            keys@.len() == k,
            forall|m: int| 0 <= m < k ==> (#[trigger] keys@[m])@ == install_key(packages@[m]),
    {
        let p = &packages[k];
        let rank: u128 = match p.size {
            Some(n) => n as u128 + 1,
            None => 0,
        };
        let text = str_chars(p.ref_.id.as_str());
        keys.push(SortKey {
            rank,
            text,
            major: p.ref_.version.major,
            minor: p.ref_.version.minor,
            patch: p.ref_.version.patch,
        });
    }
    assert(keys@.map_values(|k: SortKey| k@) =~= packages@.map_values(|p: LockedPackage| install_key(p)));
    let r = stable_sort_positions_by(&keys, true);
    proof {
        crate::order::lemma_stable_order_by_len(
            packages@.map_values(|p: LockedPackage| install_key(p)),
            packages@.len(),
            true,
        );
    }
    assert(as_ints(r@) =~= install_order_of(packages@));
    r
}

/// How long to wait before retrying a download that failed `retries` times before: 1, 2
/// and 4 seconds for the first three retries (doubling, capped at 30), then give up.
pub open spec fn retry_delay_secs(retries: nat) -> Option<nat> {
    if retries >= 3 {
        None
    } else {
        let backoff = vstd::arithmetic::power2::pow2(retries);
        Some(if backoff < 30 { backoff } else { 30 })
    }
}

/// The seconds to wait before the next try of a download that failed `retries` times before,
/// or `None` to give up (see `retry_delay_secs`).
pub fn retry_delay(retries: u32) -> (r: Option<u64>)
    ensures
        r matches Some(s) ==> retry_delay_secs(retries as nat) == Some(s as nat),
        r is None ==> retry_delay_secs(retries as nat) is None,
{
    proof {
        vstd::arithmetic::power2::lemma2_to64();
    }
    if retries >= 3 {
        None
    } else if retries == 0 {
        Some(1)
    } else if retries == 1 {
        Some(2)
    } else {
        Some(4)
    }
}

} // verus!
