use vstd::prelude::*;
use crate::config::{AutoFetch, HumanDuration};

verus! {

/// A point in time: whole seconds since the Unix epoch and the nanoseconds beyond them.
#[derive(PartialEq, Eq, Structural, Clone, Copy, Debug)]
pub struct Timestamp {
    pub secs: i64,
    pub nanos: u32,
}

impl Timestamp {
    /// The point in time in nanoseconds since the Unix epoch.
    pub open spec fn total_nanos(self) -> int {
        self.secs * 1_000_000_000 + self.nanos
    }
}

/// How old a mod index is at `now` when it was last updated at `then`, in nanoseconds; zero
/// when `then` lies in the future.
pub open spec fn age_nanos(now: Timestamp, then: Timestamp) -> int {
    if now.total_nanos() >= then.total_nanos() {
        now.total_nanos() - then.total_nanos()
    } else {
        0
    }
}

/// Three days in nanoseconds: an index older than this is stale.
pub open spec fn stale_after_nanos() -> int {
    259_200_000_000_000int
}

/// What to do with a game's mod index before using it.
#[derive(PartialEq, Eq, Structural, Clone, Copy, Debug)]
pub enum IndexAction {
    /// The index has never been built: build it.
    Build,
    /// Auto-fetching is enabled and the index is at least as old as its interval: update it.
    AutoUpdate,
    /// The index is fresh.
    Fresh,
    /// The index is stale and auto-fetching is disabled: suggest updating it.
    WarnStale,
    /// The index is stale but auto-fetching is enabled and its interval has not passed.
    Keep,
}

/// What to do with a mod index last updated at `last_updated` (never, when `None`), at
/// `now`, under the auto-fetch settings `auto_fetch`.
pub fn prepare_action(now: Timestamp, last_updated: Option<Timestamp>, auto_fetch: &AutoFetch) -> (r: IndexAction)
    ensures
        r == match last_updated {
            None => IndexAction::Build,
            Some(then) => if auto_fetch.enabled && age_nanos(now, then) >= auto_fetch.interval.total_nanos() {
                IndexAction::AutoUpdate
            } else if age_nanos(now, then) < stale_after_nanos() {
                IndexAction::Fresh
            } else if !auto_fetch.enabled {
                IndexAction::WarnStale
            } else {
                IndexAction::Keep
            },
        },
{
    match last_updated {
        None => IndexAction::Build,
        Some(then) => {
            let now_nanos: i128 = now.secs as i128 * 1_000_000_000 + now.nanos as i128;
            let then_nanos: i128 = then.secs as i128 * 1_000_000_000 + then.nanos as i128;
            let age: i128 = if now_nanos >= then_nanos {
                now_nanos - then_nanos
            } else {
                0
            };
            let interval_secs = auto_fetch.interval.secs();
            let interval_nanos = auto_fetch.interval.subsec_nanos();
            let interval: i128 = interval_secs as i128 * 1_000_000_000 + interval_nanos as i128;
            if auto_fetch.enabled && age >= interval {
                IndexAction::AutoUpdate
            } else if age < 3 * 86400 * 1_000_000_000 {
                IndexAction::Fresh
            } else if !auto_fetch.enabled {
                IndexAction::WarnStale
            } else {
                IndexAction::Keep
            }
        },
    }
}

} // verus!
