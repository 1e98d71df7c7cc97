//! The counts a store server keeps: messages inserted, deleted on request,
//! and pruned (burned to make room).
use vstd::prelude::*;

verus! {

/// The counts of messages inserted, deleted and pruned.
#[derive(Debug, Clone, Copy, PartialEq, Eq, Structural)]
pub struct Stats {
    pub inserted: u64,
    pub deleted: u64,
    pub pruned: u64,
}

/// A count plus an optional amount.
pub open spec fn plus(count: u64, amount: Option<u64>) -> int {
    match amount {
        Some(a) => count + a,
        None => count as int,
    }
}

/// A count, or the amount that replaces it.
pub open spec fn or_else(count: u64, amount: Option<u64>) -> u64 {
    match amount {
        Some(a) => a,
        None => count,
    }
}

impl Stats {
    /// All counts at zero.
    pub fn new() -> (s: Stats)
        ensures
            s == (Stats { inserted: 0, deleted: 0, pruned: 0 }),
    {
        Stats { inserted: 0, deleted: 0, pruned: 0 }
    }
}

/// Adds the given amounts to the counts; gives back the counts as they were.
pub fn add_to_stats(stats: &mut Stats, insrt_o: Option<u64>, del_o: Option<u64>, prnd_o: Option<u64>) -> (r: Stats)
    requires
        plus(old(stats).inserted, insrt_o) <= u64::MAX,
        plus(old(stats).deleted, del_o) <= u64::MAX,
        plus(old(stats).pruned, prnd_o) <= u64::MAX,
    ensures
        r == *old(stats),
        final(stats).inserted == plus(old(stats).inserted, insrt_o),
        final(stats).deleted == plus(old(stats).deleted, del_o),
        final(stats).pruned == plus(old(stats).pruned, prnd_o),
{
    let old_stats = *stats;
    if let Some(inserted) = insrt_o {
        stats.inserted = stats.inserted + inserted;
    }
    if let Some(deleted) = del_o {
        stats.deleted = stats.deleted + deleted;
    }
    if let Some(pruned) = prnd_o {
        stats.pruned = stats.pruned + pruned;
    }
    old_stats
}

/// Replaces the counts by the given amounts; gives back the counts as they were.
pub fn replace_stats(stats: &mut Stats, insrt_o: Option<u64>, del_o: Option<u64>, prnd_o: Option<u64>) -> (r: Stats)
    ensures
        r == *old(stats),
        *final(stats) == (Stats {
            inserted: or_else(old(stats).inserted, insrt_o),
            deleted: or_else(old(stats).deleted, del_o),
            pruned: or_else(old(stats).pruned, prnd_o),
        }),
{
    let old_stats = *stats;
    if let Some(inserted) = insrt_o {
        stats.inserted = inserted;
    }
    if let Some(deleted) = del_o {
        stats.deleted = deleted;
    }
    if let Some(pruned) = prnd_o {
        stats.pruned = pruned;
    }
    old_stats
}

/// Adds the amounts to the counts when `add` holds, else replaces the counts by
/// them; gives back the counts as they were.
pub fn handle(stats: &mut Stats, add: bool, inserted: Option<u64>, deleted: Option<u64>, pruned: Option<u64>) -> (r: Stats)
    requires
        add ==> plus(old(stats).inserted, inserted) <= u64::MAX,
        add ==> plus(old(stats).deleted, deleted) <= u64::MAX,
        add ==> plus(old(stats).pruned, pruned) <= u64::MAX,
    ensures
        r == *old(stats),
        add ==> final(stats).inserted == plus(old(stats).inserted, inserted)
            && final(stats).deleted == plus(old(stats).deleted, deleted)
            && final(stats).pruned == plus(old(stats).pruned, pruned),
        !add ==> *final(stats) == (Stats {
            inserted: or_else(old(stats).inserted, inserted),
            deleted: or_else(old(stats).deleted, deleted),
            pruned: or_else(old(stats).pruned, pruned),
        }),
{
    if add {
        add_to_stats(stats, inserted, deleted, pruned)
    } else {
        replace_stats(stats, inserted, deleted, pruned)
    }
}

/// The counts.
pub fn try_get(stats: &Stats) -> (r: Stats)
    ensures
        r == *stats,
{
    *stats
}

/// Sets every count to zero; gives back the counts as they were.
pub fn try_rm(stats: &mut Stats) -> (r: Stats)
    ensures
        r == *old(stats),
        *final(stats) == (Stats { inserted: 0, deleted: 0, pruned: 0 }),
{
    let old_stats = *stats;
    stats.inserted = 0;
    stats.deleted = 0;
    stats.pruned = 0;
    old_stats
}

} // verus!
