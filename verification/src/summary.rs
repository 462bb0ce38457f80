//! Whole-snapshot summary figures for the table headers: service counts by
//! state, overall memory percentage, and total network throughput.
use vstd::prelude::*;

use crate::filter::spec_any_toggle;
use crate::filter::ServiceToggles;
use crate::snapshot::ProcessTable;
use crate::snapshot::ServiceRecord;
use crate::snapshot::ServiceTable;
use crate::stats::sat_add;

verus! {

/// How many services of one table are in each state; the four states
/// partition the services.
#[derive(Clone, Copy, PartialEq, Eq, Structural, Debug)]
pub struct ServiceCounts {
    pub total: u64,
    pub running: u64,
    pub failed: u64,
    pub stopped: u64,
    pub disabled: u64,
}

/// A service's one state: running wins, then failed, then stopped
/// (enabled), then disabled, as the headers classify them.
pub open spec fn spec_count_of(s: Seq<ServiceRecord>, which: int) -> int
    decreases s.len(),
{
    if s.len() == 0 {
        0
    } else {
        let rest = spec_count_of(s.drop_last(), which);
        let r = s.last();
        let bucket: int = if r.running {
            0
        } else if r.failed {
            1
        } else if r.enabled {
            2
        } else {
            3
        };
        if bucket == which {
            rest + 1
        } else {
            rest
        }
    }
}

/// The four buckets partition the services.
pub proof fn lemma_counts_partition(s: Seq<ServiceRecord>)
    ensures
        spec_count_of(s, 0) + spec_count_of(s, 1) + spec_count_of(s, 2) + spec_count_of(s, 3)
            == s.len(),
        forall|w: int| 0 <= #[trigger] spec_count_of(s, w) <= s.len(),
    decreases s.len(),
{
    if s.len() > 0 {
        lemma_counts_partition(s.drop_last());
        assert forall|w: int| 0 <= #[trigger] spec_count_of(s, w) <= s.len() by {
            assert(0 <= spec_count_of(s.drop_last(), w) <= s.drop_last().len());
        }
    }
}

/// Count the services of both tables by state, as the headers show them.
pub fn service_counts(user: &ServiceTable, system: &ServiceTable) -> (r: ServiceCounts)
    requires
        user.entries@.len() + system.entries@.len() <= u64::MAX,
    ensures
        r.total == user.entries@.len() + system.entries@.len(),
        r.running == spec_count_of(user.entries@ + system.entries@, 0),
        r.failed == spec_count_of(user.entries@ + system.entries@, 1),
        r.stopped == spec_count_of(user.entries@ + system.entries@, 2),
        r.disabled == spec_count_of(user.entries@ + system.entries@, 3),
        r.running + r.failed + r.stopped + r.disabled == r.total,
{
    let ghost all = user.entries@ + system.entries@;
    let mut counts = ServiceCounts { total: 0, running: 0, failed: 0, stopped: 0, disabled: 0 };
    let nu = user.entries.len();
    let ns = system.entries.len();
    let mut i: usize = 0;
    proof {
        assert(all.subrange(0, 0) =~= Seq::<ServiceRecord>::empty());
        lemma_counts_partition(all.subrange(0, 0));
    }
    while i < nu
        invariant
            nu == user.entries@.len(),
            ns == system.entries@.len(),
            nu + ns <= u64::MAX,
            all == user.entries@ + system.entries@,
            i <= nu,
            counts.total == i,
            counts.running == spec_count_of(all.subrange(0, i as int), 0),
            counts.failed == spec_count_of(all.subrange(0, i as int), 1),
            counts.stopped == spec_count_of(all.subrange(0, i as int), 2),
            counts.disabled == spec_count_of(all.subrange(0, i as int), 3),
            counts.running + counts.failed + counts.stopped + counts.disabled == i,
        decreases nu - i,
    {
        proof {
            assert(all.subrange(0, i + 1 as int).drop_last() =~= all.subrange(0, i as int));
            assert(all.subrange(0, i + 1 as int).last() == all[i as int]);
            assert(all[i as int] == user.entries@[i as int]);
        }
        let rec = &user.entries[i];
        if rec.running {
            counts.running = counts.running + 1;
        } else if rec.failed {
            counts.failed = counts.failed + 1;
        } else if rec.enabled {
            counts.stopped = counts.stopped + 1;
        } else {
            counts.disabled = counts.disabled + 1;
        }
        counts.total = counts.total + 1;
        i += 1;
    }
    let mut j: usize = 0;
    while j < ns
        invariant
            nu == user.entries@.len(),
            ns == system.entries@.len(),
            nu + ns <= u64::MAX,
            all == user.entries@ + system.entries@,
            j <= ns,
            counts.total == nu + j,
            counts.running == spec_count_of(all.subrange(0, nu + j), 0),
            counts.failed == spec_count_of(all.subrange(0, nu + j), 1),
            counts.stopped == spec_count_of(all.subrange(0, nu + j), 2),
            counts.disabled == spec_count_of(all.subrange(0, nu + j), 3),
            counts.running + counts.failed + counts.stopped + counts.disabled == nu + j,
        decreases ns - j,
    {
        proof {
            assert(all.subrange(0, nu + j + 1).drop_last() =~= all.subrange(0, nu + j));
            assert(all.subrange(0, nu + j + 1).last() == all[nu + j]);
            assert(all[nu + j] == system.entries@[j as int]);
        }
        let rec = &system.entries[j];
        if rec.running {
            counts.running = counts.running + 1;
        } else if rec.failed {
            counts.failed = counts.failed + 1;
        } else if rec.enabled {
            counts.stopped = counts.stopped + 1;
        } else {
            counts.disabled = counts.disabled + 1;
        }
        counts.total = counts.total + 1;
        j += 1;
    }
    proof {
        assert(all.subrange(0, (nu + ns) as int) =~= all);
    }
    counts
}

/// How many services the active category toggles select, for the header
/// line; zero toggles select none (the header then says no filter applies).
pub open spec fn spec_filtered_count(c: ServiceCounts, t: ServiceToggles) -> int {
    (if t.running {
        c.running as int
    } else {
        0
    }) + (if t.failed {
        c.failed as int
    } else {
        0
    }) + (if t.stopped {
        c.stopped as int
    } else {
        0
    }) + (if t.disabled {
        c.disabled as int
    } else {
        0
    })
}

/// Count the services the active toggles select.
pub fn filtered_service_count(c: &ServiceCounts, t: ServiceToggles) -> (r: u64)
    requires
        c.running + c.failed + c.stopped + c.disabled == c.total,
    ensures
        r == spec_filtered_count(*c, t),
        r <= c.total,
        !spec_any_toggle(t) ==> r == 0,
{
    let mut r: u64 = 0;
    if t.running {
        r = r + c.running;
    }
    if t.failed {
        r = r + c.failed;
    }
    if t.stopped {
        r = r + c.stopped;
    }
    if t.disabled {
        r = r + c.disabled;
    }
    r
}

/// The rounded percentage `part` is of `whole` (half rounds up).
pub open spec fn spec_rounded_percent(part: int, whole: int) -> int {
    (200 * part + whole) / (2 * whole)
}

/// The overall memory-usage percentage for the column header: available
/// memory falls back to free memory when it exceeds the total (as procps
/// derives it), and a zero total is replaced by one so the division is
/// defined.
pub fn memory_percent(mem_total: u64, mem_available: u64, mem_free: u64) -> (r: u64)
    ensures
        ({
            let total = if mem_total > 0 {
                mem_total as int
            } else {
                1int
            };
            let avail = if mem_available > mem_total {
                mem_free as int
            } else {
                mem_available as int
            };
            let used = if mem_total - avail > 0 {
                mem_total - avail
            } else {
                0int
            };
            r == spec_rounded_percent(used, total)
        }),
{
    let total: u64 = if mem_total > 0 {
        mem_total
    } else {
        1
    };
    let avail: u64 = if mem_available > mem_total {
        mem_free
    } else {
        mem_available
    };
    let used: u64 = mem_total.saturating_sub(avail);
    proof {
        assert(used <= total);
    }
    let num: u128 = 200 * (used as u128) + (total as u128);
    let den: u128 = 2 * (total as u128);
    proof {
        assert(used <= total);
        assert(num <= 201 * (total as int));
        assert((num as int) / (den as int) <= 101) by (nonlinear_arith)
            requires
                num <= 201 * (total as int),
                den == 2 * (total as int),
                total >= 1,
        ;
    }
    let r = (num / den) as u64;
    r
}

/// The total network throughput over every process of the snapshot,
/// saturating per addition.
pub open spec fn spec_network_total(t: ProcessTable) -> u64 {
    spec_network_sum(t.entries@)
}

pub open spec fn spec_network_sum(s: Seq<crate::snapshot::ProcessRecord>) -> u64
    decreases s.len(),
{
    if s.len() == 0 {
        0
    } else {
        sat_add(spec_network_sum(s.drop_last()), s.last().usage_stats.network_usage)
    }
}

/// Sum network usage over the whole process table for the column header.
pub fn network_total(t: &ProcessTable) -> (r: u64)
    ensures
        r == spec_network_total(*t),
{
    let n = t.entries.len();
    let mut acc: u64 = 0;
    let mut i: usize = 0;
    proof {
        assert(t.entries@.subrange(0, 0) =~= Seq::<crate::snapshot::ProcessRecord>::empty());
    }
    while i < n
        invariant
            n == t.entries@.len(),
            i <= n,
            acc == spec_network_sum(t.entries@.subrange(0, i as int)),
        decreases n - i,
    {
        proof {
            assert(t.entries@.subrange(0, i + 1 as int).drop_last() =~= t.entries@.subrange(
                0,
                i as int,
            ));
            assert(t.entries@.subrange(0, i + 1 as int).last() == t.entries@[i as int]);
        }
        acc = acc.saturating_add(t.entries[i].usage_stats.network_usage);
        i += 1;
    }
    proof {
        assert(t.entries@.subrange(0, n as int) =~= t.entries@);
    }
    acc
}

} // verus!
