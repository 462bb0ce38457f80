//! Per-entity usage statistics and their field-wise saturating merge.
use vstd::prelude::*;

verus! {

/// Usage statistics of one process, in integer units (fixed-point percent
/// for the percentage-like fields, bytes or bytes-per-second for the rest).
#[derive(Clone, Copy, PartialEq, Eq, Structural, Debug)]
pub struct UsageStats {
    pub cpu_usage: u64,
    pub memory_usage: u64,
    pub shared_memory_usage: u64,
    pub disk_usage: u64,
    pub network_usage: u64,
    pub gpu_usage: u64,
    pub gpu_memory_usage: u64,
}

/// Saturating addition on one stat field.
pub open spec fn sat_add(a: u64, b: u64) -> u64 {
    if a + b > u64::MAX {
        u64::MAX
    } else {
        (a + b) as u64
    }
}

impl UsageStats {
    /// All-zero statistics.
    pub open spec fn spec_zero() -> UsageStats {
        UsageStats {
            cpu_usage: 0,
            memory_usage: 0,
            shared_memory_usage: 0,
            disk_usage: 0,
            network_usage: 0,
            gpu_usage: 0,
            gpu_memory_usage: 0,
        }
    }

    pub fn zero() -> (r: UsageStats)
        ensures
            r == UsageStats::spec_zero(),
    {
        UsageStats {
            cpu_usage: 0,
            memory_usage: 0,
            shared_memory_usage: 0,
            disk_usage: 0,
            network_usage: 0,
            gpu_usage: 0,
            gpu_memory_usage: 0,
        }
    }

    /// Field-wise saturating sum of two statistics records.
    pub open spec fn spec_merge(a: UsageStats, b: UsageStats) -> UsageStats {
        UsageStats {
            cpu_usage: sat_add(a.cpu_usage, b.cpu_usage),
            memory_usage: sat_add(a.memory_usage, b.memory_usage),
            shared_memory_usage: sat_add(a.shared_memory_usage, b.shared_memory_usage),
            disk_usage: sat_add(a.disk_usage, b.disk_usage),
            network_usage: sat_add(a.network_usage, b.network_usage),
            gpu_usage: sat_add(a.gpu_usage, b.gpu_usage),
            gpu_memory_usage: sat_add(a.gpu_memory_usage, b.gpu_memory_usage),
        }
    }

    /// Accumulate `other` into `self`, saturating per field.
    pub fn merge(&mut self, other: &UsageStats)
        ensures
            *final(self) == UsageStats::spec_merge(*old(self), *other),
    {
        self.cpu_usage = self.cpu_usage.saturating_add(other.cpu_usage);
        self.memory_usage = self.memory_usage.saturating_add(other.memory_usage);
        self.shared_memory_usage = self.shared_memory_usage.saturating_add(
            other.shared_memory_usage,
        );
        self.disk_usage = self.disk_usage.saturating_add(other.disk_usage);
        self.network_usage = self.network_usage.saturating_add(other.network_usage);
        self.gpu_usage = self.gpu_usage.saturating_add(other.gpu_usage);
        self.gpu_memory_usage = self.gpu_memory_usage.saturating_add(other.gpu_memory_usage);
    }
}

/// Merging the zero record changes nothing.
pub proof fn lemma_merge_zero(a: UsageStats)
    ensures
        UsageStats::spec_merge(a, UsageStats::spec_zero()) == a,
{
}

} // verus!
