//! One periodic snapshot of operating-system state: processes, applications
//! and services, each held in a table keyed by its stable identity, plus the
//! recursively merged usage statistics over the process forest.
use vstd::prelude::*;

use crate::stats::UsageStats;

verus! {

/// One process, with its parent/child links into the same snapshot.
pub struct ProcessRecord {
    pub pid: u32,
    pub name: String,
    pub exe: String,
    pub cmd: Vec<String>,
    pub children: Vec<u32>,
    pub usage_stats: UsageStats,
}

/// One user-facing application and the pids believed to belong to it.
pub struct AppRecord {
    pub id: String,
    pub name: String,
    pub icon: Option<String>,
    pub pids: Vec<u32>,
}

/// One background service, with three independent state booleans.
pub struct ServiceRecord {
    pub id: u64,
    pub name: String,
    pub file_path: String,
    pub user: Option<String>,
    pub group: Option<String>,
    pub pid: Option<u32>,
    pub running: bool,
    pub enabled: bool,
    pub failed: bool,
}

impl ServiceRecord {
    /// Derived state: enabled but neither running nor failed.
    pub open spec fn spec_stopped(self) -> bool {
        self.enabled && !self.running && !self.failed
    }

    /// Derived state: neither enabled, running nor failed.
    pub open spec fn spec_disabled(self) -> bool {
        !self.enabled && !self.running && !self.failed
    }

    pub fn is_stopped(&self) -> (b: bool)
        ensures
            b == self.spec_stopped(),
    {
        self.enabled && !self.running && !self.failed
    }

    pub fn is_disabled(&self) -> (b: bool)
        ensures
            b == self.spec_disabled(),
    {
        !self.enabled && !self.running && !self.failed
    }
}

/// The process table of one snapshot, keyed by pid.
pub struct ProcessTable {
    pub entries: Vec<ProcessRecord>,
}

impl ProcessTable {
    /// Each pid occurs at most once.
    pub open spec fn wf(self) -> bool {
        forall|i: int, j: int|
            0 <= i < j < self.entries@.len() ==> (#[trigger] self.entries@[i]).pid != (
            #[trigger] self.entries@[j]).pid
    }

    pub open spec fn spec_has(self, pid: u32) -> bool {
        exists|i: int| 0 <= i < self.entries@.len() && (#[trigger] self.entries@[i]).pid == pid
    }

    pub open spec fn spec_get(self, pid: u32) -> ProcessRecord {
        self.entries@[choose|i: int|
            0 <= i < self.entries@.len() && (#[trigger] self.entries@[i]).pid == pid]
    }

    pub proof fn lemma_get_at(self, i: int)
        requires
            self.wf(),
            0 <= i < self.entries@.len(),
        ensures
            self.spec_has(self.entries@[i].pid),
            self.spec_get(self.entries@[i].pid) == self.entries@[i],
    {
        let pid = self.entries@[i].pid;
        assert(self.spec_has(pid));
        let j = choose|j: int|
            0 <= j < self.entries@.len() && (#[trigger] self.entries@[j]).pid == pid;
        if i < j {
            assert(self.entries@[i].pid != self.entries@[j].pid);
        } else if j < i {
            assert(self.entries@[j].pid != self.entries@[i].pid);
        }
    }

    pub fn new() -> (r: ProcessTable)
        ensures
            r.wf(),
            r.entries@.len() == 0,
            forall|p: u32| !r.spec_has(p),
    {
        ProcessTable { entries: Vec::new() }
    }

    pub fn len(&self) -> (n: usize)
        ensures
            n == self.entries@.len(),
    {
        self.entries.len()
    }

    /// Add a record; refused (returning false) when the pid is taken.
    pub fn insert(&mut self, rec: ProcessRecord) -> (added: bool)
        requires
            old(self).wf(),
        ensures
            final(self).wf(),
            added == !old(self).spec_has(rec.pid),
            added ==> final(self).entries@ == old(self).entries@.push(rec),
            !added ==> *final(self) == *old(self),
            forall|p: u32|
                final(self).spec_has(p) == (old(self).spec_has(p) || p == rec.pid),
    {
        if self.contains_pid(rec.pid) {
            return false;
        }
        let ghost oldt = *self;
        self.entries.push(rec);
        proof {
            assert forall|p: u32| self.spec_has(p) == (oldt.spec_has(p) || p == rec.pid) by {
                if self.spec_has(p) {
                    let i = choose|i: int|
                        0 <= i < self.entries@.len() && (#[trigger] self.entries@[i]).pid == p;
                    if i < oldt.entries@.len() {
                        assert(oldt.entries@[i].pid == p);
                    }
                }
                if oldt.spec_has(p) {
                    let i = choose|i: int|
                        0 <= i < oldt.entries@.len() && (#[trigger] oldt.entries@[i]).pid == p;
                    assert(self.entries@[i].pid == p);
                }
                if p == rec.pid {
                    assert(self.entries@[self.entries@.len() - 1].pid == p);
                }
            }
        }
        true
    }

    pub fn contains_pid(&self, pid: u32) -> (b: bool)
        ensures
            b == self.spec_has(pid),
    {
        let n = self.entries.len();
        let mut i: usize = 0;
        while i < n
            invariant
                i <= n,
                n == self.entries@.len(),
                forall|k: int| 0 <= k < i ==> (#[trigger] self.entries@[k]).pid != pid,
            decreases n - i,
        {
            if self.entries[i].pid == pid {
                return true;
            }
            i += 1;
        }
        false
    }

    /// Look a pid up, as the reconciler does each cycle.
    pub fn get(&self, pid: u32) -> (r: Option<&ProcessRecord>)
        requires
            self.wf(),
        ensures
            match r {
                Some(rec) => self.spec_has(pid) && *rec == self.spec_get(pid) && rec.pid == pid,
                None => !self.spec_has(pid),
            },
    {
        let n = self.entries.len();
        let mut i: usize = 0;
        while i < n
            invariant
                self.wf(),
                i <= n,
                n == self.entries@.len(),
                forall|k: int| 0 <= k < i ==> (#[trigger] self.entries@[k]).pid != pid,
            decreases n - i,
        {
            if self.entries[i].pid == pid {
                proof {
                    self.lemma_get_at(i as int);
                }
                return Some(&self.entries[i]);
            }
            i += 1;
        }
        None
    }

    /// The smallest pid of the snapshot, taken as the root of the forest.
    pub fn min_pid(&self) -> (r: Option<u32>)
        ensures
            match r {
                Some(p) => self.spec_has(p) && forall|q: u32| self.spec_has(q) ==> p <= q,
                None => self.entries@.len() == 0,
            },
    {
        let n = self.entries.len();
        if n == 0 {
            proof {
                assert(forall|q: u32| !self.spec_has(q));
            }
            return None;
        }
        let mut best: u32 = self.entries[0].pid;
        let mut i: usize = 1;
        while i < n
            invariant
                1 <= i <= n,
                n == self.entries@.len(),
                exists|k: int|
                    0 <= k < i && (#[trigger] self.entries@[k]).pid == best,
                forall|k: int| 0 <= k < i ==> (#[trigger] self.entries@[k]).pid >= best,
            decreases n - i,
        {
            if self.entries[i].pid < best {
                best = self.entries[i].pid;
            }
            i += 1;
        }
        proof {
            assert forall|q: u32| self.spec_has(q) implies best <= q by {
                let k = choose|k: int|
                    0 <= k < self.entries@.len() && (#[trigger] self.entries@[k]).pid == q;
                assert(self.entries@[k].pid >= best);
            }
        }
        Some(best)
    }
}

/// The application table of one snapshot, keyed by the app's string id.
pub struct AppTable {
    pub entries: Vec<AppRecord>,
}

impl AppTable {
    pub open spec fn wf(self) -> bool {
        forall|i: int, j: int|
            0 <= i < j < self.entries@.len() ==> (#[trigger] self.entries@[i]).id@ != (
            #[trigger] self.entries@[j]).id@
    }

    pub open spec fn spec_has(self, id: Seq<char>) -> bool {
        exists|i: int| 0 <= i < self.entries@.len() && (#[trigger] self.entries@[i]).id@ == id
    }

    pub open spec fn spec_get(self, id: Seq<char>) -> AppRecord {
        self.entries@[choose|i: int|
            0 <= i < self.entries@.len() && (#[trigger] self.entries@[i]).id@ == id]
    }

    pub proof fn lemma_get_at(self, i: int)
        requires
            self.wf(),
            0 <= i < self.entries@.len(),
        ensures
            self.spec_has(self.entries@[i].id@),
            self.spec_get(self.entries@[i].id@) == self.entries@[i],
    {
        let id = self.entries@[i].id@;
        assert(self.spec_has(id));
        let j = choose|j: int|
            0 <= j < self.entries@.len() && (#[trigger] self.entries@[j]).id@ == id;
        if i < j {
            assert(self.entries@[i].id@ != self.entries@[j].id@);
        } else if j < i {
            assert(self.entries@[j].id@ != self.entries@[i].id@);
        }
    }

    pub fn new() -> (r: AppTable)
        ensures
            r.wf(),
            r.entries@.len() == 0,
            forall|id: Seq<char>| !r.spec_has(id),
    {
        AppTable { entries: Vec::new() }
    }

    pub fn contains_id(&self, id: &String) -> (b: bool)
        ensures
            b == self.spec_has(id@),
    {
        let n = self.entries.len();
        let mut i: usize = 0;
        while i < n
            invariant
                i <= n,
                n == self.entries@.len(),
                forall|k: int| 0 <= k < i ==> (#[trigger] self.entries@[k]).id@ != id@,
            decreases n - i,
        {
            if self.entries[i].id.eq(id) {
                return true;
            }
            i += 1;
        }
        false
    }

    /// Add a record; refused (returning false) when the id is taken.
    pub fn insert(&mut self, rec: AppRecord) -> (added: bool)
        requires
            old(self).wf(),
        ensures
            final(self).wf(),
            added == !old(self).spec_has(rec.id@),
            added ==> final(self).entries@ == old(self).entries@.push(rec),
            !added ==> *final(self) == *old(self),
    {
        if self.contains_id(&rec.id) {
            return false;
        }
        self.entries.push(rec);
        true
    }

    pub fn get(&self, id: &String) -> (r: Option<&AppRecord>)
        requires
            self.wf(),
        ensures
            match r {
                Some(rec) => self.spec_has(id@) && *rec == self.spec_get(id@) && rec.id@ == id@,
                None => !self.spec_has(id@),
            },
    {
        let n = self.entries.len();
        let mut i: usize = 0;
        while i < n
            invariant
                self.wf(),
                i <= n,
                n == self.entries@.len(),
                forall|k: int| 0 <= k < i ==> (#[trigger] self.entries@[k]).id@ != id@,
            decreases n - i,
        {
            if self.entries[i].id.eq(id) {
                proof {
                    self.lemma_get_at(i as int);
                }
                return Some(&self.entries[i]);
            }
            i += 1;
        }
        None
    }
}

/// The service table of one snapshot, keyed by the service's numeric id.
pub struct ServiceTable {
    pub entries: Vec<ServiceRecord>,
}

impl ServiceTable {
    pub open spec fn wf(self) -> bool {
        forall|i: int, j: int|
            0 <= i < j < self.entries@.len() ==> (#[trigger] self.entries@[i]).id != (
            #[trigger] self.entries@[j]).id
    }

    pub open spec fn spec_has(self, id: u64) -> bool {
        exists|i: int| 0 <= i < self.entries@.len() && (#[trigger] self.entries@[i]).id == id
    }

    pub open spec fn spec_get(self, id: u64) -> ServiceRecord {
        self.entries@[choose|i: int|
            0 <= i < self.entries@.len() && (#[trigger] self.entries@[i]).id == id]
    }

    pub proof fn lemma_get_at(self, i: int)
        requires
            self.wf(),
            0 <= i < self.entries@.len(),
        ensures
            self.spec_has(self.entries@[i].id),
            self.spec_get(self.entries@[i].id) == self.entries@[i],
    {
        let id = self.entries@[i].id;
        assert(self.spec_has(id));
        let j = choose|j: int|
            0 <= j < self.entries@.len() && (#[trigger] self.entries@[j]).id == id;
        if i < j {
            assert(self.entries@[i].id != self.entries@[j].id);
        } else if j < i {
            assert(self.entries@[j].id != self.entries@[i].id);
        }
    }

    pub fn new() -> (r: ServiceTable)
        ensures
            r.wf(),
            r.entries@.len() == 0,
            forall|id: u64| !r.spec_has(id),
    {
        ServiceTable { entries: Vec::new() }
    }

    pub fn contains_id(&self, id: u64) -> (b: bool)
        ensures
            b == self.spec_has(id),
    {
        let n = self.entries.len();
        let mut i: usize = 0;
        while i < n
            invariant
                i <= n,
                n == self.entries@.len(),
                forall|k: int| 0 <= k < i ==> (#[trigger] self.entries@[k]).id != id,
            decreases n - i,
        {
            if self.entries[i].id == id {
                return true;
            }
            i += 1;
        }
        false
    }

    /// Add a record; refused (returning false) when the id is taken.
    pub fn insert(&mut self, rec: ServiceRecord) -> (added: bool)
        requires
            old(self).wf(),
        ensures
            final(self).wf(),
            added == !old(self).spec_has(rec.id),
            added ==> final(self).entries@ == old(self).entries@.push(rec),
            !added ==> *final(self) == *old(self),
    {
        if self.contains_id(rec.id) {
            return false;
        }
        self.entries.push(rec);
        true
    }

    pub fn get(&self, id: u64) -> (r: Option<&ServiceRecord>)
        requires
            self.wf(),
        ensures
            match r {
                Some(rec) => self.spec_has(id) && *rec == self.spec_get(id) && rec.id == id,
                None => !self.spec_has(id),
            },
    {
        let n = self.entries.len();
        let mut i: usize = 0;
        while i < n
            invariant
                self.wf(),
                i <= n,
                n == self.entries@.len(),
                forall|k: int| 0 <= k < i ==> (#[trigger] self.entries@[k]).id != id,
            decreases n - i,
        {
            if self.entries[i].id == id {
                proof {
                    self.lemma_get_at(i as int);
                }
                return Some(&self.entries[i]);
            }
            i += 1;
        }
        None
    }
}

/// Merged statistics of the process with pid `pid`: its own statistics plus,
/// recursively, those of every descendant in the snapshot's child links, to
/// depth `fuel`. A pid absent from the table contributes zero.
pub open spec fn spec_merged_stats(t: ProcessTable, pid: u32, fuel: nat) -> UsageStats
    decreases fuel, 0nat,
{
    if !t.spec_has(pid) {
        UsageStats::spec_zero()
    } else {
        let own = t.spec_get(pid).usage_stats;
        if fuel == 0 {
            own
        } else {
            UsageStats::spec_merge(
                own,
                spec_merged_children(t, t.spec_get(pid).children@, (fuel - 1) as nat),
            )
        }
    }
}

/// Field-wise saturating sum of the merged statistics of the pids in `kids`.
pub open spec fn spec_merged_children(t: ProcessTable, kids: Seq<u32>, fuel: nat) -> UsageStats
    decreases fuel, kids.len() + 1,
{
    if kids.len() == 0 {
        UsageStats::spec_zero()
    } else {
        UsageStats::spec_merge(
            spec_merged_stats(t, kids[0], fuel),
            spec_merged_children(t, kids.drop_first(), fuel),
        )
    }
}

/// Merged usage statistics over the true process forest beneath `pid`,
/// independent of how much of the presentation tree is materialised.
pub fn merged_usage_stats(t: &ProcessTable, pid: u32, fuel: usize) -> (r: UsageStats)
    requires
        t.wf(),
    ensures
        r == spec_merged_stats(*t, pid, fuel as nat),
    decreases fuel, 0nat,
{
    let rec = match t.get(pid) {
        Some(rec) => rec,
        None => {
            return UsageStats::zero();
        },
    };
    let mut acc = rec.usage_stats;
    if fuel == 0 {
        return acc;
    }
    let n = rec.children.len();
    let mut kids_acc = UsageStats::zero();
    let mut i: usize = n;
    while i > 0
        invariant
            t.wf(),
            i <= n,
            n == rec.children@.len(),
            *rec == t.spec_get(pid),
            fuel >= 1,
            kids_acc == spec_merged_children(
                *t,
                rec.children@.subrange(i as int, n as int),
                (fuel - 1) as nat,
            ),
        decreases i,
    {
        i -= 1;
        let child_stats = merged_usage_stats(t, rec.children[i], fuel - 1);
        let mut next = child_stats;
        next.merge(&kids_acc);
        kids_acc = next;
        proof {
            let sub = rec.children@.subrange(i as int, n as int);
            assert(sub[0] == rec.children@[i as int]);
            assert(sub.drop_first() =~= rec.children@.subrange(i + 1, n as int));
        }
    }
    proof {
        assert(rec.children@.subrange(0, n as int) =~= rec.children@);
    }
    acc.merge(&kids_acc);
    acc
}

/// Merged-statistics additivity: with recursion depth to spare, the merged
/// statistics of a process are the field-wise saturating sum of its own raw
/// statistics and the merged statistics of its children, and the merged
/// statistics of a child list add up child by child.
pub proof fn lemma_merged_stats_additive(t: ProcessTable, pid: u32, fuel: nat)
    requires
        t.spec_has(pid),
        fuel > 0,
    ensures
        spec_merged_stats(t, pid, fuel) == UsageStats::spec_merge(
            t.spec_get(pid).usage_stats,
            spec_merged_children(t, t.spec_get(pid).children@, (fuel - 1) as nat),
        ),
        forall|kids: Seq<u32>, f: nat|
            kids.len() > 0 ==> #[trigger] spec_merged_children(t, kids, f)
                == UsageStats::spec_merge(
                spec_merged_stats(t, kids[0], f),
                spec_merged_children(t, kids.drop_first(), f),
            ),
{
}

/// In raw mode a node's statistics are exactly its own record's statistics;
/// depth zero merges nothing.
pub proof fn lemma_merged_stats_raw(t: ProcessTable, pid: u32)
    requires
        t.spec_has(pid),
    ensures
        spec_merged_stats(t, pid, 0) == t.spec_get(pid).usage_stats,
{
}

} // verus!
