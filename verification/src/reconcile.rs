//! The reconciler: a three-way diff per entity kind that mutates the
//! presentation tree in place so that surviving nodes keep their identity
//! (and the view's stable references with it), dead nodes leave, and new
//! entities join at the end of their child list.
use vstd::prelude::*;

use crate::grouping::pids_contain;
use crate::grouping::spec_display_name;
use crate::node::forest_has_node;
use crate::node::forest_has_pid;
use crate::node::lemma_forest_push;
use crate::node::lemma_level_in_forest;
use crate::node::level_has_pid;
use crate::node::lemma_seq_views;
use crate::node::seq_views;
use crate::node::ContentType;
use crate::node::ModelMap;
use crate::node::Node;
use crate::node::NodeView;
use crate::node::SectionType;
use crate::node::{duplicate, level_pids_unique};
use crate::snapshot::spec_merged_stats;
use crate::snapshot::merged_usage_stats;
use crate::snapshot::ProcessRecord;
use crate::snapshot::ProcessTable;
use crate::snapshot::ServiceRecord;
use crate::snapshot::ServiceTable;
use crate::stats::UsageStats;
use crate::text::dec_chars;
use crate::text::join_space;
use crate::text::pid_key;
use crate::text::spec_join_space;
use crate::text::u64_dec_str;
use crate::grouping::display_name;
use crate::grouping::primary_processes;
use crate::grouping::spec_primary_processes;
use crate::node::level_has_key;
use crate::snapshot::AppRecord;
use crate::snapshot::AppTable;

verus! {

use vstd::string::StringExecFns;

/// Hands out creation ids for new nodes; never reuses one until it
/// saturates at the largest id.
pub struct UidGen {
    pub next: u64,
}

impl UidGen {
    pub fn new() -> (r: UidGen)
        ensures
            r.next == 0,
    {
        UidGen { next: 0 }
    }

    pub fn fresh(&mut self) -> (u: u64)
        ensures
            u == old(self).next,
            final(self).next >= old(self).next,
            old(self).next < u64::MAX ==> final(self).next == old(self).next + 1,
    {
        let u = self.next;
        self.next = self.next.saturating_add(1);
        u
    }
}

/// The icons resolved for an app's primary processes this cycle, keyed by
/// pid; the process pass reads it to give app processes their app's icon.
pub struct IconMap {
    pub entries: Vec<(u32, String)>,
}

impl IconMap {
    pub open spec fn wf(self) -> bool {
        forall|i: int, j: int|
            0 <= i < j < self.entries@.len() ==> (#[trigger] self.entries@[i]).0 != (
            #[trigger] self.entries@[j]).0
    }

    pub open spec fn spec_has(self, pid: u32) -> bool {
        exists|i: int| 0 <= i < self.entries@.len() && (#[trigger] self.entries@[i]).0 == pid
    }

    pub open spec fn spec_icon(self, pid: u32) -> Seq<char> {
        (self.entries@[choose|i: int|
            0 <= i < self.entries@.len() && (#[trigger] self.entries@[i]).0 == pid]).1@
    }

    pub fn new() -> (r: IconMap)
        ensures
            r.wf(),
            forall|p: u32| !r.spec_has(p),
    {
        IconMap { entries: Vec::new() }
    }

    pub fn clear(&mut self)
        ensures
            final(self).wf(),
            forall|p: u32| !final(self).spec_has(p),
    {
        self.entries.clear();
    }

    fn index_of(&self, pid: u32) -> (r: Option<usize>)
        ensures
            match r {
                Some(i) => i < self.entries@.len() && self.entries@[i as int].0 == pid,
                None => !self.spec_has(pid),
            },
    {
        let n = self.entries.len();
        let mut i: usize = 0;
        while i < n
            invariant
                i <= n,
                n == self.entries@.len(),
                forall|k: int| 0 <= k < i ==> (#[trigger] self.entries@[k]).0 != pid,
            decreases n - i,
        {
            if self.entries[i].0 == pid {
                return Some(i);
            }
            i += 1;
        }
        None
    }

    proof fn lemma_at(self, i: int)
        requires
            self.wf(),
            0 <= i < self.entries@.len(),
        ensures
            self.spec_has(self.entries@[i].0),
            self.spec_icon(self.entries@[i].0) == self.entries@[i].1@,
    {
        let pid = self.entries@[i].0;
        assert(self.spec_has(pid));
        let j = choose|j: int|
            0 <= j < self.entries@.len() && (#[trigger] self.entries@[j]).0 == pid;
        if i < j {
            assert(self.entries@[i].0 != self.entries@[j].0);
        } else if j < i {
            assert(self.entries@[j].0 != self.entries@[i].0);
        }
    }

    /// Record the icon shown for `pid`, replacing any earlier one.
    pub fn put(&mut self, pid: u32, icon: String)
        requires
            old(self).wf(),
        ensures
            final(self).wf(),
            final(self).spec_has(pid),
            final(self).spec_icon(pid) == icon@,
            forall|p: u32| p != pid ==> final(self).spec_has(p) == old(self).spec_has(p),
            forall|p: u32|
                p != pid && old(self).spec_has(p) ==> final(self).spec_icon(p) == old(
                    self,
                ).spec_icon(p),
    {
        let ghost oldm = *self;
        match self.index_of(pid) {
            Some(i) => {
                self.entries.set(i, (pid, icon));
                proof {
                    lemma_icon_map_frame(oldm, *self, i as int, pid);
                }
            },
            None => {
                self.entries.push((pid, icon));
                proof {
                    lemma_icon_map_frame(oldm, *self, oldm.entries@.len() as int, pid);
                }
            },
        }
    }

    pub fn get(&self, pid: u32) -> (r: Option<&String>)
        requires
            self.wf(),
        ensures
            match r {
                Some(s) => self.spec_has(pid) && s@ == self.spec_icon(pid),
                None => !self.spec_has(pid),
            },
    {
        match self.index_of(pid) {
            Some(i) => {
                proof {
                    self.lemma_at(i as int);
                }
                Some(&self.entries[i].1)
            },
            None => None,
        }
    }
}

proof fn lemma_icon_map_frame(oldm: IconMap, newm: IconMap, i: int, pid: u32)
    requires
        oldm.wf(),
        0 <= i < newm.entries@.len(),
        newm.entries@.len() == oldm.entries@.len() || (newm.entries@.len() == oldm.entries@.len()
            + 1 && i == oldm.entries@.len()),
        newm.entries@[i].0 == pid,
        forall|k: int|
            0 <= k < newm.entries@.len() && k != i ==> newm.entries@[k] == oldm.entries@[k],
        i < oldm.entries@.len() ==> oldm.entries@[i].0 == pid,
        i == oldm.entries@.len() ==> !oldm.spec_has(pid),
    ensures
        newm.wf(),
        newm.spec_has(pid),
        newm.spec_icon(pid) == newm.entries@[i].1@,
        forall|p: u32| p != pid ==> newm.spec_has(p) == oldm.spec_has(p),
        forall|p: u32|
            p != pid && oldm.spec_has(p) ==> newm.spec_icon(p) == oldm.spec_icon(p),
{
    assert forall|a: int, b: int|
        0 <= a < b < newm.entries@.len() implies (#[trigger] newm.entries@[a]).0 != (
    #[trigger] newm.entries@[b]).0 by {
        if a != i && b != i {
            assert(oldm.entries@[a].0 != oldm.entries@[b].0);
        } else if b == i && i == oldm.entries@.len() {
            assert(oldm.entries@[a].0 == newm.entries@[a].0);
            if newm.entries@[a].0 == pid {
                assert(oldm.spec_has(pid));
            }
        } else if b == i {
            assert(oldm.entries@[a].0 != oldm.entries@[b].0);
        } else {
            assert(oldm.entries@[a].0 != oldm.entries@[b].0);
        }
    }
    newm.lemma_at(i);
    assert forall|p: u32| p != pid implies newm.spec_has(p) == oldm.spec_has(p) by {
        if newm.spec_has(p) {
            let k = choose|k: int|
                0 <= k < newm.entries@.len() && (#[trigger] newm.entries@[k]).0 == p;
            assert(k != i);
            assert(oldm.entries@[k].0 == p);
        }
        if oldm.spec_has(p) {
            let k = choose|k: int|
                0 <= k < oldm.entries@.len() && (#[trigger] oldm.entries@[k]).0 == p;
            assert(k != i ==> newm.entries@[k].0 == p);
            if k == i {
                assert(oldm.entries@[i].0 == pid);
            }
        }
    }
    assert forall|p: u32| p != pid && oldm.spec_has(p) implies newm.spec_icon(p)
        == oldm.spec_icon(p) by {
        let k = choose|k: int|
            0 <= k < oldm.entries@.len() && (#[trigger] oldm.entries@[k]).0 == p;
        assert(k != i);
        assert(newm.entries@[k].0 == p);
        newm.lemma_at(k);
        oldm.lemma_at(k);
    }
}

/// Does any node of this level carry the pid?
pub fn node_list_contains_pid(v: &Vec<Node>, pid: u32) -> (b: bool)
    ensures
        b == level_has_pid(seq_views(v@), pid),
{
    proof {
        lemma_seq_views(v@);
    }
    let n = v.len();
    let mut i: usize = 0;
    while i < n
        invariant
            n == v@.len(),
            seq_views(v@).len() == n,
            forall|k: int| 0 <= k < n ==> #[trigger] seq_views(v@)[k] == v@[k]@,
            i <= n,
            forall|k: int| 0 <= k < i ==> (#[trigger] v@[k]).pid != pid,
        decreases n - i,
    {
        if v[i].pid == pid {
            assert(seq_views(v@)[i as int].pid == pid);
            return true;
        }
        i += 1;
    }
    proof {
        if level_has_pid(seq_views(v@), pid) {
            let k = choose|k: int|
                0 <= k < seq_views(v@).len() && (#[trigger] seq_views(v@)[k]).pid == pid;
            assert(v@[k]@.pid == pid);
        }
    }
    false
}

/// The view of an optional borrowed service record.
pub open spec fn svc_view(o: Option<&ServiceRecord>) -> Option<ServiceRecord> {
    match o {
        Some(s) => Some(*s),
        None => None,
    }
}

/// The nodes of `olds` whose pid the incoming set still names and the
/// snapshot still knows, in their old order, first occurrence only: these
/// survive the cycle.
pub open spec fn surviving(olds: Seq<NodeView>, pids: Seq<u32>, t: ProcessTable) -> Seq<NodeView>
    decreases olds.len(),
{
    if olds.len() == 0 {
        Seq::empty()
    } else {
        let rest = surviving(olds.drop_last(), pids, t);
        let o = olds.last();
        if pids.contains(o.pid) && t.spec_has(o.pid) && !level_has_pid(rest, o.pid) {
            rest.push(o)
        } else {
            rest
        }
    }
}

/// How one reconciled process node relates to the node it replaces (`prev`
/// of a survivor; nothing for a newly created node): identity is kept,
/// display fields are freshly derived from the snapshot record, statistics
/// are raw or merged as configured, and its child list is itself a
/// reconciliation of the record's declared children, to depth `fuel`, with
/// this node's resolved icon as the children's fallback — so an app's
/// descendants inherit the app's icon.
pub open spec fn process_node_rel(
    prev: Option<NodeView>,
    n: NodeView,
    t: ProcessTable,
    icons: IconMap,
    dicon: Seq<char>,
    merged: bool,
    section: SectionType,
    svc: Option<ServiceRecord>,
    fuel: nat,
) -> bool
    decreases fuel, 0int,
{
    &&& n.content_type == ContentType::Process
    &&& n.section_type == section
    &&& t.spec_has(n.pid)
    &&& (match prev {
        Some(o) => n.pid == o.pid && n.uid == o.uid && n.id == o.id && n.command_line
            == o.command_line,
        None => n.id == pid_key(n.pid) && n.command_line == spec_join_space(
            t.spec_get(n.pid).cmd.deep_view(),
        ),
    })
    &&& n.name == spec_display_name(
        t.spec_get(n.pid).exe@,
        t.spec_get(n.pid).cmd.deep_view(),
        t.spec_get(n.pid).name@,
    )
    &&& n.stats == (if merged {
        spec_merged_stats(t, n.pid, t.entries@.len() as nat)
    } else {
        t.spec_get(n.pid).usage_stats
    })
    &&& n.icon == (if icons.spec_has(n.pid) {
        icons.spec_icon(n.pid)
    } else {
        dicon
    })
    &&& (match svc {
        Some(s) => n.service_running == s.running && n.service_enabled == s.enabled
            && n.service_failed == s.failed && n.service_stopped == s.spec_stopped(),
        None => true,
    })
    &&& (if fuel == 0 {
        n.children.len() == 0
    } else {
        process_level_rel(
            match prev {
                Some(o) => o.children,
                None => Seq::empty(),
            },
            n.children,
            t,
            t.spec_get(n.pid).children@,
            icons,
            n.icon,
            merged,
            section,
            svc,
            (fuel - 1) as nat,
        )
    })
}

/// How one reconciled level relates to the level it replaces: survivors
/// first, in their old order and with their old identity, then one new node
/// for each incoming pid the level did not hold, and the level's pids end
/// up exactly the incoming pids the snapshot knows.
pub open spec fn process_level_rel(
    olds: Seq<NodeView>,
    news: Seq<NodeView>,
    t: ProcessTable,
    pids: Seq<u32>,
    icons: IconMap,
    dicon: Seq<char>,
    merged: bool,
    section: SectionType,
    svc: Option<ServiceRecord>,
    fuel: nat,
) -> bool
    decreases fuel, 1int,
{
    let surv = surviving(olds, pids, t);
    &&& level_pids_unique(news)
    &&& (forall|p: u32|
        #[trigger] level_has_pid(news, p) == (pids.contains(p) && t.spec_has(p)))
    &&& news.len() >= surv.len()
    &&& (forall|k: int|
        0 <= k < surv.len() ==> process_node_rel(
            Some(surv[k]),
            #[trigger] news[k],
            t,
            icons,
            dicon,
            merged,
            section,
            svc,
            fuel,
        ))
    &&& (forall|k: int|
        surv.len() <= k < news.len() ==> process_node_rel(
            None,
            #[trigger] news[k],
            t,
            icons,
            dicon,
            merged,
            section,
            svc,
            fuel,
        ) && !level_has_pid(olds, news[k].pid))
}

/// Levels with pointwise equal pids hold the same pids.
proof fn lemma_same_pids(a: Seq<NodeView>, b: Seq<NodeView>)
    requires
        a.len() == b.len(),
        forall|k: int| 0 <= k < a.len() ==> (#[trigger] a[k]).pid == (#[trigger] b[k]).pid,
    ensures
        forall|p: u32| level_has_pid(a, p) == level_has_pid(b, p),
{
    assert forall|p: u32| level_has_pid(a, p) == level_has_pid(b, p) by {
        if level_has_pid(a, p) {
            let k = choose|k: int| 0 <= k < a.len() && (#[trigger] a[k]).pid == p;
            assert(b[k].pid == p);
        }
        if level_has_pid(b, p) {
            let k = choose|k: int| 0 <= k < b.len() && (#[trigger] b[k]).pid == p;
            assert(a[k].pid == p);
        }
    }
}

/// A freshly created process node, seeded with its identity and static
/// fields; the shared update path populates the rest.
fn new_process_node(rec: &ProcessRecord, section_type: SectionType, gen: &mut UidGen) -> (n: Node)
    ensures
        n.pid == rec.pid,
        n.id@ == pid_key(rec.pid),
        n.uid == old(gen).next,
        final(gen).next >= old(gen).next,
        n.content_type == ContentType::Process,
        n.section_type == section_type,
        n.command_line@ == spec_join_space(rec.cmd.deep_view()),
        n.children@.len() == 0,
{
    let id = u64_dec_str(rec.pid as u64);
    let command_line = join_space(&rec.cmd);
    Node {
        id,
        uid: gen.fresh(),
        content_type: ContentType::Process,
        section_type,
        pid: rec.pid,
        service_id: 0,
        name: String::new(),
        icon: String::new(),
        command_line,
        file_path: String::new(),
        user: String::new(),
        group: String::new(),
        stats: UsageStats::zero(),
        service_running: false,
        service_enabled: false,
        service_failed: false,
        service_stopped: false,
        children: Vec::new(),
    }
}

/// The shared update-in-place path for a process node, used on survivors
/// and on freshly created nodes alike: display name, statistics, icon, and
/// the owning service's state flags.
fn refresh_process_fields(
    node: &mut Node,
    rec: &ProcessRecord,
    t: &ProcessTable,
    icons: &IconMap,
    default_icon: &str,
    use_merged: bool,
    section_type: SectionType,
    svc: Option<&ServiceRecord>,
)
    requires
        t.wf(),
        icons.wf(),
        rec.pid == old(node).pid,
        t.spec_has(rec.pid),
        *rec == t.spec_get(rec.pid),
    ensures
        final(node).pid == old(node).pid,
        final(node).uid == old(node).uid,
        final(node).id == old(node).id,
        final(node).command_line == old(node).command_line,
        final(node).children == old(node).children,
        final(node).service_id == old(node).service_id,
        final(node).user == old(node).user,
        final(node).group == old(node).group,
        final(node).file_path == old(node).file_path,
        final(node).content_type == ContentType::Process,
        final(node).section_type == section_type,
        final(node).name@ == spec_display_name(rec.exe@, rec.cmd.deep_view(), rec.name@),
        final(node).stats == (if use_merged {
            spec_merged_stats(*t, rec.pid, t.entries@.len() as nat)
        } else {
            rec.usage_stats
        }),
        final(node).icon@ == (if icons.spec_has(rec.pid) {
            icons.spec_icon(rec.pid)
        } else {
            default_icon@
        }),
        (match svc {
            Some(s) => {
                &&& final(node).service_running == s.running
                &&& final(node).service_enabled == s.enabled
                &&& final(node).service_failed == s.failed
                &&& final(node).service_stopped == s.spec_stopped()
            },
            None => {
                &&& final(node).service_running == old(node).service_running
                &&& final(node).service_enabled == old(node).service_enabled
                &&& final(node).service_failed == old(node).service_failed
                &&& final(node).service_stopped == old(node).service_stopped
            },
        }),
{
    node.content_type = ContentType::Process;
    node.section_type = section_type;
    node.name = display_name(rec.exe.as_str(), &rec.cmd, rec.name.as_str());
    node.stats = if use_merged {
        let len = t.len();
        merged_usage_stats(t, rec.pid, len)
    } else {
        rec.usage_stats
    };
    node.icon = match icons.get(rec.pid) {
        Some(s) => s.clone(),
        None => default_icon.to_owned(),
    };
    match svc {
        Some(s) => {
            node.service_running = s.running;
            node.service_enabled = s.enabled;
            node.service_failed = s.failed;
            node.service_stopped = s.is_stopped();
        },
        None => {},
    }
}

/// Reconcile one level of process nodes against the incoming pid set:
/// update survivors in place (recursing into their children), drop the
/// dead, append one node per incoming pid the level did not hold, and
/// record every touched node in the model map.
pub fn update_processes(
    t: &ProcessTable,
    pids: &Vec<u32>,
    list: &mut Vec<Node>,
    app_icons: &IconMap,
    icon: &str,
    use_merged_stats: bool,
    section_type: SectionType,
    parent_service: Option<&ServiceRecord>,
    model_map: &mut ModelMap,
    gen: &mut UidGen,
    fuel: usize,
)
    requires
        t.wf(),
        app_icons.wf(),
        old(model_map).wf(),
    ensures
        final(model_map).wf(),
        final(gen).next >= old(gen).next,
        forall|p: u32| old(model_map).spec_has(p) ==> final(model_map).spec_has(p),
        forall|p: u32|
            #[trigger] forest_has_pid(seq_views(final(list)@), p) ==> final(model_map).spec_has(p)
                && final(model_map).spec_get(p).pid == p && forest_has_node(
                seq_views(final(list)@),
                final(model_map).spec_get(p),
            ),
        forall|p: u32|
            old(model_map).spec_has(p) && !(#[trigger] forest_has_pid(
                seq_views(final(list)@),
                p,
            )) ==> final(model_map).spec_has(p) && final(model_map).spec_get(p) == old(
                model_map,
            ).spec_get(p),
        process_level_rel(
            seq_views(old(list)@),
            seq_views(final(list)@),
            *t,
            pids@,
            *app_icons,
            icon@,
            use_merged_stats,
            section_type,
            svc_view(parent_service),
            fuel as nat,
        ),
    decreases fuel,
{
    let ghost olds_v = seq_views(old(list)@);
    let ghost nn = olds_v.len();
    proof {
        lemma_seq_views(old(list)@);
    }
    let mut out: Vec<Node> = Vec::new();
    let mut j: usize = 0;
    let n0 = list.len();
    proof {
        assert(seq_views(list@) =~= olds_v.subrange(0, nn as int));
        assert(seq_views(out@) =~= Seq::<NodeView>::empty());
    }
    while j < n0
        invariant
            t.wf(),
            app_icons.wf(),
            model_map.wf(),
            gen.next >= old(gen).next,
            forall|p: u32| old(model_map).spec_has(p) ==> model_map.spec_has(p),
            j <= n0,
            nn == n0,
            nn == olds_v.len(),
            list@.len() == n0 - j,
            seq_views(list@) == olds_v.subrange(j as int, nn as int),
            seq_views(out@).len() == surviving(olds_v.subrange(0, j as int), pids@, *t).len(),
            forall|k: int|
                0 <= k < seq_views(out@).len() ==> process_node_rel(
                    Some(surviving(olds_v.subrange(0, j as int), pids@, *t)[k]),
                    #[trigger] seq_views(out@)[k],
                    *t,
                    *app_icons,
                    icon@,
                    use_merged_stats,
                    section_type,
                    svc_view(parent_service),
                    fuel as nat,
                ),
            forall|p: u32|
                #[trigger] level_has_pid(seq_views(out@), p) == (level_has_pid(
                    olds_v.subrange(0, j as int),
                    p,
                ) && pids@.contains(p) && t.spec_has(p)),
            level_pids_unique(seq_views(out@)),
            forall|p: u32|
                #[trigger] forest_has_pid(seq_views(out@), p) ==> model_map.spec_has(p)
                    && model_map.spec_get(p).pid == p && forest_has_node(
                    seq_views(out@),
                    model_map.spec_get(p),
                ),
            forall|p: u32|
                old(model_map).spec_has(p) && !(#[trigger] forest_has_pid(
                    seq_views(out@),
                    p,
                )) ==> model_map.spec_has(p) && model_map.spec_get(p) == old(
                    model_map,
                ).spec_get(p),
        decreases n0 - j,
    {
        let ghost prefix = olds_v.subrange(0, j as int);
        let ghost prefix1 = olds_v.subrange(0, j + 1 as int);
        let ghost surv_pre = surviving(prefix, pids@, *t);
        let ghost outv_pre = seq_views(out@);
        let ghost lpre = list@;
        proof {
            assert(prefix1.drop_last() =~= prefix);
            assert(prefix1.last() == olds_v[j as int]);
            lemma_seq_views(lpre);
            lemma_same_pids_of_rel(
                surv_pre,
                outv_pre,
                *t,
                *app_icons,
                icon@,
                use_merged_stats,
                section_type,
                svc_view(parent_service),
                fuel as nat,
            );
        }
        let mut node = list.remove(0);
        let ghost old_node_view = node@;
        proof {
            assert(node == lpre[0]);
            assert(seq_views(lpre)[0] == lpre[0]@);
            assert(olds_v.subrange(j as int, nn as int)[0] == olds_v[j as int]);
            assert(old_node_view == olds_v[j as int]);
            assert(list@ =~= lpre.drop_first());
            lemma_seq_views(list@);
            assert(seq_views(list@) =~= olds_v.subrange(j + 1, nn as int)) by {
                assert forall|k: int| 0 <= k < list@.len() implies seq_views(list@)[k]
                    == olds_v.subrange(j + 1, nn as int)[k] by {
                    assert(seq_views(list@)[k] == list@[k]@);
                    assert(list@[k] == lpre[k + 1]);
                    assert(seq_views(lpre)[k + 1] == lpre[k + 1]@);
                    assert(seq_views(lpre) == olds_v.subrange(j as int, nn as int));
                }
            }
        }
        let keep = pids_contain(pids, node.pid) && !node_list_contains_pid(&out, node.pid);
        if keep {
            match t.get(node.pid) {
                Some(rec) => {
                    let ghost mm0 = *model_map;
                    refresh_process_fields(
                        &mut node,
                        rec,
                        t,
                        app_icons,
                        icon,
                        use_merged_stats,
                        section_type,
                        parent_service,
                    );
                    if fuel == 0 {
                        node.children.clear();
                        proof {
                            assert(seq_views(node.children@) =~= Seq::<NodeView>::empty());
                        }
                    } else {
                        // The children inherit this node's resolved icon as
                        // their fallback, so an app's descendants keep the
                        // app's icon.
                        let child_icon = node.icon.clone();
                        update_processes(
                            t,
                            &rec.children,
                            &mut node.children,
                            app_icons,
                            child_icon.as_str(),
                            use_merged_stats,
                            section_type,
                            parent_service,
                            model_map,
                            gen,
                            fuel - 1,
                        );
                    }
                    let ghost mm1 = *model_map;
                    let copy = duplicate(&node);
                    model_map.put(copy);
                    proof {
                        assert(!level_has_pid(surv_pre, old_node_view.pid));
                        assert(surviving(prefix1, pids@, *t) =~= surv_pre.push(old_node_view));
                        assert(process_node_rel(
                            Some(old_node_view),
                            node@,
                            *t,
                            *app_icons,
                            icon@,
                            use_merged_stats,
                            section_type,
                            svc_view(parent_service),
                            fuel as nat,
                        ));
                    }
                    let ghost prevec = out@;
                    let ghost nodeg = node;
                    out.push(node);
                    proof {
                        assert(out@ == prevec.push(nodeg));
                        lemma_seq_views_push(prevec, nodeg);
                        assert(nodeg@.children == seq_views(nodeg.children@));
                        lemma_map_forest_step(
                            *old(model_map),
                            mm0,
                            mm1,
                            *model_map,
                            outv_pre,
                            nodeg@,
                        );
                    }
                },
                None => {
                    proof {
                        assert(surviving(prefix1, pids@, *t) =~= surv_pre);
                    }
                },
            }
        } else {
            proof {
                if pids@.contains(old_node_view.pid) && t.spec_has(old_node_view.pid) {
                    assert(level_has_pid(outv_pre, old_node_view.pid));
                    assert(level_has_pid(surv_pre, old_node_view.pid));
                    assert(surviving(prefix1, pids@, *t) =~= surv_pre);
                } else {
                    assert(surviving(prefix1, pids@, *t) =~= surv_pre);
                }
            }
        }
        proof {
            assert(prefix1 =~= prefix.push(olds_v[j as int]));
            lemma_level_push(prefix, olds_v[j as int]);
        }
        j += 1;
    }
    proof {
        assert(olds_v.subrange(0, nn as int) =~= olds_v);
    }
    // Append a node for every incoming pid the level did not hold.
    let ghost survfull = surviving(olds_v, pids@, *t);
    let np = pids.len();
    let mut m: usize = 0;
    proof {
        assert(pids@.subrange(0, 0) =~= Seq::<u32>::empty());
    }
    while m < np
        invariant
            t.wf(),
            app_icons.wf(),
            model_map.wf(),
            gen.next >= old(gen).next,
            forall|p: u32| old(model_map).spec_has(p) ==> model_map.spec_has(p),
            m <= np,
            np == pids@.len(),
            nn == olds_v.len(),
            survfull == surviving(olds_v, pids@, *t),
            seq_views(out@).len() >= survfull.len(),
            forall|k: int|
                0 <= k < survfull.len() ==> process_node_rel(
                    Some(survfull[k]),
                    #[trigger] seq_views(out@)[k],
                    *t,
                    *app_icons,
                    icon@,
                    use_merged_stats,
                    section_type,
                    svc_view(parent_service),
                    fuel as nat,
                ),
            forall|k: int|
                survfull.len() <= k < seq_views(out@).len() ==> process_node_rel(
                    None,
                    #[trigger] seq_views(out@)[k],
                    *t,
                    *app_icons,
                    icon@,
                    use_merged_stats,
                    section_type,
                    svc_view(parent_service),
                    fuel as nat,
                ) && !level_has_pid(olds_v, seq_views(out@)[k].pid),
            forall|p: u32|
                #[trigger] level_has_pid(seq_views(out@), p) == ((level_has_pid(olds_v, p)
                    || pids@.subrange(0, m as int).contains(p)) && pids@.contains(p)
                    && t.spec_has(p)),
            level_pids_unique(seq_views(out@)),
            forall|p: u32|
                #[trigger] forest_has_pid(seq_views(out@), p) ==> model_map.spec_has(p)
                    && model_map.spec_get(p).pid == p && forest_has_node(
                    seq_views(out@),
                    model_map.spec_get(p),
                ),
            forall|p: u32|
                old(model_map).spec_has(p) && !(#[trigger] forest_has_pid(
                    seq_views(out@),
                    p,
                )) ==> model_map.spec_has(p) && model_map.spec_get(p) == old(
                    model_map,
                ).spec_get(p),
        decreases np - m,
    {
        let p = pids[m];
        let ghost outv_pre = seq_views(out@);
        proof {
            assert(pids@.contains(p)) by {
                assert(pids@[m as int] == p);
            }
            lemma_prefix_contains_step(pids@, m as int);
        }
        if !node_list_contains_pid(&out, p) {
            match t.get(p) {
                Some(rec) => {
                    let ghost mm0 = *model_map;
                    let mut node = new_process_node(rec, section_type, gen);
                    refresh_process_fields(
                        &mut node,
                        rec,
                        t,
                        app_icons,
                        icon,
                        use_merged_stats,
                        section_type,
                        parent_service,
                    );
                    if fuel == 0 {
                        node.children.clear();
                        proof {
                            assert(seq_views(node.children@) =~= Seq::<NodeView>::empty());
                        }
                    } else {
                        proof {
                            assert(seq_views(node.children@) =~= Seq::<NodeView>::empty());
                        }
                        // As above: children inherit the resolved icon.
                        let child_icon = node.icon.clone();
                        update_processes(
                            t,
                            &rec.children,
                            &mut node.children,
                            app_icons,
                            child_icon.as_str(),
                            use_merged_stats,
                            section_type,
                            parent_service,
                            model_map,
                            gen,
                            fuel - 1,
                        );
                    }
                    let ghost mm1 = *model_map;
                    let copy = duplicate(&node);
                    model_map.put(copy);
                    proof {
                        assert(!level_has_pid(olds_v, p));
                        assert(process_node_rel(
                            None,
                            node@,
                            *t,
                            *app_icons,
                            icon@,
                            use_merged_stats,
                            section_type,
                            svc_view(parent_service),
                            fuel as nat,
                        ));
                    }
                    let ghost prevec = out@;
                    let ghost nodeg = node;
                    out.push(node);
                    proof {
                        assert(out@ == prevec.push(nodeg));
                        lemma_seq_views_push(prevec, nodeg);
                        assert(nodeg@.children == seq_views(nodeg.children@));
                        lemma_map_forest_step(
                            *old(model_map),
                            mm0,
                            mm1,
                            *model_map,
                            outv_pre,
                            nodeg@,
                        );
                    }
                },
                None => {},
            }
        }
        m += 1;
    }
    proof {
        assert(pids@.subrange(0, np as int) =~= pids@);
    }
    core::mem::swap(list, &mut out);
}


/// One reconciled node joins the level: the model map, already correct for
/// the level built so far and updated by the node's child reconciliation
/// and by the node's own entry, is correct for the level with the node
/// appended — every forest pid maps to a node of the forest, and entries
/// for pids outside the forest are untouched.
proof fn lemma_map_forest_step(
    old0: ModelMap,
    mm0: ModelMap,
    mm1: ModelMap,
    mm2: ModelMap,
    outv: Seq<NodeView>,
    x: NodeView,
)
    requires
        forall|p: u32|
            #[trigger] forest_has_pid(outv, p) ==> mm0.spec_has(p) && mm0.spec_get(p).pid == p
                && forest_has_node(outv, mm0.spec_get(p)),
        forall|p: u32|
            old0.spec_has(p) && !(#[trigger] forest_has_pid(outv, p)) ==> mm0.spec_has(p)
                && mm0.spec_get(p) == old0.spec_get(p),
        forall|p: u32|
            #[trigger] forest_has_pid(x.children, p) ==> mm1.spec_has(p) && mm1.spec_get(p).pid
                == p && forest_has_node(x.children, mm1.spec_get(p)),
        forall|p: u32|
            mm0.spec_has(p) && !(#[trigger] forest_has_pid(x.children, p)) ==> mm1.spec_has(p)
                && mm1.spec_get(p) == mm0.spec_get(p),
        mm2.spec_has(x.pid),
        mm2.spec_get(x.pid) == x,
        forall|p: u32| p != x.pid ==> mm2.spec_has(p) == mm1.spec_has(p),
        forall|p: u32|
            p != x.pid && mm1.spec_has(p) ==> mm2.spec_get(p) == mm1.spec_get(p),
    ensures
        forall|p: u32|
            #[trigger] forest_has_pid(outv.push(x), p) ==> mm2.spec_has(p) && mm2.spec_get(p).pid
                == p && forest_has_node(outv.push(x), mm2.spec_get(p)),
        forall|p: u32|
            old0.spec_has(p) && !(#[trigger] forest_has_pid(outv.push(x), p)) ==> mm2.spec_has(p)
                && mm2.spec_get(p) == old0.spec_get(p),
{
    lemma_forest_push(outv, x);
    assert forall|p: u32|
        #[trigger] forest_has_pid(outv.push(x), p) implies mm2.spec_has(p) && mm2.spec_get(p).pid
        == p && forest_has_node(outv.push(x), mm2.spec_get(p)) by {
        if p == x.pid {
        } else if forest_has_pid(x.children, p) {
            assert(mm2.spec_get(p) == mm1.spec_get(p));
            assert(forest_has_node(x.children, mm2.spec_get(p)));
        } else {
            assert(forest_has_pid(outv, p));
            assert(mm1.spec_get(p) == mm0.spec_get(p));
            assert(forest_has_node(outv, mm2.spec_get(p)));
        }
    }
    assert forall|p: u32|
        old0.spec_has(p) && !(#[trigger] forest_has_pid(outv.push(x), p)) implies mm2.spec_has(p)
        && mm2.spec_get(p) == old0.spec_get(p) by {
        assert(!forest_has_pid(outv, p));
        assert(p != x.pid);
        assert(!forest_has_pid(x.children, p));
    }
}

/// Pushing one node extends the level's views by that node's view.
proof fn lemma_seq_views_push(olds: Seq<Node>, x: Node)
    ensures
        seq_views(olds.push(x)) == seq_views(olds).push(x@),
        forall|p: u32|
            #[trigger] level_has_pid(seq_views(olds).push(x@), p) == (level_has_pid(
                seq_views(olds),
                p,
            ) || x@.pid == p),
        level_pids_unique(seq_views(olds)) && !level_has_pid(seq_views(olds), x@.pid)
            ==> level_pids_unique(seq_views(olds).push(x@)),
{
    assert(olds.push(x).drop_last() =~= olds);
    assert(olds.push(x).last() == x);
    lemma_level_push(seq_views(olds), x@);
}

/// Pushing one view onto a level adds exactly that view's pid.
pub proof fn lemma_level_push(v: Seq<NodeView>, x: NodeView)
    ensures
        forall|p: u32|
            #[trigger] level_has_pid(v.push(x), p) == (level_has_pid(v, p) || x.pid == p),
        level_pids_unique(v) && !level_has_pid(v, x.pid) ==> level_pids_unique(v.push(x)),
{
    assert forall|p: u32|
        #[trigger] level_has_pid(v.push(x), p) == (level_has_pid(v, p) || x.pid == p) by {
        if level_has_pid(v.push(x), p) {
            let k = choose|k: int|
                0 <= k < v.push(x).len() && (#[trigger] v.push(x)[k]).pid == p;
            if k < v.len() {
                assert(v[k].pid == p);
            }
        }
        if level_has_pid(v, p) {
            let k = choose|k: int| 0 <= k < v.len() && (#[trigger] v[k]).pid == p;
            assert(v.push(x)[k].pid == p);
        }
        if x.pid == p {
            assert(v.push(x)[v.len() as int].pid == p);
        }
    }
    if level_pids_unique(v) && !level_has_pid(v, x.pid) {
        assert forall|a: int, b: int|
            0 <= a < b < v.push(x).len() implies (#[trigger] v.push(x)[a]).pid != (
        #[trigger] v.push(x)[b]).pid by {
            if b < v.len() {
                assert(v[a].pid != v[b].pid);
            } else {
                if v[a].pid == x.pid {
                    assert(level_has_pid(v, x.pid));
                }
            }
        }
    }
}


/// Extending the scanned prefix by one pid keeps every other pid's
/// prefix-membership, and adds the scanned pid's.
proof fn lemma_prefix_contains_step(pids: Seq<u32>, m: int)
    requires
        0 <= m < pids.len(),
    ensures
        forall|p: u32|
            #[trigger] pids.subrange(0, m + 1).contains(p) == (pids.subrange(0, m).contains(p)
                || pids[m] == p),
{
    assert forall|p: u32|
        #[trigger] pids.subrange(0, m + 1).contains(p) == (pids.subrange(0, m).contains(p)
            || pids[m] == p) by {
        if pids.subrange(0, m + 1).contains(p) {
            let k = choose|k: int| 0 <= k < m + 1 && #[trigger] pids.subrange(0, m + 1)[k] == p;
            if k < m {
                assert(pids.subrange(0, m)[k] == p);
            }
        }
        if pids.subrange(0, m).contains(p) {
            let k = choose|k: int| 0 <= k < m && #[trigger] pids.subrange(0, m)[k] == p;
            assert(pids.subrange(0, m + 1)[k] == p);
        }
        if pids[m] == p {
            assert(pids.subrange(0, m + 1)[m] == p);
        }
    }
}

/// A level that relates node for node to the survivors holds the same pids.
proof fn lemma_same_pids_of_rel(
    surv: Seq<NodeView>,
    outv: Seq<NodeView>,
    t: ProcessTable,
    icons: IconMap,
    dicon: Seq<char>,
    merged: bool,
    section: SectionType,
    svc: Option<ServiceRecord>,
    fuel: nat,
)
    requires
        outv.len() == surv.len(),
        forall|k: int|
            0 <= k < outv.len() ==> process_node_rel(
                Some(surv[k]),
                #[trigger] outv[k],
                t,
                icons,
                dicon,
                merged,
                section,
                svc,
                fuel,
            ),
    ensures
        forall|p: u32| level_has_pid(outv, p) == level_has_pid(surv, p),
{
    assert forall|k: int| 0 <= k < outv.len() implies (#[trigger] outv[k]).pid == surv[k].pid by {
        assert(process_node_rel(Some(surv[k]), outv[k], t, icons, dicon, merged, section, svc, fuel));
    }
    lemma_same_pids(outv, surv);
}

/// A service's display icon, from its state booleans.
pub open spec fn spec_service_icon(s: ServiceRecord) -> Seq<char> {
    if s.running {
        "service-running"@
    } else if s.failed {
        "service-failed"@
    } else if s.enabled {
        "service-stopped"@
    } else {
        "service-disabled"@
    }
}

/// The icon named by a service's state.
pub fn service_icon(s: &ServiceRecord) -> (r: String)
    ensures
        r@ == spec_service_icon(*s),
{
    if s.running {
        String::from_str("service-running")
    } else if s.failed {
        String::from_str("service-failed")
    } else if s.enabled {
        String::from_str("service-stopped")
    } else {
        String::from_str("service-disabled")
    }
}

/// The characters of an optional string, empty when absent.
pub open spec fn opt_str(o: Option<String>) -> Seq<char> {
    match o {
        Some(s) => s@,
        None => Seq::empty(),
    }
}

/// An optional pid, zero when absent.
pub open spec fn opt_pid(o: Option<u32>) -> u32 {
    match o {
        Some(p) => p,
        None => 0,
    }
}

/// A service id occurs among the nodes of one level.
pub fn node_list_contains_sid(v: &Vec<Node>, sid: u64) -> (b: bool)
    ensures
        b == crate::node::level_has_sid(seq_views(v@), sid),
{
    proof {
        lemma_seq_views(v@);
    }
    let n = v.len();
    let mut i: usize = 0;
    while i < n
        invariant
            n == v@.len(),
            seq_views(v@).len() == n,
            forall|k: int| 0 <= k < n ==> #[trigger] seq_views(v@)[k] == v@[k]@,
            i <= n,
            forall|k: int| 0 <= k < i ==> (#[trigger] v@[k]).service_id != sid,
        decreases n - i,
    {
        if v[i].service_id == sid {
            assert(seq_views(v@)[i as int].service_id == sid);
            return true;
        }
        i += 1;
    }
    proof {
        if crate::node::level_has_sid(seq_views(v@), sid) {
            let k = choose|k: int|
                0 <= k < seq_views(v@).len() && (#[trigger] seq_views(v@)[k]).service_id == sid;
            assert(v@[k]@.service_id == sid);
        }
    }
    false
}

/// The service nodes that survive a cycle: those whose id the snapshot
/// still knows, in their old order, first occurrence only.
pub open spec fn surviving_services(olds: Seq<NodeView>, st: ServiceTable) -> Seq<NodeView>
    decreases olds.len(),
{
    if olds.len() == 0 {
        Seq::empty()
    } else {
        let rest = surviving_services(olds.drop_last(), st);
        let o = olds.last();
        if st.spec_has(o.service_id) && !crate::node::level_has_sid(rest, o.service_id) {
            rest.push(o)
        } else {
            rest
        }
    }
}

/// How one reconciled service node relates to the node it replaces:
/// identity, name and file path are kept (set once at creation), the state
/// booleans, icon, owning pid and user/group mirror the record, statistics
/// are the merged statistics of the owning pid when the snapshot knows it,
/// and the single process child subtree exists exactly when the service
/// owns a pid.
pub open spec fn service_node_rel(
    prev: Option<NodeView>,
    n: NodeView,
    pt: ProcessTable,
    st: ServiceTable,
    icons: IconMap,
    dicon: Seq<char>,
    merged: bool,
    section: SectionType,
    fuel: nat,
) -> bool {
    let s = st.spec_get(n.service_id);
    &&& n.content_type == ContentType::Service
    &&& n.section_type == section
    &&& st.spec_has(n.service_id)
    &&& (match prev {
        Some(o) => n.service_id == o.service_id && n.uid == o.uid && n.id == o.id && n.name
            == o.name && n.file_path == o.file_path && n.command_line == o.command_line,
        None => n.id == dec_chars(n.service_id as int) && n.name == s.name@ && n.file_path
            == s.file_path@,
    })
    &&& n.service_running == s.running
    &&& n.service_enabled == s.enabled
    &&& n.service_failed == s.failed
    &&& n.service_stopped == s.spec_stopped()
    &&& n.icon == spec_service_icon(s)
    &&& n.pid == opt_pid(s.pid)
    &&& n.user == opt_str(s.user)
    &&& n.group == opt_str(s.group)
    &&& n.stats == (match s.pid {
        Some(p) => if pt.spec_has(p) {
            spec_merged_stats(pt, p, pt.entries@.len() as nat)
        } else {
            match prev {
                Some(o) => o.stats,
                None => UsageStats::spec_zero(),
            }
        },
        None => match prev {
            Some(o) => o.stats,
            None => UsageStats::spec_zero(),
        },
    })
    &&& (match s.pid {
        Some(p) => process_level_rel(
            match prev {
                Some(o) => o.children,
                None => Seq::empty(),
            },
            n.children,
            pt,
            seq![p],
            icons,
            dicon,
            merged,
            section,
            Some(s),
            fuel,
        ),
        None => n.children.len() == 0,
    })
}

/// How one reconciled service level relates to the level it replaces:
/// survivors first, in their old order and with their old identity, then
/// one new node per service the level did not hold, and the level's ids end
/// up exactly the snapshot's service ids.
pub open spec fn service_level_rel(
    olds: Seq<NodeView>,
    news: Seq<NodeView>,
    pt: ProcessTable,
    st: ServiceTable,
    icons: IconMap,
    dicon: Seq<char>,
    merged: bool,
    section: SectionType,
    fuel: nat,
) -> bool {
    let surv = surviving_services(olds, st);
    &&& crate::node::level_sids_unique(news)
    &&& (forall|id: u64|
        #[trigger] crate::node::level_has_sid(news, id) == st.spec_has(id))
    &&& news.len() >= surv.len()
    &&& (forall|k: int|
        0 <= k < surv.len() ==> service_node_rel(
            Some(surv[k]),
            #[trigger] news[k],
            pt,
            st,
            icons,
            dicon,
            merged,
            section,
            fuel,
        ))
    &&& (forall|k: int|
        surv.len() <= k < news.len() ==> service_node_rel(
            None,
            #[trigger] news[k],
            pt,
            st,
            icons,
            dicon,
            merged,
            section,
            fuel,
        ) && !crate::node::level_has_sid(olds, news[k].service_id))
}

/// Pushing one view onto a level adds exactly that view's service id.
pub proof fn lemma_level_push_sid(v: Seq<NodeView>, x: NodeView)
    ensures
        forall|id: u64|
            #[trigger] crate::node::level_has_sid(v.push(x), id) == (crate::node::level_has_sid(
                v,
                id,
            ) || x.service_id == id),
        crate::node::level_sids_unique(v) && !crate::node::level_has_sid(v, x.service_id)
            ==> crate::node::level_sids_unique(v.push(x)),
{
    assert forall|id: u64|
        #[trigger] crate::node::level_has_sid(v.push(x), id) == (crate::node::level_has_sid(v, id)
            || x.service_id == id) by {
        if crate::node::level_has_sid(v.push(x), id) {
            let k = choose|k: int|
                0 <= k < v.push(x).len() && (#[trigger] v.push(x)[k]).service_id == id;
            if k < v.len() {
                assert(v[k].service_id == id);
            }
        }
        if crate::node::level_has_sid(v, id) {
            let k = choose|k: int| 0 <= k < v.len() && (#[trigger] v[k]).service_id == id;
            assert(v.push(x)[k].service_id == id);
        }
        if x.service_id == id {
            assert(v.push(x)[v.len() as int].service_id == id);
        }
    }
    if crate::node::level_sids_unique(v) && !crate::node::level_has_sid(v, x.service_id) {
        assert forall|a: int, b: int|
            0 <= a < b < v.push(x).len() implies (#[trigger] v.push(x)[a]).service_id != (
        #[trigger] v.push(x)[b]).service_id by {
            if b < v.len() {
                assert(v[a].service_id != v[b].service_id);
            } else {
                if v[a].service_id == x.service_id {
                    assert(crate::node::level_has_sid(v, x.service_id));
                }
            }
        }
    }
}

/// Levels that relate node for node to the service survivors hold the same ids.
proof fn lemma_same_sids_of_rel(
    surv: Seq<NodeView>,
    outv: Seq<NodeView>,
    pt: ProcessTable,
    st: ServiceTable,
    icons: IconMap,
    dicon: Seq<char>,
    merged: bool,
    section: SectionType,
    fuel: nat,
)
    requires
        outv.len() == surv.len(),
        forall|k: int|
            0 <= k < outv.len() ==> service_node_rel(
                Some(surv[k]),
                #[trigger] outv[k],
                pt,
                st,
                icons,
                dicon,
                merged,
                section,
                fuel,
            ),
    ensures
        forall|id: u64|
            crate::node::level_has_sid(outv, id) == crate::node::level_has_sid(surv, id),
{
    assert forall|k: int| 0 <= k < outv.len() implies (#[trigger] outv[k]).service_id
        == surv[k].service_id by {
        assert(service_node_rel(Some(surv[k]), outv[k], pt, st, icons, dicon, merged, section, fuel));
    }
    assert forall|id: u64|
        crate::node::level_has_sid(outv, id) == crate::node::level_has_sid(surv, id) by {
        if crate::node::level_has_sid(outv, id) {
            let k = choose|k: int|
                0 <= k < outv.len() && (#[trigger] outv[k]).service_id == id;
            assert(surv[k].service_id == id);
        }
        if crate::node::level_has_sid(surv, id) {
            let k = choose|k: int|
                0 <= k < surv.len() && (#[trigger] surv[k]).service_id == id;
            assert(outv[k].service_id == id);
        }
    }
}

/// The shared update-in-place path for a service node, used on survivors
/// and on freshly created nodes alike.
fn refresh_service_fields(
    node: &mut Node,
    s: &ServiceRecord,
    pt: &ProcessTable,
    app_icons: &IconMap,
    icon: &str,
    use_merged: bool,
    section_type: SectionType,
    gen: &mut UidGen,
    fuel: usize,
)
    requires
        pt.wf(),
        app_icons.wf(),
    ensures
        final(node).uid == old(node).uid,
        final(node).id == old(node).id,
        final(node).name == old(node).name,
        final(node).file_path == old(node).file_path,
        final(node).command_line == old(node).command_line,
        final(node).content_type == ContentType::Service,
        final(node).section_type == section_type,
        final(node).service_id == s.id,
        final(node).service_running == s.running,
        final(node).service_enabled == s.enabled,
        final(node).service_failed == s.failed,
        final(node).service_stopped == s.spec_stopped(),
        final(node).icon@ == spec_service_icon(*s),
        final(node).pid == opt_pid(s.pid),
        final(node).user@ == opt_str(s.user),
        final(node).group@ == opt_str(s.group),
        final(node).stats == (match s.pid {
            Some(p) => if pt.spec_has(p) {
                spec_merged_stats(*pt, p, pt.entries@.len() as nat)
            } else {
                old(node).stats
            },
            None => old(node).stats,
        }),
        (match s.pid {
            Some(p) => process_level_rel(
                seq_views(old(node).children@),
                seq_views(final(node).children@),
                *pt,
                seq![p],
                *app_icons,
                icon@,
                use_merged,
                section_type,
                Some(*s),
                fuel as nat,
            ),
            None => final(node).children@.len() == 0,
        }),
        final(gen).next >= old(gen).next,
{
    node.content_type = ContentType::Service;
    node.section_type = section_type;
    node.service_id = s.id;
    node.service_running = s.running;
    node.service_enabled = s.enabled;
    node.service_failed = s.failed;
    node.service_stopped = s.is_stopped();
    node.icon = service_icon(s);
    node.pid = match s.pid {
        Some(p) => p,
        None => 0,
    };
    node.user = match &s.user {
        Some(u) => u.clone(),
        None => String::new(),
    };
    node.group = match &s.group {
        Some(g) => g.clone(),
        None => String::new(),
    };
    match s.pid {
        Some(p) => {
            if pt.contains_pid(p) {
                let len = pt.len();
                node.stats = merged_usage_stats(pt, p, len);
            }
            let mut pid_vec: Vec<u32> = Vec::new();
            pid_vec.push(p);
            proof {
                assert(pid_vec@ =~= seq![p]);
            }
            let mut local_map = ModelMap::new();
            update_processes(
                pt,
                &pid_vec,
                &mut node.children,
                app_icons,
                icon,
                use_merged,
                section_type,
                Some(s),
                &mut local_map,
                gen,
                fuel,
            );
        },
        None => {
            node.children.clear();
        },
    }
}

/// A freshly created service node, seeded with its identity and static
/// fields; the shared update path populates the rest.
fn new_service_node(s: &ServiceRecord, section_type: SectionType, gen: &mut UidGen) -> (n: Node)
    ensures
        n.service_id == s.id,
        n.id@ == dec_chars(s.id as int),
        n.uid == old(gen).next,
        final(gen).next >= old(gen).next,
        n.name@ == s.name@,
        n.file_path@ == s.file_path@,
        n.children@.len() == 0,
        n.stats == UsageStats::spec_zero(),
{
    let id = u64_dec_str(s.id);
    Node {
        id,
        uid: gen.fresh(),
        content_type: ContentType::Service,
        section_type,
        pid: 0,
        service_id: s.id,
        name: s.name.clone(),
        icon: String::new(),
        command_line: String::new(),
        file_path: s.file_path.clone(),
        user: String::new(),
        group: String::new(),
        stats: UsageStats::zero(),
        service_running: false,
        service_enabled: false,
        service_failed: false,
        service_stopped: false,
        children: Vec::new(),
    }
}

/// Reconcile one section's service nodes against the snapshot's service
/// table: update survivors in place, drop the dead, append one node per
/// service the level did not hold.
pub fn update_services(
    process_map: &ProcessTable,
    services: &ServiceTable,
    list: &mut Vec<Node>,
    app_icons: &IconMap,
    icon: &str,
    use_merged_stats: bool,
    section_type: SectionType,
    gen: &mut UidGen,
    fuel: usize,
)
    requires
        process_map.wf(),
        services.wf(),
        app_icons.wf(),
    ensures
        final(gen).next >= old(gen).next,
        service_level_rel(
            seq_views(old(list)@),
            seq_views(final(list)@),
            *process_map,
            *services,
            *app_icons,
            icon@,
            use_merged_stats,
            section_type,
            fuel as nat,
        ),
{
    let ghost olds_v = seq_views(old(list)@);
    let ghost nn = olds_v.len();
    proof {
        lemma_seq_views(old(list)@);
    }
    let mut out: Vec<Node> = Vec::new();
    let mut j: usize = 0;
    let n0 = list.len();
    proof {
        assert(seq_views(list@) =~= olds_v.subrange(0, nn as int));
        assert(seq_views(out@) =~= Seq::<NodeView>::empty());
    }
    while j < n0
        invariant
            process_map.wf(),
            services.wf(),
            app_icons.wf(),
            gen.next >= old(gen).next,
            j <= n0,
            nn == n0,
            nn == olds_v.len(),
            list@.len() == n0 - j,
            seq_views(list@) == olds_v.subrange(j as int, nn as int),
            seq_views(out@).len() == surviving_services(olds_v.subrange(0, j as int), *services).len(),
            forall|k: int|
                0 <= k < seq_views(out@).len() ==> service_node_rel(
                    Some(surviving_services(olds_v.subrange(0, j as int), *services)[k]),
                    #[trigger] seq_views(out@)[k],
                    *process_map,
                    *services,
                    *app_icons,
                    icon@,
                    use_merged_stats,
                    section_type,
                    fuel as nat,
                ),
            forall|id: u64|
                #[trigger] crate::node::level_has_sid(seq_views(out@), id) == (
                crate::node::level_has_sid(olds_v.subrange(0, j as int), id) && services.spec_has(
                    id,
                )),
            crate::node::level_sids_unique(seq_views(out@)),
        decreases n0 - j,
    {
        let ghost prefix = olds_v.subrange(0, j as int);
        let ghost prefix1 = olds_v.subrange(0, j + 1 as int);
        let ghost surv_pre = surviving_services(prefix, *services);
        let ghost outv_pre = seq_views(out@);
        let ghost lpre = list@;
        proof {
            assert(prefix1.drop_last() =~= prefix);
            assert(prefix1.last() == olds_v[j as int]);
            lemma_seq_views(lpre);
            lemma_same_sids_of_rel(
                surv_pre,
                outv_pre,
                *process_map,
                *services,
                *app_icons,
                icon@,
                use_merged_stats,
                section_type,
                fuel as nat,
            );
        }
        let mut node = list.remove(0);
        let ghost old_node_view = node@;
        proof {
            assert(node == lpre[0]);
            assert(seq_views(lpre)[0] == lpre[0]@);
            assert(olds_v.subrange(j as int, nn as int)[0] == olds_v[j as int]);
            assert(old_node_view == olds_v[j as int]);
            assert(list@ =~= lpre.drop_first());
            lemma_seq_views(list@);
            assert(seq_views(list@) =~= olds_v.subrange(j + 1, nn as int)) by {
                assert forall|k: int| 0 <= k < list@.len() implies seq_views(list@)[k]
                    == olds_v.subrange(j + 1, nn as int)[k] by {
                    assert(seq_views(list@)[k] == list@[k]@);
                    assert(list@[k] == lpre[k + 1]);
                    assert(seq_views(lpre)[k + 1] == lpre[k + 1]@);
                    assert(seq_views(lpre) == olds_v.subrange(j as int, nn as int));
                }
            }
        }
        let keep = !node_list_contains_sid(&out, node.service_id);
        if keep {
            match services.get(node.service_id) {
                Some(s) => {
                    refresh_service_fields(
                        &mut node,
                        s,
                        process_map,
                        app_icons,
                        icon,
                        use_merged_stats,
                        section_type,
                        gen,
                        fuel,
                    );
                    proof {
                        assert(!crate::node::level_has_sid(surv_pre, old_node_view.service_id));
                        assert(surviving_services(prefix1, *services) =~= surv_pre.push(
                            old_node_view,
                        ));
                        assert(service_node_rel(
                            Some(old_node_view),
                            node@,
                            *process_map,
                            *services,
                            *app_icons,
                            icon@,
                            use_merged_stats,
                            section_type,
                            fuel as nat,
                        ));
                    }
                    let ghost prevec = out@;
                    let ghost nodeg = node;
                    out.push(node);
                    proof {
                        assert(out@ == prevec.push(nodeg));
                        assert(prevec.push(nodeg).drop_last() =~= prevec);
                        assert(seq_views(out@) == outv_pre.push(nodeg@));
                        lemma_level_push_sid(outv_pre, nodeg@);
                    }
                },
                None => {
                    proof {
                        assert(surviving_services(prefix1, *services) =~= surv_pre);
                    }
                },
            }
        } else {
            proof {
                if services.spec_has(old_node_view.service_id) {
                    assert(crate::node::level_has_sid(outv_pre, old_node_view.service_id));
                    assert(crate::node::level_has_sid(surv_pre, old_node_view.service_id));
                    assert(surviving_services(prefix1, *services) =~= surv_pre);
                } else {
                    assert(surviving_services(prefix1, *services) =~= surv_pre);
                }
            }
        }
        proof {
            assert(prefix1 =~= prefix.push(olds_v[j as int]));
            lemma_level_push_sid(prefix, olds_v[j as int]);
        }
        j += 1;
    }
    proof {
        assert(olds_v.subrange(0, nn as int) =~= olds_v);
    }
    let ghost survfull = surviving_services(olds_v, *services);
    let ns = services.entries.len();
    let mut m: usize = 0;
    while m < ns
        invariant
            process_map.wf(),
            services.wf(),
            app_icons.wf(),
            gen.next >= old(gen).next,
            m <= ns,
            ns == services.entries@.len(),
            nn == olds_v.len(),
            survfull == surviving_services(olds_v, *services),
            seq_views(out@).len() >= survfull.len(),
            forall|k: int|
                0 <= k < survfull.len() ==> service_node_rel(
                    Some(survfull[k]),
                    #[trigger] seq_views(out@)[k],
                    *process_map,
                    *services,
                    *app_icons,
                    icon@,
                    use_merged_stats,
                    section_type,
                    fuel as nat,
                ),
            forall|k: int|
                survfull.len() <= k < seq_views(out@).len() ==> service_node_rel(
                    None,
                    #[trigger] seq_views(out@)[k],
                    *process_map,
                    *services,
                    *app_icons,
                    icon@,
                    use_merged_stats,
                    section_type,
                    fuel as nat,
                ) && !crate::node::level_has_sid(olds_v, seq_views(out@)[k].service_id),
            forall|id: u64|
                #[trigger] crate::node::level_has_sid(seq_views(out@), id) == ((
                crate::node::level_has_sid(olds_v, id) || exists|e: int|
                    0 <= e < m && (#[trigger] services.entries@[e]).id == id)
                    && services.spec_has(id)),
            crate::node::level_sids_unique(seq_views(out@)),
        decreases ns - m,
    {
        let ghost outv_pre = seq_views(out@);
        let sid = services.entries[m].id;
        proof {
            services.lemma_get_at(m as int);
        }
        if !node_list_contains_sid(&out, sid) {
            match services.get(sid) {
                Some(s) => {
                    let mut node = new_service_node(s, section_type, gen);
                    refresh_service_fields(
                        &mut node,
                        s,
                        process_map,
                        app_icons,
                        icon,
                        use_merged_stats,
                        section_type,
                        gen,
                        fuel,
                    );
                    proof {
                        assert(!crate::node::level_has_sid(olds_v, sid));
                        assert(service_node_rel(
                            None,
                            node@,
                            *process_map,
                            *services,
                            *app_icons,
                            icon@,
                            use_merged_stats,
                            section_type,
                            fuel as nat,
                        ));
                    }
                    let ghost prevec = out@;
                    let ghost nodeg = node;
                    out.push(node);
                    proof {
                        assert(out@ == prevec.push(nodeg));
                        assert(prevec.push(nodeg).drop_last() =~= prevec);
                        assert(seq_views(out@) == outv_pre.push(nodeg@));
                        lemma_level_push_sid(outv_pre, nodeg@);
                    }
                },
                None => {},
            }
        }
        m += 1;
    }
    proof {
        assert forall|id: u64|
            #[trigger] crate::node::level_has_sid(seq_views(out@), id) == services.spec_has(
            id,
        ) by {
            if services.spec_has(id) {
                let e = choose|e: int|
                    0 <= e < services.entries@.len() && (#[trigger] services.entries@[e]).id == id;
            }
        }
    }
    core::mem::swap(list, &mut out);
}

/// An app's display icon: its record's icon, or the generic executable icon.
pub open spec fn spec_app_icon(a: AppRecord) -> Seq<char> {
    match a.icon {
        Some(s) => s@,
        None => "application-x-executable"@,
    }
}

/// The merged statistics of an app: the field-wise saturating sum of the
/// merged statistics of its primary processes the snapshot knows.
pub open spec fn spec_app_stats(pt: ProcessTable, prim: Seq<u32>) -> UsageStats
    decreases prim.len(),
{
    if prim.len() == 0 {
        UsageStats::spec_zero()
    } else {
        UsageStats::spec_merge(
            spec_app_stats(pt, prim.drop_last()),
            if pt.spec_has(prim.last()) {
                spec_merged_stats(pt, prim.last(), pt.entries@.len() as nat)
            } else {
                UsageStats::spec_zero()
            },
        )
    }
}


/// How one app's pass leaves the pid-to-icon map, relative to the map it
/// started from: exactly the app's primary pids the snapshot knows were
/// added (mapped to `app_icon`), and every other entry is untouched.
pub open spec fn app_icons_rel(
    icons: IconMap,
    before: IconMap,
    prim: Seq<u32>,
    upto: int,
    pt: ProcessTable,
    app_icon: Seq<char>,
) -> bool {
    &&& (forall|p: u32|
        #[trigger] icons.spec_has(p) == (before.spec_has(p) || (prim.subrange(0, upto).contains(p)
            && pt.spec_has(p))))
    &&& (forall|p: u32|
        prim.subrange(0, upto).contains(p) && pt.spec_has(p) ==> #[trigger] icons.spec_icon(p)
            == app_icon)
    &&& (forall|p: u32|
        before.spec_has(p) && !(prim.subrange(0, upto).contains(p) && pt.spec_has(p))
            ==> #[trigger] icons.spec_icon(p) == before.spec_icon(p))
}

/// An identity key occurs among the nodes of one level.
pub fn node_list_contains_key(v: &Vec<Node>, id: &String) -> (b: bool)
    ensures
        b == level_has_key(seq_views(v@), id@),
{
    proof {
        lemma_seq_views(v@);
    }
    let n = v.len();
    let mut i: usize = 0;
    while i < n
        invariant
            n == v@.len(),
            seq_views(v@).len() == n,
            forall|k: int| 0 <= k < n ==> #[trigger] seq_views(v@)[k] == v@[k]@,
            i <= n,
            forall|k: int| 0 <= k < i ==> (#[trigger] v@[k]).id@ != id@,
        decreases n - i,
    {
        if v[i].id.eq(id) {
            assert(seq_views(v@)[i as int].id == id@);
            return true;
        }
        i += 1;
    }
    proof {
        if level_has_key(seq_views(v@), id@) {
            let k = choose|k: int|
                0 <= k < seq_views(v@).len() && (#[trigger] seq_views(v@)[k]).id == id@;
            assert(v@[k]@.id == id@);
        }
    }
    false
}

/// The app nodes that survive a cycle: those whose id the snapshot still
/// knows, in their old order, first occurrence only.
pub open spec fn surviving_apps(olds: Seq<NodeView>, at: AppTable) -> Seq<NodeView>
    decreases olds.len(),
{
    if olds.len() == 0 {
        Seq::empty()
    } else {
        let rest = surviving_apps(olds.drop_last(), at);
        let o = olds.last();
        if at.spec_has(o.id) && !level_has_key(rest, o.id) {
            rest.push(o)
        } else {
            rest
        }
    }
}

/// The app-child nodes that survive: those whose pid is still primary, in
/// their old order, first occurrence only.
pub open spec fn surviving_app_children(olds: Seq<NodeView>, prim: Seq<u32>) -> Seq<NodeView>
    decreases olds.len(),
{
    if olds.len() == 0 {
        Seq::empty()
    } else {
        let rest = surviving_app_children(olds.drop_last(), prim);
        let o = olds.last();
        if prim.contains(o.pid) && !level_has_pid(rest, o.pid) {
            rest.push(o)
        } else {
            rest
        }
    }
}

/// How an app's child list relates to the one it replaces: an app never
/// creates process nodes of its own, it borrows the nodes the process pass
/// materialised this cycle (through the model map); surviving pids keep
/// their place, pids no longer primary leave, and newly primary pids join
/// at the end when the model map knows them.
pub open spec fn app_children_rel(
    olds: Seq<NodeView>,
    news: Seq<NodeView>,
    prim: Seq<u32>,
    mm: ModelMap,
) -> bool {
    let surv = surviving_app_children(olds, prim);
    &&& level_pids_unique(news)
    &&& (forall|p: u32|
        #[trigger] level_has_pid(news, p) == (prim.contains(p) && (level_has_pid(olds, p)
            || mm.spec_has(p))))
    &&& news.len() >= surv.len()
    &&& (forall|k: int|
        0 <= k < surv.len() ==> (#[trigger] news[k]).pid == surv[k].pid && (if mm.spec_has(
            surv[k].pid,
        ) {
            news[k] == mm.spec_get(surv[k].pid)
        } else {
            news[k] == surv[k]
        }))
    &&& (forall|k: int|
        surv.len() <= k < news.len() ==> mm.spec_has((#[trigger] news[k]).pid) && news[k]
            == mm.spec_get(news[k].pid) && !level_has_pid(olds, news[k].pid))
}

/// How one reconciled app node relates to the node it replaces: identity
/// and name are kept (set once at creation), and when primary-process
/// resolution finds representatives the icon, merged statistics and child
/// list mirror them; when it finds none the children are cleared and the
/// rest is left as it was (a recoverable diagnostic, not an error).
pub open spec fn app_node_rel(
    prev: Option<NodeView>,
    n: NodeView,
    at: AppTable,
    pt: ProcessTable,
    mm: ModelMap,
    section: SectionType,
) -> bool {
    let a = at.spec_get(n.id);
    let prim = spec_primary_processes(a, pt);
    &&& n.content_type == ContentType::App
    &&& n.section_type == section
    &&& at.spec_has(n.id)
    &&& (match prev {
        Some(o) => n.uid == o.uid && n.id == o.id && n.name == o.name,
        None => n.name == a.name@,
    })
    &&& (if prim.len() == 0 {
        &&& n.children.len() == 0
        &&& n.icon == (match prev {
            Some(o) => o.icon,
            None => Seq::<char>::empty(),
        })
        &&& n.stats == (match prev {
            Some(o) => o.stats,
            None => UsageStats::spec_zero(),
        })
    } else {
        &&& n.icon == spec_app_icon(a)
        &&& n.stats == spec_app_stats(pt, prim)
        &&& app_children_rel(
            match prev {
                Some(o) => o.children,
                None => Seq::empty(),
            },
            n.children,
            prim,
            mm,
        )
    })
}

/// How one reconciled app level relates to the level it replaces.
pub open spec fn app_level_rel(
    olds: Seq<NodeView>,
    news: Seq<NodeView>,
    at: AppTable,
    pt: ProcessTable,
    mm: ModelMap,
    section: SectionType,
) -> bool {
    let surv = surviving_apps(olds, at);
    &&& crate::node::level_keys_unique(news)
    &&& (forall|id: Seq<char>| #[trigger] level_has_key(news, id) == at.spec_has(id))
    &&& news.len() >= surv.len()
    &&& (forall|k: int|
        0 <= k < surv.len() ==> app_node_rel(
            Some(surv[k]),
            #[trigger] news[k],
            at,
            pt,
            mm,
            section,
        ))
    &&& (forall|k: int|
        surv.len() <= k < news.len() ==> app_node_rel(None, #[trigger] news[k], at, pt, mm, section)
            && !level_has_key(olds, news[k].id))
}

/// Pushing one view onto a level adds exactly that view's key.
pub proof fn lemma_level_push_key(v: Seq<NodeView>, x: NodeView)
    ensures
        forall|id: Seq<char>|
            #[trigger] level_has_key(v.push(x), id) == (level_has_key(v, id) || x.id == id),
        crate::node::level_keys_unique(v) && !level_has_key(v, x.id)
            ==> crate::node::level_keys_unique(v.push(x)),
{
    assert forall|id: Seq<char>|
        #[trigger] level_has_key(v.push(x), id) == (level_has_key(v, id) || x.id == id) by {
        if level_has_key(v.push(x), id) {
            let k = choose|k: int| 0 <= k < v.push(x).len() && (#[trigger] v.push(x)[k]).id == id;
            if k < v.len() {
                assert(v[k].id == id);
            }
        }
        if level_has_key(v, id) {
            let k = choose|k: int| 0 <= k < v.len() && (#[trigger] v[k]).id == id;
            assert(v.push(x)[k].id == id);
        }
        if x.id == id {
            assert(v.push(x)[v.len() as int].id == id);
        }
    }
    if crate::node::level_keys_unique(v) && !level_has_key(v, x.id) {
        assert forall|a: int, b: int|
            0 <= a < b < v.push(x).len() implies (#[trigger] v.push(x)[a]).id != (
        #[trigger] v.push(x)[b]).id by {
            if b < v.len() {
                assert(v[a].id != v[b].id);
            } else {
                if v[a].id == x.id {
                    assert(level_has_key(v, x.id));
                }
            }
        }
    }
}

/// Levels that relate node for node to the app survivors hold the same keys.
proof fn lemma_same_keys_of_rel(
    surv: Seq<NodeView>,
    outv: Seq<NodeView>,
    at: AppTable,
    pt: ProcessTable,
    mm: ModelMap,
    section: SectionType,
)
    requires
        outv.len() == surv.len(),
        forall|k: int|
            0 <= k < outv.len() ==> app_node_rel(
                Some(surv[k]),
                #[trigger] outv[k],
                at,
                pt,
                mm,
                section,
            ),
    ensures
        forall|id: Seq<char>| level_has_key(outv, id) == level_has_key(surv, id),
{
    assert forall|k: int| 0 <= k < outv.len() implies (#[trigger] outv[k]).id == surv[k].id by {
        assert(app_node_rel(Some(surv[k]), outv[k], at, pt, mm, section));
    }
    assert forall|id: Seq<char>| level_has_key(outv, id) == level_has_key(surv, id) by {
        if level_has_key(outv, id) {
            let k = choose|k: int| 0 <= k < outv.len() && (#[trigger] outv[k]).id == id;
            assert(surv[k].id == id);
        }
        if level_has_key(surv, id) {
            let k = choose|k: int| 0 <= k < surv.len() && (#[trigger] surv[k]).id == id;
            assert(outv[k].id == id);
        }
    }
}


/// The domain and values of the pid-to-icon map after one app's pass,
/// relative to the apps processed so far (those whose key the rebuilt level
/// holds): the map holds exactly the primary pids the snapshot knows of
/// processed apps, each mapped to the resolved icon of an app that claims
/// it.
proof fn lemma_apps_icons_level_step(
    icons: IconMap,
    pre: IconMap,
    at: AppTable,
    pt: ProcessTable,
    outv: Seq<NodeView>,
    x: NodeView,
    a: AppRecord,
)
    requires
        at.wf(),
        at.spec_has(x.id),
        at.spec_get(x.id) == a,
        app_icons_rel(
            icons,
            pre,
            spec_primary_processes(a, pt),
            spec_primary_processes(a, pt).len() as int,
            pt,
            spec_app_icon(a),
        ),
        forall|p: u32|
            #[trigger] pre.spec_has(p) == (exists|i: int|
                0 <= i < at.entries@.len() && level_has_key(
                    outv,
                    (#[trigger] at.entries@[i]).id@,
                ) && spec_primary_processes(at.entries@[i], pt).contains(p) && pt.spec_has(p)),
        forall|p: u32|
            #[trigger] pre.spec_has(p) ==> exists|i: int|
                0 <= i < at.entries@.len() && level_has_key(
                    outv,
                    (#[trigger] at.entries@[i]).id@,
                ) && spec_primary_processes(at.entries@[i], pt).contains(p) && pt.spec_has(p)
                    && pre.spec_icon(p) == spec_app_icon(at.entries@[i]),
    ensures
        forall|p: u32|
            #[trigger] icons.spec_has(p) == (exists|i: int|
                0 <= i < at.entries@.len() && level_has_key(
                    outv.push(x),
                    (#[trigger] at.entries@[i]).id@,
                ) && spec_primary_processes(at.entries@[i], pt).contains(p) && pt.spec_has(p)),
        forall|p: u32|
            #[trigger] icons.spec_has(p) ==> exists|i: int|
                0 <= i < at.entries@.len() && level_has_key(
                    outv.push(x),
                    (#[trigger] at.entries@[i]).id@,
                ) && spec_primary_processes(at.entries@[i], pt).contains(p) && pt.spec_has(p)
                    && icons.spec_icon(p) == spec_app_icon(at.entries@[i]),
{
    lemma_level_push_key(outv, x);
    let prim = spec_primary_processes(a, pt);
    assert(prim.subrange(0, prim.len() as int) =~= prim);
    let ia = choose|i: int| 0 <= i < at.entries@.len() && (#[trigger] at.entries@[i]).id@ == x.id;
    assert(0 <= ia < at.entries@.len() && at.entries@[ia].id@ == x.id);
    at.lemma_get_at(ia);
    assert(at.entries@[ia] == a);
    assert forall|p: u32|
        #[trigger] icons.spec_has(p) == (exists|i: int|
            0 <= i < at.entries@.len() && level_has_key(outv.push(x), (#[trigger] at.entries@[i]).id@)
                && spec_primary_processes(at.entries@[i], pt).contains(p) && pt.spec_has(p)) by {
        if icons.spec_has(p) {
            if pre.spec_has(p) {
                let i = choose|i: int|
                    0 <= i < at.entries@.len() && level_has_key(
                        outv,
                        (#[trigger] at.entries@[i]).id@,
                    ) && spec_primary_processes(at.entries@[i], pt).contains(p) && pt.spec_has(p);
                assert(level_has_key(outv.push(x), at.entries@[i].id@));
            } else {
                assert(prim.contains(p) && pt.spec_has(p));
                assert(level_has_key(outv.push(x), at.entries@[ia].id@));
            }
        }
        if exists|i: int|
            0 <= i < at.entries@.len() && level_has_key(outv.push(x), (#[trigger] at.entries@[i]).id@)
                && spec_primary_processes(at.entries@[i], pt).contains(p) && pt.spec_has(p) {
            let i = choose|i: int|
                0 <= i < at.entries@.len() && level_has_key(
                    outv.push(x),
                    (#[trigger] at.entries@[i]).id@,
                ) && spec_primary_processes(at.entries@[i], pt).contains(p) && pt.spec_has(p);
            if level_has_key(outv, at.entries@[i].id@) {
                assert(pre.spec_has(p));
            } else {
                assert(at.entries@[i].id@ == x.id);
                at.lemma_get_at(i);
                assert(at.entries@[i] == a);
                assert(icons.spec_has(p));
            }
        }
    }
    assert forall|p: u32|
        #[trigger] icons.spec_has(p) implies exists|i: int|
        0 <= i < at.entries@.len() && level_has_key(outv.push(x), (#[trigger] at.entries@[i]).id@)
            && spec_primary_processes(at.entries@[i], pt).contains(p) && pt.spec_has(p)
            && icons.spec_icon(p) == spec_app_icon(at.entries@[i]) by {
        if prim.contains(p) && pt.spec_has(p) {
            assert(icons.spec_icon(p) == spec_app_icon(a));
            assert(level_has_key(outv.push(x), at.entries@[ia].id@));
            assert(0 <= ia < at.entries@.len() && level_has_key(
                outv.push(x),
                at.entries@[ia].id@,
            ) && spec_primary_processes(at.entries@[ia], pt).contains(p) && pt.spec_has(p)
                && icons.spec_icon(p) == spec_app_icon(at.entries@[ia]));
        } else {
            assert(pre.spec_has(p));
            assert(icons.spec_icon(p) == pre.spec_icon(p));
            let i = choose|i: int|
                0 <= i < at.entries@.len() && level_has_key(
                    outv,
                    (#[trigger] at.entries@[i]).id@,
                ) && spec_primary_processes(at.entries@[i], pt).contains(p) && pt.spec_has(p)
                    && pre.spec_icon(p) == spec_app_icon(at.entries@[i]);
            assert(level_has_key(outv.push(x), at.entries@[i].id@));
        }
    }
}

/// The shared update-in-place path for an app node, used on survivors and
/// on freshly created nodes alike.
fn update_app(
    node: &mut Node,
    a: &AppRecord,
    pt: &ProcessTable,
    mm: &ModelMap,
    app_icons: &mut IconMap,
    section_type: SectionType,
)
    requires
        pt.wf(),
        mm.wf(),
        old(app_icons).wf(),
    ensures
        final(app_icons).wf(),
        forall|p: u32| old(app_icons).spec_has(p) ==> final(app_icons).spec_has(p),
        app_icons_rel(
            *final(app_icons),
            *old(app_icons),
            spec_primary_processes(*a, *pt),
            spec_primary_processes(*a, *pt).len() as int,
            *pt,
            spec_app_icon(*a),
        ),
        spec_primary_processes(*a, *pt).len() == 0 ==> *final(app_icons) == *old(app_icons),
        final(node).uid == old(node).uid,
        final(node).id == old(node).id,
        final(node).name == old(node).name,
        final(node).content_type == ContentType::App,
        final(node).section_type == section_type,
        ({
            let prim = spec_primary_processes(*a, *pt);
            if prim.len() == 0 {
                &&& final(node).children@.len() == 0
                &&& final(node).icon == old(node).icon
                &&& final(node).stats == old(node).stats
            } else {
                &&& final(node).icon@ == spec_app_icon(*a)
                &&& final(node).stats == spec_app_stats(*pt, prim)
                &&& app_children_rel(
                    seq_views(old(node).children@),
                    seq_views(final(node).children@),
                    prim,
                    *mm,
                )
            }
        }),
{
    node.content_type = ContentType::App;
    node.section_type = section_type;
    let prim = primary_processes(a, pt);
    if prim.len() == 0 {
        node.children.clear();
        return ;
    }
    let icon = match &a.icon {
        Some(s) => s.clone(),
        None => String::from_str("application-x-executable"),
    };
    node.icon = icon.clone();
    // Reconcile the child list against the primary pids, borrowing nodes
    // from the model map.
    let ghost olds_ch = seq_views(old(node).children@);
    let ghost nch = olds_ch.len();
    proof {
        lemma_seq_views(old(node).children@);
    }
    let mut out_ch: Vec<Node> = Vec::new();
    let n0 = node.children.len();
    let mut j: usize = 0;
    proof {
        assert(seq_views(node.children@) =~= olds_ch.subrange(0, nch as int));
        assert(seq_views(out_ch@) =~= Seq::<NodeView>::empty());
    }
    while j < n0
        invariant
            pt.wf(),
            mm.wf(),
            j <= n0,
            nch == n0,
            nch == olds_ch.len(),
            node.uid == old(node).uid,
            node.id == old(node).id,
            node.name == old(node).name,
            node.content_type == ContentType::App,
            node.section_type == section_type,
            node.icon@ == spec_app_icon(*a),
            node.children@.len() == n0 - j,
            prim@ == spec_primary_processes(*a, *pt),
            seq_views(node.children@) == olds_ch.subrange(j as int, nch as int),
            seq_views(out_ch@).len() == surviving_app_children(
                olds_ch.subrange(0, j as int),
                prim@,
            ).len(),
            forall|k: int|
                0 <= k < seq_views(out_ch@).len() ==> {
                    let sv = surviving_app_children(olds_ch.subrange(0, j as int), prim@);
                    (#[trigger] seq_views(out_ch@)[k]).pid == sv[k].pid && (if mm.spec_has(
                        sv[k].pid,
                    ) {
                        seq_views(out_ch@)[k] == mm.spec_get(sv[k].pid)
                    } else {
                        seq_views(out_ch@)[k] == sv[k]
                    })
                },
            forall|p: u32|
                #[trigger] level_has_pid(seq_views(out_ch@), p) == (level_has_pid(
                    olds_ch.subrange(0, j as int),
                    p,
                ) && prim@.contains(p)),
            level_pids_unique(seq_views(out_ch@)),
        decreases n0 - j,
    {
        let ghost prefix = olds_ch.subrange(0, j as int);
        let ghost prefix1 = olds_ch.subrange(0, j + 1 as int);
        let ghost surv_pre = surviving_app_children(prefix, prim@);
        let ghost outv_pre = seq_views(out_ch@);
        let ghost lpre = node.children@;
        proof {
            assert(prefix1.drop_last() =~= prefix);
            assert(prefix1.last() == olds_ch[j as int]);
            lemma_seq_views(lpre);
            assert forall|p: u32| level_has_pid(outv_pre, p) == level_has_pid(surv_pre, p) by {
                if level_has_pid(outv_pre, p) {
                    let k = choose|k: int|
                        0 <= k < outv_pre.len() && (#[trigger] outv_pre[k]).pid == p;
                    assert(surv_pre[k].pid == p);
                }
                if level_has_pid(surv_pre, p) {
                    let k = choose|k: int|
                        0 <= k < surv_pre.len() && (#[trigger] surv_pre[k]).pid == p;
                    assert(outv_pre[k].pid == p);
                }
            }
        }
        let ch = node.children.remove(0);
        let ghost old_ch_view = ch@;
        proof {
            assert(ch == lpre[0]);
            assert(seq_views(lpre)[0] == lpre[0]@);
            assert(olds_ch.subrange(j as int, nch as int)[0] == olds_ch[j as int]);
            assert(old_ch_view == olds_ch[j as int]);
            assert(node.children@ =~= lpre.drop_first());
            lemma_seq_views(node.children@);
            assert(seq_views(node.children@) =~= olds_ch.subrange(j + 1, nch as int)) by {
                assert forall|k: int| 0 <= k < node.children@.len() implies seq_views(
                    node.children@,
                )[k] == olds_ch.subrange(j + 1, nch as int)[k] by {
                    assert(seq_views(node.children@)[k] == node.children@[k]@);
                    assert(node.children@[k] == lpre[k + 1]);
                    assert(seq_views(lpre)[k + 1] == lpre[k + 1]@);
                    assert(seq_views(lpre) == olds_ch.subrange(j as int, nch as int));
                }
            }
        }
        let keep = pids_contain(&prim, ch.pid) && !node_list_contains_pid(&out_ch, ch.pid);
        if keep {
            proof {
                assert(!level_has_pid(surv_pre, old_ch_view.pid));
                assert(surviving_app_children(prefix1, prim@) =~= surv_pre.push(old_ch_view));
            }
            let ghost prevec = out_ch@;
            match mm.get(ch.pid) {
                Some(m) => {
                    let copy = duplicate(m);
                    out_ch.push(copy);
                    proof {
                        assert(out_ch@.drop_last() =~= prevec);
                        assert(seq_views(out_ch@) == seq_views(prevec).push(out_ch@.last()@));
                        lemma_level_push(outv_pre, out_ch@.last()@);
                    }
                },
                None => {
                    out_ch.push(ch);
                    proof {
                        assert(out_ch@.drop_last() =~= prevec);
                        assert(seq_views(out_ch@) == seq_views(prevec).push(out_ch@.last()@));
                        lemma_level_push(outv_pre, out_ch@.last()@);
                    }
                },
            }
        } else {
            proof {
                if prim@.contains(old_ch_view.pid) {
                    assert(level_has_pid(outv_pre, old_ch_view.pid));
                    assert(level_has_pid(surv_pre, old_ch_view.pid));
                    assert(surviving_app_children(prefix1, prim@) =~= surv_pre);
                } else {
                    assert(surviving_app_children(prefix1, prim@) =~= surv_pre);
                }
            }
        }
        proof {
            assert(prefix1 =~= prefix.push(olds_ch[j as int]));
            lemma_level_push(prefix, olds_ch[j as int]);
        }
        j += 1;
    }
    proof {
        assert(olds_ch.subrange(0, nch as int) =~= olds_ch);
    }
    let ghost survfull = surviving_app_children(olds_ch, prim@);
    // Append newly primary pids the model map knows, and gather statistics
    // and icons over all primary pids.
    let np = prim.len();
    let mut acc = UsageStats::zero();
    let mut m: usize = 0;
    proof {
        assert(prim@.subrange(0, 0) =~= Seq::<u32>::empty());
    }
    while m < np
        invariant
            pt.wf(),
            mm.wf(),
            app_icons.wf(),
            forall|p: u32| old(app_icons).spec_has(p) ==> app_icons.spec_has(p),
            icon@ == spec_app_icon(*a),
            app_icons_rel(
                *app_icons,
                *old(app_icons),
                prim@,
                m as int,
                *pt,
                spec_app_icon(*a),
            ),
            m <= np,
            np == prim@.len(),
            nch == olds_ch.len(),
            prim@ == spec_primary_processes(*a, *pt),
            survfull == surviving_app_children(olds_ch, prim@),
            acc == spec_app_stats(*pt, prim@.subrange(0, m as int)),
            seq_views(out_ch@).len() >= survfull.len(),
            forall|k: int|
                0 <= k < survfull.len() ==> (#[trigger] seq_views(out_ch@)[k]).pid
                    == survfull[k].pid && (if mm.spec_has(survfull[k].pid) {
                    seq_views(out_ch@)[k] == mm.spec_get(survfull[k].pid)
                } else {
                    seq_views(out_ch@)[k] == survfull[k]
                }),
            forall|k: int|
                survfull.len() <= k < seq_views(out_ch@).len() ==> mm.spec_has(
                    (#[trigger] seq_views(out_ch@)[k]).pid,
                ) && seq_views(out_ch@)[k] == mm.spec_get(seq_views(out_ch@)[k].pid)
                    && !level_has_pid(olds_ch, seq_views(out_ch@)[k].pid),
            forall|p: u32|
                #[trigger] level_has_pid(seq_views(out_ch@), p) == (prim@.contains(p) && (
                level_has_pid(olds_ch, p) || (prim@.subrange(0, m as int).contains(p)
                    && mm.spec_has(p)))),
            level_pids_unique(seq_views(out_ch@)),
        decreases np - m,
    {
        let p = prim[m];
        let ghost outv_pre = seq_views(out_ch@);
        let ghost icons_pre = *app_icons;
        proof {
            assert(prim@.contains(p)) by {
                assert(prim@[m as int] == p);
            }
            lemma_prefix_contains_step(prim@, m as int);
            assert(prim@.subrange(0, m + 1 as int).drop_last() =~= prim@.subrange(0, m as int));
            assert(prim@.subrange(0, m + 1 as int).last() == p);
        }
        if pt.contains_pid(p) {
            let len = pt.len();
            let contribution = merged_usage_stats(pt, p, len);
            acc.merge(&contribution);
            app_icons.put(p, icon.clone());
        } else {
            proof {
                crate::stats::lemma_merge_zero(acc);
            }
        }
        if !node_list_contains_pid(&out_ch, p) {
            match mm.get(p) {
                Some(mnode) => {
                    let copy = duplicate(mnode);
                    let ghost prevec = out_ch@;
                    out_ch.push(copy);
                    proof {
                        assert(out_ch@.drop_last() =~= prevec);
                        assert(seq_views(out_ch@) == seq_views(prevec).push(out_ch@.last()@));
                        lemma_level_push(outv_pre, out_ch@.last()@);
                        assert(!level_has_pid(olds_ch, p));
                    }
                },
                None => {},
            }
        }
        proof {
            lemma_app_icons_step(
                *app_icons,
                icons_pre,
                *old(app_icons),
                prim@,
                m as int,
                *pt,
                spec_app_icon(*a),
                p,
            );
        }
        m += 1;
    }
    proof {
        assert(prim@.subrange(0, np as int) =~= prim@);
    }
    node.stats = acc;
    node.children = out_ch;
}


/// One primary pid is scanned: when the snapshot knows it, its entry was
/// written with the app's icon, else nothing changed; either way the map
/// relates to the starting map for one more scanned pid.
proof fn lemma_app_icons_step(
    icons: IconMap,
    pre: IconMap,
    before: IconMap,
    prim: Seq<u32>,
    m: int,
    pt: ProcessTable,
    app_icon: Seq<char>,
    p: u32,
)
    requires
        0 <= m < prim.len(),
        prim[m] == p,
        app_icons_rel(pre, before, prim, m, pt, app_icon),
        pt.spec_has(p) ==> {
            &&& icons.spec_has(p)
            &&& icons.spec_icon(p) == app_icon
            &&& (forall|q: u32| q != p ==> icons.spec_has(q) == pre.spec_has(q))
            &&& (forall|q: u32|
                q != p && pre.spec_has(q) ==> icons.spec_icon(q) == pre.spec_icon(q))
        },
        !pt.spec_has(p) ==> icons == pre,
    ensures
        app_icons_rel(icons, before, prim, m + 1, pt, app_icon),
{
    lemma_prefix_contains_step(prim, m);
    assert forall|q: u32|
        #[trigger] icons.spec_has(q) == (before.spec_has(q) || (prim.subrange(0, m + 1).contains(
            q,
        ) && pt.spec_has(q))) by {
        assert(prim.subrange(0, m + 1).contains(q) == (prim.subrange(0, m).contains(q) || p
            == q));
    }
    assert forall|q: u32|
        prim.subrange(0, m + 1).contains(q) && pt.spec_has(q) implies #[trigger] icons.spec_icon(
            q,
        ) == app_icon by {
        assert(prim.subrange(0, m + 1).contains(q) == (prim.subrange(0, m).contains(q) || p
            == q));
        if q != p {
            assert(pre.spec_icon(q) == app_icon);
            assert(pre.spec_has(q));
        }
    }
    assert forall|q: u32|
        before.spec_has(q) && !(prim.subrange(0, m + 1).contains(q) && pt.spec_has(q))
            implies #[trigger] icons.spec_icon(q) == before.spec_icon(q) by {
        assert(prim.subrange(0, m + 1).contains(q) == (prim.subrange(0, m).contains(q) || p
            == q));
        assert(!(prim.subrange(0, m).contains(q) && pt.spec_has(q)));
        assert(pre.spec_icon(q) == before.spec_icon(q));
        if pt.spec_has(p) {
            assert(q != p);
            assert(pre.spec_has(q));
        }
    }
}

/// A freshly created app node, seeded with its identity and static fields.
fn new_app_node(a: &AppRecord, section_type: SectionType, gen: &mut UidGen) -> (n: Node)
    ensures
        n.id@ == a.id@,
        n.uid == old(gen).next,
        final(gen).next >= old(gen).next,
        n.name@ == a.name@,
        n.children@.len() == 0,
        n.icon@ == Seq::<char>::empty(),
        n.stats == UsageStats::spec_zero(),
{
    Node {
        id: a.id.clone(),
        uid: gen.fresh(),
        content_type: ContentType::App,
        section_type,
        pid: 0,
        service_id: 0,
        name: a.name.clone(),
        icon: String::new(),
        command_line: String::new(),
        file_path: String::new(),
        user: String::new(),
        group: String::new(),
        stats: UsageStats::zero(),
        service_running: false,
        service_enabled: false,
        service_failed: false,
        service_stopped: false,
        children: Vec::new(),
    }
}

/// Reconcile the apps section against the snapshot's app table: update
/// survivors in place, drop the dead, append one node per app the level did
/// not hold, and refill the pid-to-icon map for the next process pass.
pub fn update_apps(
    app_map: &AppTable,
    process_map: &ProcessTable,
    process_model_map: &ModelMap,
    app_icons: &mut IconMap,
    list: &mut Vec<Node>,
    gen: &mut UidGen,
)
    requires
        app_map.wf(),
        process_map.wf(),
        process_model_map.wf(),
    ensures
        final(app_icons).wf(),
        forall|p: u32| final(app_icons).spec_has(p) ==> process_map.spec_has(p),
        forall|p: u32|
            #[trigger] final(app_icons).spec_has(p) == (exists|i: int|
                0 <= i < app_map.entries@.len() && (#[trigger] spec_primary_processes(
                    app_map.entries@[i],
                    *process_map,
                )).contains(p) && process_map.spec_has(p)),
        forall|p: u32|
            #[trigger] final(app_icons).spec_has(p) ==> exists|i: int|
                0 <= i < app_map.entries@.len() && (#[trigger] spec_primary_processes(
                    app_map.entries@[i],
                    *process_map,
                )).contains(p) && process_map.spec_has(p) && final(app_icons).spec_icon(p)
                    == spec_app_icon(app_map.entries@[i]),
        final(gen).next >= old(gen).next,
        app_level_rel(
            seq_views(old(list)@),
            seq_views(final(list)@),
            *app_map,
            *process_map,
            *process_model_map,
            SectionType::FirstSection,
        ),
{
    app_icons.clear();
    let ghost olds_v = seq_views(old(list)@);
    let ghost nn = olds_v.len();
    proof {
        lemma_seq_views(old(list)@);
    }
    let mut out: Vec<Node> = Vec::new();
    let mut j: usize = 0;
    let n0 = list.len();
    proof {
        assert(seq_views(list@) =~= olds_v.subrange(0, nn as int));
        assert(seq_views(out@) =~= Seq::<NodeView>::empty());
    }
    while j < n0
        invariant
            app_map.wf(),
            process_map.wf(),
            process_model_map.wf(),
            app_icons.wf(),
            forall|p: u32| app_icons.spec_has(p) ==> process_map.spec_has(p),
            forall|p: u32|
                #[trigger] app_icons.spec_has(p) == (exists|i: int|
                    0 <= i < app_map.entries@.len() && level_has_key(
                        seq_views(out@),
                        (#[trigger] app_map.entries@[i]).id@,
                    ) && spec_primary_processes(app_map.entries@[i], *process_map).contains(p)
                        && process_map.spec_has(p)),
            forall|p: u32|
                #[trigger] app_icons.spec_has(p) ==> exists|i: int|
                    0 <= i < app_map.entries@.len() && level_has_key(
                        seq_views(out@),
                        (#[trigger] app_map.entries@[i]).id@,
                    ) && spec_primary_processes(app_map.entries@[i], *process_map).contains(p)
                        && process_map.spec_has(p) && app_icons.spec_icon(p) == spec_app_icon(
                        app_map.entries@[i],
                    ),
            gen.next >= old(gen).next,
            j <= n0,
            nn == n0,
            nn == olds_v.len(),
            list@.len() == n0 - j,
            seq_views(list@) == olds_v.subrange(j as int, nn as int),
            seq_views(out@).len() == surviving_apps(olds_v.subrange(0, j as int), *app_map).len(),
            forall|k: int|
                0 <= k < seq_views(out@).len() ==> app_node_rel(
                    Some(surviving_apps(olds_v.subrange(0, j as int), *app_map)[k]),
                    #[trigger] seq_views(out@)[k],
                    *app_map,
                    *process_map,
                    *process_model_map,
                    SectionType::FirstSection,
                ),
            forall|id: Seq<char>|
                #[trigger] level_has_key(seq_views(out@), id) == (level_has_key(
                    olds_v.subrange(0, j as int),
                    id,
                ) && app_map.spec_has(id)),
            crate::node::level_keys_unique(seq_views(out@)),
        decreases n0 - j,
    {
        let ghost prefix = olds_v.subrange(0, j as int);
        let ghost prefix1 = olds_v.subrange(0, j + 1 as int);
        let ghost surv_pre = surviving_apps(prefix, *app_map);
        let ghost outv_pre = seq_views(out@);
        let ghost lpre = list@;
        proof {
            assert(prefix1.drop_last() =~= prefix);
            assert(prefix1.last() == olds_v[j as int]);
            lemma_seq_views(lpre);
            lemma_same_keys_of_rel(
                surv_pre,
                outv_pre,
                *app_map,
                *process_map,
                *process_model_map,
                SectionType::FirstSection,
            );
        }
        let mut node = list.remove(0);
        let ghost old_node_view = node@;
        proof {
            assert(node == lpre[0]);
            assert(seq_views(lpre)[0] == lpre[0]@);
            assert(olds_v.subrange(j as int, nn as int)[0] == olds_v[j as int]);
            assert(old_node_view == olds_v[j as int]);
            assert(list@ =~= lpre.drop_first());
            lemma_seq_views(list@);
            assert(seq_views(list@) =~= olds_v.subrange(j + 1, nn as int)) by {
                assert forall|k: int| 0 <= k < list@.len() implies seq_views(list@)[k]
                    == olds_v.subrange(j + 1, nn as int)[k] by {
                    assert(seq_views(list@)[k] == list@[k]@);
                    assert(list@[k] == lpre[k + 1]);
                    assert(seq_views(lpre)[k + 1] == lpre[k + 1]@);
                    assert(seq_views(lpre) == olds_v.subrange(j as int, nn as int));
                }
            }
        }
        let keep = !node_list_contains_key(&out, &node.id);
        if keep {
            match app_map.get(&node.id) {
                Some(a) => {
                    let ghost icons_pre = *app_icons;
                    update_app(
                        &mut node,
                        a,
                        process_map,
                        process_model_map,
                        app_icons,
                        SectionType::FirstSection,
                    );
                    proof {
                        assert(!level_has_key(surv_pre, old_node_view.id));
                        assert(surviving_apps(prefix1, *app_map) =~= surv_pre.push(old_node_view));
                        assert(app_node_rel(
                            Some(old_node_view),
                            node@,
                            *app_map,
                            *process_map,
                            *process_model_map,
                            SectionType::FirstSection,
                        ));
                    }
                    let ghost prevec = out@;
                    let ghost nodeg = node;
                    out.push(node);
                    proof {
                        assert(out@ == prevec.push(nodeg));
                        assert(prevec.push(nodeg).drop_last() =~= prevec);
                        assert(seq_views(out@) == outv_pre.push(nodeg@));
                        lemma_level_push_key(outv_pre, nodeg@);
                        lemma_apps_icons_level_step(
                            *app_icons,
                            icons_pre,
                            *app_map,
                            *process_map,
                            outv_pre,
                            nodeg@,
                            *a,
                        );
                    }
                },
                None => {
                    proof {
                        assert(surviving_apps(prefix1, *app_map) =~= surv_pre);
                    }
                },
            }
        } else {
            proof {
                if app_map.spec_has(old_node_view.id) {
                    assert(level_has_key(outv_pre, old_node_view.id));
                    assert(level_has_key(surv_pre, old_node_view.id));
                    assert(surviving_apps(prefix1, *app_map) =~= surv_pre);
                } else {
                    assert(surviving_apps(prefix1, *app_map) =~= surv_pre);
                }
            }
        }
        proof {
            assert(prefix1 =~= prefix.push(olds_v[j as int]));
            lemma_level_push_key(prefix, olds_v[j as int]);
        }
        j += 1;
    }
    proof {
        assert(olds_v.subrange(0, nn as int) =~= olds_v);
    }
    let ghost survfull = surviving_apps(olds_v, *app_map);
    let na = app_map.entries.len();
    let mut m: usize = 0;
    while m < na
        invariant
            app_map.wf(),
            process_map.wf(),
            process_model_map.wf(),
            app_icons.wf(),
            forall|p: u32| app_icons.spec_has(p) ==> process_map.spec_has(p),
            forall|p: u32|
                #[trigger] app_icons.spec_has(p) == (exists|i: int|
                    0 <= i < app_map.entries@.len() && level_has_key(
                        seq_views(out@),
                        (#[trigger] app_map.entries@[i]).id@,
                    ) && spec_primary_processes(app_map.entries@[i], *process_map).contains(p)
                        && process_map.spec_has(p)),
            forall|p: u32|
                #[trigger] app_icons.spec_has(p) ==> exists|i: int|
                    0 <= i < app_map.entries@.len() && level_has_key(
                        seq_views(out@),
                        (#[trigger] app_map.entries@[i]).id@,
                    ) && spec_primary_processes(app_map.entries@[i], *process_map).contains(p)
                        && process_map.spec_has(p) && app_icons.spec_icon(p) == spec_app_icon(
                        app_map.entries@[i],
                    ),
            gen.next >= old(gen).next,
            m <= na,
            na == app_map.entries@.len(),
            nn == olds_v.len(),
            survfull == surviving_apps(olds_v, *app_map),
            seq_views(out@).len() >= survfull.len(),
            forall|k: int|
                0 <= k < survfull.len() ==> app_node_rel(
                    Some(survfull[k]),
                    #[trigger] seq_views(out@)[k],
                    *app_map,
                    *process_map,
                    *process_model_map,
                    SectionType::FirstSection,
                ),
            forall|k: int|
                survfull.len() <= k < seq_views(out@).len() ==> app_node_rel(
                    None,
                    #[trigger] seq_views(out@)[k],
                    *app_map,
                    *process_map,
                    *process_model_map,
                    SectionType::FirstSection,
                ) && !level_has_key(olds_v, seq_views(out@)[k].id),
            forall|id: Seq<char>|
                #[trigger] level_has_key(seq_views(out@), id) == ((level_has_key(olds_v, id)
                    || exists|e: int|
                    0 <= e < m && (#[trigger] app_map.entries@[e]).id@ == id) && app_map.spec_has(
                    id,
                )),
            crate::node::level_keys_unique(seq_views(out@)),
        decreases na - m,
    {
        let ghost outv_pre = seq_views(out@);
        proof {
            app_map.lemma_get_at(m as int);
        }
        let aid = app_map.entries[m].id.clone();
        if !node_list_contains_key(&out, &aid) {
            match app_map.get(&aid) {
                Some(a) => {
                    let ghost icons_pre = *app_icons;
                    let mut node = new_app_node(a, SectionType::FirstSection, gen);
                    update_app(
                        &mut node,
                        a,
                        process_map,
                        process_model_map,
                        app_icons,
                        SectionType::FirstSection,
                    );
                    proof {
                        assert(!level_has_key(olds_v, aid@));
                        assert(app_node_rel(
                            None,
                            node@,
                            *app_map,
                            *process_map,
                            *process_model_map,
                            SectionType::FirstSection,
                        ));
                    }
                    let ghost prevec = out@;
                    let ghost nodeg = node;
                    out.push(node);
                    proof {
                        assert(out@ == prevec.push(nodeg));
                        assert(prevec.push(nodeg).drop_last() =~= prevec);
                        assert(seq_views(out@) == outv_pre.push(nodeg@));
                        lemma_level_push_key(outv_pre, nodeg@);
                        lemma_apps_icons_level_step(
                            *app_icons,
                            icons_pre,
                            *app_map,
                            *process_map,
                            outv_pre,
                            nodeg@,
                            *a,
                        );
                    }
                },
                None => {},
            }
        }
        m += 1;
    }
    proof {
        assert forall|id: Seq<char>|
            #[trigger] level_has_key(seq_views(out@), id) == app_map.spec_has(id) by {
            if app_map.spec_has(id) {
                let e = choose|e: int|
                    0 <= e < app_map.entries@.len() && (#[trigger] app_map.entries@[e]).id@ == id;
            }
        }
        assert forall|i: int| 0 <= i < app_map.entries@.len() implies level_has_key(
            seq_views(out@),
            (#[trigger] app_map.entries@[i]).id@,
        ) by {
            app_map.lemma_get_at(i);
        }
        assert forall|p: u32|
            #[trigger] app_icons.spec_has(p) == (exists|i: int|
                0 <= i < app_map.entries@.len() && (#[trigger] spec_primary_processes(
                    app_map.entries@[i],
                    *process_map,
                )).contains(p) && process_map.spec_has(p)) by {
            if app_icons.spec_has(p) {
                let i = choose|i: int|
                    0 <= i < app_map.entries@.len() && level_has_key(
                        seq_views(out@),
                        (#[trigger] app_map.entries@[i]).id@,
                    ) && spec_primary_processes(app_map.entries@[i], *process_map).contains(p)
                        && process_map.spec_has(p);
                assert(spec_primary_processes(app_map.entries@[i], *process_map).contains(p));
            }
            if exists|i: int|
                0 <= i < app_map.entries@.len() && (#[trigger] spec_primary_processes(
                    app_map.entries@[i],
                    *process_map,
                )).contains(p) && process_map.spec_has(p) {
                let i = choose|i: int|
                    0 <= i < app_map.entries@.len() && (#[trigger] spec_primary_processes(
                        app_map.entries@[i],
                        *process_map,
                    )).contains(p) && process_map.spec_has(p);
                assert(level_has_key(seq_views(out@), app_map.entries@[i].id@));
            }
        }
        assert forall|p: u32|
            #[trigger] app_icons.spec_has(p) implies exists|i: int|
            0 <= i < app_map.entries@.len() && (#[trigger] spec_primary_processes(
                app_map.entries@[i],
                *process_map,
            )).contains(p) && process_map.spec_has(p) && app_icons.spec_icon(p) == spec_app_icon(
                app_map.entries@[i],
            ) by {
            let i = choose|i: int|
                0 <= i < app_map.entries@.len() && level_has_key(
                    seq_views(out@),
                    (#[trigger] app_map.entries@[i]).id@,
                ) && spec_primary_processes(app_map.entries@[i], *process_map).contains(p)
                    && process_map.spec_has(p) && app_icons.spec_icon(p) == spec_app_icon(
                    app_map.entries@[i],
                );
            assert(spec_primary_processes(app_map.entries@[i], *process_map).contains(p));
        }
    }
    core::mem::swap(list, &mut out);
}

} // verus!
