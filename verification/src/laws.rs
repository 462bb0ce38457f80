//! The reconciler's cross-cutting guarantees, stated on their own: identity
//! stability (a surviving entity keeps its node, so stable references
//! survive a refresh) and exhaustive coverage (a section's keys end up
//! exactly the snapshot's keys — nothing leaks, nothing goes missing).
use vstd::prelude::*;

use crate::node::level_has_key;
use crate::node::level_has_pid;
use crate::node::level_has_sid;
use crate::node::NodeView;
use crate::reconcile::app_level_rel;
use crate::reconcile::app_node_rel;
use crate::reconcile::lemma_level_push;
use crate::reconcile::lemma_level_push_key;
use crate::reconcile::lemma_level_push_sid;
use crate::reconcile::process_level_rel;
use crate::reconcile::process_node_rel;
use crate::reconcile::service_level_rel;
use crate::reconcile::service_node_rel;
use crate::reconcile::surviving;
use crate::reconcile::surviving_apps;
use crate::reconcile::surviving_services;
use crate::reconcile::IconMap;
use crate::node::SectionType;
use crate::snapshot::AppTable;
use crate::snapshot::ProcessTable;
use crate::snapshot::ServiceRecord;
use crate::snapshot::ServiceTable;

verus! {

/// Every surviving process node is one of the old nodes, and a pid survives
/// exactly when the old level held it, the incoming set still names it and
/// the snapshot still knows it.
pub proof fn lemma_surviving_props(olds: Seq<NodeView>, pids: Seq<u32>, t: ProcessTable)
    ensures
        forall|k: int|
            0 <= k < surviving(olds, pids, t).len() ==> exists|j: int|
                0 <= j < olds.len() && olds[j] == #[trigger] surviving(olds, pids, t)[k],
        forall|p: u32|
            #[trigger] level_has_pid(surviving(olds, pids, t), p) == (level_has_pid(olds, p)
                && pids.contains(p) && t.spec_has(p)),
    decreases olds.len(),
{
    if olds.len() == 0 {
    } else {
        let dl = olds.drop_last();
        let o = olds.last();
        lemma_surviving_props(dl, pids, t);
        assert(olds =~= dl.push(o));
        lemma_level_push(dl, o);
        let rest = surviving(dl, pids, t);
        if pids.contains(o.pid) && t.spec_has(o.pid) && !level_has_pid(rest, o.pid) {
            lemma_level_push(rest, o);
            assert forall|k: int|
                0 <= k < surviving(olds, pids, t).len() implies exists|j: int|
                0 <= j < olds.len() && olds[j] == #[trigger] surviving(olds, pids, t)[k] by {
                if k < rest.len() {
                    let j = choose|j: int| 0 <= j < dl.len() && dl[j] == rest[k];
                    assert(olds[j] == surviving(olds, pids, t)[k]);
                } else {
                    assert(olds[olds.len() - 1] == surviving(olds, pids, t)[k]);
                }
            }
        } else {
            assert forall|k: int|
                0 <= k < surviving(olds, pids, t).len() implies exists|j: int|
                0 <= j < olds.len() && olds[j] == #[trigger] surviving(olds, pids, t)[k] by {
                let j = choose|j: int| 0 <= j < dl.len() && dl[j] == rest[k];
                assert(olds[j] == surviving(olds, pids, t)[k]);
            }
        }
    }
}

/// Identity stability for process levels: every pid present both in the old
/// level and in the new snapshot keeps its node — the reconciled level holds
/// a node with the same pid, the same creation id and the same identity
/// key as some old node for that pid; only field values changed.
pub proof fn lemma_identity_stability_processes(
    olds: Seq<NodeView>,
    news: Seq<NodeView>,
    t: ProcessTable,
    pids: Seq<u32>,
    icons: IconMap,
    dicon: Seq<char>,
    merged: bool,
    section: SectionType,
    svc: Option<ServiceRecord>,
    fuel: nat,
)
    requires
        process_level_rel(olds, news, t, pids, icons, dicon, merged, section, svc, fuel),
    ensures
        forall|p: u32|
            #[trigger] level_has_pid(olds, p) && pids.contains(p) && t.spec_has(p)
                ==> exists|j: int, k: int|
                #![trigger olds[j], news[k]]
                0 <= j < olds.len() && 0 <= k < news.len() && olds[j].pid == p && news[k].pid == p
                    && news[k].uid == olds[j].uid && news[k].id == olds[j].id,
{
    lemma_surviving_props(olds, pids, t);
    let surv = surviving(olds, pids, t);
    assert forall|p: u32|
        #[trigger] level_has_pid(olds, p) && pids.contains(p) && t.spec_has(p)
            implies exists|j: int, k: int|
        #![trigger olds[j], news[k]]
        0 <= j < olds.len() && 0 <= k < news.len() && olds[j].pid == p && news[k].pid == p
            && news[k].uid == olds[j].uid && news[k].id == olds[j].id by {
        assert(level_has_pid(surv, p));
        let k = choose|k: int| 0 <= k < surv.len() && (#[trigger] surv[k]).pid == p;
        assert(process_node_rel(Some(surv[k]), news[k], t, icons, dicon, merged, section, svc, fuel));
        let j = choose|j: int| 0 <= j < olds.len() && olds[j] == surv[k];
        assert(olds[j].pid == p && news[k].pid == p && news[k].uid == olds[j].uid && news[k].id
            == olds[j].id);
    }
}

/// Exhaustive coverage for process levels: after reconciliation the pids of
/// the level are exactly the incoming pids the snapshot knows.
pub proof fn lemma_exhaustive_coverage_processes(
    olds: Seq<NodeView>,
    news: Seq<NodeView>,
    t: ProcessTable,
    pids: Seq<u32>,
    icons: IconMap,
    dicon: Seq<char>,
    merged: bool,
    section: SectionType,
    svc: Option<ServiceRecord>,
    fuel: nat,
)
    requires
        process_level_rel(olds, news, t, pids, icons, dicon, merged, section, svc, fuel),
    ensures
        forall|p: u32|
            #[trigger] level_has_pid(news, p) == (pids.contains(p) && t.spec_has(p)),
{
}

/// Every surviving service node is one of the old nodes, and a service id
/// survives exactly when the old level held it and the snapshot still
/// knows it.
pub proof fn lemma_surviving_services_props(olds: Seq<NodeView>, st: ServiceTable)
    ensures
        forall|k: int|
            0 <= k < surviving_services(olds, st).len() ==> exists|j: int|
                0 <= j < olds.len() && olds[j] == #[trigger] surviving_services(olds, st)[k],
        forall|id: u64|
            #[trigger] level_has_sid(surviving_services(olds, st), id) == (level_has_sid(olds, id)
                && st.spec_has(id)),
    decreases olds.len(),
{
    if olds.len() == 0 {
    } else {
        let dl = olds.drop_last();
        let o = olds.last();
        lemma_surviving_services_props(dl, st);
        assert(olds =~= dl.push(o));
        lemma_level_push_sid(dl, o);
        let rest = surviving_services(dl, st);
        if st.spec_has(o.service_id) && !level_has_sid(rest, o.service_id) {
            lemma_level_push_sid(rest, o);
            assert forall|k: int|
                0 <= k < surviving_services(olds, st).len() implies exists|j: int|
                0 <= j < olds.len() && olds[j] == #[trigger] surviving_services(olds, st)[k] by {
                if k < rest.len() {
                    let j = choose|j: int| 0 <= j < dl.len() && dl[j] == rest[k];
                    assert(olds[j] == surviving_services(olds, st)[k]);
                } else {
                    assert(olds[olds.len() - 1] == surviving_services(olds, st)[k]);
                }
            }
        } else {
            assert forall|k: int|
                0 <= k < surviving_services(olds, st).len() implies exists|j: int|
                0 <= j < olds.len() && olds[j] == #[trigger] surviving_services(olds, st)[k] by {
                let j = choose|j: int| 0 <= j < dl.len() && dl[j] == rest[k];
                assert(olds[j] == surviving_services(olds, st)[k]);
            }
        }
    }
}

/// Identity stability for service sections.
pub proof fn lemma_identity_stability_services(
    olds: Seq<NodeView>,
    news: Seq<NodeView>,
    pt: ProcessTable,
    st: ServiceTable,
    icons: IconMap,
    dicon: Seq<char>,
    merged: bool,
    section: SectionType,
    fuel: nat,
)
    requires
        service_level_rel(olds, news, pt, st, icons, dicon, merged, section, fuel),
    ensures
        forall|id: u64|
            #[trigger] level_has_sid(olds, id) && st.spec_has(id) ==> exists|j: int, k: int|
                #![trigger olds[j], news[k]]
                0 <= j < olds.len() && 0 <= k < news.len() && olds[j].service_id == id
                    && news[k].service_id == id && news[k].uid == olds[j].uid && news[k].id
                    == olds[j].id,
{
    lemma_surviving_services_props(olds, st);
    let surv = surviving_services(olds, st);
    assert forall|id: u64|
        #[trigger] level_has_sid(olds, id) && st.spec_has(id) implies exists|j: int, k: int|
        #![trigger olds[j], news[k]]
        0 <= j < olds.len() && 0 <= k < news.len() && olds[j].service_id == id
            && news[k].service_id == id && news[k].uid == olds[j].uid && news[k].id
            == olds[j].id by {
        assert(level_has_sid(surv, id));
        let k = choose|k: int| 0 <= k < surv.len() && (#[trigger] surv[k]).service_id == id;
        assert(service_node_rel(Some(surv[k]), news[k], pt, st, icons, dicon, merged, section, fuel));
        let j = choose|j: int| 0 <= j < olds.len() && olds[j] == surv[k];
        assert(olds[j].service_id == id && news[k].service_id == id && news[k].uid == olds[j].uid
            && news[k].id == olds[j].id);
    }
}

/// Exhaustive coverage for service sections: the reconciled section's
/// service ids are exactly the snapshot's.
pub proof fn lemma_exhaustive_coverage_services(
    olds: Seq<NodeView>,
    news: Seq<NodeView>,
    pt: ProcessTable,
    st: ServiceTable,
    icons: IconMap,
    dicon: Seq<char>,
    merged: bool,
    section: SectionType,
    fuel: nat,
)
    requires
        service_level_rel(olds, news, pt, st, icons, dicon, merged, section, fuel),
    ensures
        forall|id: u64| #[trigger] level_has_sid(news, id) == st.spec_has(id),
{
}

/// Every surviving app node is one of the old nodes, and an app id survives
/// exactly when the old level held it and the snapshot still knows it.
pub proof fn lemma_surviving_apps_props(olds: Seq<NodeView>, at: AppTable)
    ensures
        forall|k: int|
            0 <= k < surviving_apps(olds, at).len() ==> exists|j: int|
                0 <= j < olds.len() && olds[j] == #[trigger] surviving_apps(olds, at)[k],
        forall|id: Seq<char>|
            #[trigger] level_has_key(surviving_apps(olds, at), id) == (level_has_key(olds, id)
                && at.spec_has(id)),
    decreases olds.len(),
{
    if olds.len() == 0 {
    } else {
        let dl = olds.drop_last();
        let o = olds.last();
        lemma_surviving_apps_props(dl, at);
        assert(olds =~= dl.push(o));
        lemma_level_push_key(dl, o);
        let rest = surviving_apps(dl, at);
        if at.spec_has(o.id) && !level_has_key(rest, o.id) {
            lemma_level_push_key(rest, o);
            assert forall|k: int|
                0 <= k < surviving_apps(olds, at).len() implies exists|j: int|
                0 <= j < olds.len() && olds[j] == #[trigger] surviving_apps(olds, at)[k] by {
                if k < rest.len() {
                    let j = choose|j: int| 0 <= j < dl.len() && dl[j] == rest[k];
                    assert(olds[j] == surviving_apps(olds, at)[k]);
                } else {
                    assert(olds[olds.len() - 1] == surviving_apps(olds, at)[k]);
                }
            }
        } else {
            assert forall|k: int|
                0 <= k < surviving_apps(olds, at).len() implies exists|j: int|
                0 <= j < olds.len() && olds[j] == #[trigger] surviving_apps(olds, at)[k] by {
                let j = choose|j: int| 0 <= j < dl.len() && dl[j] == rest[k];
                assert(olds[j] == surviving_apps(olds, at)[k]);
            }
        }
    }
}

/// Identity stability for the apps section.
pub proof fn lemma_identity_stability_apps(
    olds: Seq<NodeView>,
    news: Seq<NodeView>,
    at: AppTable,
    pt: ProcessTable,
    mm: crate::node::ModelMap,
    section: SectionType,
)
    requires
        app_level_rel(olds, news, at, pt, mm, section),
    ensures
        forall|id: Seq<char>|
            #[trigger] level_has_key(olds, id) && at.spec_has(id) ==> exists|j: int, k: int|
                #![trigger olds[j], news[k]]
                0 <= j < olds.len() && 0 <= k < news.len() && olds[j].id == id && news[k].id == id
                    && news[k].uid == olds[j].uid,
{
    lemma_surviving_apps_props(olds, at);
    let surv = surviving_apps(olds, at);
    assert forall|id: Seq<char>|
        #[trigger] level_has_key(olds, id) && at.spec_has(id) implies exists|j: int, k: int|
        #![trigger olds[j], news[k]]
        0 <= j < olds.len() && 0 <= k < news.len() && olds[j].id == id && news[k].id == id
            && news[k].uid == olds[j].uid by {
        assert(level_has_key(surv, id));
        let k = choose|k: int| 0 <= k < surv.len() && (#[trigger] surv[k]).id == id;
        assert(app_node_rel(Some(surv[k]), news[k], at, pt, mm, section));
        let j = choose|j: int| 0 <= j < olds.len() && olds[j] == surv[k];
        assert(olds[j].id == id && news[k].id == id && news[k].uid == olds[j].uid);
    }
}

/// Exhaustive coverage for the apps section: the reconciled section's app
/// ids are exactly the snapshot's.
pub proof fn lemma_exhaustive_coverage_apps(
    olds: Seq<NodeView>,
    news: Seq<NodeView>,
    at: AppTable,
    pt: ProcessTable,
    mm: crate::node::ModelMap,
    section: SectionType,
)
    requires
        app_level_rel(olds, news, at, pt, mm, section),
    ensures
        forall|id: Seq<char>| #[trigger] level_has_key(news, id) == at.spec_has(id),
{
}

} // verus!
