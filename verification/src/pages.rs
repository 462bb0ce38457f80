//! One refresh cycle per page: the apps page reconciles the process section
//! from the root process's children and then the apps section against the
//! freshly built process nodes; the services page reconciles its two
//! service sections.
use vstd::prelude::*;

use crate::node::forest_has_node;
use crate::node::forest_has_pid;
use crate::node::seq_views;
use crate::node::ModelMap;
use crate::node::Node;
use crate::node::SectionType;
use crate::reconcile::app_level_rel;
use crate::reconcile::process_level_rel;
use crate::reconcile::service_level_rel;
use crate::reconcile::svc_view;
use crate::reconcile::update_apps;
use crate::reconcile::update_processes;
use crate::reconcile::update_services;
use crate::reconcile::IconMap;
use crate::reconcile::UidGen;
use crate::snapshot::AppTable;
use crate::snapshot::ProcessTable;
use crate::snapshot::ServiceTable;

verus! {

/// Run one reconciliation cycle of the apps page: processes first (so apps
/// can borrow their nodes), then apps. Returns the root pid that anchored
/// the process section — the smallest pid of the snapshot — and the model
/// map of every process node materialised this cycle. A snapshot with no
/// processes leaves the process section untouched (the cycle degrades, it
/// never aborts).
pub fn update_apps_page(
    processes: &ProcessTable,
    apps: &AppTable,
    apps_list: &mut Vec<Node>,
    processes_list: &mut Vec<Node>,
    app_icons: &mut IconMap,
    gen: &mut UidGen,
    use_merged_stats: bool,
) -> (r: (Option<u32>, ModelMap))
    requires
        processes.wf(),
        apps.wf(),
        old(app_icons).wf(),
    ensures
        r.1.wf(),
        final(app_icons).wf(),
        forall|p: u32|
            #[trigger] final(app_icons).spec_has(p) == (exists|i: int|
                0 <= i < apps.entries@.len() && (#[trigger] crate::grouping::spec_primary_processes(
                    apps.entries@[i],
                    *processes,
                )).contains(p) && processes.spec_has(p)),
        forall|p: u32|
            #[trigger] final(app_icons).spec_has(p) ==> exists|i: int|
                0 <= i < apps.entries@.len() && (#[trigger] crate::grouping::spec_primary_processes(
                    apps.entries@[i],
                    *processes,
                )).contains(p) && processes.spec_has(p) && final(app_icons).spec_icon(p)
                    == crate::reconcile::spec_app_icon(apps.entries@[i]),
        final(gen).next >= old(gen).next,
        (match r.0 {
            Some(root) => {
                &&& processes.spec_has(root)
                &&& (forall|q: u32| processes.spec_has(q) ==> root <= q)
                &&& process_level_rel(
                    seq_views(old(processes_list)@),
                    seq_views(final(processes_list)@),
                    *processes,
                    processes.spec_get(root).children@,
                    *old(app_icons),
                    "application-x-executable-symbolic"@,
                    use_merged_stats,
                    SectionType::SecondSection,
                    svc_view(None),
                    processes.entries@.len() as nat,
                )
                &&& (forall|p: u32|
                    #[trigger] forest_has_pid(seq_views(final(processes_list)@), p)
                        ==> r.1.spec_has(p) && r.1.spec_get(p).pid == p && forest_has_node(
                        seq_views(final(processes_list)@),
                        r.1.spec_get(p),
                    ))
            },
            None => processes.entries@.len() == 0 && *final(processes_list) == *old(processes_list)
                && (forall|p: u32| !r.1.spec_has(p)),
        }),
        app_level_rel(
            seq_views(old(apps_list)@),
            seq_views(final(apps_list)@),
            *apps,
            *processes,
            r.1,
            SectionType::FirstSection,
        ),
{
    let mut model_map = ModelMap::new();
    let root = processes.min_pid();
    match root {
        Some(root_pid) => {
            match processes.get(root_pid) {
                Some(rec) => {
                    let fuel = processes.len();
                    update_processes(
                        processes,
                        &rec.children,
                        processes_list,
                        app_icons,
                        "application-x-executable-symbolic",
                        use_merged_stats,
                        SectionType::SecondSection,
                        None,
                        &mut model_map,
                        gen,
                        fuel,
                    );
                },
                None => {},
            }
        },
        None => {},
    }
    update_apps(apps, processes, &model_map, app_icons, apps_list, gen);
    (root, model_map)
}

/// Run one reconciliation cycle of the services page: the user-service
/// section, then the system-service section, each against its own table.
pub fn update_services_page(
    processes: &ProcessTable,
    user_services: &ServiceTable,
    system_services: &ServiceTable,
    user_list: &mut Vec<Node>,
    system_list: &mut Vec<Node>,
    app_icons: &IconMap,
    gen: &mut UidGen,
    use_merged_stats: bool,
)
    requires
        processes.wf(),
        user_services.wf(),
        system_services.wf(),
        app_icons.wf(),
    ensures
        final(gen).next >= old(gen).next,
        service_level_rel(
            seq_views(old(user_list)@),
            seq_views(final(user_list)@),
            *processes,
            *user_services,
            *app_icons,
            "application-x-executable-symbolic"@,
            use_merged_stats,
            SectionType::FirstSection,
            processes.entries@.len() as nat,
        ),
        service_level_rel(
            seq_views(old(system_list)@),
            seq_views(final(system_list)@),
            *processes,
            *system_services,
            *app_icons,
            "application-x-executable-symbolic"@,
            use_merged_stats,
            SectionType::SecondSection,
            processes.entries@.len() as nat,
        ),
{
    let fuel = processes.len();
    update_services(
        processes,
        user_services,
        user_list,
        app_icons,
        "application-x-executable-symbolic",
        use_merged_stats,
        SectionType::FirstSection,
        gen,
        fuel,
    );
    update_services(
        processes,
        system_services,
        system_list,
        app_icons,
        "application-x-executable-symbolic",
        use_merged_stats,
        SectionType::SecondSection,
        gen,
        fuel,
    );
}

} // verus!
