use procview::node::{ContentType, Node, SectionType};
use procview::pages::{update_apps_page, update_services_page};
use procview::reconcile::{IconMap, UidGen};
use procview::snapshot::{
    merged_usage_stats, AppRecord, ProcessRecord, ProcessTable, ServiceRecord, ServiceTable,
};
use procview::stats::UsageStats;

fn stats(cpu: u64, memory: u64) -> UsageStats {
    UsageStats {
        cpu_usage: cpu,
        memory_usage: memory,
        shared_memory_usage: 0,
        disk_usage: 0,
        network_usage: 0,
        gpu_usage: 0,
        gpu_memory_usage: 0,
    }
}

fn proc(pid: u32, name: &str, exe: &str, children: Vec<u32>, cpu: u64) -> ProcessRecord {
    ProcessRecord {
        pid,
        name: String::from(name),
        exe: String::from(exe),
        cmd: Vec::new(),
        children,
        usage_stats: stats(cpu, 0),
    }
}

fn service(id: u64, name: &str, pid: Option<u32>, running: bool, enabled: bool, failed: bool) -> ServiceRecord {
    ServiceRecord {
        id,
        name: String::from(name),
        file_path: String::from("/etc/unit"),
        user: None,
        group: None,
        pid,
        running,
        enabled,
        failed,
    }
}

fn editor_snapshot() -> (ProcessTable, procview::snapshot::AppTable) {
    let mut pt = ProcessTable::new();
    let _ = pt.insert(proc(1, "init", "/sbin/init", vec![100], 1));
    let _ = pt.insert(proc(100, "editor-bin", "/usr/bin/editor", vec![200], 10));
    let _ = pt.insert(proc(200, "editor-worker", "/usr/bin/editor-worker", vec![], 5));
    let mut at = procview::snapshot::AppTable::new();
    let _ = at.insert(AppRecord {
        id: String::from("editor"),
        name: String::from("Editor"),
        icon: None,
        pids: vec![100, 200],
    });
    (pt, at)
}

#[test]
fn primary_process_set_excludes_children_of_app_pids() {
    let (pt, at) = editor_snapshot();
    let app = at.get(&String::from("editor")).unwrap();
    let primary = procview::grouping::primary_processes(app, &pt);
    assert_eq!(primary, vec![100]);
}

#[test]
fn app_node_has_one_child_with_identity_of_primary_pid() {
    let (pt, at) = editor_snapshot();
    let mut apps_list: Vec<Node> = Vec::new();
    let mut processes_list: Vec<Node> = Vec::new();
    let mut icons = IconMap::new();
    let mut gen = UidGen::new();
    let (root, _mm) =
        update_apps_page(&pt, &at, &mut apps_list, &mut processes_list, &mut icons, &mut gen, false);
    assert_eq!(root, Some(1));
    assert_eq!(apps_list.len(), 1);
    let app_node = &apps_list[0];
    assert_eq!(app_node.id, "editor");
    assert_eq!(app_node.content_type, ContentType::App);
    assert_eq!(app_node.children.len(), 1);
    assert_eq!(app_node.children[0].id, "100");
    // The process section holds the root's children.
    assert_eq!(processes_list.len(), 1);
    assert_eq!(processes_list[0].pid, 100);
    assert_eq!(processes_list[0].children.len(), 1);
    assert_eq!(processes_list[0].children[0].pid, 200);
}

#[test]
fn surviving_app_child_keeps_its_node_when_sibling_exits() {
    let (pt, at) = editor_snapshot();
    let mut apps_list: Vec<Node> = Vec::new();
    let mut processes_list: Vec<Node> = Vec::new();
    let mut icons = IconMap::new();
    let mut gen = UidGen::new();
    let _ = update_apps_page(&pt, &at, &mut apps_list, &mut processes_list, &mut icons, &mut gen, false);
    let first_uid = apps_list[0].children[0].uid;
    let first_stats = apps_list[0].children[0].stats;

    // Next cycle: pid 200 exits, pid 100 remains with fresh statistics.
    let mut pt2 = ProcessTable::new();
    let _ = pt2.insert(proc(1, "init", "/sbin/init", vec![100], 1));
    let _ = pt2.insert(proc(100, "editor-bin", "/usr/bin/editor", vec![], 42));
    let _ = update_apps_page(&pt2, &at, &mut apps_list, &mut processes_list, &mut icons, &mut gen, false);
    assert_eq!(apps_list[0].children.len(), 1);
    assert_eq!(apps_list[0].children[0].id, "100");
    assert_eq!(apps_list[0].children[0].uid, first_uid);
    assert_ne!(apps_list[0].children[0].stats, first_stats);
}

#[test]
fn process_section_keys_match_snapshot_exactly() {
    let mut pt = ProcessTable::new();
    let _ = pt.insert(proc(1, "init", "/sbin/init", vec![10, 20], 0));
    let _ = pt.insert(proc(10, "a", "/bin/a", vec![], 0));
    let _ = pt.insert(proc(20, "b", "/bin/b", vec![30], 0));
    let _ = pt.insert(proc(30, "c", "/bin/c", vec![], 0));
    let at = procview::snapshot::AppTable::new();
    let mut apps_list: Vec<Node> = Vec::new();
    let mut processes_list: Vec<Node> = Vec::new();
    let mut icons = IconMap::new();
    let mut gen = UidGen::new();
    let _ = update_apps_page(&pt, &at, &mut apps_list, &mut processes_list, &mut icons, &mut gen, false);
    let mut pids: Vec<u32> = processes_list.iter().map(|n| n.pid).collect();
    pids.sort();
    assert_eq!(pids, vec![10, 20]);
    assert_eq!(processes_list.iter().find(|n| n.pid == 20).unwrap().children.len(), 1);

    // A pid named as a child but absent from the snapshot is skipped.
    let mut pt2 = ProcessTable::new();
    let _ = pt2.insert(proc(1, "init", "/sbin/init", vec![10, 99], 0));
    let _ = pt2.insert(proc(10, "a", "/bin/a", vec![], 0));
    let _ = update_apps_page(&pt2, &at, &mut apps_list, &mut processes_list, &mut icons, &mut gen, false);
    let pids2: Vec<u32> = processes_list.iter().map(|n| n.pid).collect();
    assert_eq!(pids2, vec![10]);
}

#[test]
fn process_nodes_survive_with_stable_uid_across_cycles() {
    let mut pt = ProcessTable::new();
    let _ = pt.insert(proc(1, "init", "/sbin/init", vec![10, 20], 0));
    let _ = pt.insert(proc(10, "a", "/bin/a", vec![], 0));
    let _ = pt.insert(proc(20, "b", "/bin/b", vec![], 0));
    let at = procview::snapshot::AppTable::new();
    let mut apps_list: Vec<Node> = Vec::new();
    let mut processes_list: Vec<Node> = Vec::new();
    let mut icons = IconMap::new();
    let mut gen = UidGen::new();
    let _ = update_apps_page(&pt, &at, &mut apps_list, &mut processes_list, &mut icons, &mut gen, false);
    let uid_10 = processes_list.iter().find(|n| n.pid == 10).unwrap().uid;
    let uid_20 = processes_list.iter().find(|n| n.pid == 20).unwrap().uid;
    assert_ne!(uid_10, uid_20);
    let _ = update_apps_page(&pt, &at, &mut apps_list, &mut processes_list, &mut icons, &mut gen, false);
    assert_eq!(processes_list.iter().find(|n| n.pid == 10).unwrap().uid, uid_10);
    assert_eq!(processes_list.iter().find(|n| n.pid == 20).unwrap().uid, uid_20);
}

#[test]
fn merged_stats_sum_all_transitive_descendants() {
    let mut pt = ProcessTable::new();
    let _ = pt.insert(proc(100, "p", "/bin/p", vec![200, 300], 10));
    let _ = pt.insert(proc(200, "q", "/bin/q", vec![], 5));
    let _ = pt.insert(proc(300, "r", "/bin/r", vec![400], 2));
    let _ = pt.insert(proc(400, "s", "/bin/s", vec![], 1));
    let merged = merged_usage_stats(&pt, 100, pt.len());
    assert_eq!(merged.cpu_usage, 18);
    // Raw statistics are the record's own fields exactly.
    let raw = merged_usage_stats(&pt, 100, 0);
    assert_eq!(raw.cpu_usage, 10);
}

#[test]
fn merged_stats_saturate_per_field() {
    let mut pt = ProcessTable::new();
    let mut big = proc(100, "p", "/bin/p", vec![200], 0);
    big.usage_stats.cpu_usage = u64::MAX - 1;
    let mut kid = proc(200, "q", "/bin/q", vec![], 0);
    kid.usage_stats.cpu_usage = 7;
    let _ = pt.insert(big);
    let _ = pt.insert(kid);
    let merged = merged_usage_stats(&pt, 100, pt.len());
    assert_eq!(merged.cpu_usage, u64::MAX);
}

#[test]
fn merged_mode_fills_process_nodes_with_subtree_sums() {
    let mut pt = ProcessTable::new();
    let _ = pt.insert(proc(1, "init", "/sbin/init", vec![100], 0));
    let _ = pt.insert(proc(100, "p", "/bin/p", vec![200], 10));
    let _ = pt.insert(proc(200, "q", "/bin/q", vec![], 5));
    let at = procview::snapshot::AppTable::new();
    let mut apps_list: Vec<Node> = Vec::new();
    let mut processes_list: Vec<Node> = Vec::new();
    let mut icons = IconMap::new();
    let mut gen = UidGen::new();
    let _ = update_apps_page(&pt, &at, &mut apps_list, &mut processes_list, &mut icons, &mut gen, true);
    assert_eq!(processes_list[0].stats.cpu_usage, 15);
    let _ = update_apps_page(&pt, &at, &mut apps_list, &mut processes_list, &mut icons, &mut gen, false);
    assert_eq!(processes_list[0].stats.cpu_usage, 10);
}

#[test]
fn primary_process_resolution_is_idempotent() {
    let (pt, at) = editor_snapshot();
    let app = at.get(&String::from("editor")).unwrap();
    let first = procview::grouping::primary_processes(app, &pt);
    let second = procview::grouping::primary_processes(app, &pt);
    assert_eq!(first, second);
}

#[test]
fn primary_process_fallback_picks_first_pid_with_children() {
    // Both app pids are children of each other, so the subtraction leaves
    // nothing; the fallback scans in order and picks the first pid the
    // snapshot knows that has children.
    let mut pt = ProcessTable::new();
    let _ = pt.insert(proc(100, "a", "/bin/a", vec![200], 0));
    let _ = pt.insert(proc(200, "b", "/bin/b", vec![100], 0));
    let app = AppRecord {
        id: String::from("tangle"),
        name: String::from("Tangle"),
        icon: None,
        pids: vec![200, 100],
    };
    let primary = procview::grouping::primary_processes(&app, &pt);
    assert_eq!(primary, vec![200]);
}

#[test]
fn empty_primary_set_clears_app_children_without_panic() {
    let (pt, at) = editor_snapshot();
    let mut apps_list: Vec<Node> = Vec::new();
    let mut processes_list: Vec<Node> = Vec::new();
    let mut icons = IconMap::new();
    let mut gen = UidGen::new();
    let _ = update_apps_page(&pt, &at, &mut apps_list, &mut processes_list, &mut icons, &mut gen, false);
    assert_eq!(apps_list[0].children.len(), 1);

    // Next cycle the app reports no pids at all: resolution yields an empty
    // set, the children are cleared, and the cycle completes.
    let mut at2 = procview::snapshot::AppTable::new();
    let _ = at2.insert(AppRecord {
        id: String::from("editor"),
        name: String::from("Editor"),
        icon: None,
        pids: vec![],
    });
    let _ = update_apps_page(&pt, &at2, &mut apps_list, &mut processes_list, &mut icons, &mut gen, false);
    assert_eq!(apps_list.len(), 1);
    assert_eq!(apps_list[0].id, "editor");
    assert_eq!(apps_list[0].children.len(), 0);
    // The rebuilt icon map holds only primary pids of this cycle's apps.
    assert!(icons.get(100).is_none());
}

#[test]
fn service_without_pid_has_no_process_child() {
    let mut pt = ProcessTable::new();
    let _ = pt.insert(proc(1, "init", "/sbin/init", vec![], 0));
    let mut user = ServiceTable::new();
    let _ = user.insert(service(7, "clock", None, true, true, false));
    let system = ServiceTable::new();
    let mut user_list: Vec<Node> = Vec::new();
    let mut system_list: Vec<Node> = Vec::new();
    let icons = IconMap::new();
    let mut gen = UidGen::new();
    update_services_page(&pt, &user, &system, &mut user_list, &mut system_list, &icons, &mut gen, false);
    assert_eq!(user_list.len(), 1);
    let node = &user_list[0];
    assert_eq!(node.content_type, ContentType::Service);
    assert_eq!(node.service_id, 7);
    assert_eq!(node.id, "7");
    assert!(node.service_running);
    assert!(node.service_enabled);
    assert!(!node.service_failed);
    assert!(!node.service_stopped);
    assert_eq!(node.children.len(), 0);
    assert_eq!(node.icon, "service-running");

    // Toggling "running" keeps it visible; toggling only "stopped" hides it.
    let running_only = procview::filter::ServiceToggles {
        running: true,
        failed: false,
        stopped: false,
        disabled: false,
    };
    let stopped_only = procview::filter::ServiceToggles {
        running: false,
        failed: false,
        stopped: true,
        disabled: false,
    };
    assert!(procview::filter::node_passes_category(node, running_only));
    assert!(!procview::filter::node_passes_category(node, stopped_only));
}

#[test]
fn service_with_pid_owns_one_process_child_subtree() {
    let mut pt = ProcessTable::new();
    let _ = pt.insert(proc(1, "init", "/sbin/init", vec![500], 0));
    let _ = pt.insert(proc(500, "daemon", "/usr/bin/daemon", vec![501], 3));
    let _ = pt.insert(proc(501, "worker", "/usr/bin/worker", vec![], 4));
    let mut user = ServiceTable::new();
    let _ = user.insert(service(9, "daemon", Some(500), true, true, false));
    let system = ServiceTable::new();
    let mut user_list: Vec<Node> = Vec::new();
    let mut system_list: Vec<Node> = Vec::new();
    let icons = IconMap::new();
    let mut gen = UidGen::new();
    update_services_page(&pt, &user, &system, &mut user_list, &mut system_list, &icons, &mut gen, false);
    let node = &user_list[0];
    assert_eq!(node.pid, 500);
    // The service's statistics are the merged subtree of its pid.
    assert_eq!(node.stats.cpu_usage, 7);
    assert_eq!(node.children.len(), 1);
    assert_eq!(node.children[0].pid, 500);
    assert_eq!(node.children[0].children.len(), 1);
    assert_eq!(node.children[0].children[0].pid, 501);
    // The process child carries the owning service's state flags.
    assert!(node.children[0].service_running);

    // The pid disappears: the process child subtree is cleared entirely.
    let mut user2 = ServiceTable::new();
    let _ = user2.insert(service(9, "daemon", None, false, true, false));
    update_services_page(&pt, &user2, &system, &mut user_list, &mut system_list, &icons, &mut gen, false);
    assert_eq!(user_list[0].children.len(), 0);
    assert_eq!(user_list[0].icon, "service-stopped");
    assert!(user_list[0].service_stopped);
}

#[test]
fn service_sections_cover_their_tables() {
    let mut pt = ProcessTable::new();
    let _ = pt.insert(proc(1, "init", "/sbin/init", vec![], 0));
    let mut user = ServiceTable::new();
    let _ = user.insert(service(1, "one", None, true, true, false));
    let _ = user.insert(service(2, "two", None, false, false, false));
    let mut system = ServiceTable::new();
    let _ = system.insert(service(3, "three", None, false, true, false));
    let mut user_list: Vec<Node> = Vec::new();
    let mut system_list: Vec<Node> = Vec::new();
    let icons = IconMap::new();
    let mut gen = UidGen::new();
    update_services_page(&pt, &user, &system, &mut user_list, &mut system_list, &icons, &mut gen, false);
    let mut user_ids: Vec<u64> = user_list.iter().map(|n| n.service_id).collect();
    user_ids.sort();
    assert_eq!(user_ids, vec![1, 2]);
    assert_eq!(system_list.len(), 1);
    assert_eq!(system_list[0].service_id, 3);
    assert_eq!(system_list[0].section_type, SectionType::SecondSection);
    assert_eq!(user_list.iter().find(|n| n.service_id == 2).unwrap().icon, "service-disabled");
}

#[test]
fn wrapper_process_unwraps_to_innermost_real_descendant() {
    // An app whose only child is a sandbox launcher: the actionable pid is
    // the nearest descendant not named like the wrapper.
    let mut pt = ProcessTable::new();
    let _ = pt.insert(proc(1, "init", "/sbin/init", vec![100], 0));
    let _ = pt.insert(proc(100, "bwrap", "/usr/bin/bwrap", vec![200], 0));
    let _ = pt.insert(proc(200, "game", "/usr/bin/game", vec![], 0));
    let mut at = procview::snapshot::AppTable::new();
    let _ = at.insert(AppRecord {
        id: String::from("game"),
        name: String::from("Game"),
        icon: Some(String::from("game-icon")),
        pids: vec![100, 200],
    });
    let mut apps_list: Vec<Node> = Vec::new();
    let mut processes_list: Vec<Node> = Vec::new();
    let mut icons = IconMap::new();
    let mut gen = UidGen::new();
    let _ = update_apps_page(&pt, &at, &mut apps_list, &mut processes_list, &mut icons, &mut gen, false);
    assert_eq!(apps_list[0].icon, "game-icon");
    let pids = procview::grouping::app_pids(&apps_list[0]);
    assert_eq!(pids, vec![200]);
    // A non-wrapper node resolves to itself.
    let direct = procview::grouping::find_stoppable_child(&apps_list[0].children[0]).unwrap();
    assert_eq!(direct.pid, 200);
}

#[test]
fn app_with_unknown_icon_gets_generic_icon_and_marks_primary_pids() {
    let (pt, at) = editor_snapshot();
    let mut apps_list: Vec<Node> = Vec::new();
    let mut processes_list: Vec<Node> = Vec::new();
    let mut icons = IconMap::new();
    let mut gen = UidGen::new();
    let _ = update_apps_page(&pt, &at, &mut apps_list, &mut processes_list, &mut icons, &mut gen, false);
    assert_eq!(apps_list[0].icon, "application-x-executable");
    // The icon map now knows the primary pid for the next process pass.
    assert_eq!(icons.get(100).map(|s| s.as_str()), Some("application-x-executable"));
    assert!(icons.get(200).is_none());
}

#[test]
fn reconciling_a_level_directly_builds_nodes_from_records() {
    let mut pt = ProcessTable::new();
    let mut rec = proc(100, "editor-raw", "/usr/bin/editor", vec![200], 10);
    rec.cmd = vec![String::from("editor"), String::from("--restore")];
    let _ = pt.insert(rec);
    let _ = pt.insert(proc(200, "worker", "/usr/bin/worker", vec![], 5));
    let mut list: Vec<Node> = Vec::new();
    let mut mm = procview::node::ModelMap::new();
    let icons = IconMap::new();
    let mut gen = UidGen::new();
    procview::reconcile::update_processes(
        &pt,
        &vec![100],
        &mut list,
        &icons,
        "generic-icon",
        false,
        SectionType::SecondSection,
        None,
        &mut mm,
        &mut gen,
        pt.len(),
    );
    assert_eq!(list.len(), 1);
    let n = &list[0];
    assert_eq!(n.id, "100");
    assert_eq!(n.name, "editor");
    assert_eq!(n.command_line, "editor --restore");
    assert_eq!(n.icon, "generic-icon");
    assert_eq!(n.stats.cpu_usage, 10);
    assert_eq!(n.children.len(), 1);
    assert_eq!(n.children[0].name, "worker");
    // Both materialised nodes are in the model map for the app pass.
    assert!(mm.get(100).is_some());
    assert!(mm.get(200).is_some());
}

#[test]
fn service_name_and_path_are_set_once_at_creation() {
    let mut pt = ProcessTable::new();
    let _ = pt.insert(proc(1, "init", "/sbin/init", vec![], 0));
    let mut user = ServiceTable::new();
    let _ = user.insert(service(7, "clock", None, true, true, false));
    let system = ServiceTable::new();
    let mut user_list: Vec<Node> = Vec::new();
    let mut system_list: Vec<Node> = Vec::new();
    let icons = IconMap::new();
    let mut gen = UidGen::new();
    update_services_page(&pt, &user, &system, &mut user_list, &mut system_list, &icons, &mut gen, false);
    let uid = user_list[0].uid;
    assert_eq!(user_list[0].name, "clock");
    assert_eq!(user_list[0].file_path, "/etc/unit");

    // The same id comes back under a different name: the node survives with
    // its original identity and display name, only state fields change.
    let mut user2 = ServiceTable::new();
    let _ = user2.insert(service(7, "clock-renamed", None, false, false, true));
    update_services_page(&pt, &user2, &system, &mut user_list, &mut system_list, &icons, &mut gen, false);
    assert_eq!(user_list.len(), 1);
    assert_eq!(user_list[0].uid, uid);
    assert_eq!(user_list[0].name, "clock");
    assert!(user_list[0].service_failed);
    assert_eq!(user_list[0].icon, "service-failed");
}

#[test]
fn tables_refuse_duplicate_keys() {
    let mut pt = ProcessTable::new();
    assert!(pt.insert(proc(5, "a", "/bin/a", vec![], 0)));
    assert!(!pt.insert(proc(5, "b", "/bin/b", vec![], 0)));
    assert_eq!(pt.get(5).unwrap().name, "a");
    assert!(pt.get(6).is_none());
    let mut st = ServiceTable::new();
    assert!(st.insert(service(7, "x", None, true, true, false)));
    assert!(!st.insert(service(7, "y", None, false, false, false)));
    let mut at = procview::snapshot::AppTable::new();
    assert!(at.insert(AppRecord {
        id: String::from("a"),
        name: String::from("A"),
        icon: None,
        pids: vec![],
    }));
    assert!(!at.insert(AppRecord {
        id: String::from("a"),
        name: String::from("B"),
        icon: None,
        pids: vec![],
    }));
}

#[test]
fn empty_snapshot_empties_the_sections() {
    let (pt, at) = editor_snapshot();
    let mut apps_list: Vec<Node> = Vec::new();
    let mut processes_list: Vec<Node> = Vec::new();
    let mut icons = IconMap::new();
    let mut gen = UidGen::new();
    let _ = update_apps_page(&pt, &at, &mut apps_list, &mut processes_list, &mut icons, &mut gen, false);
    assert!(!apps_list.is_empty());
    assert!(!processes_list.is_empty());

    // Everything exits: an empty process table leaves the process section
    // untouched (there is no root to diff against), while the empty app
    // table removes every app node.
    let pt2 = ProcessTable::new();
    let at2 = procview::snapshot::AppTable::new();
    let before: Vec<u32> = processes_list.iter().map(|n| n.pid).collect();
    let (root, _) =
        update_apps_page(&pt2, &at2, &mut apps_list, &mut processes_list, &mut icons, &mut gen, false);
    assert_eq!(root, None);
    assert!(apps_list.is_empty());
    let after: Vec<u32> = processes_list.iter().map(|n| n.pid).collect();
    assert_eq!(before, after);
}

#[test]
fn descendants_inherit_their_parents_resolved_icon() {
    let mut pt = ProcessTable::new();
    let _ = pt.insert(proc(100, "app-main", "/bin/app", vec![200], 0));
    let _ = pt.insert(proc(200, "app-child", "/bin/app-child", vec![], 0));
    let _ = pt.insert(proc(300, "other", "/bin/other", vec![], 0));
    let mut icons = IconMap::new();
    icons.put(100, String::from("app-icon"));
    let mut list: Vec<Node> = Vec::new();
    let mut mm = procview::node::ModelMap::new();
    let mut gen = UidGen::new();
    procview::reconcile::update_processes(
        &pt,
        &vec![100, 300],
        &mut list,
        &icons,
        "default-icon",
        false,
        SectionType::SecondSection,
        None,
        &mut mm,
        &mut gen,
        pt.len(),
    );
    let main = list.iter().find(|n| n.pid == 100).unwrap();
    assert_eq!(main.icon, "app-icon");
    // The child is not in the icon map; it falls back to its parent's
    // resolved icon, not to the level's default.
    assert_eq!(main.children[0].icon, "app-icon");
    // A node outside the icon map at the top level keeps the default.
    assert_eq!(list.iter().find(|n| n.pid == 300).unwrap().icon, "default-icon");
}
