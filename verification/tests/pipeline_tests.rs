use procview::actions::{process_actions_enabled, service_action_enabled, ServiceAction};
use procview::columns::{apply_column_order, join_semicolons, split_semicolons};
use procview::filter::{node_passes, search_matches, ServiceToggles};
use procview::grouping::display_name;
use procview::node::{ContentType, Node, SectionType};
use procview::settings_keys::{format_settings_key, SettingsNamespace, SettingsValues};
use procview::sort::{restore_sort, sort_nodes_by, SortColumn, SortDirection, SortRestore};
use procview::stats::UsageStats;
use procview::summary::{filtered_service_count, memory_percent, network_total, service_counts};
use procview::text::u64_dec_str;

fn node(pid: u32, name: &str, cpu: u64) -> Node {
    Node {
        id: u64_dec_str(pid as u64),
        uid: pid as u64,
        content_type: ContentType::Process,
        section_type: SectionType::SecondSection,
        pid,
        service_id: 0,
        name: String::from(name),
        icon: String::new(),
        command_line: String::new(),
        file_path: String::new(),
        user: String::new(),
        group: String::new(),
        stats: UsageStats {
            cpu_usage: cpu,
            memory_usage: 0,
            shared_memory_usage: 0,
            disk_usage: 0,
            network_usage: 0,
            gpu_usage: 0,
            gpu_memory_usage: 0,
        },
        service_running: false,
        service_enabled: false,
        service_failed: false,
        service_stopped: false,
        children: Vec::new(),
    }
}

const NO_TOGGLES: ServiceToggles =
    ServiceToggles { running: false, failed: false, stopped: false, disabled: false };

#[test]
fn typo_matches_by_normalized_edit_distance() {
    // distance("chrome", "chrme") = 1, max length 6: 1/6 <= 0.6 -> match.
    assert!(search_matches("chrome", 42, "chrme"));
    // A far-off query matches neither as substring nor by distance.
    assert!(!search_matches("chrome", 42, "zzzzzz"));
}

#[test]
fn search_is_case_insensitive_via_lowercasing() {
    assert!(search_matches("CHROME", 42, "chrome"));
    assert!(search_matches("chrome", 42, "CHRO"));
}

#[test]
fn pid_string_matches_both_directions() {
    assert!(search_matches("unrelated-name-zzz", 4217, "42"));
    assert!(search_matches("unrelated-name-zzz", 42, "pid 42 please"));
}

#[test]
fn widening_a_containing_query_keeps_the_match() {
    // The node matched because its name sits inside the query; any query
    // that contains the old one as an exact substring keeps it matching.
    assert!(search_matches("sshd", 7, "the sshd daemon"));
    assert!(search_matches("sshd", 7, "restart the sshd daemon now"));
}

#[test]
fn section_headers_always_pass_the_filters() {
    let mut header = node(0, "Processes", 0);
    header.content_type = ContentType::SectionHeader;
    let toggles =
        ServiceToggles { running: true, failed: false, stopped: false, disabled: false };
    assert!(node_passes(&header, true, "zzzz-no-match", toggles));
}

#[test]
fn inactive_search_and_empty_query_pass_everything() {
    let n = node(5, "anything", 0);
    assert!(node_passes(&n, false, "zzzz", NO_TOGGLES));
    assert!(node_passes(&n, true, "", NO_TOGGLES));
    assert!(!node_passes(&n, true, "zzzz", NO_TOGGLES));
}

#[test]
fn effective_filter_needs_search_and_category() {
    let mut n = node(5, "postfix", 0);
    n.content_type = ContentType::Service;
    n.service_running = true;
    let running = ServiceToggles { running: true, failed: false, stopped: false, disabled: false };
    let disabled = ServiceToggles { running: false, failed: false, stopped: false, disabled: true };
    assert!(node_passes(&n, true, "post", running));
    assert!(!node_passes(&n, true, "post", disabled));
    assert!(!node_passes(&n, true, "zzzzzzz", running));
}

#[test]
fn column_order_applies_persisted_sequence_and_appends_the_rest() {
    let persisted = split_semicolons("cpu;name;pid");
    assert_eq!(persisted, vec!["cpu", "name", "pid"]);
    let columns = vec![
        String::from("name"),
        String::from("pid"),
        String::from("cpu"),
        String::from("memory"),
    ];
    let reordered = apply_column_order(&columns, &persisted);
    assert_eq!(reordered, vec!["cpu", "name", "pid", "memory"]);
}

#[test]
fn unknown_persisted_columns_are_skipped() {
    let persisted = split_semicolons("ghost;pid");
    let columns = vec![String::from("name"), String::from("pid")];
    let reordered = apply_column_order(&columns, &persisted);
    assert_eq!(reordered, vec!["pid", "name"]);
}

#[test]
fn column_order_round_trips_through_the_persisted_form() {
    let columns = vec![String::from("cpu"), String::from("name"), String::from("pid")];
    let joined = join_semicolons(&columns);
    assert_eq!(joined, "cpu;name;pid");
    assert_eq!(split_semicolons(&joined), columns);
}

#[test]
fn sorting_orders_siblings_and_keeps_them_all() {
    let mut list = vec![node(3, "charlie", 50), node(1, "alpha", 70), node(2, "bravo", 60)];
    sort_nodes_by(&mut list, SortColumn::Pid, SortDirection::Ascending);
    let pids: Vec<u32> = list.iter().map(|n| n.pid).collect();
    assert_eq!(pids, vec![1, 2, 3]);
    sort_nodes_by(&mut list, SortColumn::Cpu, SortDirection::Descending);
    let cpus: Vec<u64> = list.iter().map(|n| n.stats.cpu_usage).collect();
    assert_eq!(cpus, vec![70, 60, 50]);
    sort_nodes_by(&mut list, SortColumn::Name, SortDirection::Ascending);
    let names: Vec<&str> = list.iter().map(|n| n.name.as_str()).collect();
    assert_eq!(names, vec!["alpha", "bravo", "charlie"]);
}

#[test]
fn persisted_sort_restores_by_column_id_and_direction() {
    let cols = vec![String::from("name"), String::from("cpu")];
    let r = restore_sort(true, &String::from("cpu"), 1, &cols);
    assert_eq!(r, SortRestore::Column(1, SortDirection::Descending));
    let r = restore_sort(true, &String::from("name"), 0, &cols);
    assert_eq!(r, SortRestore::Column(0, SortDirection::Ascending));
}

#[test]
fn unset_or_forgotten_sort_preference_restores_nothing() {
    let cols = vec![String::from("name"), String::from("cpu")];
    assert_eq!(restore_sort(false, &String::from("cpu"), 1, &cols), SortRestore::Natural);
    assert_eq!(restore_sort(true, &String::from("cpu"), 255, &cols), SortRestore::Natural);
}

#[test]
fn unknown_sort_codes_and_columns_degrade_gracefully() {
    let cols = vec![String::from("name"), String::from("cpu")];
    // An out-of-range direction code disables restoring any prior sort.
    assert_eq!(restore_sort(true, &String::from("cpu"), 7, &cols), SortRestore::Natural);
    assert_eq!(restore_sort(true, &String::from("cpu"), -3, &cols), SortRestore::Natural);
    // An unknown column id restores no column.
    assert_eq!(restore_sort(true, &String::from("ghost"), 0, &cols), SortRestore::NoColumn(SortDirection::Ascending));
}

#[test]
fn settings_keys_join_namespace_and_setting() {
    assert_eq!(
        format_settings_key(SettingsNamespace::AppsPage, &SettingsValues::SortingColumnName),
        "apps-page-sorting-column-name"
    );
    assert_eq!(
        format_settings_key(SettingsNamespace::ServicesPage, &SettingsValues::ColumnOrder),
        "services-page-column-order"
    );
    assert_eq!(
        format_settings_key(SettingsNamespace::AppsPage, &SettingsValues::SortingOrder),
        "apps-page-sorting-order"
    );
}

#[test]
fn display_name_takes_the_executable_basename() {
    let cmd: Vec<String> = Vec::new();
    assert_eq!(display_name("/usr/bin/editor", &cmd, "raw"), "editor");
}

#[test]
fn display_name_falls_back_to_first_argument_token() {
    let cmd = vec![String::from("  /opt/tools/helper: --flag")];
    assert_eq!(display_name("", &cmd, "raw"), "helper");
    let empty_cmd: Vec<String> = Vec::new();
    assert_eq!(display_name("", &empty_cmd, "  raw-name "), "raw-name");
    let ws_cmd = vec![String::from("   ")];
    assert_eq!(display_name("", &ws_cmd, "raw-name"), "raw-name");
}

#[test]
fn display_name_unwraps_wine_paths() {
    let cmd = vec![String::from("C:\\Games\\Shooter\\game.exe")];
    assert_eq!(display_name("/usr/bin/wine64", &cmd, "raw"), "game.exe");
    let mixed = vec![String::from("C:\\Games/alt/game2.exe")];
    assert_eq!(display_name("/usr/bin/wine", &mixed, "raw"), "game2.exe");
    let empty_cmd: Vec<String> = Vec::new();
    assert_eq!(display_name("/usr/bin/wine", &empty_cmd, " fallback "), "fallback");
}

#[test]
fn decimal_identity_keys_render_exactly() {
    assert_eq!(u64_dec_str(0), "0");
    assert_eq!(u64_dec_str(7), "7");
    assert_eq!(u64_dec_str(1234567890), "1234567890");
    assert_eq!(u64_dec_str(u64::MAX), "18446744073709551615");
}

#[test]
fn service_counts_classify_each_service_once() {
    let mk = |id: u64, running: bool, enabled: bool, failed: bool| procview::snapshot::ServiceRecord {
        id,
        name: String::from("s"),
        file_path: String::new(),
        user: None,
        group: None,
        pid: None,
        running,
        enabled,
        failed,
    };
    let mut user = procview::snapshot::ServiceTable::new();
    let _ = user.insert(mk(1, true, true, false));
    let _ = user.insert(mk(2, false, true, true));
    let mut system = procview::snapshot::ServiceTable::new();
    let _ = system.insert(mk(3, false, true, false));
    let _ = system.insert(mk(4, false, false, false));
    let counts = service_counts(&user, &system);
    assert_eq!(counts.total, 4);
    assert_eq!(counts.running, 1);
    assert_eq!(counts.failed, 1);
    assert_eq!(counts.stopped, 1);
    assert_eq!(counts.disabled, 1);
    let toggles = ServiceToggles { running: true, failed: true, stopped: false, disabled: false };
    assert_eq!(filtered_service_count(&counts, toggles), 2);
    assert_eq!(filtered_service_count(&counts, NO_TOGGLES), 0);
}

#[test]
fn memory_percent_guards_against_zero_total() {
    assert_eq!(memory_percent(0, 0, 0), 0);
    assert_eq!(memory_percent(1000, 500, 400), 50);
    // Available above total falls back to free.
    assert_eq!(memory_percent(1000, 2000, 900), 10);
    // Half rounds up.
    assert_eq!(memory_percent(200, 199, 0), 1);
}

#[test]
fn network_total_sums_the_whole_snapshot() {
    let mut pt = procview::snapshot::ProcessTable::new();
    let a = procview::snapshot::ProcessRecord {
        pid: 1,
        name: String::from("a"),
        exe: String::new(),
        cmd: Vec::new(),
        children: Vec::new(),
        usage_stats: UsageStats {
            cpu_usage: 0,
            memory_usage: 0,
            shared_memory_usage: 0,
            disk_usage: 0,
            network_usage: 300,
            gpu_usage: 0,
            gpu_memory_usage: 0,
        },
    };
    let mut b = procview::snapshot::ProcessRecord {
        pid: 2,
        name: String::from("b"),
        exe: String::new(),
        cmd: Vec::new(),
        children: Vec::new(),
        usage_stats: a.usage_stats,
    };
    b.usage_stats.network_usage = 45;
    let _ = pt.insert(a);
    let _ = pt.insert(b);
    assert_eq!(network_total(&pt), 345);
}

#[test]
fn command_line_joins_arguments_with_spaces() {
    let parts = vec![String::from("prog"), String::from("--opt"), String::from("value")];
    assert_eq!(procview::text::join_space(&parts), "prog --opt value");
    let empty: Vec<String> = Vec::new();
    assert_eq!(procview::text::join_space(&empty), "");
}

#[test]
fn splitting_keeps_empty_parts() {
    assert_eq!(split_semicolons(""), vec![String::new()]);
    assert_eq!(split_semicolons("a;;b"), vec!["a", "", "b"]);
    assert_eq!(split_semicolons(";x"), vec!["", "x"]);
}

#[test]
fn edit_distance_threshold_is_inclusive() {
    // distance 3 over maximum length 5 is exactly six tenths: still a match.
    assert!(search_matches("abcde", 1, "xyzde"));
    // distance 4 over maximum length 5 is above the threshold.
    assert!(!search_matches("abcde", 1, "wxyze"));
}

#[test]
fn action_enablement_follows_selection_kind_and_state() {
    let mut n = node(5, "daemon", 0);
    assert!(process_actions_enabled(&n));
    n.content_type = ContentType::Service;
    assert!(!process_actions_enabled(&n));
    n.service_running = true;
    assert!(service_action_enabled(ServiceAction::Stop, &n));
    assert!(service_action_enabled(ServiceAction::Restart, &n));
    assert!(!service_action_enabled(ServiceAction::Start, &n));
    assert!(service_action_enabled(ServiceAction::Details, &n));
    n.service_running = false;
    assert!(service_action_enabled(ServiceAction::Start, &n));
    n.content_type = ContentType::SectionHeader;
    assert!(!service_action_enabled(ServiceAction::Details, &n));
}

#[test]
fn column_order_is_cleared_when_remember_is_off() {
    let columns = vec![String::from("cpu"), String::from("name")];
    assert_eq!(procview::columns::persisted_column_order(true, &columns), "cpu;name");
    assert_eq!(procview::columns::persisted_column_order(false, &columns), "");
}

#[test]
fn trimming_removes_unicode_whitespace() {
    // A non-breaking space around the raw name is trimmed like any blank.
    let empty_cmd: Vec<String> = Vec::new();
    assert_eq!(display_name("", &empty_cmd, "\u{00a0}editor\u{00a0}"), "editor");
    // The argument tokeniser splits on ASCII whitespace only, so a word
    // joined by a non-breaking space stays one token.
    let cmd = vec![String::from("tool\u{00a0}kit --flag")];
    assert_eq!(display_name("", &cmd, "raw"), "tool\u{00a0}kit");
}

#[test]
fn sort_preference_values_are_reset_when_remember_is_off() {
    let on = procview::sort::persisted_sort_values(true, &String::from("cpu"), 1);
    assert_eq!(on.0, "cpu");
    assert_eq!(on.1, 1);
    let off = procview::sort::persisted_sort_values(false, &String::from("cpu"), 1);
    assert_eq!(off.0, "");
    assert_eq!(off.1, procview::sort::SORT_CODE_ASCENDING);
}
