use glpi_inventory::models::{
    AggregatedSoftware, FilterState, GlpiLogEntry, InventorySnapshot, PcLogAction, PcSoftwareLogEntry,
    RecentTimeMode, SnapshotInstallation, SnapshotSummary, VersionDetail,
};
use glpi_inventory::pc_log::{
    classify_glpi_software_history, collect_removals, extract_software_name, filter_state_rolling_days,
    finish_audit_removals, software_history_entries,
};
use glpi_inventory::pc_software::{
    gather_deleted_rows, gather_snapshot_software_for_pc, gather_software_for_pc, is_kb_update,
    is_windows_component, resolve_hist_date_range, snapshot_head_fingerprint,
};
use glpi_inventory::presentation::versions_for_host;
use std::collections::{HashMap, HashSet};

const TODAY: i32 = 739722; // 2026-04-16

fn version(id: u64, name: &str, hosts: &[u64], last_install: Option<&str>) -> VersionDetail {
    VersionDetail {
        version_id: id,
        version_name: name.to_string(),
        host_count: hosts.len(),
        last_install_date: last_install.map(|s| s.to_string()),
        host_ids: hosts.iter().copied().collect(),
    }
}

fn software(id: u64, name: &str, publisher: &str, versions: Vec<VersionDetail>) -> AggregatedSoftware {
    let mut hosts = HashSet::new();
    for v in &versions {
        for h in &v.host_ids {
            hosts.insert(*h);
        }
    }
    AggregatedSoftware {
        software_id: id,
        name: name.to_string(),
        publisher: publisher.to_string(),
        name_lower: name.to_lowercase(),
        publisher_lower: publisher.to_lowercase(),
        total_host_count: hosts.len(),
        latest_version: "latest".to_string(),
        last_install_date: None,
        last_updated: Some("2026-04-01 10:00:00".to_string()),
        last_agent_pull: None,
        last_host_inventory: None,
        all_hosts_install_floor: None,
        host_install_best_per_host: HashMap::new(),
        host_mod_best_per_host: HashMap::new(),
        versions,
        host_ids: hosts,
    }
}

#[test]
fn windows_parts_and_updates_are_recognized() {
    assert!(is_windows_component("Windows Feature Experience Pack", "Microsoft Corporation"));
    assert!(!is_windows_component("Microsoft Office Professional", "Microsoft Corporation"));
    assert!(!is_windows_component("Windows Helper", "Acme"));
    assert!(is_windows_component("1234567890abcdef-1234567890abcdef", ""));
    assert!(is_kb_update(" KB5034441 "));
    assert!(is_kb_update("Security Update for Windows (KB5034441)"));
    assert!(is_kb_update("Hotfix for Office kb12345"));
    assert!(!is_kb_update("Kbd Layout"));
}

#[test]
fn live_rows_for_one_pc() {
    let data = vec![
        software(1, "Zoom", "Zoom", vec![version(10, "5.0", &[1], Some("2026-04-10")), version(11, "6.0", &[1], Some("2026-04-12"))]),
        software(2, "alpha tool", "Acme", vec![version(20, "1.0", &[1, 2], None)]),
        software(3, "Other", "Acme", vec![version(30, "9", &[2], None)]),
    ];
    let rows = gather_software_for_pc(&data, 1, "", false, false, None, "2026-04-15");
    assert_eq!(rows.len(), 2);
    assert_eq!(rows[0].name, "alpha tool");
    assert_eq!(rows[0].version, "1.0");
    assert_eq!(rows[0].last_install, "");
    assert_eq!(rows[0].last_agent_pull, "2026-04-15");
    assert_eq!(rows[1].name, "Zoom");
    assert_eq!(rows[1].version, "5.0, 6.0");
    assert_eq!(rows[1].last_install, "2026-04-12");
    let filtered = gather_software_for_pc(&data, 1, " ZOO ", false, false, None, "");
    assert_eq!(filtered.len(), 1);
    let recent = gather_software_for_pc(&data, 1, "", false, false, Some(TODAY - 5), "");
    assert_eq!(recent.len(), 1);
    assert_eq!(recent[0].name, "Zoom");
    assert_eq!(versions_for_host(&data[0], 1), "5.0, 6.0");
    assert_eq!(versions_for_host(&data[0], 2), "—");
}

fn log_entry(date: &str, action: PcLogAction, name: &str, old_value: &str) -> PcSoftwareLogEntry {
    PcSoftwareLogEntry {
        date: date.to_string(),
        action,
        software_name: name.to_string(),
        old_value: old_value.to_string(),
        new_value: String::new(),
    }
}

#[test]
fn removed_rows_from_history() {
    let entries = vec![
        log_entry("2026-04-14 09:00:00", PcLogAction::Removed, " Foo ", "Foo (1.2.3))"),
        log_entry("2026-04-13 09:00:00", PcLogAction::Removed, "foo", "foo (1.0)"),
        log_entry("2026-04-12 09:00:00", PcLogAction::Installed, "Bar", ""),
        log_entry("2026-04-11 09:00:00", PcLogAction::Removed, "Zoom", "Zoom (5.0)"),
        log_entry("2020-01-01 09:00:00", PcLogAction::Removed, "Ancient", "Ancient"),
    ];
    let current = vec!["zoom".to_string()];
    let rows = gather_deleted_rows(&entries, &current, "", false, false, Some(TODAY - 30));
    assert_eq!(rows.len(), 1);
    assert_eq!(rows[0].name, "Foo");
    assert_eq!(rows[0].version, "1.2.3");
    assert_eq!(rows[0].deleted_date, "2026-04-14");
    assert!(rows[0].is_deleted);
    let all = gather_deleted_rows(&entries, &current, "", false, false, None);
    assert_eq!(all.len(), 2);
    assert_eq!(all[0].name, "Ancient");
    assert_eq!(all[0].version, "");
}

#[test]
fn snapshot_rows_group_versions() {
    let snap = InventorySnapshot {
        captured_at: "2026-04-01 08:00:00".to_string(),
        computers: vec![],
        installations: vec![
            SnapshotInstallation { computer_id: 1, software_id: 1, software_name: "Zoom".to_string(), publisher: "".to_string(), version_id: 2, version_name: "6.0".to_string() },
            SnapshotInstallation { computer_id: 1, software_id: 1, software_name: "Zoom".to_string(), publisher: "  ".to_string(), version_id: 1, version_name: "5.0".to_string() },
            SnapshotInstallation { computer_id: 1, software_id: 1, software_name: "Zoom".to_string(), publisher: "".to_string(), version_id: 1, version_name: "5.0".to_string() },
            SnapshotInstallation { computer_id: 2, software_id: 3, software_name: "Other".to_string(), publisher: "Acme".to_string(), version_id: 3, version_name: "1".to_string() },
            SnapshotInstallation { computer_id: 1, software_id: 4, software_name: "editor".to_string(), publisher: "Acme".to_string(), version_id: 4, version_name: " ".to_string() },
        ],
    };
    let rows = gather_snapshot_software_for_pc(&snap, 1, "", false, false);
    assert_eq!(rows.len(), 2);
    assert_eq!(rows[0].name, "editor");
    assert_eq!(rows[0].version, "");
    assert_eq!(rows[1].name, "Zoom");
    assert_eq!(rows[1].publisher, "Unknown");
    assert_eq!(rows[1].version, "5.0, 6.0");
}

#[test]
fn snapshot_range_defaults_and_errors() {
    assert_eq!(resolve_hist_date_range("", "", TODAY), Ok((TODAY - 120, TODAY - 60)));
    assert_eq!(resolve_hist_date_range(" 2026-04-01 ", "2026-04-16", TODAY), Ok((739707, 739722)));
    assert_eq!(resolve_hist_date_range("2026-04-16", "2026-04-01", TODAY), Err(()));
    assert_eq!(resolve_hist_date_range("soon", "", TODAY), Err(()));
    let snaps = vec![SnapshotSummary {
        file_name: "snapshot-x.json".to_string(),
        captured_at: String::new(),
        computer_count: 0,
        installation_count: 0,
        file_size_bytes: 0,
    }];
    assert_eq!(snapshot_head_fingerprint(&snaps), "snapshot-x.json");
    assert_eq!(snapshot_head_fingerprint(&[]), "");
}

#[test]
fn history_actions_are_classified() {
    assert_eq!(classify_glpi_software_history(5, "Zoom (5.0)", ""), PcLogAction::Removed);
    assert_eq!(classify_glpi_software_history(4, "", ""), PcLogAction::Installed);
    assert_eq!(classify_glpi_software_history(16, "", "x"), PcLogAction::Removed);
    assert_eq!(classify_glpi_software_history(0, "a", "b"), PcLogAction::Updated);
    assert_eq!(classify_glpi_software_history(0, " ", "b"), PcLogAction::Installed);
    assert_eq!(classify_glpi_software_history(0, "a", ""), PcLogAction::Removed);
    assert_eq!(classify_glpi_software_history(3, "", ""), PcLogAction::Installed);
    assert_eq!(classify_glpi_software_history(-1, "", ""), PcLogAction::Removed);
    assert_eq!(extract_software_name("  Zoom (5.0) "), "Zoom");
    assert_eq!(extract_software_name("Foo (x) (1.2)"), "Foo (x)");
    assert_eq!(extract_software_name(" Plain "), "Plain");
}

fn glpi_log(id: u64, date: &str, link: &str, code: i64, old: &str, new: &str) -> GlpiLogEntry {
    GlpiLogEntry {
        id,
        date_mod: Some(date.to_string()),
        user_name: None,
        linked_action: Some(code),
        itemtype_link: Some(link.to_string()),
        old_value: Some(old.to_string()),
        new_value: Some(new.to_string()),
    }
}

#[test]
fn software_history_newest_first_in_window() {
    let f = filter_state_rolling_days(7, TODAY);
    assert_eq!(f.days, "7");
    assert_eq!(f.recent_time_mode, RecentTimeMode::RollingDays);
    let logs = vec![
        glpi_log(1, "2026-04-10 08:00:00", "Item_SoftwareVersion", 4, "", "Zoom (5.0)"),
        glpi_log(2, "2026-04-15 08:00:00", "SoftwareVersion", 5, "Foo (1.0)", ""),
        glpi_log(3, "2026-04-15 08:00:00", "Software", 0, "a", "b (2)"),
        glpi_log(4, "2026-04-15 08:00:00", "NetworkPort", 4, "", "x"),
        glpi_log(5, "2026-03-01 08:00:00", "Software", 4, "", "Old (1)"),
    ];
    let rows = software_history_entries(&logs, TODAY, &f);
    assert_eq!(rows.len(), 3);
    assert_eq!(rows[0].software_name, "Foo");
    assert_eq!(rows[0].action, PcLogAction::Removed);
    assert_eq!(rows[1].software_name, "b");
    assert_eq!(rows[1].action, PcLogAction::Updated);
    assert_eq!(rows[2].software_name, "Zoom");
    let mut removals = Vec::new();
    collect_removals(&mut removals, 42, &rows);
    assert_eq!(removals.len(), 1);
    assert_eq!(removals[0].computer_id, 42);
    assert_eq!(removals[0].removed_at, "2026-04-15 08:00:00");
    let ok = finish_audit_removals(removals, vec!["7: timeout".to_string()]).unwrap();
    assert_eq!(ok.1, vec!["7: timeout".to_string()]);
    let err = finish_audit_removals(Vec::new(), vec!["7: a".to_string(), "8: b".to_string()]);
    assert_eq!(err.unwrap_err(), "7: a; 8: b");
    let empty = finish_audit_removals(Vec::new(), Vec::new()).unwrap();
    assert!(empty.0.is_empty());
}

#[test]
fn default_filter_bar() {
    let f = FilterState::default_at(TODAY);
    assert_eq!(f.days, "30");
    assert_eq!(f.recent_cutoff_from, TODAY - 30);
    assert_eq!(f.recent_range_to, TODAY);
}
