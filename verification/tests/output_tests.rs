use glpi_inventory::export_rows::{
    computer_export_rows, software_export_headers, software_export_rows, summary_headers, summary_rows,
    version_export_headers, version_export_rows,
};
use glpi_inventory::glpi_api::{find_windows_key_for_machine, find_windows_key_in_value, value_as_u64};
use glpi_inventory::history_query::sort_newest_first;
use glpi_inventory::json::JsonValue;
use glpi_inventory::models::{
    AggregatedSoftware, ComputerInfo, FetchStatus, FilterState, SnapshotSummary, SoftwareCleanupCandidate, VersionDetail,
};
use glpi_inventory::i18n::{t, Lang};
use glpi_inventory::presentation::{cleanup_sql_script, format_status};
use std::collections::{HashMap, HashSet};

fn s(x: &str) -> JsonValue {
    JsonValue::String(x.to_string())
}

fn obj(members: Vec<(&str, JsonValue)>) -> JsonValue {
    JsonValue::Object(members.into_iter().map(|(k, v)| (k.to_string(), v)).collect())
}

#[test]
fn status_lines_in_the_chosen_language() {
    let en = t(Lang::En);
    let hu = t(Lang::Hu);
    assert_eq!(format_status(&FetchStatus::FetchingSoftware { done: 50, total: Some(200) }, &en), "Fetching software: 50/200");
    assert_eq!(format_status(&FetchStatus::FetchingSoftware { done: 50, total: None }, &en), "Fetching software: 50...");
    assert_eq!(format_status(&FetchStatus::Done { software_count: 3, total_hosts: 10 }, &en), "Loaded 3 software / 10 hosts");
    assert_eq!(format_status(&FetchStatus::Error("boom".to_string()), &en), "Error: boom");
    assert_eq!(format_status(&FetchStatus::Idle, &hu), "Nincs csatlakozva");
    assert_eq!(format_status(&FetchStatus::Error("x".to_string()), &hu), "Hiba: x");
    assert_eq!(
        format_status(&FetchStatus::CleanupPreview { count: 3, days: 90 }, &en),
        "Dry-run found 3 software older than 90 days"
    );
}

#[test]
fn status_lines() {
    assert_eq!(FetchStatus::Idle.display_text(), "Not connected");
    assert_eq!(FetchStatus::FetchingSoftware { done: 500, total: Some(1200) }.display_text(), "Fetching software: 500/1200");
    assert_eq!(FetchStatus::FetchingAgents { done: 7, total: None }.display_text(), "Fetching agents: 7...");
    assert_eq!(
        FetchStatus::CleanupPreview { count: 3, days: 90 }.display_text(),
        "Dry-run found 3 software older than 90 days"
    );
    assert_eq!(
        FetchStatus::Done { software_count: 10, total_hosts: 4 }.display_text(),
        "Loaded 10 software across 4 hosts"
    );
    assert_eq!(FetchStatus::Error("boom".to_string()).display_text(), "Error: boom");
    assert!(FetchStatus::Idle.allows_side_queries());
    assert!(!FetchStatus::Aggregating.allows_side_queries());
}

#[test]
fn product_keys_in_payloads() {
    let key = "ABCDE-12345-FGHIJ-67890-KLMNO";
    let payload = obj(vec![
        ("uuid", s("1234567890-1234567890-ABCDE")),
        ("data", JsonValue::Array(vec![obj(vec![("License_Number", s(&format!("  {key} ")))])])),
    ]);
    assert_eq!(find_windows_key_in_value(&payload), None);
    let direct = obj(vec![("license_number", JsonValue::Array(vec![s("short"), s(key)]))]);
    assert_eq!(find_windows_key_in_value(&direct), Some(key.to_string()));
    let listing = JsonValue::Array(vec![
        obj(vec![("itemtype", s("Computer")), ("items_id", JsonValue::Number("5".to_string())), ("serial", s("ZZZZZ-11111-22222-33333"))]),
        obj(vec![("itemtype", s("computer")), ("items_id", s(" 9 ")), ("serial", s(key))]),
    ]);
    assert_eq!(find_windows_key_for_machine(&listing, 9), Some(key.to_string()));
    assert_eq!(find_windows_key_for_machine(&listing, 5), Some("ZZZZZ-11111-22222-33333".to_string()));
    assert_eq!(find_windows_key_for_machine(&listing, 6), None);
    assert_eq!(value_as_u64(&JsonValue::Number("42".to_string())), Some(42));
    assert_eq!(value_as_u64(&JsonValue::Number("-1".to_string())), None);
    assert_eq!(value_as_u64(&s(" 17 ")), Some(17));
    assert_eq!(value_as_u64(&JsonValue::Bool(true)), None);
}

fn summary(file: &str, at: &str) -> SnapshotSummary {
    SnapshotSummary {
        file_name: file.to_string(),
        captured_at: at.to_string(),
        computer_count: 0,
        installation_count: 0,
        file_size_bytes: 0,
    }
}

#[test]
fn snapshot_list_newest_first() {
    let list = sort_newest_first(vec![
        summary("a", "2026-04-01 08:00:00"),
        summary("b", "2026-04-10 08:00:00"),
        summary("c", "2026-04-01 08:00:00"),
    ]);
    let names: Vec<&str> = list.iter().map(|x| x.file_name.as_str()).collect();
    assert_eq!(names, vec!["b", "a", "c"]);
}

#[test]
fn export_cells() {
    assert_eq!(software_export_headers().len(), 10);
    let sw = AggregatedSoftware {
        software_id: 7,
        name: "Zoom".to_string(),
        publisher: "Zoom Video".to_string(),
        name_lower: "zoom".to_string(),
        publisher_lower: "zoom video".to_string(),
        total_host_count: 12,
        latest_version: "6.0".to_string(),
        last_install_date: Some("2026-04-01".to_string()),
        last_updated: None,
        last_agent_pull: None,
        last_host_inventory: Some("2026-04-15".to_string()),
        all_hosts_install_floor: None,
        host_install_best_per_host: HashMap::new(),
        host_mod_best_per_host: HashMap::new(),
        versions: Vec::new(),
        host_ids: HashSet::new(),
    };
    let rows = software_export_rows(&[sw]);
    assert_eq!(
        rows[0],
        vec!["1", "7", "Zoom", "Zoom Video", "12", "6.0", "2026-04-01", "", "", "2026-04-15"]
            .into_iter()
            .map(String::from)
            .collect::<Vec<_>>()
    );
    let mut computers = HashMap::new();
    computers.insert(
        1u64,
        ComputerInfo {
            name: "beta".to_string(),
            contact: String::new(),
            serial_number: "S2".to_string(),
            model: "M".to_string(),
            last_inventory: String::new(),
            windows_product_key: String::new(),
        },
    );
    computers.insert(
        2u64,
        ComputerInfo {
            name: "Alpha".to_string(),
            contact: String::new(),
            serial_number: "S1".to_string(),
            model: String::new(),
            last_inventory: String::new(),
            windows_product_key: String::new(),
        },
    );
    let pcs = computer_export_rows(&computers);
    assert_eq!(pcs[0], ("Alpha".to_string(), "S1".to_string(), String::new()));
    assert_eq!(pcs[1].0, "beta");
}

#[test]
fn cleanup_script() {
    let items = vec![SoftwareCleanupCandidate {
        software_id: 3,
        name: "O'Tool".to_string(),
        publisher: "Acme".to_string(),
        date_mod: "2020-01-01".to_string(),
    }];
    let sql = cleanup_sql_script(&items);
    assert!(sql.starts_with("-- GLPI cleanup preview export for MariaDB\n"));
    assert!(sql.contains("TRUNCATE TABLE glpi_cleanup_preview;\n\n"));
    assert!(sql.contains(
        "INSERT INTO glpi_cleanup_preview (id, name, publisher, last_activity) VALUES (3, 'O''Tool', 'Acme', '2020-01-01');\n"
    ));
    assert!(sql.ends_with("\nCOMMIT;\n"));
}

fn version(id: u64, name: &str, hosts: usize, last: Option<&str>) -> VersionDetail {
    VersionDetail {
        version_id: id,
        version_name: name.to_string(),
        host_count: hosts,
        last_install_date: last.map(|d| d.to_string()),
        host_ids: HashSet::new(),
    }
}

fn strings(v: &[&str]) -> Vec<String> {
    v.iter().map(|x| x.to_string()).collect()
}

#[test]
fn csv_and_detailed_sheet_have_one_row_per_version() {
    const TODAY: i32 = 739722; // 2026-04-16
    let filters = FilterState::default_at(TODAY);
    let make = |id: u64, name: &str, versions: Vec<VersionDetail>, hosts: usize| AggregatedSoftware {
        software_id: id,
        name: name.to_string(),
        publisher: "Pub".to_string(),
        name_lower: name.to_lowercase(),
        publisher_lower: "pub".to_string(),
        total_host_count: hosts,
        latest_version: String::new(),
        last_install_date: Some("2026-04-10".to_string()),
        last_updated: None,
        last_agent_pull: None,
        last_host_inventory: None,
        all_hosts_install_floor: None,
        host_install_best_per_host: HashMap::new(),
        host_mod_best_per_host: HashMap::new(),
        versions,
        host_ids: HashSet::new(),
    };
    let data = vec![
        make(1, "Zoom", vec![version(10, "6.0", 3, Some("2026-04-10")), version(11, "5.0", 2, Some("2025-01-01"))], 5),
        make(2, "Empty", Vec::new(), 0),
        make(3, "7-Zip", vec![version(30, "23.01", 1, None)], 1),
    ];
    assert_eq!(
        version_export_headers(),
        vec!["Rank", "Software Name", "Publisher", "Host Count", "Version", "Version Host Count", "Last Updated", "Recently Updated"]
    );
    let rows = version_export_rows(&data, TODAY, &filters);
    assert_eq!(rows.len(), 3);
    assert_eq!(rows[0], strings(&["1", "Zoom", "Pub", "5", "6.0", "3", "2026-04-10", "2026-04-10"]));
    assert_eq!(rows[1], strings(&["1", "Zoom", "Pub", "5", "5.0", "2", "2025-01-01", "No"]));
    assert_eq!(rows[2], strings(&["3", "7-Zip", "Pub", "1", "23.01", "1", "", "No"]));
    let headers = summary_headers();
    assert_eq!(headers.len(), 11);
    assert_eq!(headers[10], "Recently Updated");
    let summary = summary_rows(&data, TODAY, &filters);
    assert_eq!(summary.len(), 3);
    assert_eq!(summary[0][10], "2026-04-10");
    assert_eq!(summary[1][2], "Empty");
}
