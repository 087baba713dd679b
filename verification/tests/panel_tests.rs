use glpi_inventory::machine_key::selected_machine_windows_key;
use glpi_inventory::presentation::version_is_recent;
use glpi_inventory::models::{
    ComputerInfo, FilterState, LicenseCategory, VersionDetail, LicenseKeyRecord, LicenseSource, PcSoftwareHistCache, SnapshotSummary,
};
use glpi_inventory::panel_state::{
    hist_cache_key, hist_cache_source, hist_cache_step, removed_snapshot_effects, HistCacheStep,
};
use std::collections::HashMap;

const TODAY: i32 = 739722; // 2026-04-16

fn key(source: LicenseSource, category: LicenseCategory, id: Option<u64>, k: &str) -> LicenseKeyRecord {
    LicenseKeyRecord {
        source,
        category,
        product_name: "Windows".to_string(),
        license_key: k.to_string(),
        computer_id: id,
        computer_name: None,
        user_contact: None,
        notes: None,
    }
}

fn computer(key: &str) -> ComputerInfo {
    ComputerInfo {
        name: "pc".to_string(),
        contact: String::new(),
        serial_number: String::new(),
        model: String::new(),
        last_inventory: String::new(),
        windows_product_key: key.to_string(),
    }
}

#[test]
fn machine_key_prefers_computer_then_inventory_record() {
    let recs = vec![
        key(LicenseSource::Glpi, LicenseCategory::Windows, Some(5), "GLPI-KEY"),
        key(LicenseSource::ComputerInventory, LicenseCategory::Office, Some(5), "OFFICE-KEY"),
        key(LicenseSource::ComputerInventory, LicenseCategory::Windows, Some(5), "INV-KEY"),
        key(LicenseSource::ComputerInventory, LicenseCategory::Windows, Some(5), "INV-KEY-2"),
        key(LicenseSource::Glpi, LicenseCategory::Windows, Some(6), "OTHER"),
    ];
    let mut computers = HashMap::new();
    computers.insert(5, computer("  "));
    computers.insert(7, computer(" DIRECT-KEY "));
    assert_eq!(selected_machine_windows_key(&computers, &recs, 5), "INV-KEY");
    assert_eq!(selected_machine_windows_key(&computers, &recs, 6), "OTHER");
    assert_eq!(selected_machine_windows_key(&computers, &recs, 7), "DIRECT-KEY");
    assert_eq!(selected_machine_windows_key(&computers, &recs, 8), "");
    let glpi_only = vec![key(LicenseSource::Glpi, LicenseCategory::Windows, Some(5), "GLPI-KEY")];
    assert_eq!(selected_machine_windows_key(&computers, &glpi_only, 5), "GLPI-KEY");
}

fn summary(file: &str, captured: &str) -> SnapshotSummary {
    SnapshotSummary {
        file_name: file.to_string(),
        captured_at: captured.to_string(),
        computer_count: 1,
        installation_count: 1,
        file_size_bytes: 10,
    }
}

#[test]
fn historical_snapshot_cache_steps() {
    let snaps = vec![summary("b.json", "2026-04-10 10:00:00"), summary("a.json", "2026-03-01 10:00:00")];
    let k = hist_cache_key("2026-04-01", "2026-04-15", &snaps);
    assert_eq!(k.snapshot_count, 2);
    assert_eq!(k.head, "b.json");
    let cached = Some(hist_cache_key("2026-04-01", "2026-04-15", &snaps));
    let cache = Some(PcSoftwareHistCache::NoSnapshotInRange);
    assert_eq!(hist_cache_step(false, false, &cached, &k, &cache), HistCacheStep::Clear);
    assert_eq!(hist_cache_step(true, false, &cached, &k, &cache), HistCacheStep::Keep);
    assert_eq!(hist_cache_step(true, true, &cached, &k, &cache), HistCacheStep::Rebuild);
    assert_eq!(hist_cache_step(true, false, &cached, &k, &None), HistCacheStep::Rebuild);
    let other = hist_cache_key("2026-04-02", "2026-04-15", &snaps);
    assert_eq!(hist_cache_step(true, false, &cached, &other, &cache), HistCacheStep::Rebuild);
    assert_eq!(hist_cache_step(true, false, &None, &k, &cache), HistCacheStep::Rebuild);
}

#[test]
fn historical_snapshot_source() {
    let snaps = vec![summary("b.json", "2026-04-10 10:00:00"), summary("a.json", "2026-03-01 10:00:00")];
    match hist_cache_source("2026-04-01", "2026-04-15", TODAY, &snaps) {
        Ok(s) => assert_eq!(s.file_name, "b.json"),
        Err(_) => panic!("expected a snapshot"),
    }
    assert!(matches!(
        hist_cache_source("2025-01-01", "2025-01-31", TODAY, &snaps),
        Err(PcSoftwareHistCache::NoSnapshotInRange)
    ));
    assert!(matches!(
        hist_cache_source("not a date", "2025-01-31", TODAY, &snaps),
        Err(PcSoftwareHistCache::InvalidDates)
    ));
}

#[test]
fn deleting_snapshots_clears_what_used_them() {
    let removed = vec!["a.json".to_string(), "c.json".to_string()];
    let e = removed_snapshot_effects(
        &Some("a.json".to_string()),
        &Some("b.json".to_string()),
        &Some("c.json".to_string()),
        &removed,
        true,
    );
    assert!(e.clear_compare_a);
    assert!(!e.clear_compare_b);
    assert!(e.clear_diff);
    assert!(e.clear_selected);
    assert!(e.resolve_again);
    let none = removed_snapshot_effects(&None, &Some("b.json".to_string()), &Some("b.json".to_string()), &removed, true);
    assert!(!none.clear_compare_a && !none.clear_compare_b && !none.clear_diff && !none.clear_selected && !none.resolve_again);
}

#[test]
fn version_recent_mark() {
    let v = VersionDetail {
        version_id: 1,
        version_name: "1.0".to_string(),
        host_count: 1,
        last_install_date: Some("2026-04-10 08:00:00".to_string()),
        host_ids: [1u64].into_iter().collect(),
    };
    let old = VersionDetail {
        version_id: 2,
        version_name: "0.9".to_string(),
        host_count: 1,
        last_install_date: Some("2025-01-01".to_string()),
        host_ids: [1u64].into_iter().collect(),
    };
    let mut f = FilterState::default_at(TODAY);
    assert!(version_is_recent(&v, TODAY, &f));
    assert!(!version_is_recent(&old, TODAY, &f));
    f.recently_updated = true;
    assert!(!version_is_recent(&v, TODAY, &f));
    f.recent_install_only = true;
    assert!(version_is_recent(&v, TODAY, &f));
}
