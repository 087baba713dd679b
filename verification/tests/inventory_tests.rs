use glpi_inventory::aggregator::aggregate;
use glpi_inventory::app_logic::count_distinct_hosts;
use glpi_inventory::cleanup::{cleanup_candidates, cleanup_candidates_at};
use glpi_inventory::inventory::{
    build_inventory_snapshot, computer_to_info, is_blank_value, is_windows_key_like, pick_model,
    pick_serial_number, pick_windows_product_key, value_to_string,
};
use glpi_inventory::json::JsonValue;
use glpi_inventory::models::{GlpiComputer, GlpiItemSoftwareVersion, GlpiSoftware, GlpiSoftwareVersion};

fn sw(id: u64, name: &str, publisher: &str, date_mod: Option<&str>) -> GlpiSoftware {
    GlpiSoftware {
        id,
        name: name.to_string(),
        manufacturers_id: publisher.to_string(),
        date_mod: date_mod.map(|s| s.to_string()),
        date_creation: None,
    }
}

fn ver(id: u64, name: &str, softwares_id: u64) -> GlpiSoftwareVersion {
    GlpiSoftwareVersion { id, name: name.to_string(), softwares_id, date_mod: None, date_creation: None }
}

fn inst(id: u64, items_id: u64, version: u64, date_install: Option<&str>) -> GlpiItemSoftwareVersion {
    GlpiItemSoftwareVersion {
        id,
        items_id,
        softwareversions_id: version,
        itemtype: Some("Computer".to_string()),
        date_install: date_install.map(|s| s.to_string()),
        date_mod: None,
    }
}

fn pc(id: u64, name: &str, extra: Vec<(&str, JsonValue)>) -> GlpiComputer {
    GlpiComputer {
        id,
        name: name.to_string(),
        contact: Some("alice".to_string()),
        serial: "0".to_string(),
        computermodels_id: " Latitude 5420 ".to_string(),
        date_mod: Some("2026-04-15 09:00:00".to_string()),
        date_creation: Some("2024-01-01 00:00:00".to_string()),
        extra_fields: extra.into_iter().map(|(k, v)| (k.to_string(), v)).collect(),
    }
}

#[test]
fn blank_values_and_key_shapes() {
    assert!(is_blank_value("  "));
    assert!(is_blank_value(" 0 "));
    assert!(is_blank_value("&nbsp;"));
    assert!(!is_blank_value("SN-1"));
    assert!(is_windows_key_like(" ABCDE-12345-FGHIJ-67890 "));
    assert!(!is_windows_key_like("ABCDE-12345"));
    assert!(!is_windows_key_like("ABCDE_12345-FGHIJ-67890-X"));
}

#[test]
fn scalar_values_as_text() {
    assert_eq!(value_to_string(&JsonValue::String("  x ".to_string())), "x");
    assert_eq!(value_to_string(&JsonValue::Number("42".to_string())), "42");
    assert_eq!(value_to_string(&JsonValue::Bool(true)), "true");
    assert_eq!(value_to_string(&JsonValue::Null), "");
}

#[test]
fn computer_fields_are_picked_from_extra_fields() {
    let c = pc(
        7,
        "PC-07",
        vec![
            ("uuid", JsonValue::String("x".to_string())),
            ("Serial_Number", JsonValue::String("  ".to_string())),
            ("bios_serial", JsonValue::String(" SN-77 ".to_string())),
            ("operatingsystems_serial", JsonValue::String("ABCDE-12345-FGHIJ-67890-KLMNO".to_string())),
        ],
    );
    assert_eq!(pick_serial_number(&c), "SN-77");
    assert_eq!(pick_model(&c), "Latitude 5420");
    assert_eq!(pick_windows_product_key(&c), "ABCDE-12345-FGHIJ-67890-KLMNO");
    let info = computer_to_info(&c, None);
    assert_eq!(info.name, "PC-07");
    assert_eq!(info.contact, "alice");
    assert_eq!(info.last_inventory, "2026-04-15 09:00:00");
    let given = computer_to_info(&c, Some("K".to_string()));
    assert_eq!(given.windows_product_key, "K");
}

#[test]
fn aggregation_merges_rows_and_orders_by_hosts() {
    let software = vec![
        sw(1, "Office", "Microsoft", Some("2026-01-01")),
        sw(2, "Zoom", "Zoom Video", None),
        sw(3, "office ", "microsoft", None),
    ];
    let versions = vec![ver(10, "2021", 1), ver(20, "5.0", 2), ver(30, "2019", 3)];
    let installs = vec![
        inst(1, 100, 10, Some("2026-03-01")),
        inst(2, 101, 10, Some("2026-03-02")),
        inst(3, 100, 20, None),
        inst(4, 102, 30, Some("2025-01-01")),
    ];
    let computers = vec![pc(100, "A", vec![]), pc(101, "B", vec![]), pc(102, "C", vec![])];
    let rows = aggregate(&software, &versions, &installs, &computers);
    assert_eq!(rows.len(), 2);
    assert_eq!(rows[0].name, "Office");
    assert_eq!(rows[0].total_host_count, 3);
    assert_eq!(rows[0].versions.len(), 2);
    assert_eq!(rows[1].name, "Zoom");
    assert_eq!(rows[1].total_host_count, 1);
    assert_eq!(count_distinct_hosts(&rows), 3);
}

#[test]
fn snapshot_keeps_resolvable_installations() {
    let software = vec![sw(1, "Office", "", None)];
    let versions = vec![ver(10, "2021", 1), ver(11, "orphan", 99)];
    let installs = vec![inst(1, 100, 10, None), inst(2, 100, 11, None), inst(3, 101, 12, None)];
    let computers = vec![pc(100, "A", vec![])];
    let snap = build_inventory_snapshot(&software, &versions, &installs, &computers, "2026-04-16 10:00:00".to_string());
    assert_eq!(snap.captured_at, "2026-04-16 10:00:00");
    assert_eq!(snap.computers.len(), 1);
    assert_eq!(snap.computers[0].model, "Latitude 5420");
    assert_eq!(snap.installations.len(), 1);
    assert_eq!(snap.installations[0].publisher, "Unknown");
    assert_eq!(snap.installations[0].version_name, "2021");
}

#[test]
fn cleanup_dry_run_finds_old_software() {
    let software = vec![
        sw(1, "Old Tool", "0", Some("2020-01-01")),
        sw(2, "Fresh Tool", "Acme", Some("2026-04-10")),
        sw(3, "No Date", "Acme", None),
        sw(4, "Bad Date", "Acme", Some("yesterday")),
        sw(5, "Older Tool", "Acme", Some("2019-06-30 12:00:00")),
    ];
    let today = 739722; // 2026-04-16
    let (items, skipped) = cleanup_candidates_at(&software, &[], &[], 30, today);
    assert_eq!(skipped, 2);
    assert_eq!(items.len(), 2);
    assert_eq!(items[0].name, "Older Tool");
    assert_eq!(items[0].date_mod, "2019-06-30");
    assert_eq!(items[1].name, "Old Tool");
    assert_eq!(items[1].publisher, "Unknown");
    let (none, _) = cleanup_candidates_at(&software, &[], &[], 100000, today);
    assert!(none.is_empty());
    let checked = cleanup_candidates(&software, &[], &[], 30, today).unwrap();
    assert_eq!(checked.0.len(), 2);
    assert!(cleanup_candidates(&software, &[], &[], 200_000_000, today).is_none());
}
