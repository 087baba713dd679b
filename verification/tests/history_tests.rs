use glpi_inventory::history_query::{build_historical_software_view, pick_snapshot_in_date_range, resolve_snapshot_for_days_ago};
use glpi_inventory::history_store::{check_snapshot_name, delete_snapshots, sanitize_timestamp, snapshot_file_name};
use glpi_inventory::models::{InventorySnapshot, SnapshotComputer, SnapshotInstallation, SnapshotSummary};
use glpi_inventory::snapshot_diff::compare_snapshots;

fn install(computer_id: u64, software_id: u64, name: &str, publisher: &str, version_id: u64, version: &str) -> SnapshotInstallation {
    SnapshotInstallation {
        computer_id,
        software_id,
        software_name: name.to_string(),
        publisher: publisher.to_string(),
        version_id,
        version_name: version.to_string(),
    }
}

fn computer(id: u64, name: &str) -> SnapshotComputer {
    SnapshotComputer {
        id,
        name: name.to_string(),
        contact: String::new(),
        serial_number: String::new(),
        model: String::new(),
        last_inventory: String::new(),
    }
}

#[test]
fn groups_software_by_name_and_publisher() {
    let snapshot = InventorySnapshot {
        captured_at: "2026-04-16 10:00:00".to_string(),
        computers: vec![
            SnapshotComputer {
                id: 1,
                name: "PC-01".to_string(),
                contact: "Alice".to_string(),
                serial_number: "SN1".to_string(),
                model: "Dell".to_string(),
                last_inventory: "2026-04-15".to_string(),
            },
            SnapshotComputer {
                id: 2,
                name: "PC-02".to_string(),
                contact: "Bob".to_string(),
                serial_number: "SN2".to_string(),
                model: "HP".to_string(),
                last_inventory: "2026-04-15".to_string(),
            },
        ],
        installations: vec![
            SnapshotInstallation {
                computer_id: 1,
                software_id: 10,
                software_name: "Office".to_string(),
                publisher: "Microsoft".to_string(),
                version_id: 100,
                version_name: "2021".to_string(),
            },
            SnapshotInstallation {
                computer_id: 2,
                software_id: 11,
                software_name: "Office".to_string(),
                publisher: "Microsoft".to_string(),
                version_id: 101,
                version_name: "365".to_string(),
            },
        ],
    };

    let rows = build_historical_software_view(&snapshot, "", "", "");
    assert_eq!(rows.len(), 1);
    assert_eq!(rows[0].host_count, 2);
    assert_eq!(rows[0].versions, vec!["2021".to_string(), "365".to_string()]);
}

#[test]
fn filters_by_pc_name() {
    let snapshot = InventorySnapshot {
        captured_at: "2026-04-16 10:00:00".to_string(),
        computers: vec![SnapshotComputer {
            id: 1,
            name: "FIN-PC-01".to_string(),
            contact: String::new(),
            serial_number: "SN1".to_string(),
            model: String::new(),
            last_inventory: String::new(),
        }],
        installations: vec![SnapshotInstallation {
            computer_id: 1,
            software_id: 10,
            software_name: "Office".to_string(),
            publisher: "Microsoft".to_string(),
            version_id: 100,
            version_name: "2021".to_string(),
        }],
    };

    assert_eq!(build_historical_software_view(&snapshot, "", "", "fin-pc").len(), 1);
    assert!(build_historical_software_view(&snapshot, "", "", "hr-pc").is_empty());
}

fn two_snapshots() -> (InventorySnapshot, InventorySnapshot) {
    let a = InventorySnapshot {
        captured_at: "2026-04-01 08:00:00".to_string(),
        computers: vec![computer(1, "PC-01"), computer(2, "PC-02")],
        installations: vec![
            install(1, 10, "Office", "Microsoft", 100, "2021"),
            install(2, 10, "Office", "Microsoft", 100, "2021"),
            install(1, 20, "Zoom", "Zoom Video", 200, "5.0"),
        ],
    };
    let b = InventorySnapshot {
        captured_at: "2026-04-10 08:00:00".to_string(),
        computers: vec![computer(1, "PC-01"), computer(2, "PC-02")],
        installations: vec![
            install(1, 10, "Office", "Microsoft", 100, "2021"),
            install(1, 30, "Slack", "Slack Technologies", 300, "4.1"),
        ],
    };
    (a, b)
}

#[test]
fn comparing_a_snapshot_with_itself_finds_nothing() {
    let (a, _) = two_snapshots();
    let d = compare_snapshots(&a, &a);
    assert!(d.added.is_empty());
    assert!(d.removed.is_empty());
    assert!(d.changed.is_empty());
}

#[test]
fn comparison_lists_added_removed_and_changed() {
    let (a, b) = two_snapshots();
    let d = compare_snapshots(&a, &b);
    assert_eq!(d.added.len(), 1);
    assert_eq!(d.added[0].software_name, "Slack");
    assert_eq!(d.added[0].hosts_a, 0);
    assert_eq!(d.added[0].hosts_b, 1);
    assert_eq!(d.removed.len(), 1);
    assert_eq!(d.removed[0].software_name, "Zoom");
    assert_eq!(d.changed.len(), 1);
    assert_eq!(d.changed[0].software_name, "Office");
    assert_eq!(d.changed[0].hosts_a, 2);
    assert_eq!(d.changed[0].hosts_b, 1);
    assert_eq!(d.changed[0].versions_a, vec!["2021".to_string()]);
}

#[test]
fn reversed_comparison_swaps_added_and_removed() {
    let (a, b) = two_snapshots();
    let d1 = compare_snapshots(&a, &b);
    let d2 = compare_snapshots(&b, &a);
    assert_eq!(d1.added[0].software_name, d2.removed[0].software_name);
    assert_eq!(d1.removed[0].software_name, d2.added[0].software_name);
    assert_eq!(d1.changed.len(), d2.changed.len());
}

#[test]
fn snapshot_file_names_are_sanitized_and_accepted() {
    assert_eq!(sanitize_timestamp("2026-04-16 10:00:00"), "2026-04-16-10-00-00");
    let name = snapshot_file_name("2026-04-16 10:00:00", 0);
    assert_eq!(name, "snapshot-2026-04-16-10-00-00.json");
    assert!(check_snapshot_name(&name, true).is_ok());
    let second = snapshot_file_name("2026-04-16 10:00:00", 2);
    assert_eq!(second, "snapshot-2026-04-16-10-00-00-2.json");
    assert!(check_snapshot_name(&second, true).is_ok());
    let odd = snapshot_file_name("../etc/passwd", 0);
    assert!(check_snapshot_name(&odd, true).is_ok());
}

#[test]
fn unsafe_snapshot_names_are_refused() {
    assert_eq!(check_snapshot_name("../x.json", true), Err("Invalid snapshot file name".to_string()));
    assert!(check_snapshot_name("a/b.json", true).is_err());
    assert!(check_snapshot_name("a\\b.json", true).is_err());
    assert!(check_snapshot_name("snapshot.txt", true).is_err());
    assert!(check_snapshot_name("C:x.json", true).is_err());
    assert!(check_snapshot_name("C:x.json", false).is_ok());
    assert!(check_snapshot_name("a/b.json", false).is_err());
    assert!(check_snapshot_name("ab:c.json", true).is_ok());
}

#[test]
fn deleting_snapshots_reports_failures() {
    let names = vec!["a.json".to_string(), "b.json".to_string()];
    assert_eq!(delete_snapshots(&names, &[Ok(()), Ok(())]), Ok(2));
    let partial = delete_snapshots(&names, &[Ok(()), Err("denied".to_string())]);
    assert_eq!(partial, Ok(1));
    let none = delete_snapshots(&names, &[Err("x".to_string()), Err("y".to_string())]);
    assert_eq!(none, Err("a.json: x; b.json: y".to_string()));
}

fn summary(file: &str, at: &str) -> SnapshotSummary {
    SnapshotSummary {
        file_name: file.to_string(),
        captured_at: at.to_string(),
        computer_count: 1,
        installation_count: 1,
        file_size_bytes: 10,
    }
}

#[test]
fn picks_latest_snapshot_in_range() {
    // day numbers counted from 0001-01-01: 2026-04-01 is day 739707
    let snaps = vec![
        summary("c.json", "2026-04-10 08:00:00"),
        summary("b.json", "2026-04-05 08:00:00"),
        summary("a.json", "2026-04-01 08:00:00"),
    ];
    let from = 739707;
    let picked = pick_snapshot_in_date_range(&snaps, from, from + 5).unwrap();
    assert_eq!(picked.file_name, "b.json");
    assert!(pick_snapshot_in_date_range(&snaps, from + 20, from + 30).is_none());
    assert!(pick_snapshot_in_date_range(&snaps, from + 5, from).is_none());
    let resolved = resolve_snapshot_for_days_ago(&snaps, 3, from + 10).unwrap();
    assert_eq!(resolved.file_name, "b.json");
}

#[test]
fn comparison_reversed_trades_sides_row_by_row() {
    let (a, b) = two_snapshots();
    let d1 = compare_snapshots(&a, &b);
    let d2 = compare_snapshots(&b, &a);
    assert_eq!(d2.removed.len(), d1.added.len());
    assert_eq!(d2.added.len(), d1.removed.len());
    assert_eq!(d2.changed.len(), d1.changed.len());
    for (x, y) in d1.added.iter().zip(d2.removed.iter()).chain(d1.removed.iter().zip(d2.added.iter())) {
        assert_eq!(x.software_name, y.software_name);
        assert_eq!(x.publisher, y.publisher);
        assert_eq!((x.hosts_a, x.hosts_b), (y.hosts_b, y.hosts_a));
        assert_eq!((&x.versions_a, &x.versions_b), (&y.versions_b, &y.versions_a));
    }
    for (x, y) in d1.changed.iter().zip(d2.changed.iter()) {
        assert_eq!((x.hosts_a, x.hosts_b), (y.hosts_b, y.hosts_a));
        assert_eq!((&x.versions_a, &x.versions_b), (&y.versions_b, &y.versions_a));
    }
}
