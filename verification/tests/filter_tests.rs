use glpi_inventory::filters::{apply_filters, is_office_product, is_os_default, is_uwp_package_name, looks_like_guid};
use glpi_inventory::json::JsonValue;
use glpi_inventory::licenses::{aggregate_license_keys, classify_category, field_to_product, is_key_field_name, is_license_key_like};
use glpi_inventory::models::{
    AggregatedSoftware, FilterState, GlpiComputer, GlpiSoftware, GlpiSoftwareLicense, LicenseCategory, LicenseSource,
};
use std::collections::{HashMap, HashSet};

const TODAY: i32 = 739722; // 2026-04-16

fn row(id: u64, name: &str, publisher: &str, hosts: usize, agent_pull: Option<&str>) -> AggregatedSoftware {
    AggregatedSoftware {
        software_id: id,
        name: name.to_string(),
        publisher: publisher.to_string(),
        name_lower: name.to_lowercase(),
        publisher_lower: publisher.to_lowercase(),
        total_host_count: hosts,
        latest_version: String::new(),
        last_install_date: None,
        last_updated: None,
        last_agent_pull: agent_pull.map(|s| s.to_string()),
        last_host_inventory: None,
        all_hosts_install_floor: None,
        host_install_best_per_host: HashMap::new(),
        host_mod_best_per_host: HashMap::new(),
        versions: Vec::new(),
        host_ids: (0..hosts as u64).collect(),
    }
}

#[test]
fn os_defaults_are_hidden() {
    assert!(looks_like_guid("1527c705-839a-4832-9118-54d4Bd6a0c89"));
    assert!(!looks_like_guid("{1527c705-839a-4832-9118-54d4Bd6a0c89}"));
    assert!(!looks_like_guid("not a guid"));
    assert!(is_uwp_package_name("microsoft.windowsstore"));
    assert!(is_office_product("microsoft office professional plus 2019"));
    assert!(is_os_default("Windows Defender Antivirus", "Microsoft"));
    assert!(is_os_default("KB5034441", ""));
    assert!(!is_os_default("Microsoft Office Professional Plus 2019", "Microsoft Corporation"));
    assert!(!is_os_default("Mozilla Firefox", "Mozilla"));
}

#[test]
fn filters_by_text_hosts_recency_and_top_n() {
    let data = vec![
        row(1, "Zoom", "Zoom Video", 5, Some("2026-04-15")),
        row(2, "Slack", "Slack", 3, Some("2026-01-01")),
        row(3, "Zoom Rooms", "Zoom Video", 1, None),
    ];
    let mut f = FilterState::default_at(TODAY);
    let none: HashSet<u64> = HashSet::new();
    assert_eq!(apply_filters(&data, &f, &none, TODAY).len(), 3);
    f.software_name = "ZOOM".to_string();
    let by_name = apply_filters(&data, &f, &none, TODAY);
    assert_eq!(by_name.len(), 2);
    f.min_hosts = "2".to_string();
    assert_eq!(apply_filters(&data, &f, &none, TODAY).len(), 1);
    f.software_name.clear();
    f.min_hosts.clear();
    f.recently_updated = true;
    let recent = apply_filters(&data, &f, &none, TODAY);
    assert_eq!(recent.len(), 1);
    assert_eq!(recent[0].software_id, 1);
    f.recently_updated = false;
    f.top_n = "2".to_string();
    let top = apply_filters(&data, &f, &none, TODAY);
    assert_eq!(top.len(), 2);
    assert_eq!(top[1].software_id, 2);
    f.top_n.clear();
    f.show_selected_only = true;
    let picked: HashSet<u64> = [3u64].into_iter().collect();
    let sel = apply_filters(&data, &f, &picked, TODAY);
    assert_eq!(sel.len(), 1);
    assert_eq!(sel[0].name, "Zoom Rooms");
}

#[test]
fn license_helpers() {
    assert!(is_key_field_name("Windows_ProductKey"));
    assert!(!is_key_field_name("comment"));
    assert!(is_license_key_like(" ABCDE-12345 FGHIJ "));
    assert!(!is_license_key_like("ABCDEFGHIJKLMNOP"));
    assert_eq!(classify_category("Windows 11 Pro"), LicenseCategory::Windows);
    assert_eq!(classify_category("Microsoft 365 Apps"), LicenseCategory::Office);
    assert_eq!(classify_category("Adobe Acrobat"), LicenseCategory::ThirdParty);
    assert_eq!(field_to_product("office_key"), "Microsoft Office");
    assert_eq!(field_to_product("win_key"), "Field: win_key");
}

#[test]
fn license_keys_from_glpi_records() {
    let software = vec![GlpiSoftware {
        id: 5,
        name: "Windows 11 Pro".to_string(),
        manufacturers_id: "Microsoft".to_string(),
        date_mod: None,
        date_creation: None,
    }];
    let licenses = vec![
        GlpiSoftwareLicense {
            id: 1,
            name: "Win".to_string(),
            softwares_id: "5".to_string(),
            serial: " AAAAA-BBBBB-CCCCC ".to_string(),
            comment: Some("  ".to_string()),
            extra_fields: vec![("computers_id".to_string(), JsonValue::String("PC-9".to_string()))],
        },
        GlpiSoftwareLicense {
            id: 2,
            name: "Acrobat".to_string(),
            softwares_id: "77".to_string(),
            serial: "ZZZZZ-YYYYY-XXXXX".to_string(),
            comment: None,
            extra_fields: vec![],
        },
    ];
    let computers: Vec<GlpiComputer> = Vec::new();
    let keys = aggregate_license_keys(&software, &licenses, &computers);
    assert_eq!(keys.len(), 1);
    assert_eq!(keys[0].source, LicenseSource::Glpi);
    assert_eq!(keys[0].category, LicenseCategory::Windows);
    assert_eq!(keys[0].product_name, "Windows 11 Pro");
    assert_eq!(keys[0].license_key, "AAAAA-BBBBB-CCCCC");
    assert_eq!(keys[0].computer_name.as_deref(), Some("PC-9"));
    assert_eq!(keys[0].notes, None);
}

#[test]
fn repeated_license_key_keeps_the_first_license() {
    let software = vec![GlpiSoftware {
        id: 5,
        name: "Windows 11 Pro".to_string(),
        manufacturers_id: "Microsoft".to_string(),
        date_mod: None,
        date_creation: None,
    }];
    let lic = |id: u64, serial: &str, comment: &str, pc: &str| GlpiSoftwareLicense {
        id,
        name: "Win".to_string(),
        softwares_id: "5".to_string(),
        serial: serial.to_string(),
        comment: Some(comment.to_string()),
        extra_fields: vec![("computers_id".to_string(), JsonValue::String(pc.to_string()))],
    };
    let licenses = vec![
        lic(1, "AAAAA-BBBBB-CCCCC", "first", "PC-1"),
        lic(2, "aaaaa-bbbbb-ccccc", "second", "PC-2"),
    ];
    let keys = aggregate_license_keys(&software, &licenses, &Vec::<GlpiComputer>::new());
    assert_eq!(keys.len(), 1);
    assert_eq!(keys[0].license_key, "AAAAA-BBBBB-CCCCC");
    assert_eq!(keys[0].computer_name.as_deref(), Some("PC-1"));
    assert_eq!(keys[0].notes.as_deref(), Some("first"));
}
