use glpi_inventory::audit_removals::{merge_audit_removals, removal_only_audit_rows};
use glpi_inventory::latest_contact::latest_agent_contact_among_hosts;
use glpi_inventory::models::{AgentInfo, AgentStatus, PingResult};
use glpi_inventory::models::{AggregatedSoftware, ComputerInfo, FilterState, GlobalAuditRemovalRow};
use glpi_inventory::pcs_tab::{find_audit_group, pcs_tab_rows};
use std::collections::{HashMap, HashSet};

const TODAY: i32 = 739722; // 2026-04-16

fn computer(name: &str, last_inventory: &str) -> ComputerInfo {
    ComputerInfo {
        name: name.to_string(),
        contact: String::new(),
        serial_number: String::new(),
        model: String::new(),
        last_inventory: last_inventory.to_string(),
        windows_product_key: String::new(),
    }
}

fn removal(id: u64, name: &str, at: &str) -> GlobalAuditRemovalRow {
    GlobalAuditRemovalRow { computer_id: id, software_name: name.to_string(), removed_at: at.to_string() }
}

fn computers() -> HashMap<u64, ComputerInfo> {
    let mut m = HashMap::new();
    m.insert(1, computer("pc-bravo", "2026-04-10 08:00:00"));
    m.insert(2, computer("PC-alpha", "2025-01-01 08:00:00"));
    m.insert(3, computer("pc-charlie", ""));
    m
}

fn software_on(hosts: &[u64]) -> AggregatedSoftware {
    AggregatedSoftware {
        software_id: 9,
        name: "Zoom".to_string(),
        publisher: "Zoom Inc".to_string(),
        name_lower: "zoom".to_string(),
        publisher_lower: "zoom inc".to_string(),
        total_host_count: hosts.len(),
        latest_version: "5.0".to_string(),
        last_install_date: None,
        last_updated: None,
        last_agent_pull: None,
        last_host_inventory: None,
        all_hosts_install_floor: None,
        host_install_best_per_host: HashMap::new(),
        host_mod_best_per_host: HashMap::new(),
        versions: Vec::new(),
        host_ids: hosts.iter().copied().collect::<HashSet<u64>>(),
    }
}

#[test]
fn removals_group_by_trimmed_lowercase_name() {
    let rows = vec![
        removal(1, "  Zoom ", "2026-04-01"),
        removal(2, "zoom", "2026-04-02"),
        removal(1, "ZOOM", "2026-04-03"),
        removal(3, "   ", "2026-04-04"),
        removal(4, "7-Zip", "2026-04-05"),
    ];
    let groups = merge_audit_removals(&rows, &computers());
    assert_eq!(groups.len(), 2);
    assert_eq!(groups[0].0, "zoom");
    assert_eq!(groups[0].1.display_label, "Zoom");
    let items = &groups[0].1.items;
    assert_eq!(items.len(), 2);
    // sorted by lower-cased computer name: "pc-alpha" before "pc-bravo"
    assert_eq!(items[0].computer_id, 2);
    assert_eq!(items[0].computer_name, "PC-alpha");
    assert_eq!(items[0].removed_at, "2026-04-02");
    assert_eq!(items[1].computer_id, 1);
    assert_eq!(items[1].removed_at, "2026-04-01");
    assert_eq!(groups[1].0, "7-zip");
    assert_eq!(groups[1].1.items[0].computer_name, "");
}

#[test]
fn no_removals_no_groups() {
    assert!(merge_audit_removals(&[], &computers()).is_empty());
}

#[test]
fn pcs_tab_lists_installed_then_removed_by_name() {
    let rows = vec![removal(2, "Zoom", "2026-04-02"), removal(1, "Zoom", "2026-04-03")];
    let groups = merge_audit_removals(&rows, &computers());
    let group = find_audit_group(&groups, "zoom");
    assert!(group.is_some());
    assert!(find_audit_group(&groups, "skype").is_none());
    let sw = software_on(&[1, 3]);
    let filters = FilterState::default_at(TODAY);
    let lines = pcs_tab_rows(&sw, &computers(), &filters, TODAY, group);
    // computer 1 still has it, so its removal is not listed
    assert_eq!(lines.len(), 3);
    assert_eq!(lines[0].id, 2);
    assert_eq!(lines[0].removed_at.as_deref(), Some("2026-04-02"));
    assert_eq!(lines[1].id, 1);
    assert_eq!(lines[1].removed_at, None);
    assert_eq!(lines[2].id, 3);
    assert_eq!(lines[2].removed_at, None);
    let without = pcs_tab_rows(&sw, &computers(), &filters, TODAY, None);
    assert_eq!(without.len(), 2);
}

#[test]
fn pcs_tab_host_inventory_filter() {
    let sw = software_on(&[1, 2, 3]);
    let mut filters = FilterState::default_at(TODAY);
    filters.recently_updated = true;
    filters.recent_use_host_inventory = true;
    let lines = pcs_tab_rows(&sw, &computers(), &filters, TODAY, None);
    // only computer 1 was inventoried in the last 30 days; 3 has no date
    assert_eq!(lines.len(), 1);
    assert_eq!(lines[0].id, 1);
}

#[test]
fn removal_only_section_lists_software_gone_from_inventory() {
    let rows = vec![
        removal(1, "Zoom", "2026-04-02 10:00:00"),
        removal(2, "WinRAR", "2026-03-01 09:00:00"),
        removal(3, "winrar", "2026-03-01 11:00:00"),
        removal(1, "WinRAR", "2026-02-15"),
        removal(2, "Audacity", "2026-01-10T08:00:00"),
    ];
    let groups = merge_audit_removals(&rows, &computers());
    let inventory = vec![software_on(&[1])];
    let only = removal_only_audit_rows(&groups, &inventory);
    assert_eq!(only.len(), 2);
    assert_eq!(only[0].key, "audacity");
    assert_eq!(only[0].title, "Audacity");
    assert_eq!(only[0].host_count, 1);
    assert_eq!(only[0].dates, "2026-01-10");
    assert_eq!(only[1].key, "winrar");
    assert_eq!(only[1].title, "WinRAR");
    assert_eq!(only[1].host_count, 3);
    assert_eq!(only[1].dates, "2026-02-15, 2026-03-01");
}

fn agent(id: u64, contact: Option<&str>) -> AgentInfo {
    AgentInfo {
        computer_id: id,
        computer_name: format!("pc{id}"),
        agent_name: "agent".to_string(),
        last_contact: contact.map(|s| s.to_string()),
        port: 62354,
        version: "1.0".to_string(),
        status: AgentStatus::Unknown,
        ping: PingResult::NotChecked,
    }
}

#[test]
fn newest_agent_contact_among_hosts() {
    let a1 = agent(1, Some("2026-04-01 10:00:00"));
    let a2 = agent(2, Some(" 2026-04-03 09:00:00 "));
    let a3 = agent(3, Some("yesterday"));
    let mut by_id: HashMap<u64, &AgentInfo> = HashMap::new();
    by_id.insert(1, &a1);
    by_id.insert(2, &a2);
    by_id.insert(3, &a3);
    let all: HashSet<u64> = [1, 2, 3, 4].into_iter().collect();
    assert_eq!(latest_agent_contact_among_hosts(&all, &by_id), "2026-04-03 09:00:00");
    let only_bad: HashSet<u64> = [3, 4].into_iter().collect();
    assert_eq!(latest_agent_contact_among_hosts(&only_bad, &by_id), "yesterday");
    let none: HashSet<u64> = [4].into_iter().collect();
    assert_eq!(latest_agent_contact_among_hosts(&none, &by_id), "—");
}

#[test]
fn leap_second_contact_is_later() {
    let a1 = agent(1, Some("2016-12-31 23:59:59"));
    let a2 = agent(2, Some("2016-12-31 23:59:60"));
    let mut by_id: HashMap<u64, &AgentInfo> = HashMap::new();
    by_id.insert(1, &a1);
    by_id.insert(2, &a2);
    let all: HashSet<u64> = [1, 2].into_iter().collect();
    assert_eq!(latest_agent_contact_among_hosts(&all, &by_id), "2016-12-31 23:59:60");
}
