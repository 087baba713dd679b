use glpi_inventory::agent_list::{agent_status_at, build_agent_info_list};
use glpi_inventory::agents::{agent_entry_preference_rank, kept_agent_infos, kept_agents};
use glpi_inventory::app_logic::{apply_ping_results, mark_ping_pending, parse_days_setting, ping_targets};
use glpi_inventory::date_util::Moment;
use glpi_inventory::models::{AgentInfo, AgentStatus, ComputerInfo, GlpiAgent, PingResult};
use glpi_inventory::pc_log::{is_safe_hostname, ping_target};
use std::collections::HashMap;

fn glpi_agent(id: u64, items_id: u64, itemtype: Option<&str>, last_contact: Option<&str>) -> GlpiAgent {
    GlpiAgent {
        id,
        name: format!("agent-{id}"),
        deviceid: None,
        last_contact: last_contact.map(|s| s.to_string()),
        port: None,
        items_id,
        itemtype: itemtype.map(|s| s.to_string()),
        version: Some("1.7".to_string()),
    }
}

fn info(name: &str) -> ComputerInfo {
    ComputerInfo {
        name: name.to_string(),
        contact: String::new(),
        serial_number: String::new(),
        model: String::new(),
        last_inventory: String::new(),
        windows_product_key: String::new(),
    }
}

fn row(id: u64, name: &str, status: AgentStatus, contact: Option<&str>) -> AgentInfo {
    AgentInfo {
        computer_id: id,
        computer_name: name.to_string(),
        agent_name: String::new(),
        last_contact: contact.map(|s| s.to_string()),
        port: 0,
        version: String::new(),
        status,
        ping: PingResult::NotChecked,
    }
}

// 2026-04-16 12:00:00
fn noon() -> Moment {
    Moment { days: 739722, secs: 43200, frac: 0 }
}

#[test]
fn agent_status_by_age_of_contact() {
    let now = noon();
    assert_eq!(agent_status_at(&Some("2026-04-16 11:30:00".to_string()), now, 0), AgentStatus::Online);
    assert_eq!(agent_status_at(&Some("2026-04-16 11:00:00".to_string()), now, 0), AgentStatus::Stale);
    assert_eq!(agent_status_at(&Some("2026-04-10 12:00:00".to_string()), now, 0), AgentStatus::Stale);
    assert_eq!(agent_status_at(&Some("2026-04-09 12:00:00".to_string()), now, 0), AgentStatus::Offline);
    assert_eq!(agent_status_at(&Some("soon".to_string()), now, 0), AgentStatus::Unknown);
    assert_eq!(agent_status_at(&Some(String::new()), now, 0), AgentStatus::Unknown);
    assert_eq!(agent_status_at(&None, now, 0), AgentStatus::Unknown);
}

#[test]
fn agent_list_has_a_row_for_every_computer() {
    let agents = vec![
        glpi_agent(1, 10, Some("Computer"), Some("2026-04-16 11:59:00")),
        glpi_agent(2, 11, Some("Printer"), None),
        glpi_agent(3, 0, Some("Computer"), None),
        glpi_agent(4, 99, Some("Computer"), None),
    ];
    let mut computers = HashMap::new();
    computers.insert(10u64, info("beta"));
    computers.insert(12u64, info("Alpha"));
    let list = build_agent_info_list(&agents, &computers, noon(), 0);
    assert_eq!(list.len(), 3);
    assert_eq!(list[0].computer_name, "Alpha");
    assert_eq!(list[0].status, AgentStatus::Unknown);
    assert_eq!(list[0].port, 0);
    assert_eq!(list[1].computer_name, "beta");
    assert_eq!(list[1].status, AgentStatus::Online);
    assert_eq!(list[1].port, 62354);
    assert_eq!(list[2].computer_name, "Computer #99");
}

#[test]
fn one_agent_row_kept_per_computer() {
    let rows = vec![
        row(1, "A", AgentStatus::Unknown, None),
        row(1, "A", AgentStatus::Online, Some("2026-04-16 11:00:00")),
        row(2, "B", AgentStatus::Offline, Some("2026-01-01 00:00:00")),
    ];
    assert!(agent_entry_preference_rank(&rows[1]) > agent_entry_preference_rank(&rows[0]));
    let kept = kept_agents(&rows);
    assert_eq!(kept.len(), 2);
    assert_eq!(kept[&1].status, AgentStatus::Online);
    let merged = kept_agent_infos(&rows);
    assert_eq!(merged[&2].computer_name, "B");
}

#[test]
fn ping_bookkeeping() {
    let mut rows = vec![row(1, "A", AgentStatus::Unknown, None), row(2, "B", AgentStatus::Unknown, None)];
    let targets = ping_targets(&rows);
    assert_eq!(targets, vec![(1, "A".to_string()), (2, "B".to_string())]);
    mark_ping_pending(&mut rows);
    assert!(rows.iter().all(|r| r.ping == PingResult::Pending));
    let mut results = HashMap::new();
    results.insert(2u64, false);
    apply_ping_results(&mut rows, &results);
    assert_eq!(rows[0].ping, PingResult::Pending);
    assert_eq!(rows[1].ping, PingResult::Unreachable);
}

#[test]
fn host_names_fit_for_ping() {
    assert!(is_safe_hostname("pc-01.corp.local"));
    assert!(!is_safe_hostname("-rf"));
    assert!(!is_safe_hostname(".hidden"));
    assert!(!is_safe_hostname("pc 01"));
    assert!(!is_safe_hostname(""));
    assert_eq!(ping_target("  PC_7 "), Some("PC_7".to_string()));
    assert_eq!(ping_target("a;b"), None);
}

#[test]
fn day_settings_default_and_floor() {
    assert_eq!(parse_days_setting("45", 60), 45);
    assert_eq!(parse_days_setting("", 60), 60);
    assert_eq!(parse_days_setting("-3", 60), 1);
    assert_eq!(parse_days_setting("abc", 30), 30);
}
