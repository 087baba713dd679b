use glpi_inventory::app_logic::select_all_visible;
use glpi_inventory::models::{AggregatedSoftware, ComputerInfo};
use glpi_inventory::selected_pcs::pcs_for_selected;
use std::collections::{HashMap, HashSet};

fn sw(id: u64, name: &str, hosts: &[u64]) -> AggregatedSoftware {
    AggregatedSoftware {
        software_id: id,
        name: name.to_string(),
        publisher: String::new(),
        name_lower: name.to_lowercase(),
        publisher_lower: String::new(),
        total_host_count: hosts.len(),
        latest_version: String::new(),
        last_install_date: None,
        last_updated: None,
        last_agent_pull: None,
        last_host_inventory: None,
        all_hosts_install_floor: None,
        host_install_best_per_host: HashMap::new(),
        host_mod_best_per_host: HashMap::new(),
        versions: Vec::new(),
        host_ids: hosts.iter().copied().collect(),
    }
}

fn pc(name: &str, contact: &str) -> ComputerInfo {
    ComputerInfo {
        name: name.to_string(),
        contact: contact.to_string(),
        serial_number: String::new(),
        model: String::new(),
        last_inventory: String::new(),
        windows_product_key: String::new(),
    }
}

#[test]
fn pcs_with_selected_software_grouped_by_pc() {
    let all = vec![sw(1, "Firefox", &[10, 11]), sw(2, "Chrome", &[11, 12]), sw(3, "Zoom", &[13])];
    let selected: HashSet<u64> = [1, 2].into_iter().collect();
    let mut computers = HashMap::new();
    computers.insert(10, pc("beta", "anna"));
    computers.insert(11, pc("Alpha", "bob"));
    let list = pcs_for_selected(&all, &selected, &computers);
    assert_eq!(list.len(), 3);
    // "#12" sorts before letters; then "alpha", "beta" (case-insensitive)
    assert_eq!(list[0].id, 12);
    assert_eq!(list[0].name, "#12");
    assert_eq!(list[0].contact, "");
    assert_eq!(list[0].software_names, vec!["Chrome".to_string()]);
    assert_eq!(list[1].id, 11);
    assert_eq!(list[1].contact, "bob");
    assert_eq!(list[1].software_names, vec!["Firefox".to_string(), "Chrome".to_string()]);
    assert_eq!(list[2].id, 10);
    assert_eq!(list[2].software_names, vec!["Firefox".to_string()]);
}

#[test]
fn nothing_selected_lists_no_pc() {
    let all = vec![sw(1, "Firefox", &[10])];
    assert!(pcs_for_selected(&all, &HashSet::new(), &HashMap::new()).is_empty());
}

#[test]
fn select_all_visible_adds_shown_software() {
    let shown = vec![sw(1, "Firefox", &[10]), sw(3, "Zoom", &[13])];
    let mut selected: HashSet<u64> = [2].into_iter().collect();
    select_all_visible(&mut selected, &shown);
    let want: HashSet<u64> = [1, 2, 3].into_iter().collect();
    assert_eq!(selected, want);
}
