//! Verified core of a GLPI software-inventory explorer.
pub mod agent_list;
pub mod agents;
pub mod audit_removals;
pub mod app_logic;
pub mod aggregate_laws;
pub mod aggregator;
pub mod cleanup;
pub mod cleanup_laws;
pub mod date_util;
pub mod diff_reversal;
pub mod export_rows;
pub mod filters;
pub mod glpi_api;
pub mod history_query;
pub mod history_store;
pub mod i18n;
pub mod inventory;
pub mod json;
pub mod latest_contact;
pub mod licenses;
pub mod machine_key;
pub mod models;
pub mod panel_state;
pub mod pc_log;
pub mod pc_software;
pub mod pcs_tab;
pub mod presentation;
pub mod selected_pcs;
pub mod snapshot_diff;
pub mod sorted_texts;
pub mod sorting;
pub mod text;
