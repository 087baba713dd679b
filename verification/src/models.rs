//! The records the library reads from GLPI and the rows it builds from them.
use crate::i18n::Lang;
use crate::json::JsonValue;
use std::collections::{HashMap, HashSet};
use vstd::prelude::*;

verus! {

/// A `Software` row. `manufacturers_id` holds the publisher's name when dropdowns are expanded.
#[derive(Debug, Clone)]
pub struct GlpiSoftware {
    pub id: u64,
    pub name: String,
    pub manufacturers_id: String,
    pub date_mod: Option<String>,
    pub date_creation: Option<String>,
}

#[derive(Debug, Clone)]
pub struct GlpiSoftwareVersion {
    pub id: u64,
    pub name: String,
    pub softwares_id: u64,
    pub date_mod: Option<String>,
    pub date_creation: Option<String>,
}

/// An installation: version `softwareversions_id` on computer `items_id`.
#[derive(Debug, Clone)]
pub struct GlpiItemSoftwareVersion {
    pub id: u64,
    pub items_id: u64,
    pub softwareversions_id: u64,
    pub itemtype: Option<String>,
    pub date_install: Option<String>,
    pub date_mod: Option<String>,
}

/// A `Computer` row; `extra_fields` holds every other field of the row, in the order read.
#[derive(Debug)]
pub struct GlpiComputer {
    pub id: u64,
    pub name: String,
    pub contact: Option<String>,
    pub serial: String,
    pub computermodels_id: String,
    pub date_mod: Option<String>,
    pub date_creation: Option<String>,
    pub extra_fields: Vec<(String, JsonValue)>,
}

/// A `SoftwareLicense` row; `extra_fields` holds every other field of the row, in the order read.
#[derive(Debug)]
pub struct GlpiSoftwareLicense {
    pub id: u64,
    pub name: String,
    pub softwares_id: String,
    pub serial: String,
    pub comment: Option<String>,
    pub extra_fields: Vec<(String, JsonValue)>,
}

#[derive(Debug, Clone)]
pub struct ComputerInfo {
    pub name: String,
    pub contact: String,
    pub serial_number: String,
    pub model: String,
    /// Latest known inventory timestamp (Computer `date_mod` / `date_creation`).
    pub last_inventory: String,
    pub windows_product_key: String,
}

#[derive(Debug, Clone)]
pub struct SoftwareCleanupCandidate {
    pub software_id: u64,
    pub name: String,
    pub publisher: String,
    pub date_mod: String,
}

#[derive(Debug, Clone, Copy, PartialEq, Eq, Structural)]
pub enum LicenseSource {
    Glpi,
    ComputerInventory,
}

#[derive(Debug, Clone, Copy, PartialEq, Eq, Structural)]
pub enum LicenseCategory {
    Windows,
    Office,
    ThirdParty,
}

#[derive(Debug, Clone)]
pub struct LicenseKeyRecord {
    pub source: LicenseSource,
    pub category: LicenseCategory,
    pub product_name: String,
    pub license_key: String,
    pub computer_id: Option<u64>,
    pub computer_name: Option<String>,
    pub user_contact: Option<String>,
    pub notes: Option<String>,
}

#[derive(Debug)]
pub struct VersionDetail {
    pub version_id: u64,
    pub version_name: String,
    pub host_count: usize,
    pub last_install_date: Option<String>,
    pub host_ids: HashSet<u64>,
}

#[derive(Debug)]
pub struct AggregatedSoftware {
    pub software_id: u64,
    pub name: String,
    pub publisher: String,
    /// Lowercase cache for filter matching.
    pub name_lower: String,
    pub publisher_lower: String,
    pub total_host_count: usize,
    pub latest_version: String,
    pub last_install_date: Option<String>,
    pub last_updated: Option<String>,
    pub last_agent_pull: Option<String>,
    /// Newest `Computer` inventory date among hosts that have this software installed.
    pub last_host_inventory: Option<String>,
    /// Oldest among each host's newest `date_install` (hosts with only `date_mod` use that);
    /// `None` if any host lacks usable dates.
    pub all_hosts_install_floor: Option<String>,
    pub host_install_best_per_host: HashMap<u64, Option<String>>,
    pub host_mod_best_per_host: HashMap<u64, Option<String>>,
    pub versions: Vec<VersionDetail>,
    pub host_ids: HashSet<u64>,
}

#[derive(Debug, Clone)]
pub struct InventorySnapshot {
    pub captured_at: String,
    pub computers: Vec<SnapshotComputer>,
    pub installations: Vec<SnapshotInstallation>,
}

#[derive(Debug, Clone)]
pub struct SnapshotComputer {
    pub id: u64,
    pub name: String,
    pub contact: String,
    pub serial_number: String,
    pub model: String,
    pub last_inventory: String,
}

#[derive(Debug, Clone)]
pub struct SnapshotInstallation {
    pub computer_id: u64,
    pub software_id: u64,
    pub software_name: String,
    pub publisher: String,
    pub version_id: u64,
    pub version_name: String,
}

#[derive(Debug, Clone)]
pub struct SnapshotSummary {
    pub file_name: String,
    pub captured_at: String,
    pub computer_count: usize,
    pub installation_count: usize,
    pub file_size_bytes: u64,
}

/// Cached resolution of the PC Software panel's historical snapshot.
#[derive(Debug, Clone)]
pub enum PcSoftwareHistCache {
    InvalidDates,
    NoSnapshotInRange,
    LoadError,
    Ready { summary: SnapshotSummary, inventory: InventorySnapshot },
}

#[derive(Debug, Clone)]
pub struct HistoricalComputerEntry {
    pub computer_name: String,
    pub contact: String,
    pub serial_number: String,
    pub model: String,
    pub last_inventory: String,
    pub versions: Vec<String>,
}

#[derive(Debug, Clone)]
pub struct HistoricalSoftwareEntry {
    pub software_key: String,
    pub software_name: String,
    pub publisher: String,
    pub host_count: usize,
    pub versions: Vec<String>,
    pub computers: Vec<HistoricalComputerEntry>,
}

#[derive(Debug, Clone)]
pub struct HistoryViewSummary {
    pub snapshot_captured_at: String,
    pub software_count: usize,
    pub host_count: usize,
}

#[derive(Debug, Clone)]
pub struct GlpiAgent {
    pub id: u64,
    pub name: String,
    pub deviceid: Option<String>,
    pub last_contact: Option<String>,
    pub port: Option<u16>,
    pub items_id: u64,
    pub itemtype: Option<String>,
    pub version: Option<String>,
}

#[derive(Debug, Clone, Copy, PartialEq, Eq, Structural)]
pub enum AgentStatus {
    Online,
    Stale,
    Offline,
    Unknown,
}

#[derive(Debug, Clone, Copy, PartialEq, Eq, Structural)]
pub enum PingResult {
    Reachable,
    Unreachable,
    Pending,
    NotChecked,
}

#[derive(Debug, Clone)]
pub struct AgentInfo {
    pub computer_id: u64,
    pub computer_name: String,
    pub agent_name: String,
    pub last_contact: Option<String>,
    pub port: u16,
    pub version: String,
    pub status: AgentStatus,
    pub ping: PingResult,
}

#[derive(Debug, Clone)]
pub struct SnapshotDiff {
    pub added: Vec<DiffEntry>,
    pub removed: Vec<DiffEntry>,
    pub changed: Vec<DiffEntry>,
}

#[derive(Debug, Clone)]
pub struct DiffEntry {
    pub software_name: String,
    pub publisher: String,
    pub hosts_a: usize,
    pub hosts_b: usize,
    pub versions_a: Vec<String>,
    pub versions_b: Vec<String>,
}

#[derive(Debug, Clone)]
pub struct GlpiLogEntry {
    pub id: u64,
    pub date_mod: Option<String>,
    pub user_name: Option<String>,
    pub linked_action: Option<i64>,
    pub itemtype_link: Option<String>,
    pub old_value: Option<String>,
    pub new_value: Option<String>,
}

#[derive(Debug, Clone, Copy, PartialEq, Eq, Structural)]
pub enum PcLogAction {
    Installed,
    Updated,
    Removed,
}

#[derive(Debug, Clone)]
pub struct PcSoftwareLogEntry {
    pub date: String,
    pub action: PcLogAction,
    pub software_name: String,
    pub old_value: String,
    pub new_value: String,
}

/// One uninstall event from GLPI history.
#[derive(Debug, Clone)]
pub struct GlobalAuditRemovalRow {
    pub computer_id: u64,
    pub software_name: String,
    pub removed_at: String,
}

#[derive(Debug, Clone)]
pub struct AuditRemovalItem {
    pub computer_id: u64,
    pub computer_name: String,
    pub removed_at: String,
}

#[derive(Debug, Clone)]
pub struct AuditRemovalGroup {
    pub display_label: String,
    pub items: Vec<AuditRemovalItem>,
}

#[derive(Debug, Clone, Copy, PartialEq, Eq, Structural)]
pub enum RecentTimeMode {
    RollingDays,
    CutoffFrom,
    Between,
}

/// The filter bar. Calendar dates are day numbers counted from 0001-01-01 (= day 1).
#[derive(Debug, Clone)]
pub struct FilterState {
    pub software_name: String,
    pub publisher: String,
    pub min_hosts: String,
    pub recently_updated: bool,
    pub recent_install_only: bool,
    /// Every host's install evidence (see `all_hosts_install_floor`) must fall in the window.
    pub every_host_install_in_window: bool,
    /// When `recently_updated` is on, use host PC last inventory instead of install-row `date_mod`.
    pub recent_use_host_inventory: bool,
    pub days: String,
    pub recent_time_mode: RecentTimeMode,
    pub recent_cutoff_from: i32,
    pub recent_range_from: i32,
    pub recent_range_to: i32,
    pub top_n: String,
    pub hide_os_defaults: bool,
    pub show_selected_only: bool,
}

#[derive(Debug, Clone)]
pub enum FetchStatus {
    Idle,
    Connecting,
    FetchingSoftware { done: usize, total: Option<usize> },
    FetchingVersions { done: usize, total: Option<usize> },
    FetchingInstallations { done: usize, total: Option<usize> },
    FetchingLicenses { done: usize, total: Option<usize> },
    FetchingComputers { done: usize, total: Option<usize> },
    FetchingAgents { done: usize, total: Option<usize> },
    CleanupPreview { count: usize, days: i64 },
    Aggregating,
    Done { software_count: usize, total_hosts: usize },
    Error(String),
}

impl FetchStatus {
    /// Main inventory load is not in progress (side requests like the audit log are fine).
    pub fn allows_side_queries(&self) -> (r: bool)
        ensures
            r == (self is Idle || self is Done || self is Error),
    {
        match self {
            FetchStatus::Idle => true,
            FetchStatus::Done { .. } => true,
            FetchStatus::Error(_) => true,
            _ => false,
        }
    }
}

/// Which main inventory list is shown.
#[derive(Debug, Clone, Copy, PartialEq, Eq, Structural)]
pub enum MainInventoryTab {
    Full,
    /// Only software where every install PC has an agent contact within the
    /// stale-days limit.
    AgentFreshOnly,
}

impl Default for MainInventoryTab {
    fn default() -> (r: Self)
        ensures
            r == MainInventoryTab::Full,
    {
        MainInventoryTab::Full
    }
}

/// Which agents the agent panel lists.
#[derive(Debug, Clone, Copy, PartialEq, Eq, Structural)]
pub enum AgentStatusFilter {
    All,
    Online,
    Offline,
}

/// Connection settings and language, as kept in `config.json`.
#[derive(Debug, Clone)]
pub struct AppConfig {
    pub glpi_url: String,
    pub user_token: String,
    pub app_token: String,
    pub accept_invalid_certs: bool,
    pub language: Lang,
}

impl Default for AppConfig {
    fn default() -> (r: Self)
        ensures
            r.glpi_url@.len() == 0,
            r.user_token@.len() == 0,
            r.app_token@.len() == 0,
            !r.accept_invalid_certs,
            r.language == Lang::En,
    {
        AppConfig {
            glpi_url: String::new(),
            user_token: String::new(),
            app_token: String::new(),
            accept_invalid_certs: false,
            language: Lang::En,
        }
    }
}

/// What the background worker asks for.
pub enum WorkerRequest {
    FetchAll { url: String, user_token: String, app_token: String, accept_invalid_certs: bool },
    FetchMachineDetails {
        url: String,
        user_token: String,
        app_token: String,
        accept_invalid_certs: bool,
        machine_id: u64,
    },
    DryRunCleanup {
        url: String,
        user_token: String,
        app_token: String,
        accept_invalid_certs: bool,
        older_than_days: i64,
    },
    PingComputers { targets: Vec<(u64, String)> },
    FetchPcLog {
        url: String,
        user_token: String,
        app_token: String,
        accept_invalid_certs: bool,
        computer_id: u64,
        days_back: i64,
    },
    FetchPcSoftwareLog {
        url: String,
        user_token: String,
        app_token: String,
        accept_invalid_certs: bool,
        computer_id: u64,
        days_back: i64,
    },
    FetchGlobalAuditRemovals {
        url: String,
        user_token: String,
        app_token: String,
        accept_invalid_certs: bool,
        computer_ids: Vec<u64>,
        filters: FilterState,
    },
}

/// What the background worker answers.
pub enum WorkerResponse {
    Status(FetchStatus),
    Data {
        software: Vec<AggregatedSoftware>,
        computers: HashMap<u64, ComputerInfo>,
        license_keys: Vec<LicenseKeyRecord>,
        agents: Vec<AgentInfo>,
        snapshot_warning: Option<String>,
    },
    MachineDetailsLoaded { machine_id: u64, info: ComputerInfo },
    CleanupPreviewReady { items: Vec<SoftwareCleanupCandidate>, days: i64, skipped_no_date: usize },
    PingResults { results: HashMap<u64, bool> },
    PcLogReady { computer_id: u64, entries: Vec<PcSoftwareLogEntry> },
    PcLogError(String),
    PcSoftwareLogReady { computer_id: u64, entries: Vec<PcSoftwareLogEntry> },
    PcSoftwareLogError { computer_id: u64, message: String },
    GlobalAuditRemovalsProgress { done: usize, total: usize },
    GlobalAuditRemovalsReady { removals: Vec<GlobalAuditRemovalRow>, partial_errors: Vec<String> },
    GlobalAuditRemovalsError(String),
    MachineDetailsError(String),
    Error(String),
}

} // verus!
