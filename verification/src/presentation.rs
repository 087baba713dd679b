//! Texts shown to the user: the fetch status (as `Display` writes it and in
//! the chosen language), grouped numbers, SQL literals and
//! the versions a computer has of a software.
use crate::history_store::append_chars;
use crate::date_util::{date_in_recency_window, date_in_window, opt_view};
use crate::i18n::T;
use crate::models::{AggregatedSoftware, FetchStatus, FilterState, SoftwareCleanupCandidate, VersionDetail};
use crate::pc_software::{join_texts, pc_version_names};
use crate::sorted_texts::{str_lt_string, texts};
use crate::sorting::{rearranged, sort_by_lt, sorted_by, strict_order};
use crate::text::{chars_of, decimal, decimal_chars, join, signed_decimal, string_from_chars, text_lt};
use vstd::prelude::*;

verus! {

broadcast use vstd::std_specs::hash::group_hash_axioms;

// ---------------------------------------------------------------------------
// The fetch status
// ---------------------------------------------------------------------------
/// "<label>: <done>/<total>", or "<label>: <done>..." while the total is unknown.
pub open spec fn progress_text(label: Seq<char>, done: usize, total: Option<usize>) -> Seq<char> {
    label + ": "@ + decimal(done as nat) + match total {
        Some(t) => "/"@ + decimal(t as nat),
        None => "..."@,
    }
}

/// The status line of a fetch.
pub open spec fn status_text(s: FetchStatus) -> Seq<char> {
    match s {
        FetchStatus::Idle => "Not connected"@,
        FetchStatus::Connecting => "Connecting..."@,
        FetchStatus::FetchingSoftware { done, total } => progress_text("Fetching software"@, done, total),
        FetchStatus::FetchingVersions { done, total } => progress_text("Fetching versions"@, done, total),
        FetchStatus::FetchingInstallations { done, total } => progress_text("Fetching installations"@, done, total),
        FetchStatus::FetchingLicenses { done, total } => progress_text("Fetching licenses"@, done, total),
        FetchStatus::FetchingComputers { done, total } => progress_text("Fetching computers"@, done, total),
        FetchStatus::FetchingAgents { done, total } => progress_text("Fetching agents"@, done, total),
        FetchStatus::CleanupPreview { count, days } => "Dry-run found "@ + decimal(count as nat)
            + " software older than "@ + signed_decimal(days as int) + " days"@,
        FetchStatus::Aggregating => "Aggregating data..."@,
        FetchStatus::Done { software_count, total_hosts } => "Loaded "@ + decimal(software_count as nat)
            + " software across "@ + decimal(total_hosts as nat) + " hosts"@,
        FetchStatus::Error(e) => "Error: "@ + e@,
    }
}

/// The status line of a fetch in the texts `t` of a language.
pub open spec fn localized_status(s: FetchStatus, t: T) -> Seq<char> {
    match s {
        FetchStatus::Idle => t.status_idle@,
        FetchStatus::Connecting => t.status_connecting@,
        FetchStatus::FetchingSoftware { done, total } => progress_text(t.status_fetching_software@, done, total),
        FetchStatus::FetchingVersions { done, total } => progress_text(t.status_fetching_versions@, done, total),
        FetchStatus::FetchingInstallations { done, total } => progress_text(
            t.status_fetching_installations@,
            done,
            total,
        ),
        FetchStatus::FetchingLicenses { done, total } => progress_text(t.status_fetching_licenses@, done, total),
        FetchStatus::FetchingComputers { done, total } => progress_text(t.status_fetching_computers@, done, total),
        FetchStatus::FetchingAgents { done, total } => progress_text(t.status_fetching_agents@, done, total),
        FetchStatus::CleanupPreview { count, days } => t.status_cleanup_preview@ + " "@ + decimal(count as nat) + " "@
            + t.cleanup_dry_run_complete_mid@ + " "@ + signed_decimal(days as int) + " "@ + t.days@,
        FetchStatus::Aggregating => t.status_aggregating@,
        FetchStatus::Done { software_count, total_hosts } => t.status_loaded@ + " "@ + decimal(software_count as nat)
            + " software / "@ + decimal(total_hosts as nat) + " hosts"@,
        FetchStatus::Error(e) => t.status_error@ + ": "@ + e@,
    }
}

fn push_str(v: &mut Vec<char>, s: &str)
    ensures
        final(v)@ == old(v)@ + s@,
{
    let w = chars_of(s);
    append_chars(v, &w);
}

fn push_count(v: &mut Vec<char>, n: usize)
    ensures
        final(v)@ == old(v)@ + decimal(n as nat),
{
    let w = decimal_chars(n as u64);
    append_chars(v, &w);
}

fn progress_exec(label: &str, done: usize, total: Option<usize>) -> (r: String)
    ensures
        r@ == progress_text(label@, done, total),
{
    let mut v: Vec<char> = Vec::new();
    push_str(&mut v, label);
    push_str(&mut v, ": ");
    push_count(&mut v, done);
    match total {
        Some(t) => {
            push_str(&mut v, "/");
            push_count(&mut v, t);
        },
        None => push_str(&mut v, "..."),
    }
    assert(v@ =~= progress_text(label@, done, total));
    string_from_chars(v.as_slice())
}

/// The status line as the connection panel shows it, in the texts `t` of the
/// chosen language.
pub fn format_status(status: &FetchStatus, t: &T) -> (r: String)
    ensures
        r@ == localized_status(*status, *t),
{
    match status {
        FetchStatus::Idle => t.status_idle.to_owned(),
        FetchStatus::Connecting => t.status_connecting.to_owned(),
        FetchStatus::FetchingSoftware { done, total } => progress_exec(t.status_fetching_software, *done, *total),
        FetchStatus::FetchingVersions { done, total } => progress_exec(t.status_fetching_versions, *done, *total),
        FetchStatus::FetchingInstallations { done, total } => progress_exec(
            t.status_fetching_installations,
            *done,
            *total,
        ),
        FetchStatus::FetchingLicenses { done, total } => progress_exec(t.status_fetching_licenses, *done, *total),
        FetchStatus::FetchingComputers { done, total } => progress_exec(t.status_fetching_computers, *done, *total),
        FetchStatus::FetchingAgents { done, total } => progress_exec(t.status_fetching_agents, *done, *total),
        FetchStatus::CleanupPreview { count, days } => {
            let mut v: Vec<char> = Vec::new();
            push_str(&mut v, t.status_cleanup_preview);
            push_str(&mut v, " ");
            push_count(&mut v, *count);
            push_str(&mut v, " ");
            push_str(&mut v, t.cleanup_dry_run_complete_mid);
            push_str(&mut v, " ");
            let d = crate::text::i64_to_string(*days);
            push_str(&mut v, d.as_str());
            push_str(&mut v, " ");
            push_str(&mut v, t.days);
            assert(v@ =~= localized_status(*status, *t));
            string_from_chars(v.as_slice())
        },
        FetchStatus::Aggregating => t.status_aggregating.to_owned(),
        FetchStatus::Done { software_count, total_hosts } => {
            let mut v: Vec<char> = Vec::new();
            push_str(&mut v, t.status_loaded);
            push_str(&mut v, " ");
            push_count(&mut v, *software_count);
            push_str(&mut v, " software / ");
            push_count(&mut v, *total_hosts);
            push_str(&mut v, " hosts");
            assert(v@ =~= localized_status(*status, *t));
            string_from_chars(v.as_slice())
        },
        FetchStatus::Error(e) => {
            let mut v: Vec<char> = Vec::new();
            push_str(&mut v, t.status_error);
            push_str(&mut v, ": ");
            push_str(&mut v, e.as_str());
            string_from_chars(v.as_slice())
        },
    }
}

impl FetchStatus {
    /// The status line, as the status bar prints it.
    pub fn display_text(&self) -> (r: String)
        ensures
            r@ == status_text(*self),
    {
        match self {
            FetchStatus::Idle => "Not connected".to_owned(),
            FetchStatus::Connecting => "Connecting...".to_owned(),
            FetchStatus::FetchingSoftware { done, total } => progress_exec("Fetching software", *done, *total),
            FetchStatus::FetchingVersions { done, total } => progress_exec("Fetching versions", *done, *total),
            FetchStatus::FetchingInstallations { done, total } => progress_exec(
                "Fetching installations",
                *done,
                *total,
            ),
            FetchStatus::FetchingLicenses { done, total } => progress_exec("Fetching licenses", *done, *total),
            FetchStatus::FetchingComputers { done, total } => progress_exec("Fetching computers", *done, *total),
            FetchStatus::FetchingAgents { done, total } => progress_exec("Fetching agents", *done, *total),
            FetchStatus::CleanupPreview { count, days } => {
                let mut v: Vec<char> = Vec::new();
                push_str(&mut v, "Dry-run found ");
                push_count(&mut v, *count);
                push_str(&mut v, " software older than ");
                let d = crate::text::i64_to_string(*days);
                push_str(&mut v, d.as_str());
                push_str(&mut v, " days");
                assert(v@ =~= status_text(*self));
                string_from_chars(v.as_slice())
            },
            FetchStatus::Aggregating => "Aggregating data...".to_owned(),
            FetchStatus::Done { software_count, total_hosts } => {
                let mut v: Vec<char> = Vec::new();
                push_str(&mut v, "Loaded ");
                push_count(&mut v, *software_count);
                push_str(&mut v, " software across ");
                push_count(&mut v, *total_hosts);
                push_str(&mut v, " hosts");
                assert(v@ =~= status_text(*self));
                string_from_chars(v.as_slice())
            },
            FetchStatus::Error(e) => {
                let mut v: Vec<char> = Vec::new();
                push_str(&mut v, "Error: ");
                push_str(&mut v, e.as_str());
                string_from_chars(v.as_slice())
            },
        }
    }
}

// ---------------------------------------------------------------------------
// Numbers
// ---------------------------------------------------------------------------
/// The first `k` digits of `d` with a ',' before every digit that is followed by
/// a multiple of three digits (thousands separators).
pub open spec fn grouped_upto(d: Seq<char>, k: int) -> Seq<char>
    decreases k,
{
    if k <= 0 {
        Seq::empty()
    } else {
        let comma = if k - 1 >= 1 && (d.len() - (k - 1)) % 3 == 0 {
            seq![',']
        } else {
            Seq::empty()
        };
        grouped_upto(d, k - 1) + comma + seq![d[k - 1]]
    }
}

/// `n` in decimal with ',' between groups of three digits.
pub open spec fn grouped_number(n: nat) -> Seq<char> {
    grouped_upto(decimal(n), decimal(n).len() as int)
}

pub fn format_number(n: usize) -> (r: String)
    ensures
        r@ == grouped_number(n as nat),
{
    let d = decimal_chars(n as u64);
    let len = d.len();
    let mut out: Vec<char> = Vec::new();
    let mut k: usize = 0;
    while k < len
        invariant
            k <= len,
            len == d@.len(),
            out@ == grouped_upto(d@, k as int),
        decreases len - k,
    {
        if k >= 1 && (len - k) % 3 == 0 {
            out.push(',');
        }
        out.push(d[k]);
        proof {
            let comma = if k >= 1 && (d@.len() - k) % 3 == 0 {
                seq![',']
            } else {
                Seq::<char>::empty()
            };
            assert(grouped_upto(d@, k as int + 1) == grouped_upto(d@, k as int) + comma + seq![d@[k as int]]);
        }
        k = k + 1;
        assert(out@ =~= grouped_upto(d@, k as int));
    }
    string_from_chars(out.as_slice())
}

// ---------------------------------------------------------------------------
// SQL literals
// ---------------------------------------------------------------------------
/// `value.replace('\\', "\\\\").replace('\'', "''")`: each backslash doubled,
/// then each single quote doubled.
pub open spec fn sql_escaped(s: Seq<char>) -> Seq<char>
    decreases s.len(),
{
    if s.len() == 0 {
        Seq::empty()
    } else {
        let c = s.last();
        sql_escaped(s.drop_last()) + if c == '\\' {
            seq!['\\', '\\']
        } else if c == '\'' {
            seq!['\'', '\'']
        } else {
            seq![c]
        }
    }
}

pub fn escape_sql(value: &str) -> (r: String)
    ensures
        r@ == sql_escaped(value@),
{
    let v = chars_of(value);
    let mut out: Vec<char> = Vec::new();
    let mut i: usize = 0;
    while i < v.len()
        invariant
            i <= v@.len(),
            out@ == sql_escaped(v@.subrange(0, i as int)),
        decreases v.len() - i,
    {
        assert(v@.subrange(0, i as int + 1).drop_last() =~= v@.subrange(0, i as int));
        let c = v[i];
        if c == '\\' {
            out.push('\\');
            out.push('\\');
        } else if c == '\'' {
            out.push('\'');
            out.push('\'');
        } else {
            out.push(c);
        }
        i = i + 1;
        assert(out@ =~= sql_escaped(v@.subrange(0, i as int)));
    }
    assert(v@.subrange(0, v@.len() as int) =~= v@);
    string_from_chars(out.as_slice())
}

/// The opening of the cleanup SQL script: comments, the transaction, and the
/// preview table created and emptied.
pub open spec fn sql_preamble() -> Seq<char> {
    "-- GLPI cleanup preview export for MariaDB\n-- Update table names if your GLPI schema differs from defaults.\n\nSTART TRANSACTION;\n\nCREATE TABLE IF NOT EXISTS glpi_cleanup_preview (\n\tid BIGINT NOT NULL,\n\tname VARCHAR(255) NOT NULL,\n\tpublisher VARCHAR(255) NOT NULL,\n\tlast_activity DATE NULL,\n\tPRIMARY KEY (id)\n) ENGINE=InnoDB DEFAULT CHARSET=utf8mb4;\n\nTRUNCATE TABLE glpi_cleanup_preview;\n\n"@
}

/// The INSERT line of one candidate.
pub open spec fn sql_insert(c: SoftwareCleanupCandidate) -> Seq<char> {
    "INSERT INTO glpi_cleanup_preview (id, name, publisher, last_activity) VALUES ("@ + decimal(c.software_id as nat)
        + ", '"@ + sql_escaped(c.name@) + "', '"@ + sql_escaped(c.publisher@) + "', '"@ + sql_escaped(c.date_mod@)
        + "');\n"@
}

/// The INSERT lines of the first `n` candidates.
pub open spec fn sql_inserts(items: Seq<SoftwareCleanupCandidate>, n: int) -> Seq<char>
    decreases n,
{
    if n <= 0 {
        Seq::empty()
    } else {
        sql_inserts(items, n - 1) + sql_insert(items[n - 1])
    }
}

/// The cleanup preview as a MariaDB script.
pub fn cleanup_sql_script(items: &[SoftwareCleanupCandidate]) -> (r: String)
    ensures
        r@ == sql_preamble() + sql_inserts(items@, items@.len() as int) + "\nCOMMIT;\n"@,
{
    let mut v: Vec<char> = Vec::new();
    push_str(&mut v, "-- GLPI cleanup preview export for MariaDB\n-- Update table names if your GLPI schema differs from defaults.\n\nSTART TRANSACTION;\n\nCREATE TABLE IF NOT EXISTS glpi_cleanup_preview (\n\tid BIGINT NOT NULL,\n\tname VARCHAR(255) NOT NULL,\n\tpublisher VARCHAR(255) NOT NULL,\n\tlast_activity DATE NULL,\n\tPRIMARY KEY (id)\n) ENGINE=InnoDB DEFAULT CHARSET=utf8mb4;\n\nTRUNCATE TABLE glpi_cleanup_preview;\n\n");
    let mut k: usize = 0;
    while k < items.len()
        invariant
            k <= items@.len(),
            v@ == sql_preamble() + sql_inserts(items@, k as int),
        decreases items.len() - k,
    {
        let c = &items[k];
        let ghost before = v@;
        push_str(&mut v, "INSERT INTO glpi_cleanup_preview (id, name, publisher, last_activity) VALUES (");
        let id = decimal_chars(c.software_id);
        append_chars(&mut v, &id);
        push_str(&mut v, ", '");
        let n = escape_sql(c.name.as_str());
        push_str(&mut v, n.as_str());
        push_str(&mut v, "', '");
        let p = escape_sql(c.publisher.as_str());
        push_str(&mut v, p.as_str());
        push_str(&mut v, "', '");
        let d = escape_sql(c.date_mod.as_str());
        push_str(&mut v, d.as_str());
        push_str(&mut v, "');\n");
        assert(v@ =~= before + sql_insert(items@[k as int]));
        k = k + 1;
    }
    push_str(&mut v, "\nCOMMIT;\n");
    string_from_chars(v.as_slice())
}

// ---------------------------------------------------------------------------
// Versions on a host
// ---------------------------------------------------------------------------
proof fn lemma_text_order_strict()
    ensures
        strict_order(|a: String, b: String| text_lt(a@, b@)),
{
    assert forall|a: String, b: String, c: String| #[trigger] text_lt(a@, b@) && #[trigger] text_lt(b@, c@) implies text_lt(
        a@,
        c@,
    ) by {
        crate::text::lemma_text_lt_transitive(a@, b@, c@);
    }
    assert forall|a: String, b: String| #[trigger] text_lt(a@, b@) implies !text_lt(b@, a@) by {
        crate::text::lemma_text_lt_asymmetric(a@, b@);
    }
}

/// The versions of a software on host `host_id`, in increasing order (repeats
/// kept), joined with ", "; "—" when there is none.
pub open spec fn host_versions_text(sw: AggregatedSoftware, host_id: u64, r: Seq<char>) -> bool {
    let names = pc_version_names(sw.versions@, host_id, sw.versions@.len() as int);
    if names.len() == 0 {
        r == "—"@
    } else {
        exists|sorted: Seq<Seq<char>>, p: Seq<int>|
            #[trigger] rearranged(sorted, names, p) && (forall|i: int, j: int|
                0 <= i < j < sorted.len() ==> !text_lt(#[trigger] sorted[j], #[trigger] sorted[i])) && r == join(
                sorted,
                ", "@,
            )
    }
}

pub fn versions_for_host(sw: &AggregatedSoftware, host_id: u64) -> (r: String)
    ensures
        host_versions_text(*sw, host_id, r@),
{
    let mut names: Vec<String> = Vec::new();
    let mut k: usize = 0;
    while k < sw.versions.len()
        invariant
            k <= sw.versions@.len(),
            texts(names@) == pc_version_names(sw.versions@, host_id, k as int),
        decreases sw.versions.len() - k,
    {
        let v = &sw.versions[k];
        if v.host_ids.contains(&host_id) {
            let ghost before = names@;
            names.push(v.version_name.clone());
            assert(texts(names@) =~= texts(before).push(v.version_name@));
        }
        k = k + 1;
    }
    if names.len() == 0 {
        return "—".to_owned();
    }
    proof {
        lemma_text_order_strict();
    }
    let ghost nv = names@;
    let (sorted, Ghost(p)) = sort_by_lt(names, str_lt_string, Ghost(|a: String, b: String| text_lt(a@, b@)));
    let r = join_texts(&sorted, ", ");
    proof {
        let want = texts(nv);
        let sv = texts(sorted@);
        assert(rearranged(sv, want, p)) by {
            assert forall|i: int| 0 <= i < sv.len() implies #[trigger] sv[i] == want[p[i]] by {
                assert(sorted@[i] == nv[p[i]]);
            }
        }
        assert forall|i: int, j: int| 0 <= i < j < sv.len() implies !text_lt(#[trigger] sv[j], #[trigger] sv[i]) by {
            assert(!(|a: String, b: String| text_lt(a@, b@))(sorted@[j], sorted@[i]));
        }
    }
    r
}

/// The "recent" mark of a version on day `today`: never while the filter asks
/// for recent updates without restricting them to installs; otherwise whether
/// the version's last install date lies in the window.
pub open spec fn version_recent(ver: VersionDetail, today: int, f: FilterState) -> bool {
    !(f.recently_updated && !f.recent_install_only) && date_in_window(opt_view(ver.last_install_date), today, f)
}

/// The "recent" mark of a row of the versions tab (see `version_recent`).
pub fn version_is_recent(ver: &VersionDetail, today: i32, filters: &FilterState) -> (r: bool)
    ensures
        r == version_recent(*ver, today as int, *filters),
{
    if filters.recently_updated && !filters.recent_install_only {
        false
    } else {
        date_in_recency_window(&ver.last_install_date, today, filters)
    }
}

} // verus!
