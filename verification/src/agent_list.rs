//! The agent list: one row per GLPI agent bound to a computer, one more per
//! computer without an agent, sorted by computer name.
use crate::date_util::{parse_datetime, parsed_datetime, Moment, elapsed_nanos, elapsed_nanos_exec};
use crate::models::{AgentInfo, AgentStatus, ComputerInfo, GlpiAgent, PingResult};
use crate::sorting::{rearranged, sort_by_lt};
use crate::text::{decimal, decimal_chars, lowercase, str_eq, str_lt, string_from_chars, text_lt, to_lower};
use std::collections::{HashMap, HashSet};
use vstd::std_specs::hash::spec_keys_iter;
use vstd::std_specs::iter::IteratorSpec;
use vstd::prelude::*;

verus! {

broadcast use vstd::std_specs::hash::group_hash_axioms;

/// Port of an agent that does not report one.
pub const DEFAULT_AGENT_PORT: u16 = 62354;

/// An agent's status seen at `now`: online when the last contact (a non-empty
/// text that reads as a date and time) is less than an hour old, stale when
/// less than seven days old, offline when older (ages counted in nanoseconds
/// as chrono counts them); unknown otherwise.
pub open spec fn agent_status_of(last_contact: Option<Seq<char>>, now: Moment) -> AgentStatus {
    match last_contact {
        Some(s) => if s.len() > 0 {
            match parsed_datetime(s) {
                Some(dt) => {
                    let d = elapsed_nanos(now, dt);
                    if d < 3600 * 1000000000 {
                        AgentStatus::Online
                    } else if d < 7 * 86400 * 1000000000 {
                        AgentStatus::Stale
                    } else {
                        AgentStatus::Offline
                    }
                },
                None => AgentStatus::Unknown,
            }
        } else {
            AgentStatus::Unknown
        },
        None => AgentStatus::Unknown,
    }
}

pub open spec fn opt_text(o: Option<String>) -> Option<Seq<char>> {
    match o {
        Some(s) => Some(s@),
        None => None,
    }
}

/// The status of an agent whose last contact is `last_contact`, for a clock
/// reading `now` that lies `nanos` nanoseconds past its second.
pub fn agent_status_at(last_contact: &Option<String>, now: Moment, nanos: u32) -> (r: AgentStatus)
    requires
        nanos < 1000000000,
    ensures
        r == agent_status_of(opt_text(*last_contact), now),
{
    match last_contact {
        Some(lc) => {
            if lc.as_str().is_empty() {
                return AgentStatus::Unknown;
            }
            match parse_datetime(lc.as_str()) {
                Some(dt) => {
                    let d = elapsed_nanos_exec(now, dt);
                    if d < 3600 * 1000000000 {
                        AgentStatus::Online
                    } else if d < 7 * 86400 * 1000000000 {
                        AgentStatus::Stale
                    } else {
                        AgentStatus::Offline
                    }
                },
                None => AgentStatus::Unknown,
            }
        },
        None => AgentStatus::Unknown,
    }
}

/// An agent row as plain values: computer id, computer name, agent name, last
/// contact, port, version, status, ping.
pub type AgentView = (u64, Seq<char>, Seq<char>, Option<Seq<char>>, u16, Seq<char>, AgentStatus, PingResult);

pub open spec fn agent_view(a: AgentInfo) -> AgentView {
    (a.computer_id, a.computer_name@, a.agent_name@, opt_text(a.last_contact), a.port, a.version@, a.status, a.ping)
}

pub open spec fn agent_views(s: Seq<AgentInfo>) -> Seq<AgentView> {
    s.map_values(|a: AgentInfo| agent_view(a))
}

/// The agent is bound to a computer: its item type is "Computer" and its item id
/// is not zero.
pub open spec fn bound_to_computer(a: GlpiAgent) -> bool {
    opt_text(a.itemtype) == Some("Computer"@) && a.items_id > 0
}

/// The name shown for computer `id`: its name, or "Computer #<id>" when the
/// computer is not known.
pub open spec fn computer_label(cmap: Map<u64, ComputerInfo>, id: u64) -> Seq<char> {
    if cmap.contains_key(id) {
        cmap[id].name@
    } else {
        "Computer #"@ + decimal(id as nat)
    }
}

pub open spec fn agent_row(a: GlpiAgent, cmap: Map<u64, ComputerInfo>, now: Moment) -> AgentView {
    (
        a.items_id,
        computer_label(cmap, a.items_id),
        a.name@,
        opt_text(a.last_contact),
        match a.port {
            Some(p) => p,
            None => DEFAULT_AGENT_PORT,
        },
        match opt_text(a.version) {
            Some(v) => v,
            None => Seq::empty(),
        },
        agent_status_of(opt_text(a.last_contact), now),
        PingResult::NotChecked,
    )
}

/// The rows of the first `n` agents bound to a computer, in order.
pub open spec fn agent_rows(agents: Seq<GlpiAgent>, cmap: Map<u64, ComputerInfo>, now: Moment, n: int) -> Seq<AgentView>
    decreases n,
{
    if n <= 0 {
        Seq::empty()
    } else if bound_to_computer(agents[n - 1]) {
        agent_rows(agents, cmap, now, n - 1).push(agent_row(agents[n - 1], cmap, now))
    } else {
        agent_rows(agents, cmap, now, n - 1)
    }
}

/// The computer ids of the first `n` agents bound to a computer.
pub open spec fn agent_computers(agents: Seq<GlpiAgent>, n: int) -> Set<u64>
    decreases n,
{
    if n <= 0 {
        Set::empty()
    } else if bound_to_computer(agents[n - 1]) {
        agent_computers(agents, n - 1).insert(agents[n - 1].items_id)
    } else {
        agent_computers(agents, n - 1)
    }
}

/// The row of a computer that no agent is bound to.
pub open spec fn bare_row(id: u64, c: ComputerInfo) -> AgentView {
    (id, c.name@, Seq::empty(), None, 0, Seq::empty(), AgentStatus::Unknown, PingResult::NotChecked)
}

/// The rows of the computers among the first `n` of `keys` that no agent is
/// bound to, in that order.
pub open spec fn bare_rows(keys: Seq<u64>, seen: Set<u64>, cmap: Map<u64, ComputerInfo>, n: int) -> Seq<AgentView>
    decreases n,
{
    if n <= 0 {
        Seq::empty()
    } else if seen.contains(keys[n - 1]) {
        bare_rows(keys, seen, cmap, n - 1)
    } else {
        bare_rows(keys, seen, cmap, n - 1).push(bare_row(keys[n - 1], cmap[keys[n - 1]]))
    }
}

/// The agent list seen at `now`: for some order `keys` of the known computer ids
/// (the order of the map's walk), the agent rows then the rows of computers
/// without an agent, sorted by lower-cased computer name, rows with equal names
/// in that same order.
pub open spec fn agent_list_ok(
    agents: Seq<GlpiAgent>,
    cmap: Map<u64, ComputerInfo>,
    now: Moment,
    r: Seq<AgentInfo>,
) -> bool {
    exists|keys: Seq<u64>, p: Seq<int>|
        {
            &&& keys.no_duplicates()
            &&& keys.to_set() == cmap.dom()
            &&& #[trigger] rearranged(
                agent_views(r),
                agent_rows(agents, cmap, now, agents.len() as int) + bare_rows(
                    keys,
                    agent_computers(agents, agents.len() as int),
                    cmap,
                    keys.len() as int,
                ),
                p,
            )
            &&& forall|a: int, b: int|
                0 <= a < b < r.len() ==> text_lt(
                    to_lower(#[trigger] r[a].computer_name@),
                    to_lower(#[trigger] r[b].computer_name@),
                ) || (to_lower(r[a].computer_name@) == to_lower(r[b].computer_name@) && p[a] < p[b])
        }
}

fn is_computer_agent(a: &GlpiAgent) -> (r: bool)
    ensures
        r == bound_to_computer(*a),
{
    let is_computer = match &a.itemtype {
        Some(t) => str_eq(t.as_str(), "Computer"),
        None => false,
    };
    is_computer && a.items_id > 0
}

fn label_of(cmap: &HashMap<u64, ComputerInfo>, id: u64) -> (r: String)
    ensures
        r@ == computer_label(cmap@, id),
{
    match cmap.get(&id) {
        Some(c) => c.name.clone(),
        None => {
            let mut v: Vec<char> = Vec::new();
            v.push('C');
            v.push('o');
            v.push('m');
            v.push('p');
            v.push('u');
            v.push('t');
            v.push('e');
            v.push('r');
            v.push(' ');
            v.push('#');
            let d = decimal_chars(id);
            crate::history_store::append_chars(&mut v, &d);
            proof {
                reveal_strlit("Computer #");
                assert(v@ =~= "Computer #"@ + decimal(id as nat));
            }
            string_from_chars(v.as_slice())
        },
    }
}

fn make_agent_row(a: &GlpiAgent, cmap: &HashMap<u64, ComputerInfo>, now: Moment, nanos: u32) -> (r: AgentInfo)
    requires
        nanos < 1000000000,
    ensures
        agent_view(r) == agent_row(*a, cmap@, now),
{
    AgentInfo {
        computer_id: a.items_id,
        computer_name: label_of(cmap, a.items_id),
        agent_name: a.name.clone(),
        last_contact: match &a.last_contact {
            Some(s) => Some(s.clone()),
            None => None,
        },
        port: match a.port {
            Some(p) => p,
            None => DEFAULT_AGENT_PORT,
        },
        version: match &a.version {
            Some(v) => v.clone(),
            None => String::new(),
        },
        status: agent_status_at(&a.last_contact, now, nanos),
        ping: PingResult::NotChecked,
    }
}

/// An agent row with its lower-cased name and its position before sorting.
pub struct Ranked {
    pub row: AgentInfo,
    pub lower: String,
    pub pos: usize,
}

pub open spec fn ranked_before(a: Ranked, b: Ranked) -> bool {
    text_lt(a.lower@, b.lower@) || (a.lower@ == b.lower@ && a.pos < b.pos)
}

fn ranked_less(a: &Ranked, b: &Ranked) -> (r: bool)
    ensures
        r == ranked_before(*a, *b),
{
    str_lt(a.lower.as_str(), b.lower.as_str()) || (str_eq(a.lower.as_str(), b.lower.as_str()) && a.pos < b.pos)
}

proof fn lemma_ranked_before_strict()
    ensures
        crate::sorting::strict_order(|a: Ranked, b: Ranked| ranked_before(a, b)),
{
    assert forall|a: Ranked, b: Ranked, c: Ranked| #[trigger] ranked_before(a, b) && #[trigger] ranked_before(
        b,
        c,
    ) implies ranked_before(a, c) by {
        if text_lt(a.lower@, b.lower@) && text_lt(b.lower@, c.lower@) {
            crate::text::lemma_text_lt_transitive(a.lower@, b.lower@, c.lower@);
        }
    }
    assert forall|a: Ranked, b: Ranked| #[trigger] ranked_before(a, b) implies !ranked_before(b, a) by {
        if text_lt(a.lower@, b.lower@) {
            crate::text::lemma_text_lt_asymmetric(a.lower@, b.lower@);
        } else {
            crate::text::lemma_text_lt_irreflexive(a.lower@);
        }
    }
}

fn copy_agent_info(a: &AgentInfo) -> (r: AgentInfo)
    ensures
        r == *a,
{
    AgentInfo {
        computer_id: a.computer_id,
        computer_name: a.computer_name.clone(),
        agent_name: a.agent_name.clone(),
        last_contact: match &a.last_contact {
            Some(s) => Some(s.clone()),
            None => None,
        },
        port: a.port,
        version: a.version.clone(),
        status: a.status,
        ping: a.ping,
    }
}

fn push_ranked(rows: &mut Vec<Ranked>, row: AgentInfo)
    ensures
        final(rows)@.len() == old(rows)@.len() + 1,
        forall|i: int| 0 <= i < old(rows)@.len() ==> #[trigger] final(rows)@[i] == old(rows)@[i],
        final(rows)@[old(rows)@.len() as int].row == row,
        final(rows)@[old(rows)@.len() as int].lower@ == to_lower(row.computer_name@),
        final(rows)@[old(rows)@.len() as int].pos == old(rows)@.len(),
{
    let lower = lowercase(row.computer_name.as_str());
    let pos = rows.len();
    rows.push(Ranked { row, lower, pos });
}

/// The agent list for the clock reading `now`, `nanos` nanoseconds past its second.
pub fn build_agent_info_list(
    glpi_agents: &[GlpiAgent],
    computer_map: &HashMap<u64, ComputerInfo>,
    now: Moment,
    nanos: u32,
) -> (r: Vec<AgentInfo>)
    requires
        nanos < 1000000000,
    ensures
        agent_list_ok(glpi_agents@, computer_map@, now, r@),
{
    let ghost agents = glpi_agents@;
    let ghost cmap = computer_map@;
    let mut rows: Vec<Ranked> = Vec::new();
    let mut seen: HashSet<u64> = HashSet::new();
    let ghost mut want: Seq<AgentView> = Seq::empty();
    let mut j: usize = 0;
    while j < glpi_agents.len()
        invariant
            j <= agents.len(),
            agents == glpi_agents@,
            cmap == computer_map@,
            nanos < 1000000000,
            want == agent_rows(agents, cmap, now, j as int),
            seen@ == agent_computers(agents, j as int),
            rows@.len() == want.len(),
            forall|i: int|
                0 <= i < rows@.len() ==> agent_view((#[trigger] rows@[i]).row) == want[i] && rows@[i].pos == i
                    && rows@[i].lower@ == to_lower(rows@[i].row.computer_name@),
        decreases glpi_agents.len() - j,
    {
        let a = &glpi_agents[j];
        if is_computer_agent(a) {
            seen.insert(a.items_id);
            let row = make_agent_row(a, computer_map, now, nanos);
            let ghost before = rows@;
            push_ranked(&mut rows, row);
            proof {
                let w0 = want;
                want = want.push(agent_row(agents[j as int], cmap, now));
                assert forall|i: int| 0 <= i < rows@.len() implies agent_view((#[trigger] rows@[i]).row) == want[i]
                    && rows@[i].pos == i && rows@[i].lower@ == to_lower(rows@[i].row.computer_name@) by {
                    if i < before.len() {
                        assert(rows@[i] == before[i]);
                        assert(want[i] == w0[i]);
                    }
                }
            }
        }
        j = j + 1;
    }
    let ghost agent_part = want;
    let ghost seen_ids = seen@;
    let ghost keys = spec_keys_iter(computer_map).remaining().unref();
    let ghost mut extra: Seq<AgentView> = Seq::empty();
    for id in it: computer_map.keys()
        invariant
            cmap == computer_map@,
            seen@ == seen_ids,
            it.seq().unref() == keys,
            keys.to_set() == cmap.dom(),
            extra == bare_rows(keys, seen_ids, cmap, it.index() as int),
            rows@.len() == agent_part.len() + extra.len(),
            forall|i: int|
                0 <= i < rows@.len() ==> agent_view((#[trigger] rows@[i]).row) == (agent_part + extra)[i]
                    && rows@[i].pos == i && rows@[i].lower@ == to_lower(rows@[i].row.computer_name@),
    {
        let ghost k = it.index() as int;
        assert(keys[k] == *id);
        if !seen.contains(id) {
            assert(keys.to_set().contains(*id));
            let info = computer_map.get(id).unwrap();
            let row = AgentInfo {
                computer_id: *id,
                computer_name: info.name.clone(),
                agent_name: String::new(),
                last_contact: None,
                port: 0,
                version: String::new(),
                status: AgentStatus::Unknown,
                ping: PingResult::NotChecked,
            };
            let ghost before = rows@;
            push_ranked(&mut rows, row);
            proof {
                let e0 = extra;
                extra = extra.push(bare_row(*id, cmap[*id]));
                assert(agent_view(row) == bare_row(*id, cmap[*id]));
                assert forall|i: int| 0 <= i < rows@.len() implies agent_view((#[trigger] rows@[i]).row) == (
                agent_part + extra)[i] && rows@[i].pos == i && rows@[i].lower@ == to_lower(
                    rows@[i].row.computer_name@,
                ) by {
                    if i < before.len() {
                        assert(rows@[i] == before[i]);
                        assert((agent_part + extra)[i] == (agent_part + e0)[i]);
                    }
                }
            }
        }
    }
    proof {
        lemma_ranked_before_strict();
    }
    let ghost rv = rows@;
    let (sorted, Ghost(p)) = sort_by_lt(rows, ranked_less, Ghost(|a: Ranked, b: Ranked| ranked_before(a, b)));
    let mut out: Vec<AgentInfo> = Vec::new();
    let mut k: usize = 0;
    while k < sorted.len()
        invariant
            k <= sorted@.len(),
            out@.len() == k,
            forall|i: int| 0 <= i < k ==> #[trigger] out@[i] == sorted@[i].row,
        decreases sorted.len() - k,
    {
        out.push(copy_agent_info(&sorted[k].row));
        k = k + 1;
    }
    proof {
        let all = agent_part + extra;
        assert(rearranged(agent_views(out@), all, p)) by {
            assert forall|i: int| 0 <= i < out@.len() implies #[trigger] agent_views(out@)[i] == all[p[i]] by {
                assert(sorted@[i] == rv[p[i]]);
            }
        }
        assert forall|a: int, b: int| 0 <= a < b < out@.len() implies text_lt(
            to_lower(#[trigger] out@[a].computer_name@),
            to_lower(#[trigger] out@[b].computer_name@),
        ) || (to_lower(out@[a].computer_name@) == to_lower(out@[b].computer_name@) && p[a] < p[b]) by {
            assert(!(|x: Ranked, y: Ranked| ranked_before(x, y))(sorted@[b], sorted@[a]));
            assert(sorted@[a] == rv[p[a]]);
            assert(sorted@[b] == rv[p[b]]);
            if to_lower(out@[a].computer_name@) != to_lower(out@[b].computer_name@) {
                crate::text::lemma_text_lt_total(to_lower(out@[a].computer_name@), to_lower(out@[b].computer_name@));
            } else {
                assert(p[a] != p[b]);
            }
        }
        assert(keys.no_duplicates());
        assert(agent_list_ok(glpi_agents@, computer_map@, now, out@));
    }
    out
}


// ---------------------------------------------------------------------------
// Every computer is listed
// ---------------------------------------------------------------------------
proof fn lemma_agent_row_for(agents: Seq<GlpiAgent>, cmap: Map<u64, ComputerInfo>, now: Moment, n: int, id: u64)
    requires
        0 <= n <= agents.len(),
        agent_computers(agents, n).contains(id),
    ensures
        exists|j: int| 0 <= j < agent_rows(agents, cmap, now, n).len() && (#[trigger] agent_rows(agents, cmap, now, n)[j]).0 == id,
    decreases n,
{
    let prev = agent_rows(agents, cmap, now, n - 1);
    if bound_to_computer(agents[n - 1]) && agents[n - 1].items_id == id {
        let cur = prev.push(agent_row(agents[n - 1], cmap, now));
        assert(agent_rows(agents, cmap, now, n) == cur);
        assert(agent_rows(agents, cmap, now, n)[prev.len() as int].0 == id);
    } else {
        lemma_agent_row_for(agents, cmap, now, n - 1, id);
        let j = choose|j: int| 0 <= j < prev.len() && (#[trigger] prev[j]).0 == id;
        if bound_to_computer(agents[n - 1]) {
            assert(agent_rows(agents, cmap, now, n) == prev.push(agent_row(agents[n - 1], cmap, now)));
            assert(agent_rows(agents, cmap, now, n)[j] == prev[j]);
        } else {
            assert(agent_rows(agents, cmap, now, n) == prev);
            assert(agent_rows(agents, cmap, now, n)[j] == prev[j]);
        }
    }
}

proof fn lemma_bare_row_for(keys: Seq<u64>, seen: Set<u64>, cmap: Map<u64, ComputerInfo>, n: int, q: int)
    requires
        0 <= q < n <= keys.len(),
        !seen.contains(keys[q]),
    ensures
        exists|j: int| 0 <= j < bare_rows(keys, seen, cmap, n).len() && (#[trigger] bare_rows(keys, seen, cmap, n)[j]).0 == keys[q],
    decreases n,
{
    let prev = bare_rows(keys, seen, cmap, n - 1);
    if q == n - 1 {
        let cur = prev.push(bare_row(keys[n - 1], cmap[keys[n - 1]]));
        assert(bare_rows(keys, seen, cmap, n) == cur);
        assert(bare_rows(keys, seen, cmap, n)[prev.len() as int].0 == keys[q]);
    } else {
        lemma_bare_row_for(keys, seen, cmap, n - 1, q);
        let j = choose|j: int| 0 <= j < prev.len() && (#[trigger] prev[j]).0 == keys[q];
        if !seen.contains(keys[n - 1]) {
            assert(bare_rows(keys, seen, cmap, n) == prev.push(bare_row(keys[n - 1], cmap[keys[n - 1]])));
            assert(bare_rows(keys, seen, cmap, n)[j] == prev[j]);
        } else {
            assert(bare_rows(keys, seen, cmap, n) == prev);
            assert(bare_rows(keys, seen, cmap, n)[j] == prev[j]);
        }
    }
}

/// Every known computer has a row in the agent list.
pub proof fn lemma_agent_list_lists_every_computer(
    agents: Seq<GlpiAgent>,
    cmap: Map<u64, ComputerInfo>,
    now: Moment,
    r: Seq<AgentInfo>,
    id: u64,
)
    requires
        agent_list_ok(agents, cmap, now, r),
        cmap.contains_key(id),
    ensures
        exists|i: int| 0 <= i < r.len() && (#[trigger] r[i]).computer_id == id,
{
    let (keys, p) = choose|keys: Seq<u64>, p: Seq<int>|
        {
            &&& keys.no_duplicates()
            &&& keys.to_set() == cmap.dom()
            &&& #[trigger] rearranged(
                agent_views(r),
                agent_rows(agents, cmap, now, agents.len() as int) + bare_rows(
                    keys,
                    agent_computers(agents, agents.len() as int),
                    cmap,
                    keys.len() as int,
                ),
                p,
            )
            &&& forall|a: int, b: int|
                0 <= a < b < r.len() ==> text_lt(
                    to_lower(#[trigger] r[a].computer_name@),
                    to_lower(#[trigger] r[b].computer_name@),
                ) || (to_lower(r[a].computer_name@) == to_lower(r[b].computer_name@) && p[a] < p[b])
        };
    let seen = agent_computers(agents, agents.len() as int);
    let ar = agent_rows(agents, cmap, now, agents.len() as int);
    let br = bare_rows(keys, seen, cmap, keys.len() as int);
    let all = ar + br;
    let j: int = if seen.contains(id) {
        lemma_agent_row_for(agents, cmap, now, agents.len() as int, id);
        let j = choose|j: int| 0 <= j < ar.len() && (#[trigger] ar[j]).0 == id;
        assert(all[j] == ar[j]);
        j
    } else {
        assert(keys.to_set().contains(id));
        let q = choose|q: int| 0 <= q < keys.len() && keys[q] == id;
        lemma_bare_row_for(keys, seen, cmap, keys.len() as int, q);
        let jb = choose|jb: int| 0 <= jb < br.len() && (#[trigger] br[jb]).0 == keys[q];
        assert(all[ar.len() + jb] == br[jb]);
        ar.len() + jb
    };
    assert(all[j].0 == id);
    crate::sorting::lemma_rearranged_onto(agent_views(r), all, p, j);
    let i = choose|i: int| 0 <= i < agent_views(r).len() && agent_views(r)[i] == all[j];
    assert(agent_view(r[i]) == all[j]);
}

} // verus!
