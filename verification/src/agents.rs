//! GLPI agent rows: picking one agent per computer and deciding whether an
//! agent's last contact (or its computer's inventory) is recent enough.
use crate::aggregator::distinct_ids;
use crate::date_util::{parse_date, parse_datetime, parsed_date, parsed_datetime, Moment, elapsed_nanos, elapsed_nanos_exec};
use crate::models::{AgentInfo, AggregatedSoftware, ComputerInfo};
use crate::text::{is_blank, parse_i64, parse_i64_spec, trim, trim_str};
use std::collections::HashMap;
use vstd::std_specs::hash::spec_hash_keys_iter;
use vstd::std_specs::iter::IteratorSpec;
use vstd::prelude::*;

verus! {

broadcast use vstd::std_specs::hash::group_hash_axioms;

// ---------------------------------------------------------------------------
// Recency of a contact
// ---------------------------------------------------------------------------
/// `chrono::TimeDelta::days(d)` exists (it panics otherwise).
pub open spec fn days_in_range(d: int) -> bool {
    -9223372036854775 <= d * 86400 <= 9223372036854775
}

/// `now - dt <= max_days days`, for a clock reading `now` that is `nanos`
/// nanoseconds past its second.
pub open spec fn within_days(dt: Moment, now: Moment, nanos: u32, max_days: int) -> bool {
    elapsed_nanos(Moment { frac: nanos, ..now }, dt) <= max_days * 86400 * 1000000000
}

fn within_days_exec(dt: Moment, now: Moment, nanos: u32, max_days: i64) -> (r: bool)
    requires
        days_in_range(max_days as int),
    ensures
        r == within_days(dt, now, nanos, max_days as int),
{
    let e = elapsed_nanos_exec(Moment { frac: nanos, ..now }, dt);
    let lim: i128 = max_days as i128 * 86400 * 1000000000;
    e <= lim
}

/// The agent's last contact, trimmed, when it is not blank.
pub open spec fn contact_text(agent: AgentInfo) -> Option<Seq<char>> {
    match agent.last_contact {
        Some(raw) => if trim(raw@).len() > 0 {
            Some(trim(raw@))
        } else {
            None
        },
        None => None,
    }
}

/// The agent's last contact was at most `max_days` days before `now`; a missing,
/// blank or unreadable contact is not recent.
pub open spec fn contact_recent(agent: AgentInfo, max_days: int, now: Moment, nanos: u32) -> bool {
    match contact_text(agent) {
        Some(s) => match parsed_datetime(s) {
            Some(dt) => within_days(dt, now, nanos, max_days),
            None => false,
        },
        None => false,
    }
}

fn contact_moment(agent: &AgentInfo) -> (r: Option<Moment>)
    ensures
        r == (match contact_text(*agent) {
            Some(s) => parsed_datetime(s),
            None => None,
        }),
{
    match &agent.last_contact {
        Some(raw) => {
            let s = trim_str(raw.as_str());
            if s.as_str().is_empty() {
                None
            } else {
                parse_datetime(s.as_str())
            }
        },
        None => None,
    }
}

/// Whether the agent's last contact is within `max_days` days (inclusive) of the
/// clock reading `now` (`nanos` past its second); a missing or unreadable
/// contact is not recent.
pub fn agent_has_recent_contact(agent: &AgentInfo, max_days: i64, now: Moment, nanos: u32) -> (r: bool)
    requires
        days_in_range(max_days as int),
    ensures
        r == contact_recent(*agent, max_days as int, now, nanos),
{
    match contact_moment(agent) {
        Some(dt) => within_days_exec(dt, now, nanos, max_days),
        None => false,
    }
}


/// The PC Software panel keeps a computer unless its agent's last contact parses
/// and is older than `max_days`, and the computer's inventory date is not within
/// that window either (a date after today counts as within).
pub open spec fn passes_stale_filter(
    computer: Option<ComputerInfo>,
    agent: Option<AgentInfo>,
    max_days: int,
    now: Moment,
    nanos: u32,
) -> bool {
    match agent {
        None => true,
        Some(a) => {
            let stale = match contact_text(a) {
                Some(s) => match parsed_datetime(s) {
                    Some(dt) => !within_days(dt, now, nanos, max_days),
                    None => false,
                },
                None => false,
            };
            if !stale {
                true
            } else {
                match computer {
                    Some(c) => match parsed_date(trim(c.last_inventory@)) {
                        Some(d) => d.days > now.days || now.days - d.days <= max_days,
                        None => false,
                    },
                    None => false,
                }
            }
        },
    }
}

pub open spec fn opt_deref<T>(o: Option<&T>) -> Option<T> {
    match o {
        Some(x) => Some(*x),
        None => None,
    }
}

/// Keep a PC row unless its agent's last contact parses and is older than
/// `max_days` at `now`, and its inventory date is not within that window either.
pub fn computer_passes_pc_software_stale_filter(
    computer: Option<&ComputerInfo>,
    agent: Option<&AgentInfo>,
    max_days: i64,
    now: Moment,
    nanos: u32,
) -> (r: bool)
    requires
        days_in_range(max_days as int),
    ensures
        r == passes_stale_filter(opt_deref(computer), opt_deref(agent), max_days as int, now, nanos),
{
    let a = match agent {
        None => {
            return true;
        },
        Some(a) => a,
    };
    let stale = match contact_moment(a) {
        Some(dt) => !within_days_exec(dt, now, nanos, max_days),
        None => false,
    };
    if !stale {
        return true;
    }
    match computer {
        Some(c) => {
            let t = trim_str(c.last_inventory.as_str());
            match parse_date(t.as_str()) {
                Some(d) => d.days > now.days || (now.days as i64 - d.days as i64) <= max_days,
                None => false,
            }
        },
        None => false,
    }
}


// ---------------------------------------------------------------------------
// One agent per computer
// ---------------------------------------------------------------------------
/// How much an agent row is worth keeping: a readable last contact (4), an
/// unreadable one (2), only a name (1), nothing (0).
pub open spec fn agent_rank(a: AgentInfo) -> u8 {
    match contact_text(a) {
        Some(s) => if parsed_datetime(s) is Some {
            4
        } else {
            2
        },
        None => if trim(a.agent_name@).len() > 0 {
            1
        } else {
            0
        },
    }
}

pub fn agent_entry_preference_rank(a: &AgentInfo) -> (r: u8)
    ensures
        r == agent_rank(*a),
{
    match contact_moment(a) {
        Some(_) => 4,
        None => {
            let has_contact = match &a.last_contact {
                Some(raw) => !is_blank(raw.as_str()),
                None => false,
            };
            if has_contact {
                2
            } else if !is_blank(a.agent_name.as_str()) {
                1
            } else {
                0
            }
        },
    }
}

/// The position of the agent row kept for computer `id` among the first `n`:
/// the first of the best-ranked rows.
pub open spec fn kept_agent_upto(agents: Seq<AgentInfo>, id: u64, n: int) -> Option<int>
    decreases n,
{
    if n <= 0 {
        None
    } else {
        let prev = kept_agent_upto(agents, id, n - 1);
        if agents[n - 1].computer_id == id {
            match prev {
                None => Some(n - 1),
                Some(p) => if agent_rank(agents[n - 1]) > agent_rank(agents[p]) {
                    Some(n - 1)
                } else {
                    prev
                },
            }
        } else {
            prev
        }
    }
}

pub open spec fn kept_agent(agents: Seq<AgentInfo>, id: u64) -> Option<int> {
    kept_agent_upto(agents, id, agents.len() as int)
}

proof fn lemma_kept_bound(agents: Seq<AgentInfo>, id: u64, n: int)
    requires
        0 <= n <= agents.len(),
    ensures
        match kept_agent_upto(agents, id, n) {
            Some(p) => 0 <= p < n && agents[p].computer_id == id,
            None => forall|k: int| 0 <= k < n ==> #[trigger] agents[k].computer_id != id,
        },
    decreases n,
{
    if n > 0 {
        lemma_kept_bound(agents, id, n - 1);
    }
}

/// Computer id to the position of its kept agent row.
fn kept_agent_positions(agents: &[AgentInfo]) -> (m: HashMap<u64, usize>)
    ensures
        forall|id: u64| #[trigger] m@.contains_key(id) <==> kept_agent(agents@, id) is Some,
        forall|id: u64| #[trigger] m@.contains_key(id) ==> kept_agent(agents@, id) == Some(m@[id] as int),
{
    let mut m: HashMap<u64, usize> = HashMap::new();
    let mut k: usize = 0;
    while k < agents.len()
        invariant
            k <= agents@.len(),
            forall|id: u64| #[trigger] m@.contains_key(id) <==> kept_agent_upto(agents@, id, k as int) is Some,
            forall|id: u64| #[trigger] m@.contains_key(id) ==> kept_agent_upto(agents@, id, k as int) == Some(m@[id] as int) && m@[id] < k,
        decreases agents.len() - k,
    {
        let a = &agents[k];
        let ghost m0 = m@;
        let ghost cid = a.computer_id;
        let replace = match m.get(&a.computer_id) {
            None => true,
            Some(p) => agent_entry_preference_rank(a) > agent_entry_preference_rank(&agents[*p]),
        };
        if replace {
            m.insert(a.computer_id, k);
        }
        proof {
            assert forall|id: u64| #[trigger] m@.contains_key(id) <==> kept_agent_upto(agents@, id, k + 1) is Some by {
                assert(m0.contains_key(id) <==> kept_agent_upto(agents@, id, k as int) is Some);
            }
            assert forall|id: u64| #[trigger] m@.contains_key(id) implies kept_agent_upto(agents@, id, k + 1) == Some(m@[id] as int)
                && m@[id] < k + 1 by {
                assert(m0.contains_key(id) <==> kept_agent_upto(agents@, id, k as int) is Some);
                if m0.contains_key(id) {
                    assert(kept_agent_upto(agents@, id, k as int) == Some(m0[id] as int) && m0[id] < k);
                }
            }
        }
        k = k + 1;
    }
    m
}

/// One agent row per computer: among a computer's rows, the first of the
/// best-ranked ones (see `agent_entry_preference_rank`).
pub fn kept_agents<'a>(agents: &'a [AgentInfo]) -> (m: HashMap<u64, &'a AgentInfo>)
    ensures
        forall|id: u64| #[trigger] m@.contains_key(id) <==> kept_agent(agents@, id) is Some,
        forall|id: u64| #[trigger] m@.contains_key(id) ==> *m@[id] == agents@[kept_agent(agents@, id).unwrap()],
{
    let pos = kept_agent_positions(agents);
    let mut m: HashMap<u64, &'a AgentInfo> = HashMap::new();
    let mut k: usize = 0;
    while k < agents.len()
        invariant
            k <= agents@.len(),
            forall|id: u64| #[trigger] pos@.contains_key(id) <==> kept_agent(agents@, id) is Some,
            forall|id: u64| #[trigger] pos@.contains_key(id) ==> kept_agent(agents@, id) == Some(pos@[id] as int),
            forall|id: u64| #[trigger] m@.contains_key(id) <==> (pos@.contains_key(id) && pos@[id] < k),
            forall|id: u64| #[trigger] m@.contains_key(id) ==> *m@[id] == agents@[pos@[id] as int],
        decreases agents.len() - k,
    {
        let a = &agents[k];
        let ghost m0 = m@;
        let keep = match pos.get(&a.computer_id) {
            Some(p) => *p == k,
            None => false,
        };
        if keep {
            m.insert(a.computer_id, a);
        }
        proof {
            assert forall|id: u64| #[trigger] m@.contains_key(id) <==> (pos@.contains_key(id) && pos@[id] < k + 1) by {
                assert(m0.contains_key(id) <==> (pos@.contains_key(id) && pos@[id] < k));
                lemma_kept_bound(agents@, id, agents@.len() as int);
                if pos@.contains_key(id) {
                    assert(kept_agent(agents@, id) == Some(pos@[id] as int));
                }
            }
        }
        k = k + 1;
    }
    proof {
        assert forall|id: u64| #[trigger] m@.contains_key(id) implies *m@[id] == agents@[kept_agent(agents@, id).unwrap()] by {
            assert(pos@.contains_key(id));
        }
        assert forall|id: u64| #[trigger] m@.contains_key(id) <==> kept_agent(agents@, id) is Some by {
            if kept_agent(agents@, id) is Some {
                assert(pos@.contains_key(id));
                lemma_kept_bound(agents@, id, agents@.len() as int);
            }
        }
    }
    m
}

fn copy_agent(a: &AgentInfo) -> (r: AgentInfo)
    ensures
        r == *a,
{
    AgentInfo {
        computer_id: a.computer_id,
        computer_name: a.computer_name.clone(),
        agent_name: a.agent_name.clone(),
        last_contact: match &a.last_contact {
            Some(s) => Some(s.clone()),
            None => None,
        },
        port: a.port,
        version: a.version.clone(),
        status: a.status,
        ping: a.ping,
    }
}

/// `kept_agents` with the kept rows copied out.
pub fn kept_agent_infos(agents: &[AgentInfo]) -> (m: HashMap<u64, AgentInfo>)
    ensures
        forall|id: u64| #[trigger] m@.contains_key(id) <==> kept_agent(agents@, id) is Some,
        forall|id: u64| #[trigger] m@.contains_key(id) ==> m@[id] == agents@[kept_agent(agents@, id).unwrap()],
{
    let pos = kept_agent_positions(agents);
    let mut m: HashMap<u64, AgentInfo> = HashMap::new();
    let mut k: usize = 0;
    while k < agents.len()
        invariant
            k <= agents@.len(),
            forall|id: u64| #[trigger] pos@.contains_key(id) <==> kept_agent(agents@, id) is Some,
            forall|id: u64| #[trigger] pos@.contains_key(id) ==> kept_agent(agents@, id) == Some(pos@[id] as int),
            forall|id: u64| #[trigger] m@.contains_key(id) <==> (pos@.contains_key(id) && pos@[id] < k),
            forall|id: u64| #[trigger] m@.contains_key(id) ==> m@[id] == agents@[pos@[id] as int],
        decreases agents.len() - k,
    {
        let a = &agents[k];
        let ghost m0 = m@;
        let keep = match pos.get(&a.computer_id) {
            Some(p) => *p == k,
            None => false,
        };
        if keep {
            m.insert(a.computer_id, copy_agent(a));
        }
        proof {
            assert forall|id: u64| #[trigger] m@.contains_key(id) <==> (pos@.contains_key(id) && pos@[id] < k + 1) by {
                assert(m0.contains_key(id) <==> (pos@.contains_key(id) && pos@[id] < k));
                lemma_kept_bound(agents@, id, agents@.len() as int);
                if pos@.contains_key(id) {
                    assert(kept_agent(agents@, id) == Some(pos@[id] as int));
                }
            }
        }
        k = k + 1;
    }
    proof {
        assert forall|id: u64| #[trigger] m@.contains_key(id) implies m@[id] == agents@[kept_agent(agents@, id).unwrap()] by {
            assert(pos@.contains_key(id));
        }
        assert forall|id: u64| #[trigger] m@.contains_key(id) <==> kept_agent(agents@, id) is Some by {
            if kept_agent(agents@, id) is Some {
                assert(pos@.contains_key(id));
                lemma_kept_bound(agents@, id, agents@.len() as int);
            }
        }
    }
    m
}

// ---------------------------------------------------------------------------
// Software whose every computer has a fresh agent
// ---------------------------------------------------------------------------
pub open spec fn map_get<V>(m: Map<u64, V>, h: u64) -> Option<V> {
    if m.contains_key(h) {
        Some(m[h])
    } else {
        None
    }
}

/// Computer `h` passes the PC Software panel's stale filter.
pub open spec fn host_passes(
    agent_by_id: Map<u64, AgentInfo>,
    computers: Map<u64, ComputerInfo>,
    h: u64,
    max_days: int,
    now: Moment,
    nanos: u32,
) -> bool {
    passes_stale_filter(map_get(computers, h), map_get(agent_by_id, h), max_days, now, nanos)
}

/// The software has computers and every one of them passes the stale filter.
pub open spec fn all_hosts_fresh(
    sw: AggregatedSoftware,
    agent_by_id: Map<u64, AgentInfo>,
    computers: Map<u64, ComputerInfo>,
    max_days: int,
    now: Moment,
    nanos: u32,
) -> bool {
    sw.host_ids@.len() > 0 && forall|h: u64| #[trigger] sw.host_ids@.contains(h) ==> host_passes(
        agent_by_id,
        computers,
        h,
        max_days,
        now,
        nanos,
    )
}

/// Every computer with this software passes the PC Software panel's stale
/// filter at `now` (see `computer_passes_pc_software_stale_filter`).
pub fn software_all_hosts_have_fresh_agent(
    sw: &AggregatedSoftware,
    agent_by_id: &HashMap<u64, &AgentInfo>,
    computers: &HashMap<u64, ComputerInfo>,
    max_days: i64,
    now: Moment,
    nanos: u32,
) -> (r: bool)
    requires
        days_in_range(max_days as int),
    ensures
        r == all_hosts_fresh(*sw, deref_map(agent_by_id@), computers@, max_days as int, now, nanos),
{
    if sw.host_ids.is_empty() {
        return false;
    }
    let ghost keys = spec_hash_keys_iter(&sw.host_ids).remaining();
    for h in it: sw.host_ids.iter()
        invariant
            days_in_range(max_days as int),
            it.seq() == keys,
            keys.unref().to_set() == sw.host_ids@,
            forall|k: int| 0 <= k < it.index() ==> host_passes(deref_map(agent_by_id@), computers@, *#[trigger] keys[k], max_days as int, now, nanos),
    {
        let agent: Option<&AgentInfo> = match agent_by_id.get(h) {
            Some(a) => Some(*a),
            None => None,
        };
        if !computer_passes_pc_software_stale_filter(computers.get(h), agent, max_days, now, nanos) {
            proof {
                assert(keys.unref().to_set().contains(*h));
            }
            return false;
        }
    }
    proof {
        assert forall|x: u64| #[trigger] sw.host_ids@.contains(x) implies host_passes(deref_map(agent_by_id@), computers@, x, max_days as int, now, nanos) by {
            assert(keys.unref().to_set().contains(x));
            let k = choose|k: int| 0 <= k < keys.unref().len() && keys.unref()[k] == x;
            assert(*keys[k] == x);
        }
    }
    true
}


/// The kept agent row of each computer, as a map.
pub open spec fn kept_view(agents: Seq<AgentInfo>) -> Map<u64, AgentInfo> {
    Map::new(|id: u64| kept_agent(agents, id) is Some, |id: u64| agents[kept_agent(agents, id).unwrap()])
}

/// A map of borrowed agent rows, read as a map of rows.
pub open spec fn deref_map<'a>(m: Map<u64, &'a AgentInfo>) -> Map<u64, AgentInfo> {
    Map::new(|id: u64| m.contains_key(id), |id: u64| *m[id])
}

/// The day limit read from the filter text: an integer, else 60; at least 1.
pub open spec fn effective_max_days(s: Seq<char>) -> int {
    let v = match parse_i64_spec(s) {
        Some(x) => x,
        None => 60,
    };
    if v < 1 {
        1
    } else {
        v
    }
}

/// The rows among the first `n` whose computers all have a fresh agent, in order.
pub open spec fn fresh_rows(
    rows: Seq<AggregatedSoftware>,
    n: int,
    agents: Seq<AgentInfo>,
    computers: Map<u64, ComputerInfo>,
    max_days: int,
    now: Moment,
    nanos: u32,
) -> Seq<AggregatedSoftware>
    decreases n,
{
    if n <= 0 {
        Seq::empty()
    } else {
        let prev = fresh_rows(rows, n - 1, agents, computers, max_days, now, nanos);
        if all_hosts_fresh(rows[n - 1], kept_view(agents), computers, max_days, now, nanos) {
            prev.push(rows[n - 1])
        } else {
            prev
        }
    }
}

/// Keeps the rows whose computers all pass the stale filter at `now`, with the
/// kept agent row of each computer; with no agents at all, keeps nothing.
pub fn retain_agent_fresh_all_hosts(
    rows: &mut Vec<AggregatedSoftware>,
    agents: &[AgentInfo],
    computers: &HashMap<u64, ComputerInfo>,
    max_days_str: &str,
    now: Moment,
    nanos: u32,
)
    requires
        agents@.len() > 0 ==> days_in_range(effective_max_days(max_days_str@)),
    ensures
        agents@.len() == 0 ==> final(rows)@.len() == 0,
        agents@.len() > 0 ==> final(rows)@ == fresh_rows(
            old(rows)@,
            old(rows)@.len() as int,
            agents@,
            computers@,
            effective_max_days(max_days_str@),
            now,
            nanos,
        ),
{
    let parsed = match parse_i64(max_days_str) {
        Some(v) => v,
        None => 60,
    };
    let max_days: i64 = if parsed < 1 {
        1
    } else {
        parsed
    };
    if agents.len() == 0 {
        rows.clear();
        return;
    }
    let map = kept_agents(agents);
    proof {
        assert(deref_map(map@) =~= kept_view(agents@));
    }
    let ghost orig = rows@;
    let mut src: Vec<AggregatedSoftware> = Vec::new();
    std::mem::swap(rows, &mut src);
    let count = src.len();
    let mut k: usize = 0;
    while k < count
        invariant
            count == orig.len(),
            k <= count,
            src@ == orig.skip(k as int),
            deref_map(map@) == kept_view(agents@),
            max_days as int == effective_max_days(max_days_str@),
            days_in_range(max_days as int),
            rows@ == fresh_rows(orig, k as int, agents@, computers@, max_days as int, now, nanos),
        decreases count - k,
    {
        let sw = src.remove(0);
        proof {
            assert(orig.skip(k as int)[0] == orig[k as int]);
            assert(src@ =~= orig.skip(k + 1));
        }
        if software_all_hosts_have_fresh_agent(&sw, &map, computers, max_days, now, nanos) {
            rows.push(sw);
        }
        k = k + 1;
    }
}


} // verus!
