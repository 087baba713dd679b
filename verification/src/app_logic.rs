//! The decisions the application makes on the data it holds: numeric settings,
//! the selection, ping bookkeeping, host counts and the history summary line.
use crate::models::{AgentInfo, AggregatedSoftware, HistoricalSoftwareEntry, HistoryViewSummary, PingResult};
use crate::text::{parse_i64, parse_i64_spec};
use std::collections::{HashMap, HashSet};
use vstd::std_specs::hash::spec_hash_keys_iter;
use vstd::std_specs::iter::IteratorSpec;
use vstd::prelude::*;

verus! {

broadcast use vstd::std_specs::hash::group_hash_axioms;

// ---------------------------------------------------------------------------
// The selection
// ---------------------------------------------------------------------------
/// The ids of the listed software.
pub open spec fn listed_ids(v: Seq<AggregatedSoftware>) -> Set<u64> {
    Set::new(|id: u64| exists|i: int| 0 <= i < v.len() && (#[trigger] v[i]).software_id == id)
}

/// "Select all visible": every software shown is added to the selection.
pub fn select_all_visible(selected: &mut HashSet<u64>, visible: &[AggregatedSoftware])
    ensures
        final(selected)@ == old(selected)@.union(listed_ids(visible@)),
{
    let ghost start = selected@;
    let mut i: usize = 0;
    while i < visible.len()
        invariant
            i <= visible@.len(),
            selected@ == start.union(listed_ids(visible@.take(i as int))),
        decreases visible.len() - i,
    {
        let ghost before = selected@;
        selected.insert(visible[i].software_id);
        proof {
            assert(listed_ids(visible@.take(i + 1)) =~= listed_ids(visible@.take(i as int)).insert(visible@[i as int].software_id)) by {
                assert forall|id: u64| listed_ids(visible@.take(i + 1)).contains(id) implies listed_ids(visible@.take(i as int)).insert(visible@[i as int].software_id).contains(id) by {
                    let j = choose|j: int| 0 <= j < i + 1 && (#[trigger] visible@.take(i + 1)[j]).software_id == id;
                    if j < i {
                        assert(visible@.take(i as int)[j] == visible@.take(i + 1)[j]);
                    }
                }
                assert forall|id: u64| listed_ids(visible@.take(i as int)).insert(visible@[i as int].software_id).contains(id) implies listed_ids(visible@.take(i + 1)).contains(id) by {
                    if id == visible@[i as int].software_id {
                        assert(visible@.take(i + 1)[i as int] == visible@[i as int]);
                    } else {
                        let j = choose|j: int| 0 <= j < i && (#[trigger] visible@.take(i as int)[j]).software_id == id;
                        assert(visible@.take(i + 1)[j] == visible@.take(i as int)[j]);
                    }
                }
            }
            assert(selected@ =~= start.union(listed_ids(visible@.take(i + 1))));
        }
        i = i + 1;
    }
    assert(visible@.take(visible@.len() as int) =~= visible@);
}

// ---------------------------------------------------------------------------
// Numeric settings typed in the panels
// ---------------------------------------------------------------------------
/// A day count typed in a panel: the number read, or `default` when the text
/// does not read as one; at least 1.
pub open spec fn day_setting(text: Seq<char>, default: int) -> int {
    let d = match parse_i64_spec(text) {
        Some(n) => n,
        None => default,
    };
    if d < 1 {
        1
    } else {
        d
    }
}

pub fn parse_days_setting(text: &str, default: i64) -> (r: i64)
    ensures
        r as int == day_setting(text@, default as int),
        r >= 1,
{
    let d = match parse_i64(text) {
        Some(n) => n,
        None => default,
    };
    if d < 1 {
        1
    } else {
        d
    }
}

// ---------------------------------------------------------------------------
// Pings
// ---------------------------------------------------------------------------
/// The hosts to ping for "ping all": every agent row's computer id and name, in order.
pub fn ping_targets(agents: &[AgentInfo]) -> (r: Vec<(u64, String)>)
    ensures
        r@.len() == agents@.len(),
        forall|i: int|
            0 <= i < agents@.len() ==> (#[trigger] r@[i]).0 == agents@[i].computer_id && r@[i].1@
                == agents@[i].computer_name@,
{
    let mut out: Vec<(u64, String)> = Vec::new();
    let mut k: usize = 0;
    while k < agents.len()
        invariant
            k <= agents@.len(),
            out@.len() == k,
            forall|i: int|
                0 <= i < k ==> (#[trigger] out@[i]).0 == agents@[i].computer_id && out@[i].1@
                    == agents@[i].computer_name@,
        decreases agents.len() - k,
    {
        out.push((agents[k].computer_id, agents[k].computer_name.clone()));
        k = k + 1;
    }
    out
}

/// An agent row with only its ping changed.
pub open spec fn with_ping(a: AgentInfo, p: PingResult) -> AgentInfo {
    AgentInfo { ping: p, ..a }
}

/// Marks every agent row as waiting for its ping.
pub fn mark_ping_pending(agents: &mut Vec<AgentInfo>)
    ensures
        final(agents)@.len() == old(agents)@.len(),
        forall|i: int|
            0 <= i < old(agents)@.len() ==> #[trigger] final(agents)@[i] == with_ping(
                old(agents)@[i],
                PingResult::Pending,
            ),
{
    let ghost orig = agents@;
    let mut k: usize = 0;
    while k < agents.len()
        invariant
            k <= agents@.len(),
            agents@.len() == orig.len(),
            forall|i: int| 0 <= i < k ==> #[trigger] agents@[i] == with_ping(orig[i], PingResult::Pending),
            forall|i: int| k <= i < agents@.len() ==> #[trigger] agents@[i] == orig[i],
        decreases agents.len() - k,
    {
        let mut a = agents.remove(k);
        a.ping = PingResult::Pending;
        agents.insert(k, a);
        k = k + 1;
    }
}

/// The ping an agent row shows once results came back: reachable or not for a
/// computer with a result, unchanged otherwise.
pub open spec fn pinged(a: AgentInfo, results: Map<u64, bool>) -> AgentInfo {
    if results.contains_key(a.computer_id) {
        with_ping(
            a,
            if results[a.computer_id] {
                PingResult::Reachable
            } else {
                PingResult::Unreachable
            },
        )
    } else {
        a
    }
}

pub fn apply_ping_results(agents: &mut Vec<AgentInfo>, results: &HashMap<u64, bool>)
    ensures
        final(agents)@.len() == old(agents)@.len(),
        forall|i: int| 0 <= i < old(agents)@.len() ==> #[trigger] final(agents)@[i] == pinged(old(agents)@[i], results@),
{
    let ghost orig = agents@;
    let mut k: usize = 0;
    while k < agents.len()
        invariant
            k <= agents@.len(),
            agents@.len() == orig.len(),
            forall|i: int| 0 <= i < k ==> #[trigger] agents@[i] == pinged(orig[i], results@),
            forall|i: int| k <= i < agents@.len() ==> #[trigger] agents@[i] == orig[i],
        decreases agents.len() - k,
    {
        let id = agents[k].computer_id;
        match results.get(&id) {
            Some(reachable) => {
                let mut a = agents.remove(k);
                a.ping = if *reachable {
                    PingResult::Reachable
                } else {
                    PingResult::Unreachable
                };
                agents.insert(k, a);
            },
            None => {},
        }
        k = k + 1;
    }
}

// ---------------------------------------------------------------------------
// Counts
// ---------------------------------------------------------------------------
/// The computers of the first `n` rows.
pub open spec fn hosts_union(rows: Seq<AggregatedSoftware>, n: int) -> Set<u64>
    decreases n,
{
    if n <= 0 {
        Set::empty()
    } else {
        hosts_union(rows, n - 1).union(rows[n - 1].host_ids@)
    }
}

/// How many distinct computers have any of the software.
pub fn count_distinct_hosts(rows: &[AggregatedSoftware]) -> (r: usize)
    ensures
        r == hosts_union(rows@, rows@.len() as int).len(),
{
    let mut all: HashSet<u64> = HashSet::new();
    let mut j: usize = 0;
    while j < rows.len()
        invariant
            j <= rows@.len(),
            all@ == hosts_union(rows@, j as int),
        decreases rows.len() - j,
    {
        let sw = &rows[j];
        let ghost start = all@;
        let ghost keys = spec_hash_keys_iter(&sw.host_ids).remaining();
        for h in it: sw.host_ids.iter()
            invariant
                it.seq() == keys,
                keys.unref().to_set() == sw.host_ids@,
                all@ == start.union(keys.unref().take(it.index() as int).to_set()),
        {
            let ghost k = it.index() as int;
            all.insert(*h);
            proof {
                assert(keys.unref().take(k + 1) =~= keys.unref().take(k).push(*h));
                keys.unref().take(k).lemma_push_to_set_commute(*h);
                assert(keys.unref().take(k + 1).to_set() =~= keys.unref().take(k).to_set().insert(*h));
                assert(all@ =~= start.union(keys.unref().take(k + 1).to_set()));
            }
        }
        proof {
            assert(keys.unref().take(keys.unref().len() as int) =~= keys.unref());
            assert(all@ =~= hosts_union(rows@, j as int + 1));
        }
        j = j + 1;
    }
    all.len()
}

// ---------------------------------------------------------------------------
// The history view
// ---------------------------------------------------------------------------
/// The host counts of the first `n` rows, added up.
pub open spec fn host_total(rows: Seq<HistoricalSoftwareEntry>, n: int) -> int
    decreases n,
{
    if n <= 0 {
        0
    } else {
        host_total(rows, n - 1) + rows[n - 1].host_count
    }
}

proof fn lemma_host_total_grows(rows: Seq<HistoricalSoftwareEntry>, a: int, b: int)
    requires
        0 <= a <= b <= rows.len(),
    ensures
        host_total(rows, a) <= host_total(rows, b),
    decreases b - a,
{
    if a < b {
        lemma_host_total_grows(rows, a, b - 1);
    }
}

/// The summary of a history view: when the snapshot was taken, how many rows
/// and how many installations (host counts added up) it shows.
pub fn history_summary(rows: &[HistoricalSoftwareEntry], captured_at: &str) -> (r: HistoryViewSummary)
    requires
        host_total(rows@, rows@.len() as int) <= usize::MAX,
    ensures
        r.snapshot_captured_at@ == captured_at@,
        r.software_count == rows@.len(),
        r.host_count == host_total(rows@, rows@.len() as int),
{
    let mut total: usize = 0;
    let mut k: usize = 0;
    while k < rows.len()
        invariant
            k <= rows@.len(),
            total == host_total(rows@, k as int),
            host_total(rows@, rows@.len() as int) <= usize::MAX,
        decreases rows.len() - k,
    {
        proof {
            lemma_host_total_grows(rows@, k as int + 1, rows@.len() as int);
        }
        total = total + rows[k].host_count;
        k = k + 1;
    }
    HistoryViewSummary { snapshot_captured_at: captured_at.to_owned(), software_count: rows.len(), host_count: total }
}

} // verus!
