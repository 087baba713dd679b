//! The newest agent contact among the computers that have a software, as shown
//! in the software table's agent column.
use crate::agents::{deref_map, map_get};
use crate::date_util::{parse_datetime, parsed_datetime, Moment};
use crate::models::AgentInfo;
use crate::text::{trim, trim_str};
use std::collections::{HashMap, HashSet};
use vstd::std_specs::hash::spec_hash_keys_iter;
use vstd::std_specs::iter::IteratorSpec;
use vstd::prelude::*;

verus! {

broadcast use vstd::std_specs::hash::group_hash_axioms;

/// `a` is strictly later than `b`.
pub open spec fn moment_after(a: Moment, b: Moment) -> bool {
    a.days > b.days || (a.days == b.days && (a.secs > b.secs || (a.secs == b.secs && a.frac > b.frac)))
}

/// The trimmed, non-blank contact text of computer `h`'s agent, if any.
pub open spec fn host_contact(agents: Map<u64, AgentInfo>, h: u64) -> Option<Seq<char>> {
    match map_get(agents, h) {
        Some(a) => match a.last_contact {
            Some(raw) => if trim(raw@).len() > 0 {
                Some(trim(raw@))
            } else {
                None
            },
            None => None,
        },
        None => None,
    }
}

/// The scan state: the newest parsable contact met so far with its text, and
/// the first contact met that does not parse.
pub type ContactScan = (Option<(Moment, Seq<char>)>, Option<Seq<char>>);

/// The scan state after the first `n` computers of `keys`.
pub open spec fn contact_scan(keys: Seq<u64>, agents: Map<u64, AgentInfo>, n: int) -> ContactScan
    decreases n,
{
    if n <= 0 {
        (None, None)
    } else {
        let (best, fallback) = contact_scan(keys, agents, n - 1);
        match host_contact(agents, keys[n - 1]) {
            Some(s) => match parsed_datetime(s) {
                Some(dt) => match best {
                    Some((b, _)) => if moment_after(dt, b) {
                        (Some((dt, s)), fallback)
                    } else {
                        (best, fallback)
                    },
                    None => (Some((dt, s)), fallback),
                },
                None => if fallback is None {
                    (best, Some(s))
                } else {
                    (best, fallback)
                },
            },
            None => (best, fallback),
        }
    }
}

/// What the column shows for a scan: the newest parsable contact, else the
/// first unparsable one, else a dash.
pub open spec fn contact_shown(scan: ContactScan) -> Seq<char> {
    match scan.0 {
        Some((_, s)) => s,
        None => match scan.1 {
            Some(s) => s,
            None => "—"@,
        },
    }
}

/// The column for `host_ids`, walked in the order `keys`.
pub open spec fn latest_contact_ok(host_ids: Set<u64>, agents: Map<u64, AgentInfo>, r: Seq<char>) -> bool {
    exists|keys: Seq<u64>|
        #![trigger keys.to_set()]
        keys.no_duplicates() && keys.to_set() == host_ids && r == contact_shown(
            contact_scan(keys, agents, keys.len() as int),
        )
}

/// The newest parsable contact is no earlier than any parsable contact met, and
/// is itself one of them.
proof fn lemma_scan_newest(keys: Seq<u64>, agents: Map<u64, AgentInfo>, n: int)
    requires
        0 <= n <= keys.len(),
    ensures
        forall|i: int|
            #![trigger keys[i]]
            0 <= i < n && host_contact(agents, keys[i]) is Some && parsed_datetime(
                host_contact(agents, keys[i])->0,
            ) is Some ==> contact_scan(keys, agents, n).0 is Some && !moment_after(
                parsed_datetime(host_contact(agents, keys[i])->0)->0,
                (contact_scan(keys, agents, n).0->0).0,
            ),
        contact_scan(keys, agents, n).0 matches Some((m, s)) ==> exists|i: int|
            #![trigger keys[i]]
            0 <= i < n && host_contact(agents, keys[i]) == Some(s) && parsed_datetime(s) == Some(m),
    decreases n,
{
    if n > 0 {
        lemma_scan_newest(keys, agents, n - 1);
    }
}

/// When some computer's agent has a contact that parses, the column shows a
/// parsable contact of one of the computers, and no computer's contact is later.
pub proof fn lemma_latest_contact_is_newest(host_ids: Set<u64>, agents: Map<u64, AgentInfo>, r: Seq<char>, h: u64)
    requires
        latest_contact_ok(host_ids, agents, r),
        host_ids.contains(h),
        host_contact(agents, h) is Some,
        parsed_datetime(host_contact(agents, h)->0) is Some,
    ensures
        parsed_datetime(r) is Some,
        exists|g: u64| #[trigger] host_ids.contains(g) && host_contact(agents, g) == Some(r),
        !moment_after(parsed_datetime(host_contact(agents, h)->0)->0, parsed_datetime(r)->0),
{
    let keys = choose|keys: Seq<u64>|
        #![trigger keys.to_set()]
        keys.no_duplicates() && keys.to_set() == host_ids && r == contact_shown(
            contact_scan(keys, agents, keys.len() as int),
        );
    let n = keys.len() as int;
    lemma_scan_newest(keys, agents, n);
    assert(keys.to_set().contains(h));
    let i = choose|i: int| 0 <= i < n && keys[i] == h;
    assert(keys[i] == h);
    let scan = contact_scan(keys, agents, n);
    let (m, s) = scan.0->0;
    let j = choose|j: int|
        #![trigger keys[j]]
        0 <= j < n && host_contact(agents, keys[j]) == Some(s) && parsed_datetime(s) == Some(m);
    assert(keys.to_set().contains(keys[j]));
    assert(host_ids.contains(keys[j]));
}

/// Newest agent `last_contact` among the computers in `host_ids`, by parsed
/// date and time; the first unparsable contact when none parses; a dash when
/// there is no contact at all.
pub fn latest_agent_contact_among_hosts(host_ids: &HashSet<u64>, agent_by_id: &HashMap<u64, &AgentInfo>) -> (r: String)
    ensures
        latest_contact_ok(host_ids@, deref_map(agent_by_id@), r@),
{
    let ghost amap = deref_map(agent_by_id@);
    let ghost keys = spec_hash_keys_iter(host_ids).remaining().unref();
    let mut best: Option<(Moment, String)> = None;
    let mut fallback: Option<String> = None;
    for h in it: host_ids.iter()
        invariant
            amap == deref_map(agent_by_id@),
            it.seq().unref() == keys,
            keys.to_set() == host_ids@,
            ({
                let scan = contact_scan(keys, amap, it.index() as int);
                &&& scan.1 == crate::date_util::opt_view(fallback)
                &&& match best {
                    Some((m, s)) => scan.0 == Some((m, s@)),
                    None => scan.0 is None,
                }
            }),
    {
        let ghost k = it.index() as int;
        assert(keys[k] == *h);
        let agent: Option<&AgentInfo> = match agent_by_id.get(h) {
            Some(a) => Some(*a),
            None => None,
        };
        if let Some(a) = agent {
            if let Some(raw) = &a.last_contact {
                let s = trim_str(raw.as_str());
                if !s.as_str().is_empty() {
                    match parse_datetime(s.as_str()) {
                        Some(dt) => {
                            let newer = match &best {
                                Some((b, _)) => dt.days > b.days || (dt.days == b.days && (dt.secs > b.secs || (dt.secs == b.secs && dt.frac > b.frac))),
                                None => true,
                            };
                            if newer {
                                best = Some((dt, s));
                            }
                        },
                        None => {
                            if fallback.is_none() {
                                fallback = Some(s);
                            }
                        },
                    }
                }
            }
        }
    }
    proof {
        assert(keys.no_duplicates());
    }
    match best {
        Some((_, s)) => s,
        None => match fallback {
            Some(s) => s,
            None => "—".to_owned(),
        },
    }
}

} // verus!
