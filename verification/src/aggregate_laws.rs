//! Laws of the per-software summaries, stated over the input tables.
use crate::aggregator::{
    agg_input, aggregate_ok, counts_for, full, group_key, group_members, installed_software, members_date,
    row_key, software_order, summary_ok, sw_any_date, sw_date, sw_install_date, sw_mod_date, newer_opt, AggInput,
};
use crate::date_util::{lemma_newer_merge_newest, lemma_newer_step_newest, newest_of, opt_view, parsed_date};
use crate::models::{AggregatedSoftware, GlpiComputer, GlpiItemSoftwareVersion, GlpiSoftware, GlpiSoftwareVersion};
use vstd::prelude::*;

verus! {

/// Installation `x` carries the date `d` among the dates a summary folds for
/// `which`: its install date (0), its install or modification date (1), its
/// modification date (2).
pub open spec fn carries_date(x: GlpiItemSoftwareVersion, which: int, d: Seq<char>) -> bool {
    (which != 2 && opt_view(x.date_install) == Some(d)) || (which != 0 && opt_view(x.date_mod) == Some(d))
}

/// Installation `j` counts for software `s` and carries the date `d` for `which`.
pub open spec fn install_date_for(i: AggInput, s: u64, j: int, d: Seq<char>, which: int) -> bool {
    0 <= j < i.installs.len() && counts_for(i, i.installs[j], s) && carries_date(i.installs[j], which, d)
}

/// The dates for `which` of software `s` among the first `n` installations.
pub open spec fn install_dates(i: AggInput, s: u64, n: int, which: int) -> Set<Seq<char>> {
    Set::new(|d: Seq<char>| exists|j: int| j < n && #[trigger] install_date_for(i, s, j, d, which))
}

/// The dates for `which` of the software ids `ms`.
pub open spec fn members_install_dates(i: AggInput, ms: Seq<u64>, which: int) -> Set<Seq<char>>
    decreases ms.len(),
{
    if ms.len() == 0 {
        Set::empty()
    } else {
        members_install_dates(i, ms.drop_last(), which).union(install_dates(i, ms.last(), full(i), which))
    }
}

/// Installation `x` counts for a software whose summary row has the key `key`.
pub open spec fn in_row(i: AggInput, key: (Seq<char>, Seq<char>), x: GlpiItemSoftwareVersion) -> bool {
    match installed_software(i, x) {
        Some(s) => group_key(i, s) == key,
        None => false,
    }
}

/// The dates for `which` of the installations that count for row key `key`.
pub open spec fn row_install_dates(i: AggInput, key: (Seq<char>, Seq<char>), which: int) -> Set<Seq<char>> {
    Set::new(
        |d: Seq<char>|
            exists|j: int|
                0 <= j < i.installs.len() && #[trigger] in_row(i, key, i.installs[j]) && carries_date(
                    i.installs[j],
                    which,
                    d,
                ),
    )
}

/// The summary date a row keeps for `which`.
pub open spec fn row_date(e: AggregatedSoftware, which: int) -> Option<String> {
    if which == 0 {
        e.last_install_date
    } else if which == 1 {
        e.last_updated
    } else {
        e.last_agent_pull
    }
}

/// The per-software fold for `which` over the first `n` installations.
spec fn sw_fold(i: AggInput, s: u64, n: int, which: int) -> Option<Seq<char>> {
    if which == 0 {
        sw_install_date(i, s, n)
    } else if which == 1 {
        sw_any_date(i, s, n)
    } else {
        sw_mod_date(i, s, n)
    }
}

proof fn lemma_opt_newest(best: Option<Seq<char>>, cands: Set<Seq<char>>, d: Option<String>)
    requires
        newest_of(best, cands),
    ensures
        newest_of(
            newer_opt(best, d),
            match d {
                Some(t) => cands.insert(t@),
                None => cands,
            },
        ),
{
    if d is Some {
        lemma_newer_step_newest(best, cands, d->0@);
    }
}

#[verifier::spinoff_prover]
proof fn lemma_install_dates_newest(i: AggInput, s: u64, n: int, which: int)
    requires
        0 <= n <= full(i),
        0 <= which <= 2,
    ensures
        newest_of(sw_fold(i, s, n, which), install_dates(i, s, n, which)),
    decreases n,
{
    if n == 0 {
        assert(install_dates(i, s, 0, which) =~= Set::<Seq<char>>::empty());
    } else {
        lemma_install_dates_newest(i, s, n - 1, which);
        let x = i.installs[n - 1];
        let prev = install_dates(i, s, n - 1, which);
        let cur = install_dates(i, s, n, which);
        let pb = sw_fold(i, s, n - 1, which);
        assert forall|d: Seq<char>| #[trigger] prev.contains(d) implies cur.contains(d) by {
            let j = choose|j: int| j < n - 1 && #[trigger] install_date_for(i, s, j, d, which);
            assert(j < n && install_date_for(i, s, j, d, which));
        }
        if counts_for(i, x, s) {
            let s1 = if which != 2 {
                match x.date_install {
                    Some(t) => prev.insert(t@),
                    None => prev,
                }
            } else {
                prev
            };
            let b1 = if which != 2 {
                newer_opt(pb, x.date_install)
            } else {
                pb
            };
            if which != 2 {
                lemma_opt_newest(pb, prev, x.date_install);
            }
            let s2 = if which != 0 {
                match x.date_mod {
                    Some(t) => s1.insert(t@),
                    None => s1,
                }
            } else {
                s1
            };
            if which != 0 {
                lemma_opt_newest(b1, s1, x.date_mod);
            }
            assert(sw_fold(i, s, n, which) == if which != 0 {
                newer_opt(b1, x.date_mod)
            } else {
                b1
            });
            assert forall|d: Seq<char>| #[trigger] cur.contains(d) implies s2.contains(d) by {
                let j = choose|j: int| j < n && #[trigger] install_date_for(i, s, j, d, which);
                if j < n - 1 {
                    assert(prev.contains(d));
                }
            }
            assert forall|d: Seq<char>| #[trigger] s2.contains(d) implies cur.contains(d) by {
                if !prev.contains(d) {
                    assert(install_date_for(i, s, n - 1, d, which));
                }
            }
            assert(cur =~= s2);
        } else {
            assert forall|d: Seq<char>| #[trigger] cur.contains(d) implies prev.contains(d) by {
                let j = choose|j: int| j < n && #[trigger] install_date_for(i, s, j, d, which);
                assert(j < n - 1);
            }
            assert(cur =~= prev);
        }
    }
}

proof fn lemma_members_newest(i: AggInput, ms: Seq<u64>, which: int)
    requires
        0 <= which <= 2,
    ensures
        newest_of(members_date(i, ms, which), members_install_dates(i, ms, which)),
    decreases ms.len(),
{
    if ms.len() == 0 {
    } else {
        lemma_members_newest(i, ms.drop_last(), which);
        lemma_install_dates_newest(i, ms.last(), full(i), which);
        assert(sw_date(i, ms.last(), which) == sw_fold(i, ms.last(), full(i), which));
        lemma_newer_merge_newest(
            members_date(i, ms.drop_last(), which),
            members_install_dates(i, ms.drop_last(), which),
            sw_date(i, ms.last(), which),
            install_dates(i, ms.last(), full(i), which),
        );
    }
}

proof fn lemma_members_dates_has(i: AggInput, ms: Seq<u64>, d: Seq<char>, which: int)
    ensures
        members_install_dates(i, ms, which).contains(d) <==> exists|k: int|
            0 <= k < ms.len() && #[trigger] install_dates(i, ms[k], full(i), which).contains(d),
    decreases ms.len(),
{
    if ms.len() > 0 {
        let pre = ms.drop_last();
        lemma_members_dates_has(i, pre, d, which);
        if members_install_dates(i, ms, which).contains(d) {
            if members_install_dates(i, pre, which).contains(d) {
                let k = choose|k: int| 0 <= k < pre.len() && #[trigger] install_dates(i, pre[k], full(i), which).contains(d);
                assert(ms[k] == pre[k]);
            } else {
                assert(install_dates(i, ms[ms.len() - 1], full(i), which).contains(d));
            }
        }
        if exists|k: int| 0 <= k < ms.len() && #[trigger] install_dates(i, ms[k], full(i), which).contains(d) {
            let k = choose|k: int| 0 <= k < ms.len() && #[trigger] install_dates(i, ms[k], full(i), which).contains(d);
            if k < pre.len() {
                assert(pre[k] == ms[k]);
                assert(members_install_dates(i, pre, which).contains(d));
            }
        }
    }
}

proof fn lemma_order_has(i: AggInput, n: int, s: u64)
    requires
        0 <= n <= full(i),
    ensures
        software_order(i, n).contains(s) <==> exists|j: int| 0 <= j < n && #[trigger] counts_for(i, i.installs[j], s),
    decreases n,
{
    if n > 0 {
        lemma_order_has(i, n - 1, s);
        let prev = software_order(i, n - 1);
        match installed_software(i, i.installs[n - 1]) {
            Some(t) => {
                if !prev.contains(t) {
                    let o = prev.push(t);
                    assert(o[prev.len() as int] == t);
                    if prev.contains(s) {
                        let a = choose|a: int| 0 <= a < prev.len() && prev[a] == s;
                        assert(o[a] == s);
                    }
                    if o.contains(s) && s != t {
                        let a = choose|a: int| 0 <= a < o.len() && o[a] == s;
                        assert(prev[a] == s);
                    }
                }
                if t == s {
                    assert(counts_for(i, i.installs[n - 1], s));
                }
            },
            None => {},
        }
        if exists|j: int| 0 <= j < n && #[trigger] counts_for(i, i.installs[j], s) {
            let j = choose|j: int| 0 <= j < n && #[trigger] counts_for(i, i.installs[j], s);
            if j < n - 1 {
                assert(prev.contains(s));
            }
        }
    }
}

proof fn lemma_members_has(i: AggInput, key: (Seq<char>, Seq<char>), m: int, s: u64)
    requires
        0 <= m <= software_order(i, full(i)).len(),
    ensures
        group_members(i, key, m).contains(s) <==> (group_key(i, s) == key && exists|t: int|
            0 <= t < m && #[trigger] software_order(i, full(i))[t] == s),
    decreases m,
{
    if m > 0 {
        let o = software_order(i, full(i));
        lemma_members_has(i, key, m - 1, s);
        let prev = group_members(i, key, m - 1);
        if group_key(i, o[m - 1]) == key {
            let g = prev.push(o[m - 1]);
            assert(g[prev.len() as int] == o[m - 1]);
            if prev.contains(s) {
                let a = choose|a: int| 0 <= a < prev.len() && prev[a] == s;
                assert(g[a] == s);
            }
            if g.contains(s) && s != o[m - 1] {
                let a = choose|a: int| 0 <= a < g.len() && g[a] == s;
                assert(prev[a] == s);
            }
        }
        if group_key(i, s) == key && exists|t: int| 0 <= t < m && #[trigger] o[t] == s {
            let t = choose|t: int| 0 <= t < m && #[trigger] o[t] == s;
            if t < m - 1 {
                assert(prev.contains(s));
            }
        }
    }
}

proof fn lemma_row_dates(i: AggInput, key: (Seq<char>, Seq<char>), which: int)
    ensures
        members_install_dates(i, group_members(i, key, software_order(i, full(i)).len() as int), which)
            == row_install_dates(i, key, which),
{
    let o = software_order(i, full(i));
    let m = o.len() as int;
    let ms = group_members(i, key, m);
    let md = members_install_dates(i, ms, which);
    let rd = row_install_dates(i, key, which);
    assert forall|d: Seq<char>| md.contains(d) <==> rd.contains(d) by {
        lemma_members_dates_has(i, ms, d, which);
        if md.contains(d) {
            let k = choose|k: int| 0 <= k < ms.len() && #[trigger] install_dates(i, ms[k], full(i), which).contains(d);
            let j = choose|j: int| j < full(i) && #[trigger] install_date_for(i, ms[k], j, d, which);
            assert(ms.contains(ms[k]));
            lemma_members_has(i, key, m, ms[k]);
            assert(in_row(i, key, i.installs[j]));
        }
        if rd.contains(d) {
            let j = choose|j: int|
                0 <= j < i.installs.len() && #[trigger] in_row(i, key, i.installs[j]) && carries_date(
                    i.installs[j],
                    which,
                    d,
                );
            let s = installed_software(i, i.installs[j])->0;
            assert(counts_for(i, i.installs[j], s));
            lemma_order_has(i, full(i), s);
            let t = choose|t: int| 0 <= t < o.len() && o[t] == s;
            lemma_members_has(i, key, m, s);
            assert(ms.contains(s));
            let k = choose|k: int| 0 <= k < ms.len() && ms[k] == s;
            assert(install_date_for(i, s, j, d, which));
            assert(install_dates(i, ms[k], full(i), which).contains(d));
        }
    }
    assert(md =~= rd);
}

/// Each of a summary row's newest dates (install date, install-or-change date,
/// change date: `which` 0, 1, 2) is the newest such date of the installations that
/// count for the row: there is one exactly when some such installation carries one,
/// it is one of those dates, and, when they all read as calendar dates, none of
/// them falls on a later day.
pub proof fn lemma_summary_dates_newest(
    software_list: Seq<GlpiSoftware>,
    versions: Seq<GlpiSoftwareVersion>,
    installations: Seq<GlpiItemSoftwareVersion>,
    computers: Seq<GlpiComputer>,
    rows: Seq<AggregatedSoftware>,
    k: int,
    which: int,
)
    requires
        aggregate_ok(agg_input(software_list, versions, installations, computers), rows),
        0 <= k < rows.len(),
        0 <= which <= 2,
    ensures
        ({
            let i = agg_input(software_list, versions, installations, computers);
            let key = row_key(rows[k]);
            let kept = opt_view(row_date(rows[k], which));
            &&& kept is None <==> forall|j: int, d: Seq<char>|
                0 <= j < installations.len() && #[trigger] in_row(i, key, installations[j])
                    ==> !#[trigger] carries_date(installations[j], which, d)
            &&& kept is Some ==> exists|j: int|
                0 <= j < installations.len() && #[trigger] in_row(i, key, installations[j])
                    && carries_date(installations[j], which, kept->0)
            &&& (kept is Some && forall|j: int, d: Seq<char>|
                0 <= j < installations.len() && #[trigger] in_row(i, key, installations[j])
                    && #[trigger] carries_date(installations[j], which, d) ==> parsed_date(d) is Some)
                ==> forall|j: int, d: Seq<char>|
                0 <= j < installations.len() && #[trigger] in_row(i, key, installations[j])
                    && #[trigger] carries_date(installations[j], which, d) ==> parsed_date(d)->0.days
                    <= parsed_date(kept->0)->0.days
        }),
{
    let i = agg_input(software_list, versions, installations, computers);
    let e = rows[k];
    let key = row_key(e);
    let m = software_order(i, full(i)).len() as int;
    let ms = group_members(i, key, m);
    assert(summary_ok(i, ms, e));
    lemma_members_newest(i, ms, which);
    lemma_row_dates(i, key, which);
    let rd = row_install_dates(i, key, which);
    let kept = opt_view(row_date(e, which));
    assert(kept == members_date(i, ms, which));
    assert(newest_of(kept, rd));
    assert forall|j: int, d: Seq<char>|
        0 <= j < installations.len() && #[trigger] in_row(i, key, installations[j])
            && #[trigger] carries_date(installations[j], which, d) implies rd.contains(d) by {
        assert(i.installs[j] == installations[j]);
    }
    if kept is Some {
        assert(rd.contains(kept->0));
        let j = choose|j: int|
            0 <= j < i.installs.len() && #[trigger] in_row(i, key, i.installs[j]) && carries_date(
                i.installs[j],
                which,
                kept->0,
            );
        if forall|j: int, d: Seq<char>|
            0 <= j < installations.len() && #[trigger] in_row(i, key, installations[j])
                && #[trigger] carries_date(installations[j], which, d) ==> parsed_date(d) is Some {
            assert forall|c: Seq<char>| #[trigger] rd.contains(c) implies parsed_date(c) is Some by {
                let j = choose|j: int|
                    0 <= j < i.installs.len() && #[trigger] in_row(i, key, i.installs[j]) && carries_date(
                        i.installs[j],
                        which,
                        c,
                    );
            }
        }
    } else {
        assert(rd =~= Set::<Seq<char>>::empty());
    }
}

} // verus!
