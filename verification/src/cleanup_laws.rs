//! Laws of the cleanup dry run, stated over the dates the tables hold.
use crate::cleanup::{
    all_events, cleanup_days, cleanup_items, cleanup_ok, cleanup_publisher, candidate_view, candidate_views,
    date_display, latest_of, latest_step, CandidateView,
};
use crate::date_util::{lemma_newer_step_newest, newer_step, newest_of, parsed_date};
use crate::models::{GlpiItemSoftwareVersion, GlpiSoftware, GlpiSoftwareVersion, SoftwareCleanupCandidate};
use crate::sorting::{lemma_rearranged_onto, rearranged};
use crate::text::trim;
use vstd::prelude::*;

verus! {

/// Event `j` is a non-blank date of software `id`.
pub open spec fn dated_event(ev: Seq<(u64, Seq<char>)>, id: u64, j: int) -> bool {
    0 <= j < ev.len() && ev[j].0 == id && trim(ev[j].1).len() > 0
}

/// The non-blank dates of software `id` among the events.
pub open spec fn event_dates(ev: Seq<(u64, Seq<char>)>, id: u64) -> Set<Seq<char>> {
    Set::new(|d: Seq<char>| exists|j: int| #[trigger] dated_event(ev, id, j) && ev[j].1 == d)
}

proof fn lemma_latest_newest(ev: Seq<(u64, Seq<char>)>, id: u64)
    ensures
        newest_of(latest_of(ev, id), event_dates(ev, id)),
        forall|d: Seq<char>| #[trigger] event_dates(ev, id).contains(d) ==> trim(d).len() > 0,
    decreases ev.len(),
{
    let cur = event_dates(ev, id);
    if ev.len() == 0 {
        assert(cur =~= Set::<Seq<char>>::empty());
    } else {
        let pre = ev.drop_last();
        lemma_latest_newest(pre, id);
        let prev = event_dates(pre, id);
        let last = ev.last();
        let n = ev.len() - 1;
        assert forall|d: Seq<char>| #[trigger] prev.contains(d) implies cur.contains(d) by {
            let j = choose|j: int| #[trigger] dated_event(pre, id, j) && pre[j].1 == d;
            assert(dated_event(ev, id, j) && ev[j].1 == d);
        }
        if last.0 == id && trim(last.1).len() > 0 {
            let old_best = latest_of(pre, id);
            match old_best {
                Some(e) => {
                    assert(prev.contains(e));
                    if e.len() == 0 {
                        assert(trim(e).len() == 0);
                    }
                },
                None => {},
            }
            assert(latest_step(old_best, last.1) == newer_step(old_best, last.1));
            lemma_newer_step_newest(old_best, prev, last.1);
            assert(dated_event(ev, id, n));
            assert forall|d: Seq<char>| #[trigger] cur.contains(d) implies prev.insert(last.1).contains(d) by {
                let j = choose|j: int| #[trigger] dated_event(ev, id, j) && ev[j].1 == d;
                if j < n {
                    assert(dated_event(pre, id, j) && pre[j].1 == d);
                }
            }
            assert(cur =~= prev.insert(last.1));
        } else {
            assert forall|d: Seq<char>| #[trigger] cur.contains(d) implies prev.contains(d) by {
                let j = choose|j: int| #[trigger] dated_event(ev, id, j) && ev[j].1 == d;
                assert(j < n);
                assert(dated_event(pre, id, j) && pre[j].1 == d);
            }
            assert(cur =~= prev);
        }
    }
}

/// An item of `cleanup_items` comes from a software row whose newest date parses
/// to a day before the cutoff, and shows that day.
spec fn from_old_row(
    sl: Seq<GlpiSoftware>,
    ev: Seq<(u64, Seq<char>)>,
    cutoff: int,
    n: int,
    c: CandidateView,
) -> bool {
    exists|r: int|
        0 <= r < n && r < sl.len() && #[trigger] sl[r].id == c.0 && c.1 == sl[r].name@ && c.2
            == cleanup_publisher(sl[r].manufacturers_id@) && match latest_of(ev, sl[r].id) {
            Some(t) => match parsed_date(t) {
                Some(d) => d.days < cutoff && c.3 == date_display(d),
                None => false,
            },
            None => false,
        }
}

proof fn lemma_items_from_old_rows(sl: Seq<GlpiSoftware>, ev: Seq<(u64, Seq<char>)>, cutoff: int, n: int)
    requires
        0 <= n <= sl.len(),
    ensures
        forall|t: int|
            0 <= t < cleanup_items(sl, ev, cutoff, n).len() ==> from_old_row(
                sl,
                ev,
                cutoff,
                n,
                #[trigger] cleanup_items(sl, ev, cutoff, n)[t],
            ),
    decreases n,
{
    if n > 0 {
        lemma_items_from_old_rows(sl, ev, cutoff, n - 1);
        let prev = cleanup_items(sl, ev, cutoff, n - 1);
        let cur = cleanup_items(sl, ev, cutoff, n);
        assert forall|t: int| 0 <= t < cur.len() implies from_old_row(sl, ev, cutoff, n, #[trigger] cur[t]) by {
            if t < prev.len() {
                assert(cur[t] == prev[t]);
                assert(from_old_row(sl, ev, cutoff, n - 1, prev[t]));
                let r = choose|r: int|
                    0 <= r < n - 1 && r < sl.len() && #[trigger] sl[r].id == prev[t].0 && prev[t].1 == sl[r].name@
                        && prev[t].2 == cleanup_publisher(sl[r].manufacturers_id@) && match latest_of(ev, sl[r].id) {
                        Some(x) => match parsed_date(x) {
                            Some(d) => d.days < cutoff && prev[t].3 == date_display(d),
                            None => false,
                        },
                        None => false,
                    };
                assert(sl[r].id == cur[t].0);
            } else {
                assert(sl[n - 1].id == cur[t].0);
            }
        }
    }
}

proof fn lemma_old_rows_listed(sl: Seq<GlpiSoftware>, ev: Seq<(u64, Seq<char>)>, cutoff: int, n: int, r: int)
    requires
        0 <= r < n <= sl.len(),
        latest_of(ev, sl[r].id) is Some,
        parsed_date(latest_of(ev, sl[r].id)->0) is Some,
        parsed_date(latest_of(ev, sl[r].id)->0)->0.days < cutoff,
    ensures
        exists|t: int|
            0 <= t < cleanup_items(sl, ev, cutoff, n).len() && #[trigger] cleanup_items(sl, ev, cutoff, n)[t].0
                == sl[r].id,
    decreases n,
{
    let prev = cleanup_items(sl, ev, cutoff, n - 1);
    let cur = cleanup_items(sl, ev, cutoff, n);
    if r < n - 1 {
        lemma_old_rows_listed(sl, ev, cutoff, n - 1, r);
        let t = choose|t: int| 0 <= t < prev.len() && #[trigger] prev[t].0 == sl[r].id;
        assert(cur[t] == prev[t]);
    } else {
        assert(cur[prev.len() as int].0 == sl[r].id);
    }
}

/// A cleanup candidate is a software row, shown with one of its own non-blank
/// dates, which falls before the cutoff (today minus the age limit); and when
/// all of its non-blank dates read as calendar dates, every one of them falls
/// before the cutoff: a newer date of the software always keeps it off the list.
pub proof fn lemma_cleanup_candidate_dates(
    sl: Seq<GlpiSoftware>,
    vs: Seq<GlpiSoftwareVersion>,
    is: Seq<GlpiItemSoftwareVersion>,
    older_than_days: int,
    today: int,
    items: Seq<SoftwareCleanupCandidate>,
    skipped: usize,
    a: int,
)
    requires
        cleanup_ok(sl, vs, is, older_than_days, today, items, skipped),
        0 <= a < items.len(),
    ensures
        ({
            let ev = all_events(sl, vs, is);
            let id = items[a].software_id;
            let cutoff = today - cleanup_days(older_than_days);
            &&& exists|r: int| 0 <= r < sl.len() && #[trigger] sl[r].id == id && items[a].name@ == sl[r].name@
            &&& exists|j: int|
                #[trigger] dated_event(ev, id, j) && parsed_date(ev[j].1) is Some && parsed_date(ev[j].1)->0.days
                    < cutoff && items[a].date_mod@ == date_display(parsed_date(ev[j].1)->0)
            &&& (forall|j: int| #[trigger] dated_event(ev, id, j) ==> parsed_date(ev[j].1) is Some) ==> forall|j: int|
                #[trigger] dated_event(ev, id, j) ==> parsed_date(ev[j].1)->0.days < cutoff
        }),
{
    let ev = all_events(sl, vs, is);
    let cutoff = today - cleanup_days(older_than_days);
    let want = cleanup_items(sl, ev, cutoff, sl.len() as int);
    let p = choose|p: Seq<int>|
        #[trigger] rearranged(candidate_views(items), want, p) && forall|x: int, y: int|
            0 <= x < y < items.len() ==> crate::cleanup::candidate_before(
                candidate_view(#[trigger] items[x]),
                candidate_view(#[trigger] items[y]),
            ) || (crate::cleanup::same_place(candidate_view(items[x]), candidate_view(items[y])) && p[x] < p[y]);
    let c = candidate_views(items)[a];
    assert(c == candidate_view(items[a]));
    assert(c == want[p[a]]);
    lemma_items_from_old_rows(sl, ev, cutoff, sl.len() as int);
    assert(from_old_row(sl, ev, cutoff, sl.len() as int, want[p[a]]));
    let id = items[a].software_id;
    let r = choose|r: int|
        0 <= r < sl.len() && r < sl.len() && #[trigger] sl[r].id == c.0 && c.1 == sl[r].name@ && c.2
            == cleanup_publisher(sl[r].manufacturers_id@) && match latest_of(ev, sl[r].id) {
            Some(t) => match parsed_date(t) {
                Some(d) => d.days < cutoff && c.3 == date_display(d),
                None => false,
            },
            None => false,
        };
    lemma_latest_newest(ev, id);
    let best = latest_of(ev, id)->0;
    let dates = event_dates(ev, id);
    assert(dates.contains(best));
    let j0 = choose|j: int| #[trigger] dated_event(ev, id, j) && ev[j].1 == best;
    assert(dated_event(ev, id, j0));
    if forall|j: int| #[trigger] dated_event(ev, id, j) ==> parsed_date(ev[j].1) is Some {
        assert forall|x: Seq<char>| #[trigger] dates.contains(x) implies parsed_date(x) is Some by {
            let j = choose|j: int| #[trigger] dated_event(ev, id, j) && ev[j].1 == x;
        }
        assert forall|j: int| #[trigger] dated_event(ev, id, j) implies parsed_date(ev[j].1)->0.days < cutoff by {
            assert(dates.contains(ev[j].1));
        }
    }
}

/// Every software row whose non-blank dates all read as calendar dates before the
/// cutoff (and that has at least one) is a cleanup candidate.
pub proof fn lemma_old_software_listed(
    sl: Seq<GlpiSoftware>,
    vs: Seq<GlpiSoftwareVersion>,
    is: Seq<GlpiItemSoftwareVersion>,
    older_than_days: int,
    today: int,
    items: Seq<SoftwareCleanupCandidate>,
    skipped: usize,
    r: int,
)
    requires
        cleanup_ok(sl, vs, is, older_than_days, today, items, skipped),
        0 <= r < sl.len(),
        exists|j: int| #[trigger] dated_event(all_events(sl, vs, is), sl[r].id, j),
        forall|j: int|
            #[trigger] dated_event(all_events(sl, vs, is), sl[r].id, j) ==> parsed_date(
                all_events(sl, vs, is)[j].1,
            ) is Some && parsed_date(all_events(sl, vs, is)[j].1)->0.days < today - cleanup_days(older_than_days),
    ensures
        exists|a: int| 0 <= a < items.len() && #[trigger] items[a].software_id == sl[r].id,
{
    let ev = all_events(sl, vs, is);
    let id = sl[r].id;
    let cutoff = today - cleanup_days(older_than_days);
    let want = cleanup_items(sl, ev, cutoff, sl.len() as int);
    let p = choose|p: Seq<int>|
        #[trigger] rearranged(candidate_views(items), want, p) && forall|x: int, y: int|
            0 <= x < y < items.len() ==> crate::cleanup::candidate_before(
                candidate_view(#[trigger] items[x]),
                candidate_view(#[trigger] items[y]),
            ) || (crate::cleanup::same_place(candidate_view(items[x]), candidate_view(items[y])) && p[x] < p[y]);
    lemma_latest_newest(ev, id);
    let dates = event_dates(ev, id);
    let j = choose|j: int| #[trigger] dated_event(ev, id, j);
    assert(dates.contains(ev[j].1));
    let best = latest_of(ev, id)->0;
    assert(dates.contains(best));
    let jb = choose|j: int| #[trigger] dated_event(ev, id, j) && ev[j].1 == best;
    lemma_old_rows_listed(sl, ev, cutoff, sl.len() as int, r);
    let t = choose|t: int| 0 <= t < want.len() && #[trigger] want[t].0 == id;
    lemma_rearranged_onto(candidate_views(items), want, p, t);
    let a = choose|a: int| 0 <= a < candidate_views(items).len() && candidate_views(items)[a] == want[t];
    assert(candidate_views(items)[a] == candidate_view(items[a]));
    assert(items[a].software_id == id);
}

} // verus!
