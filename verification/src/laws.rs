//! What holds of every run of the engine, proved from the contracts of its
//! functions.
use crate::error::Error;
use crate::fill::{pool, Strategy};
use crate::interval::disjoint;
use crate::model::{lemma_slot, StatusView};
use crate::pass::{
    pass_state, pass_valid, run_over, run_state, run_traced, stops_after, traced, PassView,
    ReportView,
};
use crate::roster::{headcount, settles, Snapshot};
use vstd::prelude::*;

verus! {

/// A decision that the engine has not touched is as it was supplied; one
/// that it has touched was open and is now an enrolment in a division that
/// the catalog holds for that subject. This holds between any two snapshots
/// of which the first leads to the second, and so between the start and the
/// end of every function of the engine.
pub proof fn status_only_settles(before: Snapshot, after: Snapshot, i: int, subject: Seq<char>)
    requires
        before.leads_to(after),
        0 <= i < before.roster.len(),
        before.roster[i].wf(),
    ensures
        after.roster[i].wf(),
        after.roster[i].tracks(subject) == before.roster[i].tracks(subject),
        after.roster[i].status(subject) == before.roster[i].status(subject) || {
            &&& before.roster[i].status(subject) == Some(StatusView::Undefined)
            &&& after.roster[i].status(subject) matches Some(StatusView::Enroll(d))
            &&& before.catalog.contains(subject, d)
            &&& after.catalog.contains(subject, d)
        },
{
    let x = before.roster[i];
    let y = after.roster[i];
    assert(settles(x, y, before.catalog));
    assert forall|a: int, b: int| 0 <= a < b < y.subjects.len() implies (#[trigger] y.subjects[a]).0
        != (#[trigger] y.subjects[b]).0 by {
        assert(x.subjects[a].0 != x.subjects[b].0);
    }
    if x.tracks(subject) {
        let k = x.slot(subject);
        assert(y.subjects[k].0 == subject);
        lemma_slot(x, k);
        lemma_slot(y, k);
        if let StatusView::Enroll(d) = y.subjects[k].1 {
            if before.catalog.contains(subject, d) {
                let m = before.catalog.position(subject, d);
                assert(after.catalog.divisions[m].is(subject, d));
            }
        }
    }
    if y.tracks(subject) {
        let k = y.slot(subject);
        assert(x.subjects[k].0 == subject);
    }
}

/// In a consistent snapshot the divisions of a student's enrolments in two
/// different subjects share no minute of the week.
pub proof fn enrolments_never_overlap(
    s: Snapshot,
    i: int,
    first: Seq<char>,
    a: Seq<char>,
    second: Seq<char>,
    b: Seq<char>,
)
    requires
        s.consistent(),
        0 <= i < s.roster.len(),
        first != second,
        s.roster[i].enrolled_in(first, a),
        s.roster[i].enrolled_in(second, b),
    ensures
        s.catalog.contains(first, a),
        s.catalog.contains(second, b),
        disjoint(s.catalog.get(first, a).hour, s.catalog.get(second, b).hour),
{
    let x = s.roster[i];
    let m = x.slot(first);
    let n = x.slot(second);
    assert(x.subjects[m].0 == first);
    assert(x.subjects[n].0 == second);
    assert(disjoint(x.booked(m, s.catalog), x.booked(n, s.catalog)));
}

/// In a consistent snapshot no division holds more students than its
/// quota, and every division counts exactly the students whose decision
/// names it.
pub proof fn counts_match_enrolments(s: Snapshot, subject: Seq<char>, division: Seq<char>)
    requires
        s.consistent(),
        s.catalog.contains(subject, division),
    ensures
        0 <= s.catalog.get(subject, division).assigned <= s.catalog.get(subject, division).quota,
        s.catalog.get(subject, division).assigned == headcount(s.roster, subject, division),
{
    let k = s.catalog.position(subject, division);
    assert(s.catalog.divisions[k].is(subject, division));
    assert(s.catalog.divisions[k].wf());
}

/// A pass that finds no eligible student for any of its divisions enrols
/// nobody: every draw is empty, and the snapshot after the pass is the
/// snapshot before it.
pub proof fn idle_pass_changes_nothing(s: Snapshot, p: PassView, chosen: Seq<Seq<usize>>)
    requires
        s.consistent(),
        pass_valid(s, p, chosen),
        forall|j: int|
            0 <= j < p.divisions.len() && s.catalog.contains(p.subject, p.divisions[j])
                ==> #[trigger] pool(s, p.subject, p.divisions[j], p.filter).len() == 0,
    ensures
        pass_state(s, p, chosen) == s,
        forall|j: int| 0 <= j < chosen.len() ==> (#[trigger] chosen[j]).len() == 0,
    decreases chosen.len(),
{
    if chosen.len() > 0 {
        let rest = chosen.drop_last();
        let j = chosen.len() - 1;
        idle_pass_changes_nothing(s, p, rest);
        let d = p.divisions[j];
        assert(pool(s, p.subject, d, p.filter).len() == 0);
        let k = s.catalog.position(p.subject, d);
        assert(s.catalog.divisions[k].is(p.subject, d));
        assert(s.catalog.divisions[k].wf());
        assert(chosen.last().len() == 0);
        assert forall|m: int| 0 <= m < chosen.len() implies (#[trigger] chosen[m]).len() == 0 by {
            if m < j {
                assert(rest[m] == chosen[m]);
            }
        }
    }
}

/// The first divisions of a valid run of draws are a valid run of draws.
pub proof fn lemma_prefix_valid(s: Snapshot, p: PassView, chosen: Seq<Seq<usize>>, n: int)
    requires
        pass_valid(s, p, chosen),
        0 <= n <= chosen.len(),
    ensures
        pass_valid(s, p, chosen.take(n)),
        n < chosen.len() ==> !stops_after(s, p, chosen.take(n)),
        n < chosen.len() ==> pass_state(s, p, chosen.take(n)).catalog.contains(
            p.subject,
            p.divisions[n],
        ),
    decreases chosen.len(),
{
    if n == chosen.len() {
        assert(chosen.take(n) =~= chosen);
    } else {
        assert(chosen.drop_last().take(n) =~= chosen.take(n));
        if n == chosen.len() - 1 {
            assert(chosen.take(n) =~= chosen.drop_last());
        } else {
            lemma_prefix_valid(s, p, chosen.drop_last(), n);
        }
    }
}

/// Under the ordered strategy two valid runs of draws from one snapshot
/// agree on every division that both reach.
pub proof fn lemma_ordered_prefix(
    s: Snapshot,
    p: PassView,
    first: Seq<Seq<usize>>,
    second: Seq<Seq<usize>>,
    n: int,
)
    requires
        p.strategy == Strategy::Ordered,
        pass_valid(s, p, first),
        pass_valid(s, p, second),
        0 <= n <= first.len(),
        n <= second.len(),
    ensures
        first.take(n) == second.take(n),
    decreases n,
{
    if n == 0 {
        assert(first.take(0) =~= second.take(0));
    } else {
        lemma_ordered_prefix(s, p, first, second, n - 1);
        lemma_prefix_valid(s, p, first, n);
        lemma_prefix_valid(s, p, second, n);
        let a = first.take(n);
        let b = second.take(n);
        assert(a.drop_last() =~= first.take(n - 1));
        assert(b.drop_last() =~= second.take(n - 1));
        assert(a.last() == b.last());
        assert(a =~= b);
    }
}

/// With the deterministic strategy a pass is a function of its inputs: two
/// runs of the same pass from the same snapshot make the same draws, end
/// for the same reason and leave the same snapshot.
pub proof fn ordered_pass_is_deterministic(
    s: Snapshot,
    p: PassView,
    first: Seq<Seq<usize>>,
    first_halted: Option<Error>,
    second: Seq<Seq<usize>>,
    second_halted: Option<Error>,
)
    requires
        p.strategy == Strategy::Ordered,
        traced(s, p, first, first_halted),
        traced(s, p, second, second_halted),
    ensures
        first == second,
        first_halted == second_halted,
        pass_state(s, p, first) == pass_state(s, p, second),
{
    if first.len() < second.len() {
        lemma_ordered_prefix(s, p, first, second, first.len() as int);
        assert(first.take(first.len() as int) =~= first);
        lemma_prefix_valid(s, p, second, first.len() as int);
        assert(false);
    } else if second.len() < first.len() {
        lemma_ordered_prefix(s, p, first, second, second.len() as int);
        assert(second.take(second.len() as int) =~= second);
        lemma_prefix_valid(s, p, first, second.len() as int);
        assert(false);
    } else {
        lemma_ordered_prefix(s, p, first, second, first.len() as int);
        assert(first.take(first.len() as int) =~= first);
        assert(second.take(second.len() as int) =~= second);
    }
}

/// The reports of the first passes of a run are the reports of a run.
pub proof fn lemma_run_prefix(
    s: Snapshot,
    passes: Seq<PassView>,
    reports: Seq<ReportView>,
    n: int,
)
    requires
        run_traced(s, passes, reports),
        0 <= n <= reports.len(),
    ensures
        run_traced(s, passes, reports.take(n)),
        0 < n < reports.len() ==> reports[n - 1].halted is None,
    decreases reports.len(),
{
    if n == reports.len() {
        assert(reports.take(n) =~= reports);
    } else {
        assert(reports.drop_last().take(n) =~= reports.take(n));
        if n == reports.len() - 1 {
            assert(reports.take(n) =~= reports.drop_last());
        } else {
            lemma_run_prefix(s, passes, reports.drop_last(), n);
        }
    }
}

/// Two runs of ordered passes from one snapshot agree on every pass that
/// both reach.
pub proof fn lemma_ordered_run_prefix(
    s: Snapshot,
    passes: Seq<PassView>,
    first: Seq<ReportView>,
    second: Seq<ReportView>,
    n: int,
)
    requires
        forall|k: int| 0 <= k < passes.len() ==> (#[trigger] passes[k]).strategy == Strategy::Ordered,
        run_traced(s, passes, first),
        run_traced(s, passes, second),
        0 <= n <= first.len(),
        n <= second.len(),
    ensures
        first.take(n) == second.take(n),
    decreases n,
{
    if n == 0 {
        assert(first.take(0) =~= second.take(0));
    } else {
        lemma_ordered_run_prefix(s, passes, first, second, n - 1);
        lemma_run_prefix(s, passes, first, n);
        lemma_run_prefix(s, passes, second, n);
        let a = first.take(n);
        let b = second.take(n);
        assert(a.drop_last() =~= first.take(n - 1));
        assert(b.drop_last() =~= second.take(n - 1));
        let t = run_state(s, passes, a.drop_last());
        assert(passes[n - 1].strategy == Strategy::Ordered);
        ordered_pass_is_deterministic(
            t,
            passes[n - 1],
            a.last().chosen,
            a.last().halted,
            b.last().chosen,
            b.last().halted,
        );
        assert(a.last() == b.last());
        assert(a =~= b);
    }
}

/// With the deterministic strategy in every pass a whole run is a function
/// of its inputs: two runs of the same passes from the same snapshot give
/// the same reports and leave the same snapshot.
pub proof fn ordered_run_is_deterministic(
    s: Snapshot,
    passes: Seq<PassView>,
    first: Seq<ReportView>,
    second: Seq<ReportView>,
)
    requires
        forall|k: int| 0 <= k < passes.len() ==> (#[trigger] passes[k]).strategy == Strategy::Ordered,
        run_traced(s, passes, first),
        run_over(passes, first),
        run_traced(s, passes, second),
        run_over(passes, second),
    ensures
        first == second,
        run_state(s, passes, first) == run_state(s, passes, second),
{
    if first.len() < second.len() {
        lemma_ordered_run_prefix(s, passes, first, second, first.len() as int);
        assert(first.take(first.len() as int) =~= first);
        lemma_run_prefix(s, passes, second, first.len() as int);
        assert(second.take(first.len() as int).last() == second[first.len() - 1]);
        assert(false);
    } else if second.len() < first.len() {
        lemma_ordered_run_prefix(s, passes, first, second, second.len() as int);
        assert(second.take(second.len() as int) =~= second);
        lemma_run_prefix(s, passes, first, second.len() as int);
        assert(first.take(second.len() as int).last() == first[second.len() - 1]);
        assert(false);
    } else {
        lemma_ordered_run_prefix(s, passes, first, second, first.len() as int);
        assert(first.take(first.len() as int) =~= first);
        assert(second.take(second.len() as int) =~= second);
    }
}

} // verus!
