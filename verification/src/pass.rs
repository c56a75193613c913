//! Allocation passes: one ordered sweep over the divisions of a subject,
//! each division filled from the students that are eligible when its turn
//! comes.
use crate::error::Error;
use crate::fill::{enroll_each, fill_division, filled, pool, Rule, RuleView, Shortfall, Strategy};
use crate::roster::{lemma_leads_to_chains, lemma_leads_to_self, snapshot, Snapshot};
use crate::student::Student;
use crate::subject::Catalog;
use rand::rngs::StdRng;
use vstd::prelude::*;

verus! {

/// The configuration of one pass.
#[derive(Debug, PartialEq, Eq)]
pub struct Pass {
    /// The subject whose divisions are filled.
    pub subject: String,
    /// The divisions, in the order in which they are filled.
    pub divisions: Vec<String>,
    /// The conditions that a student has to meet, beyond an open decision
    /// and a free schedule.
    pub filter: Vec<Rule>,
    /// How the students of a division are drawn from the eligible.
    pub strategy: Strategy,
    /// What happens when fewer students are eligible than a division has
    /// free seats.
    pub shortfall: Shortfall,
}

/// The view of a [`Pass`].
pub struct PassView {
    pub subject: Seq<char>,
    pub divisions: Seq<Seq<char>>,
    pub filter: Seq<RuleView>,
    pub strategy: Strategy,
    pub shortfall: Shortfall,
}

impl View for Pass {
    type V = PassView;

    open spec fn view(&self) -> PassView {
        PassView {
            subject: self.subject@,
            divisions: Seq::new(self.divisions@.len(), |i: int| self.divisions@[i]@),
            filter: self.filter.deep_view(),
            strategy: self.strategy,
            shortfall: self.shortfall,
        }
    }
}

/// What a pass did.
#[derive(Debug, PartialEq, Eq)]
pub struct Report {
    /// For each division that the pass reached, in the order of the pass,
    /// the places of the students that were enrolled in it.
    pub chosen: Vec<Vec<usize>>,
    /// Why the pass ended before its last division: `NotFound` at a
    /// division that the catalog does not hold, `Exhausted` after a
    /// division that was left short under `Shortfall::Halt`. `None` where
    /// the pass reached the end of its list.
    pub halted: Option<Error>,
}

/// The view of a [`Report`].
pub struct ReportView {
    pub chosen: Seq<Seq<usize>>,
    pub halted: Option<Error>,
}

impl Report {
    /// The draws of the report, one list of places for each division.
    pub open spec fn draws(&self) -> Seq<Seq<usize>> {
        Seq::new(self.chosen@.len(), |i: int| self.chosen@[i]@)
    }
}

impl View for Report {
    type V = ReportView;

    open spec fn view(&self) -> ReportView {
        ReportView { chosen: self.draws(), halted: self.halted }
    }
}

/// The views of a list of passes.
pub open spec fn pass_views(passes: &Vec<Pass>) -> Seq<PassView> {
    Seq::new(passes@.len(), |i: int| passes@[i]@)
}

/// The views of a list of reports.
pub open spec fn report_views(reports: &Vec<Report>) -> Seq<ReportView> {
    Seq::new(reports@.len(), |i: int| reports@[i]@)
}

/// The snapshot after the first divisions of the pass were filled by the
/// draws `chosen`, one draw for each division.
pub open spec fn pass_state(s: Snapshot, p: PassView, chosen: Seq<Seq<usize>>) -> Snapshot
    decreases chosen.len(),
{
    if chosen.len() == 0 {
        s
    } else {
        enroll_each(
            pass_state(s, p, chosen.drop_last()),
            p.subject,
            p.divisions[chosen.len() - 1],
            chosen.last(),
        ).0
    }
}

/// Whether the `j`-th division of the pass, met in snapshot `t`, has more
/// free seats than there are eligible students.
pub open spec fn short(t: Snapshot, p: PassView, j: int) -> bool {
    pool(t, p.subject, p.divisions[j], p.filter).len() < t.catalog.get(
        p.subject,
        p.divisions[j],
    ).room()
}

/// Whether the pass stops after the divisions that `chosen` covers: the
/// last of them was left short, and the pass halts on a shortfall.
pub open spec fn stops_after(s: Snapshot, p: PassView, chosen: Seq<Seq<usize>>) -> bool {
    &&& chosen.len() > 0
    &&& p.shortfall == Shortfall::Halt
    &&& short(pass_state(s, p, chosen.drop_last()), p, chosen.len() - 1)
}

/// Whether `chosen` holds, for the first divisions of the pass, a draw for
/// each of them: every division was found in the catalog and filled from
/// the students eligible at its turn, and no division before the last
/// stopped the pass.
pub open spec fn pass_valid(s: Snapshot, p: PassView, chosen: Seq<Seq<usize>>) -> bool
    decreases chosen.len(),
{
    chosen.len() == 0 || {
        &&& chosen.len() <= p.divisions.len()
        &&& pass_valid(s, p, chosen.drop_last())
        &&& !stops_after(s, p, chosen.drop_last())
        &&& filled(
            pass_state(s, p, chosen.drop_last()),
            pass_state(s, p, chosen),
            p.subject,
            p.divisions[chosen.len() - 1],
            p.filter,
            p.strategy,
            chosen.last(),
        )
    }
}

/// Why the pass ended after the divisions that `chosen` covers.
pub open spec fn pass_end(s: Snapshot, p: PassView, chosen: Seq<Seq<usize>>) -> Option<Error> {
    if stops_after(s, p, chosen) {
        Some(Error::Exhausted)
    } else if chosen.len() < p.divisions.len() {
        Some(Error::NotFound)
    } else {
        None
    }
}

/// Whether a pass from snapshot `s` can have made the draws `chosen` and
/// ended with `halted`.
pub open spec fn traced(
    s: Snapshot,
    p: PassView,
    chosen: Seq<Seq<usize>>,
    halted: Option<Error>,
) -> bool {
    &&& pass_valid(s, p, chosen)
    &&& halted == pass_end(s, p, chosen)
    &&& halted == Some(Error::NotFound) ==> !pass_state(s, p, chosen).catalog.contains(
        p.subject,
        p.divisions[chosen.len() as int],
    )
}

/// Runs one pass: fills the divisions of `pass` in their order, each from
/// the students that are eligible at its turn, and reports the draws. The
/// pass ends early at a division that the catalog does not hold, and, under
/// `Shortfall::Halt`, after a division for which fewer students were
/// eligible than it had free seats; what was enrolled before stays.
pub fn run_pass(
    roster: &mut Vec<Student>,
    catalog: &mut Catalog,
    pass: &Pass,
    rng: &mut StdRng,
) -> (report: Report)
    requires
        snapshot(old(roster), old(catalog)).consistent(),
    ensures
        snapshot(final(roster), final(catalog)).consistent(),
        snapshot(old(roster), old(catalog)).leads_to(snapshot(final(roster), final(catalog))),
        traced(snapshot(old(roster), old(catalog)), pass@, report.draws(), report.halted),
        snapshot(final(roster), final(catalog)) == pass_state(
            snapshot(old(roster), old(catalog)),
            pass@,
            report.draws(),
        ),
{
    let ghost start = snapshot(roster, catalog);
    let mut report = Report { chosen: Vec::new(), halted: None };
    proof {
        lemma_leads_to_self(start);
    }
    let mut j: usize = 0;
    while j < pass.divisions.len()
        invariant
            j == report.chosen@.len(),
            j <= pass.divisions@.len(),
            start == snapshot(old(roster), old(catalog)),
            start.consistent(),
            snapshot(roster, catalog).consistent(),
            start.leads_to(snapshot(roster, catalog)),
            pass_valid(start, pass@, report.draws()),
            !stops_after(start, pass@, report.draws()),
            snapshot(roster, catalog) == pass_state(start, pass@, report.draws()),
            report.halted is None,
        decreases pass.divisions.len() - j,
    {
        let ghost before = snapshot(roster, catalog);
        let ghost earlier = report.draws();
        assert(pass@.divisions[j as int] == pass.divisions@[j as int]@);
        let division_id = pass.divisions[j].as_str();
        let room = match catalog.remaining_capacity(pass.subject.as_str(), division_id) {
            Ok(room) => room,
            Err(e) => {
                report.halted = Some(e);
                return report;
            },
        };
        let filling = fill_division(
            roster,
            catalog,
            pass.subject.as_str(),
            division_id,
            &pass.filter,
            pass.strategy,
            rng,
        );
        match filling {
            Ok(list) => {
                let short = list.len() < room;
                report.chosen.push(list);
                proof {
                    let after = snapshot(roster, catalog);
                    let now = report.draws();
                    assert(now.drop_last() =~= earlier);
                    assert(now.last() == list@);
                    lemma_leads_to_chains(start, before, after);
                }
                if short {
                    match pass.shortfall {
                        Shortfall::Halt => {
                            report.halted = Some(Error::Exhausted);
                            return report;
                        },
                        Shortfall::Tolerate => {},
                    }
                }
            },
            Err(e) => {
                report.halted = Some(e);
                return report;
            },
        }
        j += 1;
    }
    report
}

/// The snapshot after the first passes of `passes` ran, each with the draws
/// of its report.
pub open spec fn run_state(s: Snapshot, passes: Seq<PassView>, reports: Seq<ReportView>) -> Snapshot
    decreases reports.len(),
{
    if reports.len() == 0 {
        s
    } else {
        pass_state(
            run_state(s, passes, reports.drop_last()),
            passes[reports.len() - 1],
            reports.last().chosen,
        )
    }
}

/// Whether a run of `passes` from snapshot `s` can have given `reports`:
/// one report for each pass that ran, each pass run from the snapshot that
/// the passes before it left, and no pass run after one that ended early.
pub open spec fn run_traced(s: Snapshot, passes: Seq<PassView>, reports: Seq<ReportView>) -> bool
    decreases reports.len(),
{
    reports.len() == 0 || {
        &&& reports.len() <= passes.len()
        &&& run_traced(s, passes, reports.drop_last())
        &&& reports.len() >= 2 ==> reports[reports.len() - 2].halted is None
        &&& traced(
            run_state(s, passes, reports.drop_last()),
            passes[reports.len() - 1],
            reports.last().chosen,
            reports.last().halted,
        )
    }
}

/// Whether a run with these reports is over: every pass ran, or the last
/// pass that ran ended early.
pub open spec fn run_over(passes: Seq<PassView>, reports: Seq<ReportView>) -> bool {
    reports.len() == passes.len() || (reports.len() > 0 && reports.last().halted is Some)
}

/// Runs the passes in their order, each from what the passes before it
/// left, and returns one report for each pass that ran. A pass that ends
/// early ends the run: no pass after it runs, and what was enrolled stays.
pub fn run_passes(
    roster: &mut Vec<Student>,
    catalog: &mut Catalog,
    passes: &Vec<Pass>,
    rng: &mut StdRng,
) -> (reports: Vec<Report>)
    requires
        snapshot(old(roster), old(catalog)).consistent(),
    ensures
        snapshot(final(roster), final(catalog)).consistent(),
        snapshot(old(roster), old(catalog)).leads_to(snapshot(final(roster), final(catalog))),
        run_traced(
            snapshot(old(roster), old(catalog)),
            pass_views(passes),
            report_views(&reports),
        ),
        run_over(pass_views(passes), report_views(&reports)),
        snapshot(final(roster), final(catalog)) == run_state(
            snapshot(old(roster), old(catalog)),
            pass_views(passes),
            report_views(&reports),
        ),
{
    let ghost start = snapshot(roster, catalog);
    let mut reports: Vec<Report> = Vec::new();
    proof {
        lemma_leads_to_self(start);
    }
    let mut k: usize = 0;
    while k < passes.len()
        invariant
            k == reports@.len(),
            k <= passes@.len(),
            start == snapshot(old(roster), old(catalog)),
            start.consistent(),
            snapshot(roster, catalog).consistent(),
            start.leads_to(snapshot(roster, catalog)),
            run_traced(start, pass_views(passes), report_views(&reports)),
            k > 0 ==> reports@[k - 1].halted is None,
            snapshot(roster, catalog) == run_state(
                start,
                pass_views(passes),
                report_views(&reports),
            ),
        decreases passes.len() - k,
    {
        let ghost before = snapshot(roster, catalog);
        let ghost earlier = report_views(&reports);
        assert(pass_views(passes)[k as int] == passes@[k as int]@);
        let report = run_pass(roster, catalog, &passes[k], rng);
        let halted = report.halted.is_some();
        let ghost view = report@;
        reports.push(report);
        proof {
            let now = report_views(&reports);
            assert(now.drop_last() =~= earlier);
            assert(now.last() == view);
            if k > 0 {
                assert(now[k - 1] == earlier[k - 1]);
            }
            lemma_leads_to_chains(start, before, snapshot(roster, catalog));
        }
        if halted {
            return reports;
        }
        k += 1;
    }
    reports
}

} // verus!
