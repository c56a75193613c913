//! Filling one division: screening the roster for eligible students,
//! drawing as many of them as the division has free seats, and enrolling
//! the drawn.
use crate::error::Error;
use crate::engine::{lemma_same_schedule, lemma_student_same_schedule};
use crate::model::{CatalogView, DivisionView, StatusView, StudentView};
use crate::roster::{enroll, lemma_enroll_consistent, lemma_leads_to_chains, lemma_leads_to_self, snapshot, Snapshot};
use crate::sampling::{distinct_below, pick, picked, sample};
use crate::student::{Status, Student};
use crate::subject::Catalog;
use rand::rngs::StdRng;
use vstd::prelude::*;

verus! {

/// One condition on a student, beyond an open decision and a free schedule.
#[derive(Debug, PartialEq, Eq)]
pub enum Rule {
    /// The student is enrolled in some division of the subject.
    Enrolled(String),
    /// The student declined the subject.
    Declined(String),
    /// The student did not decline the subject.
    NotDeclined(String),
    /// The student takes this division of the subject.
    Taking(String, String),
    /// The student does not take this division of the subject.
    NotTaking(String, String),
}

/// The view of a [`Rule`].
pub enum RuleView {
    Enrolled(Seq<char>),
    Declined(Seq<char>),
    NotDeclined(Seq<char>),
    Taking(Seq<char>, Seq<char>),
    NotTaking(Seq<char>, Seq<char>),
}

impl RuleView {
    /// Whether the student meets the condition.
    pub open spec fn holds(self, student: StudentView) -> bool {
        match self {
            RuleView::Enrolled(s) => student.status(s) matches Some(StatusView::Enroll(_)),
            RuleView::Declined(s) => student.status(s) == Some(StatusView::No),
            RuleView::NotDeclined(s) => student.status(s) != Some(StatusView::No),
            RuleView::Taking(s, d) => student.is_taking(s, d),
            RuleView::NotTaking(s, d) => !student.is_taking(s, d),
        }
    }
}

impl View for Rule {
    type V = RuleView;

    open spec fn view(&self) -> RuleView {
        match self {
            Rule::Enrolled(s) => RuleView::Enrolled(s@),
            Rule::Declined(s) => RuleView::Declined(s@),
            Rule::NotDeclined(s) => RuleView::NotDeclined(s@),
            Rule::Taking(s, d) => RuleView::Taking(s@, d@),
            Rule::NotTaking(s, d) => RuleView::NotTaking(s@, d@),
        }
    }
}

impl DeepView for Rule {
    type V = RuleView;

    open spec fn deep_view(&self) -> RuleView {
        self@
    }
}

impl Rule {
    /// Whether the student meets the condition.
    pub fn holds(&self, student: &Student) -> (r: bool)
        requires
            student@.wf(),
        ensures
            r == self@.holds(student@),
    {
        match self {
            Rule::Enrolled(s) => match student.status(s.as_str()) {
                Some(Status::Enroll(_)) => true,
                _ => false,
            },
            Rule::Declined(s) => match student.status(s.as_str()) {
                Some(Status::No) => true,
                _ => false,
            },
            Rule::NotDeclined(s) => match student.status(s.as_str()) {
                Some(Status::No) => false,
                _ => true,
            },
            Rule::Taking(s, d) => student.find(s.as_str()).is_some() && student.is_taking(
                s.as_str(),
                d.as_str(),
            ),
            Rule::NotTaking(s, d) => student.find(s.as_str()).is_none() || !student.is_taking(
                s.as_str(),
                d.as_str(),
            ),
        }
    }
}

/// How the students of a division are drawn from the eligible.
#[derive(Debug, Clone, Copy, PartialEq, Eq, Structural)]
pub enum Strategy {
    /// The first eligible students, in the order of the roster.
    Ordered,
    /// A uniform sample without replacement.
    Sampled,
}

/// What a pass does when a division has more free seats than there are
/// eligible students.
#[derive(Debug, Clone, Copy, PartialEq, Eq, Structural)]
pub enum Shortfall {
    /// Enrol the eligible and go on with the next division.
    Tolerate,
    /// Enrol the eligible and stop the pass with `Exhausted`.
    Halt,
}

/// Whether the student meets every condition of `filter`.
pub open spec fn admits(filter: Seq<RuleView>, student: StudentView) -> bool {
    forall|k: int| 0 <= k < filter.len() ==> (#[trigger] filter[k]).holds(student)
}

/// Whether the student may be drawn for division `division` of `subject`:
/// the decision for the subject is open, the student meets every condition
/// of `filter`, and the division is disjoint from the student's enrolments.
pub open spec fn eligible(
    student: StudentView,
    subject: Seq<char>,
    division: Seq<char>,
    filter: Seq<RuleView>,
    catalog: CatalogView,
) -> bool {
    &&& student.status(subject) == Some(StatusView::Undefined)
    &&& admits(filter, student)
    &&& student.can_take(catalog.get(subject, division).hour, catalog)
}

/// The places of the eligible among the first `n` students, in rising
/// order.
pub open spec fn pool_upto(
    s: Snapshot,
    subject: Seq<char>,
    division: Seq<char>,
    filter: Seq<RuleView>,
    n: int,
) -> Seq<usize>
    decreases n,
{
    if n <= 0 {
        Seq::empty()
    } else if eligible(s.roster[n - 1], subject, division, filter, s.catalog) {
        pool_upto(s, subject, division, filter, n - 1).push((n - 1) as usize)
    } else {
        pool_upto(s, subject, division, filter, n - 1)
    }
}

/// The places of the eligible students of the roster, in rising order.
pub open spec fn pool(
    s: Snapshot,
    subject: Seq<char>,
    division: Seq<char>,
    filter: Seq<RuleView>,
) -> Seq<usize> {
    pool_upto(s, subject, division, filter, s.roster.len() as int)
}

/// How many students are drawn for a division with `room` free seats from
/// `eligible` students: as many as there are seats, or all.
pub open spec fn draw_size(room: int, eligible: int) -> int {
    if room <= eligible {
        room
    } else {
        eligible
    }
}

/// Whether `chosen` is a draw from `pool` for a division with `room` free
/// seats: under `Ordered` the first students of the pool, under `Sampled`
/// any students of the pool, none of them twice; in both as many as
/// `draw_size` gives.
pub open spec fn drawn(pool: Seq<usize>, room: int, strategy: Strategy, chosen: Seq<usize>) -> bool {
    match strategy {
        Strategy::Ordered => chosen == pool.take(draw_size(room, pool.len() as int)),
        Strategy::Sampled => {
            &&& chosen.len() == draw_size(room, pool.len() as int)
            &&& chosen.no_duplicates()
            &&& forall|j: int| 0 <= j < chosen.len() ==> pool.contains(#[trigger] chosen[j])
        },
    }
}

/// The snapshot after the students at `chosen` were assigned, one after the
/// other, to division `division` of `subject`, up to the first assignment
/// that was refused, and the reason for which it was.
pub open spec fn enroll_each(
    s: Snapshot,
    subject: Seq<char>,
    division: Seq<char>,
    chosen: Seq<usize>,
) -> (Snapshot, Option<Error>)
    decreases chosen.len(),
{
    if chosen.len() == 0 {
        (s, None)
    } else {
        let (t, e) = enroll_each(s, subject, division, chosen.drop_last());
        if e is Some {
            (t, e)
        } else {
            t.assign(chosen.last() as int, subject, division)
        }
    }
}

/// Whether the student meets every condition of `filter`.
pub fn check_filter(filter: &Vec<Rule>, student: &Student) -> (r: bool)
    requires
        student@.wf(),
    ensures
        r == admits(filter.deep_view(), student@),
{
    let mut k: usize = 0;
    while k < filter.len()
        invariant
            k <= filter@.len(),
            student@.wf(),
            forall|j: int| 0 <= j < k ==> (#[trigger] filter.deep_view()[j]).holds(student@),
        decreases filter.len() - k,
    {
        assert(filter.deep_view()[k as int] == filter@[k as int]@);
        if !filter[k].holds(student) {
            return false;
        }
        k += 1;
    }
    true
}

/// The places of the students that may be drawn for division `division_id`
/// of `subject_id`, in rising order; `NotFound` where the catalog does not
/// hold the division.
pub fn eligible_students(
    roster: &Vec<Student>,
    catalog: &Catalog,
    subject_id: &str,
    division_id: &str,
    filter: &Vec<Rule>,
) -> (r: Result<Vec<usize>, Error>)
    requires
        snapshot(roster, catalog).consistent(),
    ensures
        match r {
            Ok(list) => catalog@.contains(subject_id@, division_id@) && list@ == pool(
                snapshot(roster, catalog),
                subject_id@,
                division_id@,
                filter.deep_view(),
            ),
            Err(e) => !catalog@.contains(subject_id@, division_id@) && e == Error::NotFound,
        },
{
    let candidate = match catalog.get(subject_id, division_id) {
        Ok(d) => d,
        Err(e) => {
            return Err(e);
        },
    };
    let ghost s = snapshot(roster, catalog);
    let mut list: Vec<usize> = Vec::new();
    let mut i: usize = 0;
    while i < roster.len()
        invariant
            i <= roster@.len(),
            s == snapshot(roster, catalog),
            s.consistent(),
            candidate@ == catalog@.get(subject_id@, division_id@),
            list@ == pool_upto(s, subject_id@, division_id@, filter.deep_view(), i as int),
        decreases roster.len() - i,
    {
        let student = &roster[i];
        assert(s.roster[i as int] == student@);
        let open = match student.status(subject_id) {
            Some(Status::Undefined) => true,
            _ => false,
        };
        if open && check_filter(filter, student) {
            if let Ok(true) = student.can_take(candidate, catalog) {
                list.push(i);
            }
        }
        i += 1;
    }
    Ok(list)
}

/// Assigns the students at `chosen`, one after the other, to division
/// `division_id` of subject `subject_id`. The first assignment that is
/// refused ends the run with its reason; the assignments made before it
/// stay.
pub fn enroll_chosen(
    roster: &mut Vec<Student>,
    catalog: &mut Catalog,
    subject_id: &str,
    division_id: &str,
    chosen: &Vec<usize>,
) -> (r: Result<(), Error>)
    requires
        snapshot(old(roster), old(catalog)).consistent(),
    ensures
        snapshot(final(roster), final(catalog)).consistent(),
        snapshot(old(roster), old(catalog)).leads_to(snapshot(final(roster), final(catalog))),
        (snapshot(final(roster), final(catalog)), r.err()) == enroll_each(
            snapshot(old(roster), old(catalog)),
            subject_id@,
            division_id@,
            chosen@,
        ),
{
    let ghost start = snapshot(roster, catalog);
    proof {
        lemma_leads_to_self(start);
    }
    let mut j: usize = 0;
    while j < chosen.len()
        invariant
            j <= chosen@.len(),
            start == snapshot(old(roster), old(catalog)),
            start.consistent(),
            snapshot(roster, catalog).consistent(),
            start.leads_to(snapshot(roster, catalog)),
            (snapshot(roster, catalog), None::<Error>) == enroll_each(
                start,
                subject_id@,
                division_id@,
                chosen@.take(j as int),
            ),
        decreases chosen.len() - j,
    {
        let ghost before = snapshot(roster, catalog);
        let r = enroll(roster, chosen[j], subject_id, division_id, catalog);
        proof {
            let after = snapshot(roster, catalog);
            assert(chosen@.take(j + 1).drop_last() =~= chosen@.take(j as int));
            lemma_leads_to_chains(start, before, after);
        }
        if let Err(e) = r {
            proof {
                lemma_enroll_each_stops(start, subject_id@, division_id@, chosen@, j + 1);
            }
            return Err(e);
        }
        j += 1;
    }
    proof {
        assert(chosen@.take(chosen@.len() as int) =~= chosen@);
    }
    Ok(())
}

/// Fills division `division_id` of subject `subject_id`: screens the roster
/// for the eligible, draws as many of them as the division has free seats,
/// or all where fewer are eligible, and enrols the drawn. Returns the
/// places of the drawn students in the order in which they were enrolled;
/// `NotFound`, with nothing changed, where the catalog does not hold the
/// division.
pub fn fill_division(
    roster: &mut Vec<Student>,
    catalog: &mut Catalog,
    subject_id: &str,
    division_id: &str,
    filter: &Vec<Rule>,
    strategy: Strategy,
    rng: &mut StdRng,
) -> (r: Result<Vec<usize>, Error>)
    requires
        snapshot(old(roster), old(catalog)).consistent(),
    ensures
        snapshot(final(roster), final(catalog)).consistent(),
        snapshot(old(roster), old(catalog)).leads_to(snapshot(final(roster), final(catalog))),
        match r {
            Ok(chosen) => filled(
                snapshot(old(roster), old(catalog)),
                snapshot(final(roster), final(catalog)),
                subject_id@,
                division_id@,
                filter.deep_view(),
                strategy,
                chosen@,
            ),
            Err(e) => {
                &&& e == Error::NotFound
                &&& !old(catalog)@.contains(subject_id@, division_id@)
                &&& snapshot(final(roster), final(catalog)) == snapshot(old(roster), old(catalog))
            },
        },
{
    let ghost start = snapshot(roster, catalog);
    let list = match eligible_students(roster, catalog, subject_id, division_id, filter) {
        Ok(list) => list,
        Err(e) => {
            proof {
                lemma_leads_to_self(start);
            }
            return Err(e);
        },
    };
    let room = match catalog.remaining_capacity(subject_id, division_id) {
        Ok(room) => room,
        Err(e) => {
            proof {
                lemma_leads_to_self(start);
            }
            return Err(e);
        },
    };
    let amount = if room <= list.len() {
        room
    } else {
        list.len()
    };
    let size = roster.len();
    proof {
        assert(start.roster.len() == size);
        lemma_pool(start, subject_id@, division_id@, filter.deep_view(), start.roster.len() as int);
    }
    let chosen = match strategy {
        Strategy::Ordered => {
            let mut first = list;
            first.truncate(amount);
            first
        },
        Strategy::Sampled => {
            let positions = sample(rng, list.len(), amount);
            let chosen = pick(&list, &positions);
            proof {
                lemma_picked(list@, positions@);
            }
            chosen
        },
    };
    proof {
        lemma_drawn(
            pool(start, subject_id@, division_id@, filter.deep_view()),
            room as int,
            strategy,
            chosen@,
        );
        lemma_fill(start, subject_id@, division_id@, filter.deep_view(), chosen@);
    }
    let done = enroll_chosen(roster, catalog, subject_id, division_id, &chosen);
    assert(done is Ok);
    Ok(chosen)
}

/// Whether `after` is `before` with division `division` of `subject`
/// filled by the draw `chosen`.
pub open spec fn filled(
    before: Snapshot,
    after: Snapshot,
    subject: Seq<char>,
    division: Seq<char>,
    filter: Seq<RuleView>,
    strategy: Strategy,
    chosen: Seq<usize>,
) -> bool {
    &&& before.catalog.contains(subject, division)
    &&& drawn(
        pool(before, subject, division, filter),
        before.catalog.get(subject, division).room(),
        strategy,
        chosen,
    )
    &&& enroll_each(before, subject, division, chosen) == (after, None::<Error>)
}

/// The pool lists exactly the eligible students, each once and in rising
/// order.
pub proof fn lemma_pool(
    s: Snapshot,
    subject: Seq<char>,
    division: Seq<char>,
    filter: Seq<RuleView>,
    n: int,
)
    requires
        0 <= n <= s.roster.len() <= usize::MAX,
    ensures
        pool_upto(s, subject, division, filter, n).len() <= n,
        forall|j: int|
            0 <= j < pool_upto(s, subject, division, filter, n).len() ==> {
                &&& (#[trigger] pool_upto(s, subject, division, filter, n)[j]) < n
                &&& eligible(
                    s.roster[pool_upto(s, subject, division, filter, n)[j] as int],
                    subject,
                    division,
                    filter,
                    s.catalog,
                )
            },
        forall|a: int, b: int|
            0 <= a < b < pool_upto(s, subject, division, filter, n).len() ==> pool_upto(
                s,
                subject,
                division,
                filter,
                n,
            )[a] < pool_upto(s, subject, division, filter, n)[b],
        forall|i: int|
            0 <= i < n && eligible(#[trigger] s.roster[i], subject, division, filter, s.catalog)
                ==> pool_upto(s, subject, division, filter, n).contains(i as usize),
    decreases n,
{
    if n > 0 {
        lemma_pool(s, subject, division, filter, n - 1);
        let before = pool_upto(s, subject, division, filter, n - 1);
        let now = pool_upto(s, subject, division, filter, n);
        assert forall|i: int|
            0 <= i < n && eligible(
                #[trigger] s.roster[i],
                subject,
                division,
                filter,
                s.catalog,
            ) implies now.contains(i as usize) by {
            if i < n - 1 {
                let j = choose|j: int| 0 <= j < before.len() && before[j] == i as usize;
                assert(now[j] == i as usize);
            } else {
                assert(now[now.len() - 1] == i as usize);
            }
        }
    }
}

/// Items picked at distinct places of a rising list are distinct items of
/// the list.
pub proof fn lemma_picked(pool: Seq<usize>, positions: Seq<usize>)
    requires
        distinct_below(positions, pool.len() as int),
        forall|a: int, b: int| 0 <= a < b < pool.len() ==> pool[a] < pool[b],
    ensures
        picked(pool, positions).no_duplicates(),
        forall|j: int|
            0 <= j < positions.len() ==> pool.contains(#[trigger] picked(pool, positions)[j]),
{
    let c = picked(pool, positions);
    assert forall|i: int, j: int| 0 <= i < c.len() && 0 <= j < c.len() && i != j implies c[i]
        != c[j] by {
        let a = positions[i] as int;
        let b = positions[j] as int;
        if i < j {
            assert(positions[i] != positions[j]);
        } else {
            assert(positions[j] != positions[i]);
        }
        if a < b {
            assert(pool[a] < pool[b]);
        } else {
            assert(pool[b] < pool[a]);
        }
    }
    assert forall|j: int| 0 <= j < positions.len() implies pool.contains(#[trigger] c[j]) by {
        assert(pool[positions[j] as int] == c[j]);
    }
}

/// Under either strategy a draw holds students of the pool, none of them
/// twice, and no more of them than the division has free seats.
pub proof fn lemma_drawn(pool: Seq<usize>, room: int, strategy: Strategy, chosen: Seq<usize>)
    requires
        0 <= room,
        forall|a: int, b: int| 0 <= a < b < pool.len() ==> pool[a] < pool[b],
        strategy == Strategy::Ordered ==> chosen == pool.take(draw_size(room, pool.len() as int)),
        strategy == Strategy::Sampled ==> {
            &&& chosen.len() == draw_size(room, pool.len() as int)
            &&& chosen.no_duplicates()
            &&& forall|j: int| 0 <= j < chosen.len() ==> pool.contains(#[trigger] chosen[j])
        },
    ensures
        drawn(pool, room, strategy, chosen),
        chosen.len() == draw_size(room, pool.len() as int),
        chosen.no_duplicates(),
        forall|j: int| 0 <= j < chosen.len() ==> pool.contains(#[trigger] chosen[j]),
{
    if strategy == Strategy::Ordered {
        assert forall|i: int, j: int| 0 <= i < chosen.len() && 0 <= j < chosen.len() && i
            != j implies chosen[i] != chosen[j] by {
            if i < j {
                assert(pool[i] < pool[j]);
            } else {
                assert(pool[j] < pool[i]);
            }
        }
        assert forall|j: int| 0 <= j < chosen.len() implies pool.contains(#[trigger] chosen[j]) by {
            assert(pool[j] == chosen[j]);
        }
    }
}

/// The same catalog with `n` more students assigned to the division at
/// place `k`.
pub open spec fn raised(catalog: CatalogView, k: int, n: int) -> CatalogView {
    CatalogView {
        divisions: catalog.divisions.update(
            k,
            DivisionView { assigned: catalog.divisions[k].assigned + n, ..catalog.divisions[k] },
        ),
    }
}

/// Enrolling distinct eligible students, no more of them than the division
/// has free seats, refuses none of them: each of them is enrolled, the
/// division counts them, and nothing else changes.
pub proof fn lemma_fill(
    s: Snapshot,
    subject: Seq<char>,
    division: Seq<char>,
    filter: Seq<RuleView>,
    chosen: Seq<usize>,
)
    requires
        s.consistent(),
        s.catalog.contains(subject, division),
        chosen.no_duplicates(),
        chosen.len() <= s.catalog.get(subject, division).room(),
        forall|j: int| 0 <= j < chosen.len() ==> pool(s, subject, division, filter).contains(#[trigger] chosen[j]),
        s.roster.len() <= usize::MAX,
    ensures
        enroll_each(s, subject, division, chosen).1 is None,
        enroll_each(s, subject, division, chosen).0.consistent(),
        s.leads_to(enroll_each(s, subject, division, chosen).0),
        enroll_each(s, subject, division, chosen).0.roster.len() == s.roster.len(),
        forall|i: int|
            0 <= i < s.roster.len() ==> #[trigger] enroll_each(
                s,
                subject,
                division,
                chosen,
            ).0.roster[i] == if chosen.contains(i as usize) {
                s.roster[i].enrolled(subject, division)
            } else {
                s.roster[i]
            },
        enroll_each(s, subject, division, chosen).0.catalog == raised(
            s.catalog,
            s.catalog.position(subject, division),
            chosen.len() as int,
        ),
    decreases chosen.len(),
{
    let k = s.catalog.position(subject, division);
    assert(s.catalog.divisions[k].is(subject, division));
    if chosen.len() == 0 {
        lemma_leads_to_self(s);
        assert(raised(s.catalog, k, 0).divisions =~= s.catalog.divisions);
    } else {
        let rest = chosen.drop_last();
        let i = chosen.last() as int;
        assert forall|j: int| 0 <= j < rest.len() implies pool(
            s,
            subject,
            division,
            filter,
        ).contains(#[trigger] rest[j]) by {
            assert(rest[j] == chosen[j]);
        }
        assert(rest.no_duplicates()) by {
            assert forall|a: int, b: int| 0 <= a < rest.len() && 0 <= b < rest.len() && a
                != b implies rest[a] != rest[b] by {
                assert(chosen[a] != chosen[b]);
            }
        }
        lemma_fill(s, subject, division, filter, rest);
        let t = enroll_each(s, subject, division, rest).0;
        lemma_pool(s, subject, division, filter, s.roster.len() as int);
        assert(pool(s, subject, division, filter).contains(chosen[chosen.len() - 1]));
        assert(0 <= i < s.roster.len());
        assert(eligible(s.roster[i], subject, division, filter, s.catalog));
        assert(!rest.contains(i as usize)) by {
            if rest.contains(i as usize) {
                let a = choose|a: int| 0 <= a < rest.len() && rest[a] == i as usize;
                assert(chosen[a] == chosen[chosen.len() - 1]);
            }
        }
        assert(t.roster[i] == s.roster[i]);
        lemma_same_schedule(s.catalog, t.catalog, subject, division);
        lemma_student_same_schedule(s.roster[i], s.catalog, t.catalog);
        assert(t.catalog.get(subject, division) == t.catalog.divisions[k]);
        assert(t.fault(i, subject, division) is None);
        lemma_enroll_consistent(t, i, subject, division);
        let u = t.enroll(i, subject, division);
        lemma_leads_to_chains(s, t, u);
        assert(u.catalog.divisions =~= raised(s.catalog, k, chosen.len() as int).divisions);
        assert forall|m: int| 0 <= m < s.roster.len() implies #[trigger] u.roster[m]
            == if chosen.contains(m as usize) {
            s.roster[m].enrolled(subject, division)
        } else {
            s.roster[m]
        } by {
            if m == i {
                assert(chosen[chosen.len() - 1] == m as usize);
            } else if rest.contains(m as usize) {
                let a = choose|a: int| 0 <= a < rest.len() && rest[a] == m as usize;
                assert(chosen[a] == m as usize);
            } else {
                if chosen.contains(m as usize) {
                    let a = choose|a: int| 0 <= a < chosen.len() && chosen[a] == m as usize;
                    if a < rest.len() {
                        assert(rest[a] == m as usize);
                    }
                }
            }
        }
    }
}

/// Once an assignment was refused, the students after it change nothing.
pub proof fn lemma_enroll_each_stops(
    s: Snapshot,
    subject: Seq<char>,
    division: Seq<char>,
    chosen: Seq<usize>,
    n: int,
)
    requires
        0 <= n <= chosen.len(),
        enroll_each(s, subject, division, chosen.take(n)).1 is Some,
    ensures
        enroll_each(s, subject, division, chosen) == enroll_each(s, subject, division, chosen.take(n)),
    decreases chosen.len(),
{
    if n == chosen.len() {
        assert(chosen.take(n) =~= chosen);
    } else {
        assert(chosen.drop_last().take(n) =~= chosen.take(n));
        lemma_enroll_each_stops(s, subject, division, chosen.drop_last(), n);
    }
}

} // verus!
