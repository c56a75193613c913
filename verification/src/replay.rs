//! Counting the enrolments that the roster brings with it, before any pass
//! runs, and testing whether a roster and a catalog are consistent.
use crate::engine::{lemma_same_schedule, lemma_student_same_schedule};
use crate::error::Error;
use crate::interval::{disjoint, disjoint_is_symmetric};
use crate::model::{lemma_position, lemma_slot, CatalogView, DivisionView, StatusView, StudentView};
use crate::roster::{headcount, snapshot, Snapshot};
use crate::student::{Status, Student};
use crate::subject::{lemma_incremented_wf, Catalog, Division};
use crate::text::text_eq;
use vstd::prelude::*;

verus! {

/// Whether some enrolment of the student names a division without a free
/// seat.
pub open spec fn meets_full_division(student: StudentView, catalog: CatalogView) -> bool {
    exists|i: int| 0 <= i < student.subjects.len() && #[trigger] full_at(student, i, catalog)
}

/// Whether the student's `i`-th decision is an enrolment in a division
/// without a free seat.
pub open spec fn full_at(student: StudentView, i: int, catalog: CatalogView) -> bool {
    student.subjects[i].1 matches StatusView::Enroll(d) && catalog.get(
        student.subjects[i].0,
        d,
    ).room() <= 0
}

/// Why the enrolments of the student cannot be counted, or `None` where
/// they can. The first of these wins: an enrolment names a division that
/// the catalog does not hold; two enrolments overlap; an enrolment names a
/// division without a free seat.
pub open spec fn register_fault(student: StudentView, catalog: CatalogView) -> Option<Error> {
    if !student.resolved(catalog) {
        Some(Error::NotFound)
    } else if !student.conflict_free(catalog) {
        Some(Error::ScheduleConflict)
    } else if meets_full_division(student, catalog) {
        Some(Error::CapacityExceeded)
    } else {
        None
    }
}

/// Whether one of the student's first `n` decisions is an enrolment in the
/// division `d`.
pub open spec fn names_upto(student: StudentView, d: DivisionView, n: int) -> bool {
    exists|i: int|
        0 <= i < n && #[trigger] student.subjects[i] == (d.id, StatusView::Enroll(d.division))
}

/// The catalog with one more student in every division that one of the
/// student's first `n` decisions names.
pub open spec fn registered_upto(catalog: CatalogView, student: StudentView, n: int) -> CatalogView {
    CatalogView {
        divisions: Seq::new(
            catalog.divisions.len(),
            |k: int|
                if names_upto(student, catalog.divisions[k], n) {
                    catalog.divisions[k].bumped()
                } else {
                    catalog.divisions[k]
                },
        ),
    }
}

/// The catalog with one more student in every division in which the
/// student is enrolled.
pub open spec fn registered(catalog: CatalogView, student: StudentView) -> CatalogView {
    CatalogView {
        divisions: Seq::new(
            catalog.divisions.len(),
            |k: int|
                if student.enrolled_in(catalog.divisions[k].id, catalog.divisions[k].division) {
                    catalog.divisions[k].bumped()
                } else {
                    catalog.divisions[k]
                },
        ),
    }
}

/// The catalog after the enrolments of the first `n` students were
/// counted, one student after the other, up to the first student whose
/// enrolments cannot be counted, and the reason.
pub open spec fn replay_upto(roster: Seq<StudentView>, catalog: CatalogView, n: int) -> (
    CatalogView,
    Option<Error>,
)
    decreases n,
{
    if n <= 0 {
        (catalog, None)
    } else {
        let (c, e) = replay_upto(roster, catalog, n - 1);
        if e is Some {
            (c, e)
        } else {
            match register_fault(roster[n - 1], c) {
                Some(e) => (c, Some(e)),
                None => (registered(c, roster[n - 1]), None),
            }
        }
    }
}

/// The division of the student's `i`-th decision, if that is an enrolment.
fn division_at<'a>(student: &Student, i: usize, catalog: &'a Catalog) -> (r: Option<&'a Division>)
    requires
        student@.wf(),
        catalog@.wf(),
        student@.resolved(catalog@),
        i < student.subjects@.len(),
    ensures
        match r {
            Some(d) => student@.subjects[i as int].1 matches StatusView::Enroll(id) && d@
                == catalog@.get(student@.subjects[i as int].0, id) && catalog@.contains(
                student@.subjects[i as int].0,
                id,
            ),
            None => !(student@.subjects[i as int].1 is Enroll),
        },
        student@.booked(i as int, catalog@) == match r {
            Some(d) => d@.hour,
            None => Seq::empty(),
        },
{
    match &student.subjects[i].1 {
        Status::Enroll(id) => {
            assert(student@.subjects[i as int].1 == StatusView::Enroll(id@));
            match catalog.get(student.subjects[i].0.as_str(), id.as_str()) {
                Ok(d) => Some(d),
                Err(_) => {
                    assert(false);
                    None
                },
            }
        },
        _ => None,
    }
}

/// Whether no two enrolments of the student overlap.
pub fn is_conflict_free(student: &Student, catalog: &Catalog) -> (r: bool)
    requires
        student@.wf(),
        catalog@.wf(),
        student@.resolved(catalog@),
    ensures
        r == student@.conflict_free(catalog@),
{
    let n = student.subjects.len();
    let mut i: usize = 0;
    while i < n
        invariant
            i <= n,
            n == student.subjects@.len(),
            student@.wf(),
            catalog@.wf(),
            student@.resolved(catalog@),
            forall|p: int, q: int|
                0 <= p < i && p < q < n ==> disjoint(
                    #[trigger] student@.booked(p, catalog@),
                    #[trigger] student@.booked(q, catalog@),
                ),
        decreases n - i,
    {
        if let Some(a) = division_at(student, i, catalog) {
            let mut j: usize = i + 1;
            while j < n
                invariant
                    i < j <= n,
                    n == student.subjects@.len(),
                    student@.wf(),
                    catalog@.wf(),
                    student@.resolved(catalog@),
                    a@.hour == student@.booked(i as int, catalog@),
                    forall|q: int|
                        i < q < j ==> disjoint(
                            student@.booked(i as int, catalog@),
                            #[trigger] student@.booked(q, catalog@),
                        ),
                decreases n - j,
            {
                if let Some(b) = division_at(student, j, catalog) {
                    if !a.is_disjoint(b) {
                        assert(!disjoint(
                            student@.booked(i as int, catalog@),
                            student@.booked(j as int, catalog@),
                        ));
                        return false;
                    }
                }
                j += 1;
            }
        }
        i += 1;
    }
    proof {
        assert forall|p: int, q: int| 0 <= p < n && 0 <= q < n && p != q implies disjoint(
            #[trigger] student@.booked(p, catalog@),
            #[trigger] student@.booked(q, catalog@),
        ) by {
            if q < p {
                assert(disjoint(student@.booked(q, catalog@), student@.booked(p, catalog@)));
                disjoint_is_symmetric(student@.booked(q, catalog@), student@.booked(p, catalog@));
            }
        }
    }
    true
}

/// Whether some enrolment of the student names a division without a free
/// seat.
fn finds_full_division(student: &Student, catalog: &Catalog) -> (r: bool)
    requires
        student@.wf(),
        catalog@.wf(),
        student@.resolved(catalog@),
    ensures
        r == meets_full_division(student@, catalog@),
{
    let mut i: usize = 0;
    while i < student.subjects.len()
        invariant
            i <= student.subjects@.len(),
            student@.wf(),
            catalog@.wf(),
            student@.resolved(catalog@),
            forall|k: int| 0 <= k < i ==> !#[trigger] full_at(student@, k, catalog@),
        decreases student.subjects.len() - i,
    {
        if let Some(d) = division_at(student, i, catalog) {
            if d.assigned >= d.quota {
                assert(full_at(student@, i as int, catalog@));
                return true;
            }
        }
        i += 1;
    }
    false
}

/// Counts the enrolments of one student in the catalog: every division in
/// which the student is enrolled gets one more student. Where `register_fault`
/// names a reason, the enrolments are refused and the catalog is left as it
/// was.
pub fn register(student: &Student, catalog: &mut Catalog) -> (r: Result<(), Error>)
    requires
        student@.wf(),
        old(catalog)@.wf(),
    ensures
        final(catalog)@.wf(),
        old(catalog)@.same_schedule(final(catalog)@),
        match register_fault(student@, old(catalog)@) {
            None => r is Ok && final(catalog)@ == registered(old(catalog)@, student@),
            Some(e) => r == Err::<(), Error>(e) && final(catalog)@ == old(catalog)@,
        },
{
    if !student.is_resolved(catalog) {
        return Err(Error::NotFound);
    }
    if !is_conflict_free(student, catalog) {
        return Err(Error::ScheduleConflict);
    }
    if finds_full_division(student, catalog) {
        return Err(Error::CapacityExceeded);
    }
    let ghost start = catalog@;
    proof {
        assert(registered_upto(start, student@, 0).divisions =~= start.divisions);
    }
    let mut i: usize = 0;
    while i < student.subjects.len()
        invariant
            i <= student.subjects@.len(),
            start == old(catalog)@,
            start.wf(),
            student@.wf(),
            student@.resolved(start),
            !meets_full_division(student@, start),
            catalog@.wf(),
            start.same_schedule(catalog@),
            catalog@ == registered_upto(start, student@, i as int),
        decreases student.subjects.len() - i,
    {
        if let Status::Enroll(id) = &student.subjects[i].1 {
            let ghost before = catalog@;
            let ghost subject = student@.subjects[i as int].0;
            assert(student@.subjects[i as int] == (subject, StatusView::Enroll(id@)));
            proof {
                lemma_same_schedule(start, before, subject, id@);
                let k = start.position(subject, id@);
                assert(start.divisions[k].is(subject, id@));
                lemma_position(start, k);
                if names_upto(student@, start.divisions[k], i as int) {
                    let m = choose|m: int|
                        0 <= m < i && #[trigger] student@.subjects[m] == (
                            start.divisions[k].id,
                            StatusView::Enroll(start.divisions[k].division),
                        );
                    assert(student@.subjects[m].0 == student@.subjects[i as int].0);
                }
                assert(before.divisions[k] == start.divisions[k]);
                assert(!full_at(student@, i as int, start));
                assert(before.get(subject, id@) == before.divisions[k]);
            }
            let counted = catalog.increment_assigned(student.subjects[i].0.as_str(), id.as_str());
            assert(counted is Ok);
            proof {
                lemma_incremented_wf(before, subject, id@);
                lemma_registered_step(start, student@, i as int);
                assert(catalog@.divisions =~= registered_upto(start, student@, i + 1).divisions);
                assert(start.same_schedule(catalog@));
            }
        } else {
            proof {
                lemma_registered_step(start, student@, i as int);
            }
        }
        i += 1;
    }
    proof {
        lemma_registered_all(start, student@);
    }
    Ok(())
}

/// Counts the enrolments that the students bring with them, one student
/// after the other. The first student whose enrolments cannot be counted
/// ends the run with the reason; what was counted before stays. Where the
/// run ends well on a catalog in which nobody was counted before, the
/// roster and the catalog are consistent.
pub fn replay(roster: &Vec<Student>, catalog: &mut Catalog) -> (r: Result<(), Error>)
    requires
        old(catalog)@.wf(),
        forall|i: int| 0 <= i < roster@.len() ==> (#[trigger] roster.deep_view()[i]).wf(),
    ensures
        final(catalog)@.wf(),
        old(catalog)@.same_schedule(final(catalog)@),
        (final(catalog)@, r.err()) == replay_upto(
            roster.deep_view(),
            old(catalog)@,
            roster@.len() as int,
        ),
        r is Ok && old(catalog)@.untouched() ==> snapshot(roster, final(catalog)).consistent(),
{
    let ghost start = catalog@;
    let ghost students = roster.deep_view();
    let mut i: usize = 0;
    while i < roster.len()
        invariant
            i <= roster@.len(),
            start == old(catalog)@,
            students == roster.deep_view(),
            forall|k: int| 0 <= k < roster@.len() ==> (#[trigger] students[k]).wf(),
            start.wf(),
            catalog@.wf(),
            start.same_schedule(catalog@),
            (catalog@, None::<Error>) == replay_upto(students, start, i as int),
        decreases roster.len() - i,
    {
        let ghost before = catalog@;
        assert(students[i as int] == roster@[i as int]@);
        assert(students[i as int].wf());
        let r = register(&roster[i], catalog);
        proof {
            lemma_same_schedule_chains(start, before, catalog@);
        }
        if let Err(e) = r {
            proof {
                lemma_replay_stops(students, start, i + 1, roster@.len() as int);
            }
            return Err(e);
        }
        i += 1;
    }
    proof {
        if start.untouched() {
            lemma_replay_consistent(students, start, students.len() as int);
            assert(students.take(students.len() as int) =~= students);
        }
    }
    Ok(())
}

/// How many students of the roster are enrolled in division `division` of
/// `subject`.
pub fn count_enrolled(roster: &Vec<Student>, subject: &str, division: &str) -> (r: usize)
    requires
        forall|i: int| 0 <= i < roster@.len() ==> (#[trigger] roster.deep_view()[i]).wf(),
    ensures
        r == headcount(roster.deep_view(), subject@, division@),
{
    let ghost students = roster.deep_view();
    let mut count: usize = 0;
    let mut i: usize = 0;
    while i < roster.len()
        invariant
            i <= roster@.len(),
            students == roster.deep_view(),
            forall|k: int| 0 <= k < roster@.len() ==> (#[trigger] students[k]).wf(),
            count <= i,
            count == headcount(students.take(i as int), subject@, division@),
        decreases roster.len() - i,
    {
        assert(students[i as int] == roster@[i as int]@);
        assert(students[i as int].wf());
        assert(students.take(i + 1).drop_last() =~= students.take(i as int));
        let enrolled = match roster[i].status(subject) {
            Some(Status::Enroll(d)) => text_eq(d.as_str(), division),
            _ => false,
        };
        if enrolled {
            count += 1;
        }
        i += 1;
    }
    proof {
        assert(students.take(students.len() as int) =~= students);
    }
    count
}

/// Whether the roster and the catalog are consistent: everything well
/// formed, every enrolment resolved and free of conflicts, and every
/// division counting exactly the students enrolled in it.
pub fn is_consistent(roster: &Vec<Student>, catalog: &Catalog) -> (r: bool)
    ensures
        r == snapshot(roster, catalog).consistent(),
{
    let ghost s = snapshot(roster, catalog);
    if !catalog.is_well_formed() {
        return false;
    }
    let mut i: usize = 0;
    while i < roster.len()
        invariant
            i <= roster@.len(),
            s == snapshot(roster, catalog),
            s.catalog.wf(),
            forall|k: int|
                0 <= k < i ==> {
                    &&& (#[trigger] s.roster[k]).wf()
                    &&& s.roster[k].resolved(s.catalog)
                    &&& s.roster[k].conflict_free(s.catalog)
                },
        decreases roster.len() - i,
    {
        let student = &roster[i];
        assert(s.roster[i as int] == student@);
        if !student.is_well_formed() || !student.is_resolved(catalog) || !is_conflict_free(
            student,
            catalog,
        ) {
            return false;
        }
        i += 1;
    }
    let mut k: usize = 0;
    while k < catalog.divisions.len()
        invariant
            k <= catalog.divisions@.len(),
            s == snapshot(roster, catalog),
            s.roster == roster.deep_view(),
            forall|m: int| 0 <= m < s.roster.len() ==> (#[trigger] s.roster[m]).wf(),
            forall|m: int|
                0 <= m < k ==> (#[trigger] s.catalog.divisions[m]).assigned == headcount(
                    s.roster,
                    s.catalog.divisions[m].id,
                    s.catalog.divisions[m].division,
                ),
        decreases catalog.divisions.len() - k,
    {
        let d = &catalog.divisions[k];
        assert(s.catalog.divisions[k as int] == d@);
        let count = count_enrolled(roster, d.id.as_str(), d.division.as_str());
        if d.assigned < 0 || d.assigned as usize != count {
            return false;
        }
        k += 1;
    }
    true
}

/// Catalogs with the same schedule as a third have the same schedule.
pub proof fn lemma_same_schedule_chains(a: CatalogView, b: CatalogView, c: CatalogView)
    requires
        a.same_schedule(b),
        b.same_schedule(c),
    ensures
        a.same_schedule(c),
{
    assert forall|i: int| 0 <= i < a.divisions.len() implies (#[trigger] c.divisions[i]) == (
    DivisionView { assigned: c.divisions[i].assigned, ..a.divisions[i] }) by {
        assert(b.divisions[i] == (DivisionView {
            assigned: b.divisions[i].assigned,
            ..a.divisions[i]
        }));
    }
}

/// Once a student stopped the run, the students after it change nothing.
pub proof fn lemma_replay_stops(roster: Seq<StudentView>, catalog: CatalogView, n: int, m: int)
    requires
        0 <= n <= m,
        replay_upto(roster, catalog, n).1 is Some,
    ensures
        replay_upto(roster, catalog, m) == replay_upto(roster, catalog, n),
    decreases m - n,
{
    if n < m {
        lemma_replay_stops(roster, catalog, n, m - 1);
    }
}

/// Counting the enrolments of a student that can be counted keeps the
/// catalog well formed and changes nothing but the counts.
pub proof fn lemma_registered(catalog: CatalogView, student: StudentView)
    requires
        catalog.wf(),
        student.wf(),
        register_fault(student, catalog) is None,
    ensures
        registered(catalog, student).wf(),
        catalog.same_schedule(registered(catalog, student)),
{
    let after = registered(catalog, student);
    assert forall|k: int| 0 <= k < after.divisions.len() implies (#[trigger] after.divisions[k]).wf() by {
        let d = catalog.divisions[k];
        assert(d.wf());
        if student.enrolled_in(d.id, d.division) {
            let a = student.slot(d.id);
            assert(student.subjects[a].0 == d.id);
            lemma_position(catalog, k);
            assert(!full_at(student, a, catalog));
        }
    }
    assert forall|i: int, j: int| 0 <= i < j < after.divisions.len() implies !(
    #[trigger] after.divisions[i]).is((#[trigger] after.divisions[j]).id, after.divisions[j].division) by {
        assert(!catalog.divisions[i].is(catalog.divisions[j].id, catalog.divisions[j].division));
    }
}

/// After the enrolments of the first `n` students were counted in a
/// catalog in which nobody was counted before, every division counts the
/// students among them that are enrolled in it, and the enrolments of each
/// of them are resolved and free of conflicts.
pub proof fn lemma_replay_consistent(roster: Seq<StudentView>, catalog: CatalogView, n: int)
    requires
        catalog.wf(),
        catalog.untouched(),
        forall|k: int| 0 <= k < roster.len() ==> (#[trigger] roster[k]).wf(),
        0 <= n <= roster.len(),
        replay_upto(roster, catalog, n).1 is None,
    ensures
        (Snapshot { roster: roster.take(n), catalog: replay_upto(roster, catalog, n).0 }).consistent(),
        catalog.same_schedule(replay_upto(roster, catalog, n).0),
    decreases n,
{
    let c = replay_upto(roster, catalog, n).0;
    let s = Snapshot { roster: roster.take(n), catalog: c };
    if n == 0 {
        assert forall|k: int| 0 <= k < c.divisions.len() implies (#[trigger] c.divisions[k]).assigned
            == headcount(s.roster, c.divisions[k].id, c.divisions[k].division) by {
            assert(catalog.divisions[k].assigned == 0);
        }
    } else {
        let b = replay_upto(roster, catalog, n - 1).0;
        let student = roster[n - 1];
        lemma_replay_consistent(roster, catalog, n - 1);
        let t = Snapshot { roster: roster.take(n - 1), catalog: b };
        assert(student.wf());
        lemma_registered(b, student);
        lemma_same_schedule_chains(catalog, b, c);
        assert(s.roster.drop_last() =~= t.roster);
        assert(s.roster.last() == student);
        assert forall|i: int| 0 <= i < s.roster.len() implies {
            &&& (#[trigger] s.roster[i]).wf()
            &&& s.roster[i].resolved(c)
            &&& s.roster[i].conflict_free(c)
        } by {
            if i < n - 1 {
                assert(s.roster[i] == t.roster[i]);
            }
            lemma_student_same_schedule(s.roster[i], b, c);
        }
        assert forall|k: int| 0 <= k < c.divisions.len() implies (#[trigger] c.divisions[k]).assigned
            == headcount(s.roster, c.divisions[k].id, c.divisions[k].division) by {
            assert(b.divisions[k].assigned == headcount(
                t.roster,
                b.divisions[k].id,
                b.divisions[k].division,
            ));
        }
    }
}

/// What one more decision adds to the divisions that the decisions name.
proof fn lemma_registered_step(catalog: CatalogView, student: StudentView, n: int)
    requires
        catalog.wf(),
        student.wf(),
        student.resolved(catalog),
        0 <= n < student.subjects.len(),
    ensures
        student.subjects[n].1 matches StatusView::Enroll(d) ==> registered_upto(
            catalog,
            student,
            n + 1,
        ).divisions == registered_upto(catalog, student, n).divisions.update(
            catalog.position(student.subjects[n].0, d),
            catalog.get(student.subjects[n].0, d).bumped(),
        ),
        !(student.subjects[n].1 is Enroll) ==> registered_upto(catalog, student, n + 1)
            == registered_upto(catalog, student, n),
{
    let now = registered_upto(catalog, student, n + 1);
    let before = registered_upto(catalog, student, n);
    match student.subjects[n].1 {
        StatusView::Enroll(d) => {
            let subject = student.subjects[n].0;
            let k = catalog.position(subject, d);
            assert(catalog.divisions[k].is(subject, d));
            lemma_position(catalog, k);
            assert forall|m: int| 0 <= m < catalog.divisions.len() implies now.divisions[m]
                == before.divisions.update(k, catalog.divisions[k].bumped())[m] by {
                let dm = catalog.divisions[m];
                if m == k {
                    assert(student.subjects[n] == (dm.id, StatusView::Enroll(dm.division)));
                } else {
                    lemma_position(catalog, m);
                    if names_upto(student, dm, n + 1) {
                        let a = choose|a: int|
                            0 <= a < n + 1 && #[trigger] student.subjects[a] == (
                                dm.id,
                                StatusView::Enroll(dm.division),
                            );
                        assert(a != n);
                        assert(names_upto(student, dm, n));
                    }
                    if names_upto(student, dm, n) {
                        let a = choose|a: int|
                            0 <= a < n && #[trigger] student.subjects[a] == (
                                dm.id,
                                StatusView::Enroll(dm.division),
                            );
                        assert(names_upto(student, dm, n + 1));
                    }
                }
            }
            assert(now.divisions =~= before.divisions.update(k, catalog.divisions[k].bumped()));
        },
        _ => {
            assert forall|m: int| 0 <= m < catalog.divisions.len() implies now.divisions[m]
                == before.divisions[m] by {
                let dm = catalog.divisions[m];
                if names_upto(student, dm, n + 1) {
                    let a = choose|a: int|
                        0 <= a < n + 1 && #[trigger] student.subjects[a] == (
                            dm.id,
                            StatusView::Enroll(dm.division),
                        );
                    assert(names_upto(student, dm, n));
                }
                if names_upto(student, dm, n) {
                    let a = choose|a: int|
                        0 <= a < n && #[trigger] student.subjects[a] == (
                            dm.id,
                            StatusView::Enroll(dm.division),
                        );
                    assert(names_upto(student, dm, n + 1));
                }
            }
            assert(now.divisions =~= before.divisions);
        },
    }
}

/// The divisions that all decisions of a student name are the divisions in
/// which the student is enrolled.
proof fn lemma_registered_all(catalog: CatalogView, student: StudentView)
    requires
        student.wf(),
    ensures
        registered_upto(catalog, student, student.subjects.len() as int) == registered(
            catalog,
            student,
        ),
{
    let n = student.subjects.len() as int;
    assert forall|k: int| 0 <= k < catalog.divisions.len() implies names_upto(
        student,
        catalog.divisions[k],
        n,
    ) == student.enrolled_in(catalog.divisions[k].id, catalog.divisions[k].division) by {
        let d = catalog.divisions[k];
        if names_upto(student, d, n) {
            let a = choose|a: int|
                0 <= a < n && #[trigger] student.subjects[a] == (
                    d.id,
                    StatusView::Enroll(d.division),
                );
            lemma_slot(student, a);
        }
        if student.enrolled_in(d.id, d.division) {
            let a = student.slot(d.id);
            assert(student.subjects[a].0 == d.id);
            assert(student.subjects[a] == (d.id, StatusView::Enroll(d.division)));
        }
    }
    assert(registered_upto(catalog, student, n).divisions =~= registered(catalog, student).divisions);
}

} // verus!
