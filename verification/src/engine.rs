//! The one operation that commits a student to a division.
use crate::error::Error;
use crate::model::{assign_fault, lemma_position, lemma_slot, CatalogView, StatusView, StudentView};
use crate::student::{Status, Student};
use crate::subject::{lemma_incremented_wf, Catalog};
use vstd::prelude::*;

verus! {

/// Enrols `student` in division `division_id` of subject `subject_id` and
/// counts the student in the catalog. The assignment is refused, and
/// nothing changes, where `assign_fault` names a reason.
pub fn assign(
    student: &mut Student,
    subject_id: &str,
    division_id: &str,
    subjects: &mut Catalog,
) -> (r: Result<(), Error>)
    requires
        old(student)@.wf(),
        old(subjects)@.wf(),
        old(student)@.resolved(old(subjects)@),
    ensures
        match assign_fault(old(student)@, subject_id@, division_id@, old(subjects)@) {
            None => {
                &&& r is Ok
                &&& final(student)@ == old(student)@.enrolled(subject_id@, division_id@)
                &&& final(subjects)@ == old(subjects)@.incremented(subject_id@, division_id@)
            },
            Some(e) => {
                &&& r == Err::<(), Error>(e)
                &&& final(student)@ == old(student)@
                &&& final(subjects)@ == old(subjects)@
            },
        },
        final(student)@.wf(),
        final(subjects)@.wf(),
        final(student)@.resolved(final(subjects)@),
        old(student)@.conflict_free(old(subjects)@) ==> final(student)@.conflict_free(
            final(subjects)@,
        ),
{
    let k = match subjects.find(subject_id, division_id) {
        Some(k) => k,
        None => {
            return Err(Error::NotFound);
        },
    };
    let slot = match student.find(subject_id) {
        Some(slot) => slot,
        None => {
            return Err(Error::NotFound);
        },
    };
    match &student.subjects[slot].1 {
        Status::Undefined => {},
        _ => {
            return Err(Error::AlreadyDecided);
        },
    }
    assert(subjects@.divisions[k as int].wf());
    if subjects.divisions[k].assigned >= subjects.divisions[k].quota {
        return Err(Error::CapacityExceeded);
    }
    match student.can_take(&subjects.divisions[k], subjects) {
        Ok(true) => {},
        Ok(false) => {
            return Err(Error::ScheduleConflict);
        },
        Err(e) => {
            return Err(e);
        },
    }
    let counted = subjects.increment_assigned(subject_id, division_id);
    assert(counted is Ok);
    let entry = &mut student.subjects[slot];
    entry.1 = Status::Enroll(division_id.to_owned());
    proof {
        let before = old(student)@;
        assert(student@.subjects =~= before.enrolled(subject_id@, division_id@).subjects);
        lemma_assign_keeps(before, subject_id@, division_id@, old(subjects)@);
    }
    Ok(())
}

/// The subject's decision and only it changes when a student is enrolled.
pub proof fn lemma_enrolled(student: StudentView, subject: Seq<char>, division: Seq<char>)
    requires
        student.wf(),
        student.tracks(subject),
    ensures
        student.enrolled(subject, division).wf(),
        student.enrolled(subject, division).status(subject) == Some(StatusView::Enroll(division)),
        forall|other: Seq<char>|
            other != subject ==> #[trigger] student.enrolled(subject, division).status(other)
                == student.status(other),
        forall|other: Seq<char>|
            #[trigger] student.enrolled(subject, division).tracks(other) == student.tracks(other),
{
    let after = student.enrolled(subject, division);
    let k = student.slot(subject);
    assert(student.subjects[k].0 == subject);
    assert forall|i: int, j: int| 0 <= i < j < after.subjects.len() implies (
    #[trigger] after.subjects[i]).0 != (#[trigger] after.subjects[j]).0 by {
        assert(student.subjects[i].0 != student.subjects[j].0);
    }
    lemma_slot(after, k);
    assert forall|other: Seq<char>| #[trigger] after.tracks(other) == student.tracks(other) by {
        if student.tracks(other) {
            let i = student.slot(other);
            assert(after.subjects[i].0 == other);
        }
        if after.tracks(other) {
            let i = after.slot(other);
            assert(student.subjects[i].0 == other);
        }
    }
    assert forall|other: Seq<char>| other != subject implies #[trigger] after.status(other)
        == student.status(other) by {
        if student.tracks(other) {
            let i = student.slot(other);
            assert(student.subjects[i].0 == other);
            lemma_slot(after, i);
        }
    }
}

/// Two catalogs with the same schedule hold the same divisions at the same
/// places.
pub proof fn lemma_same_schedule(
    catalog: CatalogView,
    other: CatalogView,
    subject: Seq<char>,
    division: Seq<char>,
)
    requires
        catalog.wf(),
        other.wf(),
        catalog.same_schedule(other),
    ensures
        other.contains(subject, division) == catalog.contains(subject, division),
        catalog.contains(subject, division) ==> {
            &&& other.position(subject, division) == catalog.position(subject, division)
            &&& other.get(subject, division).hour == catalog.get(subject, division).hour
            &&& other.get(subject, division).quota == catalog.get(subject, division).quota
        },
{
    if catalog.contains(subject, division) {
        let k = catalog.position(subject, division);
        assert(other.divisions[k].is(subject, division));
        lemma_position(other, k);
    }
    if other.contains(subject, division) {
        let k = other.position(subject, division);
        assert(catalog.divisions[k].is(subject, division));
    }
}

/// What holds of a student against one catalog holds against every catalog
/// with the same schedule.
pub proof fn lemma_student_same_schedule(
    student: StudentView,
    catalog: CatalogView,
    other: CatalogView,
)
    requires
        catalog.wf(),
        other.wf(),
        catalog.same_schedule(other),
        student.resolved(catalog),
    ensures
        student.resolved(other),
        forall|i: int|
            0 <= i < student.subjects.len() ==> #[trigger] student.booked(i, other)
                == student.booked(i, catalog),
        student.conflict_free(other) == student.conflict_free(catalog),
        forall|hour: Seq<[i32; 2]>|
            #[trigger] student.can_take(hour, other) == student.can_take(hour, catalog),
{
    assert forall|i: int| 0 <= i < student.subjects.len() implies #[trigger] student.booked(
        i,
        other,
    ) == student.booked(i, catalog) by {
        match student.subjects[i].1 {
            StatusView::Enroll(d) => {
                lemma_same_schedule(catalog, other, student.subjects[i].0, d);
            },
            _ => {},
        }
    }
    assert forall|i: int| 0 <= i < student.subjects.len() implies ((
    #[trigger] student.subjects[i]).1 matches StatusView::Enroll(d) ==> other.contains(
        student.subjects[i].0,
        d,
    )) by {
        match student.subjects[i].1 {
            StatusView::Enroll(d) => {
                lemma_same_schedule(catalog, other, student.subjects[i].0, d);
            },
            _ => {},
        }
    }
    assert(student.conflict_free(other) == student.conflict_free(catalog)) by {
        if student.conflict_free(catalog) {
            assert forall|i: int, j: int|
                0 <= i < student.subjects.len() && 0 <= j < student.subjects.len() && i
                    != j implies crate::interval::disjoint(
                #[trigger] student.booked(i, other),
                #[trigger] student.booked(j, other),
            ) by {
                assert(crate::interval::disjoint(
                    student.booked(i, catalog),
                    student.booked(j, catalog),
                ));
            }
        }
        if student.conflict_free(other) {
            assert forall|i: int, j: int|
                0 <= i < student.subjects.len() && 0 <= j < student.subjects.len() && i
                    != j implies crate::interval::disjoint(
                #[trigger] student.booked(i, catalog),
                #[trigger] student.booked(j, catalog),
            ) by {
                assert(crate::interval::disjoint(
                    student.booked(i, other),
                    student.booked(j, other),
                ));
            }
        }
    }
    assert forall|hour: Seq<[i32; 2]>| #[trigger]
        student.can_take(hour, other) == student.can_take(hour, catalog) by {
        if student.can_take(hour, catalog) {
            assert forall|i: int| 0 <= i < student.subjects.len() implies crate::interval::disjoint(
                #[trigger] student.booked(i, other),
                hour,
            ) by {
                assert(crate::interval::disjoint(student.booked(i, catalog), hour));
            }
        }
        if student.can_take(hour, other) {
            assert forall|i: int| 0 <= i < student.subjects.len() implies crate::interval::disjoint(
                #[trigger] student.booked(i, catalog),
                hour,
            ) by {
                assert(crate::interval::disjoint(student.booked(i, other), hour));
            }
        }
    }
}

/// An assignment that goes through leaves the student and the catalog well
/// formed, every enrolment of the student resolved, and the student's
/// enrolments free of conflicts if they were so before.
pub proof fn lemma_assign_keeps(
    student: StudentView,
    subject: Seq<char>,
    division: Seq<char>,
    catalog: CatalogView,
)
    requires
        student.wf(),
        catalog.wf(),
        student.resolved(catalog),
        assign_fault(student, subject, division, catalog) is None,
    ensures
        student.enrolled(subject, division).wf(),
        catalog.incremented(subject, division).wf(),
        catalog.same_schedule(catalog.incremented(subject, division)),
        student.enrolled(subject, division).resolved(catalog.incremented(subject, division)),
        student.conflict_free(catalog) ==> student.enrolled(subject, division).conflict_free(
            catalog.incremented(subject, division),
        ),
{
    let after = student.enrolled(subject, division);
    let next = catalog.incremented(subject, division);
    let k = student.slot(subject);
    let hour = catalog.get(subject, division).hour;
    lemma_enrolled(student, subject, division);
    lemma_incremented_wf(catalog, subject, division);
    assert(student.subjects[k].0 == subject);
    assert(after.resolved(catalog)) by {
        assert forall|i: int| 0 <= i < after.subjects.len() implies ((
        #[trigger] after.subjects[i]).1 matches StatusView::Enroll(d) ==> catalog.contains(
            after.subjects[i].0,
            d,
        )) by {
            if i != k {
                assert(after.subjects[i] == student.subjects[i]);
            }
        }
    }
    assert forall|i: int| 0 <= i < after.subjects.len() && i != k implies #[trigger] after.booked(
        i,
        catalog,
    ) == student.booked(i, catalog) by {
        assert(after.subjects[i] == student.subjects[i]);
    }
    assert(after.booked(k, catalog) == hour);
    if student.conflict_free(catalog) {
        assert forall|i: int, j: int|
            0 <= i < after.subjects.len() && 0 <= j < after.subjects.len() && i
                != j implies crate::interval::disjoint(
            #[trigger] after.booked(i, catalog),
            #[trigger] after.booked(j, catalog),
        ) by {
            if i == k {
                assert(crate::interval::disjoint(student.booked(j, catalog), hour));
                crate::interval::disjoint_is_symmetric(student.booked(j, catalog), hour);
            } else if j == k {
                assert(crate::interval::disjoint(student.booked(i, catalog), hour));
            } else {
                assert(crate::interval::disjoint(
                    student.booked(i, catalog),
                    student.booked(j, catalog),
                ));
            }
        }
        assert(after.conflict_free(catalog));
    }
    lemma_student_same_schedule(after, catalog, next);
}

} // verus!
