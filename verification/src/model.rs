//! The mathematical model of students, divisions and the catalog.
//!
//! Every executable type of the crate has a view in this module, and the
//! contracts of the executable functions are stated over these views.
use crate::error::Error;
use crate::interval::disjoint;
use crate::text::trimmed;
use vstd::prelude::*;

verus! {

/// A student's decision for one subject.
pub enum StatusView {
    /// Enrolled in the division with this id.
    Enroll(Seq<char>),
    /// Declined; set from outside and never changed by the engine.
    No,
    /// Not decided yet.
    Undefined,
}

/// One division of a subject.
pub struct DivisionView {
    pub id: Seq<char>,
    pub name: Seq<char>,
    pub division: Seq<char>,
    pub english: bool,
    pub assigned: int,
    pub quota: int,
    pub hour: Seq<[i32; 2]>,
}

impl DivisionView {
    /// The count of assigned students lies between zero and the quota.
    pub open spec fn wf(self) -> bool {
        0 <= self.assigned <= self.quota
    }

    /// Whether this is division `division` of subject `subject`.
    pub open spec fn is(self, subject: Seq<char>, division: Seq<char>) -> bool {
        self.id == subject && self.division == division
    }

    /// The seats that are still free.
    pub open spec fn room(self) -> int {
        self.quota - self.assigned
    }

    /// The same division with one more student assigned.
    pub open spec fn bumped(self) -> DivisionView {
        DivisionView { assigned: self.assigned + 1, ..self }
    }
}

/// All divisions of all subjects.
pub struct CatalogView {
    pub divisions: Seq<DivisionView>,
}

impl CatalogView {
    /// No division is listed twice, and every division is well formed.
    pub open spec fn wf(self) -> bool {
        &&& forall|i: int| 0 <= i < self.divisions.len() ==> (#[trigger] self.divisions[i]).wf()
        &&& forall|i: int, j: int|
            0 <= i < j < self.divisions.len() ==> !(#[trigger] self.divisions[i]).is(
                (#[trigger] self.divisions[j]).id,
                self.divisions[j].division,
            )
    }

    /// Whether subject `subject` has a division `division`.
    pub open spec fn contains(self, subject: Seq<char>, division: Seq<char>) -> bool {
        exists|i: int|
            0 <= i < self.divisions.len() && (#[trigger] self.divisions[i]).is(subject, division)
    }

    /// Where division `division` of subject `subject` stands.
    pub open spec fn position(self, subject: Seq<char>, division: Seq<char>) -> int {
        choose|i: int|
            0 <= i < self.divisions.len() && (#[trigger] self.divisions[i]).is(subject, division)
    }

    /// Division `division` of subject `subject`.
    pub open spec fn get(self, subject: Seq<char>, division: Seq<char>) -> DivisionView {
        self.divisions[self.position(subject, division)]
    }

    /// The same catalog with one more student assigned to the division.
    pub open spec fn incremented(self, subject: Seq<char>, division: Seq<char>) -> CatalogView {
        let k = self.position(subject, division);
        CatalogView { divisions: self.divisions.update(k, self.divisions[k].bumped()) }
    }

    /// The two catalogs list the same divisions with the same hours and
    /// quotas; only the counts of assigned students may differ.
    pub open spec fn same_schedule(self, other: CatalogView) -> bool {
        &&& self.divisions.len() == other.divisions.len()
        &&& forall|i: int|
            0 <= i < self.divisions.len() ==> (#[trigger] other.divisions[i]) == (DivisionView {
                assigned: other.divisions[i].assigned,
                ..self.divisions[i]
            })
    }

    /// No student is assigned to any division.
    pub open spec fn untouched(self) -> bool {
        forall|i: int| 0 <= i < self.divisions.len() ==> (#[trigger] self.divisions[i]).assigned == 0
    }
}

/// A student: descriptive fields and one decision per tracked subject.
pub struct StudentView {
    pub id: Seq<char>,
    pub name: Seq<char>,
    pub gender: Seq<char>,
    pub nationality: Seq<char>,
    pub high_school: Seq<char>,
    pub high_school_category: Seq<char>,
    pub subjects: Seq<(Seq<char>, StatusView)>,
}

impl StudentView {
    /// No subject is tracked twice.
    pub open spec fn wf(self) -> bool {
        forall|i: int, j: int|
            0 <= i < j < self.subjects.len() ==> (#[trigger] self.subjects[i]).0 != (
            #[trigger] self.subjects[j]).0
    }

    /// Whether the student has a decision for `subject`.
    pub open spec fn tracks(self, subject: Seq<char>) -> bool {
        exists|i: int| 0 <= i < self.subjects.len() && (#[trigger] self.subjects[i]).0 == subject
    }

    /// Where the decision for `subject` stands.
    pub open spec fn slot(self, subject: Seq<char>) -> int {
        choose|i: int| 0 <= i < self.subjects.len() && (#[trigger] self.subjects[i]).0 == subject
    }

    /// The decision for `subject`, if the subject is tracked.
    pub open spec fn status(self, subject: Seq<char>) -> Option<StatusView> {
        if self.tracks(subject) {
            Some(self.subjects[self.slot(subject)].1)
        } else {
            None
        }
    }

    /// Whether the student is enrolled in division `division` of `subject`.
    pub open spec fn enrolled_in(self, subject: Seq<char>, division: Seq<char>) -> bool {
        self.status(subject) == Some(StatusView::Enroll(division))
    }

    /// Whether the student is enrolled in `subject`, in a division whose
    /// id is `division` once the blanks around it are removed.
    pub open spec fn is_taking(self, subject: Seq<char>, division: Seq<char>) -> bool {
        self.status(subject) matches Some(StatusView::Enroll(d)) && trimmed(d) == division
    }

    /// The division that the `i`-th decision names, where that decision is
    /// an enrolment.
    pub open spec fn division_at(self, i: int, catalog: CatalogView) -> DivisionView {
        catalog.get(self.subjects[i].0, self.subjects[i].1->Enroll_0)
    }

    /// The hours that the `i`-th decision occupies: those of the division
    /// for an enrolment, none otherwise.
    pub open spec fn booked(self, i: int, catalog: CatalogView) -> Seq<[i32; 2]> {
        if self.subjects[i].1 is Enroll {
            self.division_at(i, catalog).hour
        } else {
            Seq::empty()
        }
    }

    /// Every enrolment names a division of the catalog.
    pub open spec fn resolved(self, catalog: CatalogView) -> bool {
        forall|i: int|
            0 <= i < self.subjects.len() ==> ((#[trigger] self.subjects[i]).1 matches StatusView::Enroll(
                d,
            ) ==> catalog.contains(self.subjects[i].0, d))
    }

    /// The divisions of any two of the student's enrolments are disjoint.
    pub open spec fn conflict_free(self, catalog: CatalogView) -> bool {
        forall|i: int, j: int|
            0 <= i < self.subjects.len() && 0 <= j < self.subjects.len() && i != j ==> disjoint(
                #[trigger] self.booked(i, catalog),
                #[trigger] self.booked(j, catalog),
            )
    }

    /// A division with hours `hour` is disjoint from every division in
    /// which the student is enrolled.
    pub open spec fn can_take(self, hour: Seq<[i32; 2]>, catalog: CatalogView) -> bool {
        forall|i: int|
            0 <= i < self.subjects.len() ==> disjoint(#[trigger] self.booked(i, catalog), hour)
    }

    /// The same student, enrolled in division `division` of `subject`.
    pub open spec fn enrolled(self, subject: Seq<char>, division: Seq<char>) -> StudentView {
        StudentView {
            subjects: self.subjects.update(
                self.slot(subject),
                (subject, StatusView::Enroll(division)),
            ),
            ..self
        }
    }
}

/// Why the student cannot be assigned to division `division` of `subject`,
/// or `None` where the assignment goes through. The first of these wins:
/// the division or the student's subject is unknown; the student's decision
/// is no longer open; the division is full; the division overlaps one of
/// the student's enrolments.
pub open spec fn assign_fault(
    student: StudentView,
    subject: Seq<char>,
    division: Seq<char>,
    catalog: CatalogView,
) -> Option<Error> {
    if !catalog.contains(subject, division) || !student.tracks(subject) {
        Some(Error::NotFound)
    } else if student.status(subject) != Some(StatusView::Undefined) {
        Some(Error::AlreadyDecided)
    } else if catalog.get(subject, division).room() <= 0 {
        Some(Error::CapacityExceeded)
    } else if !student.can_take(catalog.get(subject, division).hour, catalog) {
        Some(Error::ScheduleConflict)
    } else {
        None
    }
}

/// A well-formed catalog holds a division at one place only.
pub proof fn lemma_position(catalog: CatalogView, i: int)
    requires
        catalog.wf(),
        0 <= i < catalog.divisions.len(),
    ensures
        catalog.contains(catalog.divisions[i].id, catalog.divisions[i].division),
        catalog.position(catalog.divisions[i].id, catalog.divisions[i].division) == i,
        catalog.get(catalog.divisions[i].id, catalog.divisions[i].division) == catalog.divisions[i],
{
    let d = catalog.divisions[i];
    assert(d.is(d.id, d.division));
    let p = catalog.position(d.id, d.division);
    assert(catalog.divisions[p].is(d.id, d.division));
    if p < i {
        assert(!catalog.divisions[p].is(catalog.divisions[i].id, catalog.divisions[i].division));
    } else if i < p {
        assert(!catalog.divisions[i].is(catalog.divisions[p].id, catalog.divisions[p].division));
    }
}

/// A well-formed student holds the decision for a subject at one place only.
pub proof fn lemma_slot(student: StudentView, i: int)
    requires
        student.wf(),
        0 <= i < student.subjects.len(),
    ensures
        student.tracks(student.subjects[i].0),
        student.slot(student.subjects[i].0) == i,
        student.status(student.subjects[i].0) == Some(student.subjects[i].1),
{
    let s = student.subjects[i].0;
    let p = student.slot(s);
    assert(student.subjects[p].0 == s);
}

} // verus!
