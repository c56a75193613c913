//! Students and their decisions per subject.
use crate::error::Error;
use crate::interval::disjoint;
use crate::model::{lemma_slot, StatusView, StudentView};
use crate::subject::{Catalog, Division};
use crate::text::{text_eq, trim};
use vstd::prelude::*;

verus! {

/// A student's decision for one subject.
#[derive(Debug, PartialEq, Eq)]
pub enum Status {
    /// Enrolled in the division with this id.
    Enroll(String),
    /// Declined; set from outside and never changed by the engine.
    No,
    /// Not decided yet.
    Undefined,
}

impl View for Status {
    type V = StatusView;

    open spec fn view(&self) -> StatusView {
        match self {
            Status::Enroll(d) => StatusView::Enroll(d@),
            Status::No => StatusView::No,
            Status::Undefined => StatusView::Undefined,
        }
    }
}

/// A student: descriptive fields and one decision per tracked subject.
#[derive(Debug, PartialEq, Eq)]
pub struct Student {
    pub id: String,
    pub name: String,
    pub gender: String,
    pub nationality: String,
    pub high_school: String,
    pub high_school_category: String,
    /// The tracked subjects, each with its decision. No subject stands
    /// twice in a well-formed student.
    pub subjects: Vec<(String, Status)>,
}

impl View for Student {
    type V = StudentView;

    open spec fn view(&self) -> StudentView {
        StudentView {
            id: self.id@,
            name: self.name@,
            gender: self.gender@,
            nationality: self.nationality@,
            high_school: self.high_school@,
            high_school_category: self.high_school_category@,
            subjects: Seq::new(
                self.subjects@.len(),
                |i: int| (self.subjects@[i].0@, self.subjects@[i].1@),
            ),
        }
    }
}

impl DeepView for Student {
    type V = StudentView;

    open spec fn deep_view(&self) -> StudentView {
        self@
    }
}

impl Student {
    /// Where the decision for `subject` stands, if the subject is tracked.
    pub fn find(&self, subject: &str) -> (r: Option<usize>)
        requires
            self@.wf(),
        ensures
            (r is Some) == self@.tracks(subject@),
            r matches Some(i) ==> i == self@.slot(subject@) && i < self.subjects@.len(),
    {
        let mut i: usize = 0;
        while i < self.subjects.len()
            invariant
                i <= self.subjects@.len(),
                self@.wf(),
                forall|k: int| 0 <= k < i ==> (#[trigger] self@.subjects[k]).0 != subject@,
            decreases self.subjects.len() - i,
        {
            if text_eq(self.subjects[i].0.as_str(), subject) {
                proof {
                    assert(self@.subjects[i as int].0 == subject@);
                    lemma_slot(self@, i as int);
                }
                return Some(i);
            }
            i += 1;
        }
        None
    }

    /// Whether no subject is tracked twice.
    pub fn is_well_formed(&self) -> (r: bool)
        ensures
            r == self@.wf(),
    {
        let n = self.subjects.len();
        let mut j: usize = 0;
        while j < n
            invariant
                j <= n,
                n == self.subjects@.len(),
                forall|a: int, b: int|
                    0 <= a < b < j ==> (#[trigger] self@.subjects[a]).0 != (
                    #[trigger] self@.subjects[b]).0,
            decreases n - j,
        {
            let mut i: usize = 0;
            while i < j
                invariant
                    i <= j < n,
                    n == self.subjects@.len(),
                    forall|a: int| 0 <= a < i ==> (#[trigger] self@.subjects[a]).0 != self@.subjects[j as int].0,
                decreases j - i,
            {
                if text_eq(self.subjects[i].0.as_str(), self.subjects[j].0.as_str()) {
                    assert(self@.subjects[i as int].0 == self@.subjects[j as int].0);
                    return false;
                }
                i += 1;
            }
            j += 1;
        }
        true
    }

    /// The decision for `subject`, if the subject is tracked.
    pub fn status(&self, subject: &str) -> (r: Option<&Status>)
        requires
            self@.wf(),
        ensures
            match r {
                Some(s) => self@.status(subject@) == Some(s@),
                None => self@.status(subject@) is None,
            },
    {
        match self.find(subject) {
            Some(i) => Some(&self.subjects[i].1),
            None => None,
        }
    }

    /// Whether the student is enrolled in `id`, in a division whose id is
    /// `division` once the blanks around it are removed. The student has to
    /// track the subject.
    pub fn is_taking(&self, id: &str, division: &str) -> (r: bool)
        requires
            self@.wf(),
            self@.tracks(id@),
        ensures
            r == self@.is_taking(id@, division@),
    {
        match self.status(id) {
            Some(Status::Enroll(s)) => text_eq(trim(s.as_str()), division),
            _ => false,
        }
    }

    /// Whether every enrolment of the student names a division of the
    /// catalog.
    pub fn is_resolved(&self, subjects: &Catalog) -> (r: bool)
        requires
            subjects@.wf(),
        ensures
            r == self@.resolved(subjects@),
    {
        let mut i: usize = 0;
        while i < self.subjects.len()
            invariant
                i <= self.subjects@.len(),
                subjects@.wf(),
                forall|k: int|
                    0 <= k < i ==> ((#[trigger] self@.subjects[k]).1 matches StatusView::Enroll(d)
                        ==> subjects@.contains(self@.subjects[k].0, d)),
            decreases self.subjects.len() - i,
        {
            if let Status::Enroll(id) = &self.subjects[i].1 {
                assert(self@.subjects[i as int].1 == StatusView::Enroll(id@));
                if subjects.find(self.subjects[i].0.as_str(), id.as_str()).is_none() {
                    return false;
                }
            }
            i += 1;
        }
        true
    }

    /// The divisions in which the student is enrolled, in the order of the
    /// student's subjects; `NotFound` where an enrolment names a division
    /// that the catalog does not hold.
    pub fn subjects<'a>(&'a self, subjects: &'a Catalog) -> (r: Result<Vec<&'a Division>, Error>)
        requires
            subjects@.wf(),
        ensures
            match r {
                Ok(list) => {
                    &&& self@.resolved(subjects@)
                    &&& list@.len() == enrolments(self@).len()
                    &&& forall|k: int|
                        0 <= k < list@.len() ==> (#[trigger] list@[k])@ == self@.division_at(
                            enrolments(self@)[k],
                            subjects@,
                        )
                },
                Err(e) => e == Error::NotFound && !self@.resolved(subjects@),
            },
    {
        let mut r: Vec<&'a Division> = Vec::new();
        let mut i: usize = 0;
        while i < self.subjects.len()
            invariant
                i <= self.subjects@.len(),
                subjects@.wf(),
                forall|k: int|
                    0 <= k < i ==> ((#[trigger] self@.subjects[k]).1 matches StatusView::Enroll(d)
                        ==> subjects@.contains(self@.subjects[k].0, d)),
                r@.len() == enrolments_upto(self@, i as int).len(),
                forall|k: int|
                    0 <= k < r@.len() ==> (#[trigger] r@[k])@ == self@.division_at(
                        enrolments_upto(self@, i as int)[k],
                        subjects@,
                    ),
            decreases self.subjects.len() - i,
        {
            if let Status::Enroll(d) = &self.subjects[i].1 {
                assert(self@.subjects[i as int].1 == StatusView::Enroll(d@));
                match subjects.get(self.subjects[i].0.as_str(), d.as_str()) {
                    Ok(division) => {
                        r.push(division);
                    },
                    Err(e) => {
                        return Err(e);
                    },
                }
            }
            i += 1;
        }
        Ok(r)
    }

    /// Whether `candidate` is disjoint from every division in which the
    /// student is enrolled; `NotFound` where an enrolment names a division
    /// that the catalog does not hold.
    pub fn can_take(&self, candidate: &Division, subjects: &Catalog) -> (r: Result<bool, Error>)
        requires
            subjects@.wf(),
        ensures
            match r {
                Ok(free) => self@.resolved(subjects@) && free == self@.can_take(
                    candidate@.hour,
                    subjects@,
                ),
                Err(e) => e == Error::NotFound && !self@.resolved(subjects@),
            },
    {
        if !self.is_resolved(subjects) {
            return Err(Error::NotFound);
        }
        let mut i: usize = 0;
        while i < self.subjects.len()
            invariant
                i <= self.subjects@.len(),
                subjects@.wf(),
                self@.resolved(subjects@),
                forall|k: int|
                    0 <= k < i ==> disjoint(#[trigger] self@.booked(k, subjects@), candidate@.hour),
            decreases self.subjects.len() - i,
        {
            if let Status::Enroll(d) = &self.subjects[i].1 {
                assert(self@.subjects[i as int].1 == StatusView::Enroll(d@));
                match subjects.get(self.subjects[i].0.as_str(), d.as_str()) {
                    Ok(division) => {
                        if !division.is_disjoint(candidate) {
                            assert(!disjoint(self@.booked(i as int, subjects@), candidate@.hour));
                            return Ok(false);
                        }
                    },
                    Err(_) => {
                        assert(false);
                    },
                }
            }
            i += 1;
        }
        Ok(true)
    }
}

/// The places of the student's first `n` subjects that hold an enrolment,
/// in rising order.
pub open spec fn enrolments_upto(student: StudentView, n: int) -> Seq<int>
    decreases n,
{
    if n <= 0 {
        Seq::empty()
    } else if student.subjects[n - 1].1 is Enroll {
        enrolments_upto(student, n - 1).push(n - 1)
    } else {
        enrolments_upto(student, n - 1)
    }
}

/// The places of the student's subjects that hold an enrolment, in rising
/// order.
pub open spec fn enrolments(student: StudentView) -> Seq<int> {
    enrolments_upto(student, student.subjects.len() as int)
}

} // verus!
