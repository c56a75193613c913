//! The roster and the catalog taken together: what holds of them at every
//! point of a run, and the step that enrols one student of the roster.
use crate::engine::{assign, lemma_assign_keeps, lemma_enrolled, lemma_student_same_schedule};
use crate::error::Error;
use crate::model::{assign_fault, lemma_position, CatalogView, StatusView, StudentView};
use crate::student::Student;
use crate::subject::Catalog;
use crate::text::text_eq;
use vstd::prelude::*;

verus! {

/// How many students of `roster` are enrolled in division `division` of
/// `subject`.
pub open spec fn headcount(roster: Seq<StudentView>, subject: Seq<char>, division: Seq<char>) -> nat
    decreases roster.len(),
{
    if roster.len() == 0 {
        0
    } else {
        headcount(roster.drop_last(), subject, division) + if roster.last().enrolled_in(
            subject,
            division,
        ) {
            1nat
        } else {
            0nat
        }
    }
}

/// The roster and the catalog at one point of a run.
pub struct Snapshot {
    pub roster: Seq<StudentView>,
    pub catalog: CatalogView,
}

impl Snapshot {
    /// What every step of the engine keeps: the catalog and the students are
    /// well formed; every enrolment names a division of the catalog; no two
    /// enrolments of a student overlap; and every division counts exactly
    /// the students that are enrolled in it.
    pub open spec fn consistent(self) -> bool {
        &&& self.catalog.wf()
        &&& forall|i: int|
            0 <= i < self.roster.len() ==> {
                &&& (#[trigger] self.roster[i]).wf()
                &&& self.roster[i].resolved(self.catalog)
                &&& self.roster[i].conflict_free(self.catalog)
            }
        &&& forall|k: int|
            0 <= k < self.catalog.divisions.len() ==> (#[trigger] self.catalog.divisions[k]).assigned
                == headcount(
                self.roster,
                self.catalog.divisions[k].id,
                self.catalog.divisions[k].division,
            )
    }

    /// Why the `i`-th student cannot be assigned to division `division` of
    /// `subject`, or `None` where the assignment goes through.
    pub open spec fn fault(self, i: int, subject: Seq<char>, division: Seq<char>) -> Option<Error> {
        if 0 <= i < self.roster.len() {
            assign_fault(self.roster[i], subject, division, self.catalog)
        } else {
            Some(Error::NotFound)
        }
    }

    /// The snapshot after the `i`-th student was enrolled in division
    /// `division` of `subject`.
    pub open spec fn enroll(self, i: int, subject: Seq<char>, division: Seq<char>) -> Snapshot {
        Snapshot {
            roster: self.roster.update(i, self.roster[i].enrolled(subject, division)),
            catalog: self.catalog.incremented(subject, division),
        }
    }

    /// The snapshot after an attempt to assign the `i`-th student, and the
    /// reason for which the attempt was refused, if it was.
    pub open spec fn assign(self, i: int, subject: Seq<char>, division: Seq<char>) -> (
        Snapshot,
        Option<Error>,
    ) {
        match self.fault(i, subject, division) {
            Some(e) => (self, Some(e)),
            None => (self.enroll(i, subject, division), None),
        }
    }

    /// `later` can be reached from this snapshot by assignments: the same
    /// students and divisions, every decision either as it was or changed
    /// from open to an enrolment in a division of the catalog, and no
    /// division with fewer students than before.
    pub open spec fn leads_to(self, later: Snapshot) -> bool {
        &&& later.roster.len() == self.roster.len()
        &&& forall|i: int|
            0 <= i < self.roster.len() ==> settles(
                #[trigger] self.roster[i],
                later.roster[i],
                self.catalog,
            )
        &&& self.catalog.same_schedule(later.catalog)
        &&& forall|k: int|
            0 <= k < self.catalog.divisions.len() ==> (#[trigger] self.catalog.divisions[k]).assigned
                <= later.catalog.divisions[k].assigned
    }
}

/// `after` is `before` with some open decisions changed to enrolments in
/// divisions of `catalog`, and nothing else changed.
pub open spec fn settles(before: StudentView, after: StudentView, catalog: CatalogView) -> bool {
    &&& after.id == before.id
    &&& after.name == before.name
    &&& after.gender == before.gender
    &&& after.nationality == before.nationality
    &&& after.high_school == before.high_school
    &&& after.high_school_category == before.high_school_category
    &&& after.subjects.len() == before.subjects.len()
    &&& forall|j: int|
        0 <= j < before.subjects.len() ==> {
            &&& (#[trigger] after.subjects[j]).0 == before.subjects[j].0
            &&& {
                ||| after.subjects[j].1 == before.subjects[j].1
                ||| {
                    &&& before.subjects[j].1 is Undefined
                    &&& after.subjects[j].1 matches StatusView::Enroll(d)
                    &&& catalog.contains(before.subjects[j].0, d)
                }
            }
        }
}

/// The roster and the catalog as one snapshot.
pub open spec fn snapshot(roster: &Vec<Student>, catalog: &Catalog) -> Snapshot {
    Snapshot { roster: roster.deep_view(), catalog: catalog@ }
}

/// Assigns the `i`-th student of the roster to division `division_id` of
/// subject `subject_id`. The assignment is refused, and nothing changes,
/// where `Snapshot::fault` names a reason; a place outside the roster is not
/// found.
pub fn enroll(
    roster: &mut Vec<Student>,
    i: usize,
    subject_id: &str,
    division_id: &str,
    catalog: &mut Catalog,
) -> (r: Result<(), Error>)
    requires
        snapshot(old(roster), old(catalog)).consistent(),
    ensures
        snapshot(final(roster), final(catalog)).consistent(),
        snapshot(old(roster), old(catalog)).leads_to(snapshot(final(roster), final(catalog))),
        (snapshot(final(roster), final(catalog)), r.err()) == snapshot(
            old(roster),
            old(catalog),
        ).assign(i as int, subject_id@, division_id@),
{
    let ghost before = snapshot(roster, catalog);
    if i >= roster.len() {
        proof {
            lemma_leads_to_self(before);
        }
        return Err(Error::NotFound);
    }
    assert(before.roster[i as int] == roster@[i as int]@);
    let student = &mut roster[i];
    let r = assign(student, subject_id, division_id, catalog);
    proof {
        let after = snapshot(roster, catalog);
        if r is Ok {
            assert(after.roster =~= before.enroll(i as int, subject_id@, division_id@).roster);
            lemma_enroll_consistent(before, i as int, subject_id@, division_id@);
        } else {
            assert(after.roster =~= before.roster);
            lemma_leads_to_self(before);
        }
    }
    r
}

/// Replacing one student changes the headcount of a division by that
/// student's part in it.
pub proof fn lemma_headcount_update(
    roster: Seq<StudentView>,
    i: int,
    student: StudentView,
    subject: Seq<char>,
    division: Seq<char>,
)
    requires
        0 <= i < roster.len(),
    ensures
        headcount(roster.update(i, student), subject, division) == headcount(
            roster,
            subject,
            division,
        ) - (if roster[i].enrolled_in(subject, division) {
            1int
        } else {
            0int
        }) + (if student.enrolled_in(subject, division) {
            1int
        } else {
            0int
        }),
    decreases roster.len(),
{
    let changed = roster.update(i, student);
    if i == roster.len() - 1 {
        assert(changed.drop_last() =~= roster.drop_last());
    } else {
        assert(changed.drop_last() =~= roster.drop_last().update(i, student));
        lemma_headcount_update(roster.drop_last(), i, student, subject, division);
    }
}

/// Every snapshot leads to itself.
pub proof fn lemma_leads_to_self(s: Snapshot)
    ensures
        s.leads_to(s),
{
}

/// What can be reached in two runs can be reached in one.
pub proof fn lemma_leads_to_chains(a: Snapshot, b: Snapshot, c: Snapshot)
    requires
        a.catalog.wf(),
        b.catalog.wf(),
        a.leads_to(b),
        b.leads_to(c),
    ensures
        a.leads_to(c),
{
    assert forall|i: int| 0 <= i < a.roster.len() implies settles(
        #[trigger] a.roster[i],
        c.roster[i],
        a.catalog,
    ) by {
        let x = a.roster[i];
        let y = b.roster[i];
        let z = c.roster[i];
        assert(settles(x, y, a.catalog));
        assert(settles(y, z, b.catalog));
        assert forall|j: int| 0 <= j < x.subjects.len() implies {
            &&& (#[trigger] z.subjects[j]).0 == x.subjects[j].0
            &&& {
                ||| z.subjects[j].1 == x.subjects[j].1
                ||| {
                    &&& x.subjects[j].1 is Undefined
                    &&& z.subjects[j].1 matches StatusView::Enroll(d)
                    &&& a.catalog.contains(x.subjects[j].0, d)
                }
            }
        } by {
            assert(y.subjects[j].0 == x.subjects[j].0);
            if let StatusView::Enroll(d) = z.subjects[j].1 {
                if b.catalog.contains(y.subjects[j].0, d) {
                    let k = b.catalog.position(y.subjects[j].0, d);
                    assert(a.catalog.divisions[k].is(x.subjects[j].0, d));
                }
            }
        }
    }
    assert forall|k: int| 0 <= k < a.catalog.divisions.len() implies (
    #[trigger] a.catalog.divisions[k]).assigned <= c.catalog.divisions[k].assigned by {
        assert(b.catalog.divisions[k].assigned <= c.catalog.divisions[k].assigned);
    }
    assert forall|k: int| 0 <= k < a.catalog.divisions.len() implies (
    #[trigger] c.catalog.divisions[k]) == (crate::model::DivisionView {
        assigned: c.catalog.divisions[k].assigned,
        ..a.catalog.divisions[k]
    }) by {
        assert(b.catalog.divisions[k] == (crate::model::DivisionView {
            assigned: b.catalog.divisions[k].assigned,
            ..a.catalog.divisions[k]
        }));
    }
}

/// An assignment that goes through keeps a consistent snapshot consistent,
/// and the snapshot before it leads to the snapshot after it.
pub proof fn lemma_enroll_consistent(
    s: Snapshot,
    i: int,
    subject: Seq<char>,
    division: Seq<char>,
)
    requires
        s.consistent(),
        s.fault(i, subject, division) is None,
    ensures
        s.enroll(i, subject, division).consistent(),
        s.leads_to(s.enroll(i, subject, division)),
{
    let t = s.enroll(i, subject, division);
    let student = s.roster[i];
    let k = s.catalog.position(subject, division);
    lemma_assign_keeps(student, subject, division, s.catalog);
    lemma_enrolled(student, subject, division);
    assert(s.catalog.divisions[k].is(subject, division));
    assert forall|j: int| 0 <= j < t.roster.len() implies {
        &&& (#[trigger] t.roster[j]).wf()
        &&& t.roster[j].resolved(t.catalog)
        &&& t.roster[j].conflict_free(t.catalog)
    } by {
        if j != i {
            assert(t.roster[j] == s.roster[j]);
            lemma_student_same_schedule(s.roster[j], s.catalog, t.catalog);
        }
    }
    assert forall|m: int| 0 <= m < t.catalog.divisions.len() implies (
    #[trigger] t.catalog.divisions[m]).assigned == headcount(
        t.roster,
        t.catalog.divisions[m].id,
        t.catalog.divisions[m].division,
    ) by {
        let d = s.catalog.divisions[m];
        assert(d.assigned == headcount(s.roster, d.id, d.division));
        lemma_headcount_update(s.roster, i, student.enrolled(subject, division), d.id, d.division);
        if m == k {
        } else {
            lemma_position(s.catalog, m);
            lemma_position(s.catalog, k);
            assert(!d.is(subject, division));
            if d.id != subject {
                assert(student.enrolled(subject, division).status(d.id) == student.status(d.id));
            }
        }
    }
    assert forall|j: int| 0 <= j < s.roster.len() implies settles(
        #[trigger] s.roster[j],
        t.roster[j],
        s.catalog,
    ) by {
        if j == i {
            let p = student.slot(subject);
            assert(student.subjects[p].0 == subject);
            crate::model::lemma_slot(student, p);
        }
    }
}

/// Whether a student of the roster has the id `id`.
pub open spec fn holds_id(roster: Seq<StudentView>, id: Seq<char>) -> bool {
    exists|i: int| 0 <= i < roster.len() && (#[trigger] roster[i]).id == id
}

/// Whether `i` is the first place of the roster with a student of id `id`.
pub open spec fn first_with_id(roster: Seq<StudentView>, id: Seq<char>, i: int) -> bool {
    &&& 0 <= i < roster.len()
    &&& roster[i].id == id
    &&& forall|k: int| 0 <= k < i ==> (#[trigger] roster[k]).id != id
}

/// The first place of the roster with a student of id `id`.
pub open spec fn place_of(roster: Seq<StudentView>, id: Seq<char>) -> int {
    choose|i: int| first_with_id(roster, id, i)
}

/// The first place of the roster with a student of id `id`, if there is
/// one.
pub fn find_student(roster: &Vec<Student>, id: &str) -> (r: Option<usize>)
    ensures
        (r is Some) == holds_id(roster.deep_view(), id@),
        r matches Some(i) ==> i == place_of(roster.deep_view(), id@) && i < roster@.len(),
{
    let ghost students = roster.deep_view();
    let mut i: usize = 0;
    while i < roster.len()
        invariant
            i <= roster@.len(),
            students == roster.deep_view(),
            forall|k: int| 0 <= k < i ==> (#[trigger] students[k]).id != id@,
        decreases roster.len() - i,
    {
        assert(students[i as int] == roster@[i as int]@);
        if text_eq(roster[i].id.as_str(), id) {
            proof {
                assert(first_with_id(students, id@, i as int));
                let p = place_of(students, id@);
                assert(first_with_id(students, id@, p));
                if p < i {
                    assert(students[p].id != id@);
                }
                if i < p {
                    assert(students[i as int].id != id@);
                }
            }
            return Some(i);
        }
        i += 1;
    }
    None
}

/// Whether no two students of the roster have the same id.
pub open spec fn distinct_ids(roster: Seq<StudentView>) -> bool {
    forall|i: int, j: int|
        0 <= i < j < roster.len() ==> (#[trigger] roster[i]).id != (#[trigger] roster[j]).id
}

/// Whether no two students of the roster have the same id.
pub fn has_distinct_ids(roster: &Vec<Student>) -> (r: bool)
    ensures
        r == distinct_ids(roster.deep_view()),
{
    let ghost students = roster.deep_view();
    let n = roster.len();
    let mut j: usize = 0;
    while j < n
        invariant
            j <= n,
            n == roster@.len(),
            students == roster.deep_view(),
            forall|a: int, b: int|
                0 <= a < b < j ==> (#[trigger] students[a]).id != (#[trigger] students[b]).id,
        decreases n - j,
    {
        let mut i: usize = 0;
        while i < j
            invariant
                i <= j < n,
                n == roster@.len(),
                students == roster.deep_view(),
                forall|a: int| 0 <= a < i ==> (#[trigger] students[a]).id != students[j as int].id,
            decreases j - i,
        {
            assert(students[i as int] == roster@[i as int]@);
            assert(students[j as int] == roster@[j as int]@);
            if text_eq(roster[i].id.as_str(), roster[j].id.as_str()) {
                return false;
            }
            i += 1;
        }
        j += 1;
    }
    true
}

/// Snapshots of which one leads to the other hold the same ids at the same
/// places.
pub proof fn lemma_places_stay(s: Snapshot, t: Snapshot, id: Seq<char>)
    requires
        s.leads_to(t),
    ensures
        holds_id(t.roster, id) == holds_id(s.roster, id),
        holds_id(s.roster, id) ==> place_of(t.roster, id) == place_of(s.roster, id),
{
    assert forall|i: int| 0 <= i < s.roster.len() implies (#[trigger] t.roster[i]).id
        == s.roster[i].id by {
        assert(settles(s.roster[i], t.roster[i], s.catalog));
    }
    if holds_id(s.roster, id) {
        let i = choose|i: int| 0 <= i < s.roster.len() && (#[trigger] s.roster[i]).id == id;
        assert(t.roster[i].id == id);
        lemma_first_exists(s.roster, id, i);
        let p = place_of(s.roster, id);
        assert(first_with_id(t.roster, id, p)) by {
            assert forall|k: int| 0 <= k < p implies (#[trigger] t.roster[k]).id != id by {
                assert(s.roster[k].id != id);
            }
        }
        let q = place_of(t.roster, id);
        if q < p {
            assert(t.roster[q].id == s.roster[q].id);
        }
        if p < q {
            assert(t.roster[p].id != id);
        }
    }
    if holds_id(t.roster, id) {
        let i = choose|i: int| 0 <= i < t.roster.len() && (#[trigger] t.roster[i]).id == id;
        assert(s.roster[i].id == id);
    }
}

/// Where a student has the id, a first student has it.
pub proof fn lemma_first_exists(roster: Seq<StudentView>, id: Seq<char>, i: int)
    requires
        0 <= i < roster.len(),
        roster[i].id == id,
    ensures
        first_with_id(roster, id, place_of(roster, id)),
        place_of(roster, id) <= i,
    decreases i,
{
    if exists|k: int| 0 <= k < i && (#[trigger] roster[k]).id == id {
        let k = choose|k: int| 0 <= k < i && (#[trigger] roster[k]).id == id;
        lemma_first_exists(roster, id, k);
    } else {
        assert(first_with_id(roster, id, i));
        let p = place_of(roster, id);
        if i < p {
            assert(roster[i].id != id);
        }
    }
}

} // verus!
