//! Divisions and the catalog that holds them.
use crate::error::Error;
use crate::interval::{disjoint, disjoint_intervals};
use crate::model::{CatalogView, DivisionView};
use crate::text::{text_eq, trim, trimmed};
use vstd::prelude::*;

verus! {

/// One scheduled offering of a subject, with its quota and weekly hours.
#[derive(Debug, PartialEq, Eq)]
pub struct Division {
    /// The subject's id.
    pub id: String,
    /// The subject's name.
    pub name: String,
    /// The division's id within the subject.
    pub division: String,
    /// Whether the division is taught in English.
    pub english: bool,
    /// How many students are assigned.
    pub assigned: i32,
    /// How many students the division may hold.
    pub quota: i32,
    /// The weekly blocks, each `[start, end)` in minutes of the week.
    pub hour: Vec<[i32; 2]>,
}

impl View for Division {
    type V = DivisionView;

    open spec fn view(&self) -> DivisionView {
        DivisionView {
            id: self.id@,
            name: self.name@,
            division: self.division@,
            english: self.english,
            assigned: self.assigned as int,
            quota: self.quota as int,
            hour: self.hour@,
        }
    }
}

impl Division {
    /// Whether the two divisions share no minute of the week.
    pub fn is_disjoint(&self, rhs: &Self) -> (r: bool)
        ensures
            r == disjoint(self@.hour, rhs@.hour),
    {
        disjoint_intervals(self.hour.as_slice(), rhs.hour.as_slice())
    }

    /// The fixed roster that is split over two divisions of one subject.
    /// The list is empty: no roster is built into the library.
    pub fn read_hss022_students() -> (r: &'static [&'static str])
        ensures
            r@.len() == 0,
    {
        &[]
    }

    /// Whether the count of assigned students lies between zero and the quota.
    pub fn is_valid(&self) -> (r: bool)
        ensures
            r == self@.wf(),
    {
        0 <= self.assigned && self.assigned <= self.quota
    }
}

/// The divisions of all subjects, found by subject id and division id.
#[derive(Debug, PartialEq, Eq)]
pub struct Catalog {
    /// The divisions, in the order in which they were inserted.
    pub divisions: Vec<Division>,
}

impl View for Catalog {
    type V = CatalogView;

    open spec fn view(&self) -> CatalogView {
        CatalogView { divisions: Seq::new(self.divisions@.len(), |i: int| self.divisions@[i]@) }
    }
}

impl Catalog {
    /// A catalog without divisions.
    pub fn new() -> (r: Catalog)
        ensures
            r@.divisions.len() == 0,
            r@.wf(),
    {
        Catalog { divisions: Vec::new() }
    }

    /// Whether no division is listed twice and every division is valid.
    pub fn is_well_formed(&self) -> (r: bool)
        ensures
            r == self@.wf(),
    {
        let n = self.divisions.len();
        let mut j: usize = 0;
        while j < n
            invariant
                j <= n,
                n == self.divisions@.len(),
                forall|a: int| 0 <= a < j ==> (#[trigger] self@.divisions[a]).wf(),
                forall|a: int, b: int|
                    0 <= a < b < j ==> !(#[trigger] self@.divisions[a]).is(
                        (#[trigger] self@.divisions[b]).id,
                        self@.divisions[b].division,
                    ),
            decreases n - j,
        {
            if !self.divisions[j].is_valid() {
                assert(!self@.divisions[j as int].wf());
                return false;
            }
            let mut i: usize = 0;
            while i < j
                invariant
                    i <= j < n,
                    n == self.divisions@.len(),
                    forall|a: int|
                        0 <= a < i ==> !(#[trigger] self@.divisions[a]).is(
                            self@.divisions[j as int].id,
                            self@.divisions[j as int].division,
                        ),
                decreases j - i,
            {
                let a = &self.divisions[i];
                let b = &self.divisions[j];
                if text_eq(a.id.as_str(), b.id.as_str()) && text_eq(
                    a.division.as_str(),
                    b.division.as_str(),
                ) {
                    assert(self@.divisions[i as int].is(
                        self@.divisions[j as int].id,
                        self@.divisions[j as int].division,
                    ));
                    return false;
                }
                i += 1;
            }
            j += 1;
        }
        true
    }

    /// How many divisions the catalog holds.
    pub fn len(&self) -> (r: usize)
        ensures
            r == self@.divisions.len(),
    {
        self.divisions.len()
    }

    /// Where division `division` of subject `subject` stands, if the
    /// catalog holds it.
    pub fn find(&self, subject: &str, division: &str) -> (r: Option<usize>)
        requires
            self@.wf(),
        ensures
            (r is Some) == self@.contains(subject@, division@),
            r matches Some(i) ==> i == self@.position(subject@, division@) && i
                < self.divisions@.len(),
    {
        let mut i: usize = 0;
        while i < self.divisions.len()
            invariant
                i <= self.divisions@.len(),
                self@.wf(),
                forall|k: int| 0 <= k < i ==> !(#[trigger] self@.divisions[k]).is(subject@, division@),
            decreases self.divisions.len() - i,
        {
            let d = &self.divisions[i];
            if text_eq(d.id.as_str(), subject) && text_eq(d.division.as_str(), division) {
                proof {
                    assert(self@.divisions[i as int].is(subject@, division@));
                    crate::model::lemma_position(self@, i as int);
                }
                return Some(i);
            }
            i += 1;
        }
        None
    }

    /// Division `division` of subject `subject`.
    pub fn get(&self, subject: &str, division: &str) -> (r: Result<&Division, Error>)
        requires
            self@.wf(),
        ensures
            match r {
                Ok(d) => self@.contains(subject@, division@) && d@ == self@.get(
                    subject@,
                    division@,
                ),
                Err(e) => !self@.contains(subject@, division@) && e == Error::NotFound,
            },
    {
        match self.find(subject, division) {
            Some(i) => Ok(&self.divisions[i]),
            None => Err(Error::NotFound),
        }
    }

    /// The free seats of division `division` of subject `subject`.
    pub fn remaining_capacity(&self, subject: &str, division: &str) -> (r: Result<usize, Error>)
        requires
            self@.wf(),
        ensures
            match r {
                Ok(n) => self@.contains(subject@, division@) && n == self@.get(
                    subject@,
                    division@,
                ).room() && n <= i32::MAX,
                Err(e) => !self@.contains(subject@, division@) && e == Error::NotFound,
            },
    {
        match self.find(subject, division) {
            Some(i) => {
                let d = &self.divisions[i];
                assert(self@.divisions[i as int].wf());
                Ok((d.quota - d.assigned) as usize)
            },
            None => Err(Error::NotFound),
        }
    }

    /// Assigns one more student to division `division` of subject
    /// `subject`. A full division and an unknown division are refused, and
    /// the catalog is then left as it was.
    pub fn increment_assigned(&mut self, subject: &str, division: &str) -> (r: Result<(), Error>)
        requires
            old(self)@.wf(),
        ensures
            final(self)@.wf(),
            match r {
                Ok(()) => {
                    &&& old(self)@.contains(subject@, division@)
                    &&& old(self)@.get(subject@, division@).room() > 0
                    &&& final(self)@ == old(self)@.incremented(subject@, division@)
                },
                Err(e) => {
                    &&& final(self)@ == old(self)@
                    &&& e == if !old(self)@.contains(subject@, division@) {
                        Error::NotFound
                    } else {
                        Error::CapacityExceeded
                    }
                    &&& old(self)@.contains(subject@, division@) ==> old(self)@.get(
                        subject@,
                        division@,
                    ).room() <= 0
                },
            },
    {
        match self.find(subject, division) {
            Some(i) => {
                assert(self@.divisions[i as int].wf());
                if self.divisions[i].assigned >= self.divisions[i].quota {
                    return Err(Error::CapacityExceeded);
                }
                let d = &mut self.divisions[i];
                d.assigned = d.assigned + 1;
                proof {
                    let before = old(self)@;
                    let after = self@;
                    assert(after.divisions =~= before.incremented(subject@, division@).divisions);
                    lemma_incremented_wf(before, subject@, division@);
                }
                Ok(())
            },
            None => Err(Error::NotFound),
        }
    }

    /// The catalog of the divisions `rows`, inserted in their order. A
    /// division whose count of assigned students is negative or above its
    /// quota is refused, and no catalog is built.
    pub fn from_rows(rows: Vec<Division>) -> (r: Result<Catalog, Error>)
        ensures
            match r {
                Ok(catalog) => {
                    &&& catalog@.wf()
                    &&& forall|i: int| 0 <= i < rows@.len() ==> (#[trigger] rows@[i])@.wf()
                    &&& catalog@ == inserted_all(
                        CatalogView { divisions: Seq::empty() },
                        row_views(rows@),
                    )
                },
                Err(e) => e == Error::CapacityExceeded && exists|i: int|
                    0 <= i < rows@.len() && !(#[trigger] rows@[i])@.wf(),
            },
    {
        let mut catalog = Catalog::new();
        let ghost all = rows@;
        let ghost empty = CatalogView { divisions: Seq::empty() };
        assert(catalog@.divisions =~= empty.divisions);
        assert(row_views(all.take(0)) =~= Seq::<DivisionView>::empty());
        for row in it: rows
            invariant
                it.seq() == all,
                catalog@.wf(),
                forall|k: int| 0 <= k < it.index() ==> (#[trigger] all[k])@.wf(),
                catalog@ == inserted_all(empty, row_views(all.take(it.index() as int))),
        {
            let ghost i = it.index() as int;
            assert(row == all[i]);
            let done = catalog.insert(row);
            if let Err(e) = done {
                assert(!all[i]@.wf());
                return Err(e);
            }
            proof {
                let now = row_views(all.take(i + 1));
                assert(now.drop_last() =~= row_views(all.take(i)));
                assert(now.last() == all[i]@);
            }
        }
        proof {
            assert(all.take(all.len() as int) =~= all);
        }
        Ok(catalog)
    }

    /// Puts `division` into the catalog under its subject id and division
    /// id, both without the blanks around them. A division that the catalog
    /// holds under the same ids is replaced. A division whose count of
    /// assigned students is negative or above its quota is refused.
    pub fn insert(&mut self, division: Division) -> (r: Result<(), Error>)
        requires
            old(self)@.wf(),
        ensures
            final(self)@.wf(),
            match r {
                Ok(()) => {
                    let entry = stored(division@);
                    &&& division@.wf()
                    &&& final(self)@.divisions == if old(self)@.contains(entry.id, entry.division) {
                        old(self)@.divisions.update(
                            old(self)@.position(entry.id, entry.division),
                            entry,
                        )
                    } else {
                        old(self)@.divisions.push(entry)
                    }
                },
                Err(e) => !division@.wf() && e == Error::CapacityExceeded && final(self)@ == old(
                    self,
                )@,
            },
    {
        if !division.is_valid() {
            return Err(Error::CapacityExceeded);
        }
        let Division { id, name, division: section, english, assigned, quota, hour } = division;
        let entry = Division {
            id: trim(id.as_str()).to_owned(),
            name,
            division: trim(section.as_str()).to_owned(),
            english,
            assigned,
            quota,
            hour,
        };
        assert(entry@ == stored(division@));
        match self.find(entry.id.as_str(), entry.division.as_str()) {
            Some(i) => {
                let ghost before = self@;
                self.divisions.set(i, entry);
                proof {
                    assert(self@.divisions =~= before.divisions.update(i as int, entry@));
                }
            },
            None => {
                let ghost before = self@;
                self.divisions.push(entry);
                proof {
                    assert(self@.divisions =~= before.divisions.push(entry@));
                }
            },
        }
        Ok(())
    }
}

/// The catalog after the divisions of `rows` were inserted into `catalog`
/// in their order, each under its ids without the blanks around them, a
/// later division replacing an earlier one with the same ids.
pub open spec fn inserted_all(catalog: CatalogView, rows: Seq<DivisionView>) -> CatalogView
    decreases rows.len(),
{
    if rows.len() == 0 {
        catalog
    } else {
        let before = inserted_all(catalog, rows.drop_last());
        let entry = stored(rows.last());
        CatalogView {
            divisions: if before.contains(entry.id, entry.division) {
                before.divisions.update(before.position(entry.id, entry.division), entry)
            } else {
                before.divisions.push(entry)
            },
        }
    }
}

/// The views of a list of divisions.
pub open spec fn row_views(rows: Seq<Division>) -> Seq<DivisionView> {
    Seq::new(rows.len(), |i: int| rows[i]@)
}

/// What the flag of a division says: `Y` for a division taught in English,
/// one blank for one that is not. `None` for every other text.
pub open spec fn flag_of(s: Seq<char>) -> Option<bool> {
    if s == "Y"@ {
        Some(true)
    } else if s == " "@ {
        Some(false)
    } else {
        None
    }
}

/// What the flag of a division says, if it is one of the two flags.
pub fn bool_from_string(s: &str) -> (r: Option<bool>)
    ensures
        r == flag_of(s@),
{
    if text_eq(s, "Y") {
        Some(true)
    } else if text_eq(s, " ") {
        Some(false)
    } else {
        None
    }
}

/// The division as the catalog stores it: the ids without the blanks
/// around them.
pub open spec fn stored(d: DivisionView) -> DivisionView {
    DivisionView { id: trimmed(d.id), division: trimmed(d.division), ..d }
}

/// Assigning one more student to a division with a free seat keeps the
/// catalog well formed.
pub proof fn lemma_incremented_wf(catalog: CatalogView, subject: Seq<char>, division: Seq<char>)
    requires
        catalog.wf(),
        catalog.contains(subject, division),
        catalog.get(subject, division).room() > 0,
    ensures
        catalog.incremented(subject, division).wf(),
        catalog.same_schedule(catalog.incremented(subject, division)),
{
    let k = catalog.position(subject, division);
    let after = catalog.incremented(subject, division);
    assert forall|i: int| 0 <= i < after.divisions.len() implies (#[trigger] after.divisions[i]).wf() by {
        assert(catalog.divisions[i].wf());
    }
    assert forall|i: int, j: int| 0 <= i < j < after.divisions.len() implies !(
    #[trigger] after.divisions[i]).is((#[trigger] after.divisions[j]).id, after.divisions[j].division) by {
        assert(!catalog.divisions[i].is(catalog.divisions[j].id, catalog.divisions[j].division));
    }
}

} // verus!
