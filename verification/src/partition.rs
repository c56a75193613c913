//! The partition pass: a fixed list of students split over two divisions
//! of one subject.
use crate::error::Error;
use crate::fill::draw_size;
use crate::engine::{lemma_same_schedule, lemma_student_same_schedule};
use crate::model::{lemma_position, StatusView};
use crate::roster::{
    enroll, find_student, holds_id, lemma_enroll_consistent, lemma_first_exists,
    lemma_leads_to_chains, lemma_leads_to_self, lemma_places_stay, place_of, snapshot, Snapshot,
};
use crate::sampling::{distinct_below, sample};
use crate::student::Student;
use crate::subject::Catalog;
use rand::rngs::StdRng;
use vstd::prelude::*;

verus! {

/// The ids of a list of students.
pub open spec fn id_list(ids: &[&str]) -> Seq<Seq<char>> {
    Seq::new(ids@.len(), |j: int| ids@[j]@)
}

/// The division of the `j`-th listed student: `sampled` where `picks` holds
/// `j`, `rest` otherwise.
pub open spec fn bucket(picks: Seq<usize>, j: int, sampled: Seq<char>, rest: Seq<char>) -> Seq<
    char,
> {
    if picks.contains(j as usize) {
        sampled
    } else {
        rest
    }
}

/// The snapshot after the first `n` listed students were assigned, one
/// after the other, each to its division, up to the first student that was
/// not found or whose assignment was refused, and the reason.
pub open spec fn partition_upto(
    s: Snapshot,
    subject: Seq<char>,
    ids: Seq<Seq<char>>,
    picks: Seq<usize>,
    sampled: Seq<char>,
    rest: Seq<char>,
    n: int,
) -> (Snapshot, Option<Error>)
    decreases n,
{
    if n <= 0 {
        (s, None)
    } else {
        let (t, e) = partition_upto(s, subject, ids, picks, sampled, rest, n - 1);
        if e is Some {
            (t, e)
        } else if !holds_id(t.roster, ids[n - 1]) {
            (t, Some(Error::NotFound))
        } else {
            t.assign(place_of(t.roster, ids[n - 1]), subject, bucket(picks, n - 1, sampled, rest))
        }
    }
}

/// Whether `picks` holds the place `j`.
pub fn is_picked(picks: &Vec<usize>, j: usize) -> (r: bool)
    ensures
        r == picks@.contains(j),
{
    let mut i: usize = 0;
    while i < picks.len()
        invariant
            i <= picks@.len(),
            forall|k: int| 0 <= k < i ==> picks@[k] != j,
        decreases picks.len() - i,
    {
        if picks[i] == j {
            return true;
        }
        i += 1;
    }
    false
}

/// Assigns the listed students, one after the other, to two divisions of
/// subject `subject_id`: the student at a place of the list that `picks`
/// holds to `sampled`, every other to `rest`. A listed id that no student
/// has and an assignment that is refused end the run with the reason; the
/// assignments made before stay.
pub fn partition_with(
    roster: &mut Vec<Student>,
    catalog: &mut Catalog,
    subject_id: &str,
    ids: &[&str],
    picks: &Vec<usize>,
    sampled: &str,
    rest: &str,
) -> (r: Result<(), Error>)
    requires
        snapshot(old(roster), old(catalog)).consistent(),
    ensures
        snapshot(final(roster), final(catalog)).consistent(),
        snapshot(old(roster), old(catalog)).leads_to(snapshot(final(roster), final(catalog))),
        (snapshot(final(roster), final(catalog)), r.err()) == partition_upto(
            snapshot(old(roster), old(catalog)),
            subject_id@,
            id_list(ids),
            picks@,
            sampled@,
            rest@,
            ids@.len() as int,
        ),
{
    let ghost start = snapshot(roster, catalog);
    proof {
        lemma_leads_to_self(start);
    }
    let mut j: usize = 0;
    while j < ids.len()
        invariant
            j <= ids@.len(),
            start == snapshot(old(roster), old(catalog)),
            start.consistent(),
            snapshot(roster, catalog).consistent(),
            start.leads_to(snapshot(roster, catalog)),
            (snapshot(roster, catalog), None::<Error>) == partition_upto(
                start,
                subject_id@,
                id_list(ids),
                picks@,
                sampled@,
                rest@,
                j as int,
            ),
        decreases ids.len() - j,
    {
        let ghost before = snapshot(roster, catalog);
        assert(id_list(ids)[j as int] == ids@[j as int]@);
        let place = match find_student(roster, ids[j]) {
            Some(place) => place,
            None => {
                proof {
                    lemma_partition_stops(
                        start,
                        subject_id@,
                        id_list(ids),
                        picks@,
                        sampled@,
                        rest@,
                        j + 1,
                        ids@.len() as int,
                    );
                }
                return Err(Error::NotFound);
            },
        };
        let division_id = if is_picked(picks, j) {
            sampled
        } else {
            rest
        };
        let r = enroll(roster, place, subject_id, division_id, catalog);
        proof {
            lemma_leads_to_chains(start, before, snapshot(roster, catalog));
        }
        if let Err(e) = r {
            proof {
                lemma_partition_stops(
                    start,
                    subject_id@,
                    id_list(ids),
                    picks@,
                    sampled@,
                    rest@,
                    j + 1,
                    ids@.len() as int,
                );
            }
            return Err(e);
        }
        j += 1;
    }
    Ok(())
}

/// The places `0` to `n - 1`, in their order.
pub fn all_places(n: usize) -> (r: Vec<usize>)
    ensures
        r@.len() == n,
        forall|i: int| 0 <= i < n ==> #[trigger] r@[i] == i,
{
    let mut r: Vec<usize> = Vec::new();
    let mut i: usize = 0;
    while i < n
        invariant
            i <= n,
            r@.len() == i,
            forall|k: int| 0 <= k < i ==> #[trigger] r@[k] == k,
        decreases n - i,
    {
        r.push(i);
        i += 1;
    }
    r
}

/// Splits the listed students over two divisions of subject `subject_id`:
/// draws `amount` places of the list, or all where the list is shorter,
/// assigns the students at the drawn places to `sampled` and every other
/// listed student to `rest`. Returns the drawn places and how the
/// assignments ended. Where every place of a list of more than `u32::MAX`
/// students is drawn, no draw is made and the places are taken in their
/// order.
pub fn partition(
    roster: &mut Vec<Student>,
    catalog: &mut Catalog,
    subject_id: &str,
    ids: &[&str],
    amount: usize,
    sampled: &str,
    rest: &str,
    rng: &mut StdRng,
) -> (r: (Vec<usize>, Result<(), Error>))
    requires
        snapshot(old(roster), old(catalog)).consistent(),
    ensures
        snapshot(final(roster), final(catalog)).consistent(),
        snapshot(old(roster), old(catalog)).leads_to(snapshot(final(roster), final(catalog))),
        r.0@.len() == draw_size(amount as int, ids@.len() as int),
        distinct_below(r.0@, ids@.len() as int),
        (snapshot(final(roster), final(catalog)), r.1.err()) == partition_upto(
            snapshot(old(roster), old(catalog)),
            subject_id@,
            id_list(ids),
            r.0@,
            sampled@,
            rest@,
            ids@.len() as int,
        ),
{
    let size = if amount <= ids.len() {
        amount
    } else {
        ids.len()
    };
    let picks = if size < ids.len() || ids.len() <= 0xffff_ffff {
        sample(rng, ids.len(), size)
    } else {
        all_places(ids.len())
    };
    let done = partition_with(roster, catalog, subject_id, ids, &picks, sampled, rest);
    (picks, done)
}

/// Once a listed student stopped the run, the students after it change
/// nothing.
pub proof fn lemma_partition_stops(
    s: Snapshot,
    subject: Seq<char>,
    ids: Seq<Seq<char>>,
    picks: Seq<usize>,
    sampled: Seq<char>,
    rest: Seq<char>,
    n: int,
    m: int,
)
    requires
        0 <= n <= m,
        partition_upto(s, subject, ids, picks, sampled, rest, n).1 is Some,
    ensures
        partition_upto(s, subject, ids, picks, sampled, rest, m) == partition_upto(
            s,
            subject,
            ids,
            picks,
            sampled,
            rest,
            n,
        ),
    decreases m - n,
{
    if n < m {
        lemma_partition_stops(s, subject, ids, picks, sampled, rest, n, m - 1);
    }
}

/// A partition that ends well has placed every listed student: each of
/// them is found in the roster and is enrolled in the division of its
/// place in the list, `sampled` for a place that was picked and `rest` for
/// every other.
pub proof fn partition_places_everyone(
    s: Snapshot,
    subject: Seq<char>,
    ids: Seq<Seq<char>>,
    picks: Seq<usize>,
    sampled: Seq<char>,
    rest: Seq<char>,
    n: int,
    j: int,
)
    requires
        s.consistent(),
        0 <= j < n <= ids.len(),
        partition_upto(s, subject, ids, picks, sampled, rest, n).1 is None,
    ensures
        holds_id(s.roster, ids[j]),
        s.roster[place_of(s.roster, ids[j])].status(subject) == Some(StatusView::Undefined),
        partition_upto(s, subject, ids, picks, sampled, rest, n).0.roster[place_of(
            s.roster,
            ids[j],
        )].enrolled_in(subject, bucket(picks, j, sampled, rest)),
    decreases n,
{
    lemma_partition_keeps(s, subject, ids, picks, sampled, rest, n - 1);
    let t = partition_upto(s, subject, ids, picks, sampled, rest, n - 1).0;
    let u = partition_upto(s, subject, ids, picks, sampled, rest, n).0;
    let last = ids[n - 1];
    let division = bucket(picks, n - 1, sampled, rest);
    lemma_places_stay(s, t, last);
    let p = place_of(t.roster, last);
    lemma_first_exists(
        t.roster,
        last,
        choose|i: int| 0 <= i < t.roster.len() && (#[trigger] t.roster[i]).id == last,
    );
    assert(u == t.enroll(p, subject, division));
    crate::engine::lemma_enrolled(t.roster[p], subject, division);
    if j == n - 1 {
        crate::laws::status_only_settles(s, t, p, subject);
    } else {
        partition_places_everyone(s, subject, ids, picks, sampled, rest, n - 1, j);
        let q = place_of(s.roster, ids[j]);
        lemma_first_exists(
            s.roster,
            ids[j],
            choose|i: int| 0 <= i < s.roster.len() && (#[trigger] s.roster[i]).id == ids[j],
        );
        assert(q != p);
        assert(u.roster[q] == t.roster[q]);
    }
}

/// As long as no listed student stopped it, a partition keeps the snapshot
/// consistent, and the snapshot before it leads to the snapshot after it.
pub proof fn lemma_partition_keeps(
    s: Snapshot,
    subject: Seq<char>,
    ids: Seq<Seq<char>>,
    picks: Seq<usize>,
    sampled: Seq<char>,
    rest: Seq<char>,
    n: int,
)
    requires
        s.consistent(),
        0 <= n <= ids.len(),
        n > 0 ==> partition_upto(s, subject, ids, picks, sampled, rest, n).1 is None,
    ensures
        partition_upto(s, subject, ids, picks, sampled, rest, n).1 is None,
        partition_upto(s, subject, ids, picks, sampled, rest, n).0.consistent(),
        s.leads_to(partition_upto(s, subject, ids, picks, sampled, rest, n).0),
    decreases n,
{
    if n == 0 {
        lemma_leads_to_self(s);
    } else {
        lemma_partition_keeps(s, subject, ids, picks, sampled, rest, n - 1);
        let t = partition_upto(s, subject, ids, picks, sampled, rest, n - 1).0;
        let p = place_of(t.roster, ids[n - 1]);
        let division = bucket(picks, n - 1, sampled, rest);
        lemma_first_exists(
            t.roster,
            ids[n - 1],
            choose|i: int| 0 <= i < t.roster.len() && (#[trigger] t.roster[i]).id == ids[n - 1],
        );
        lemma_enroll_consistent(t, p, subject, division);
        lemma_leads_to_chains(s, t, t.enroll(p, subject, division));
    }
}

/// How many of the first `n` places of the list `picks` holds.
pub open spec fn picked_upto(picks: Seq<usize>, n: int) -> int
    decreases n,
{
    if n <= 0 {
        0
    } else {
        picked_upto(picks, n - 1) + if picks.contains((n - 1) as usize) {
            1int
        } else {
            0int
        }
    }
}

/// Whether the `j`-th listed student can be assigned to its division in
/// snapshot `s`: the student is in the roster, the decision for the subject
/// is open, and the division is disjoint from the student's enrolments.
pub open spec fn ready(
    s: Snapshot,
    subject: Seq<char>,
    ids: Seq<Seq<char>>,
    picks: Seq<usize>,
    sampled: Seq<char>,
    rest: Seq<char>,
    j: int,
) -> bool {
    &&& holds_id(s.roster, ids[j])
    &&& s.roster[place_of(s.roster, ids[j])].status(subject) == Some(StatusView::Undefined)
    &&& s.roster[place_of(s.roster, ids[j])].can_take(
        s.catalog.get(subject, bucket(picks, j, sampled, rest)).hour,
        s.catalog,
    )
}

/// A partition ends well, and the two divisions grow by their shares,
/// where the two divisions are different divisions of the catalog with
/// seats for their shares, no id is listed twice, and every listed student
/// is in the roster with an open decision for the subject and a schedule
/// free for the division of its place.
pub proof fn partition_ends_well(
    s: Snapshot,
    subject: Seq<char>,
    ids: Seq<Seq<char>>,
    picks: Seq<usize>,
    sampled: Seq<char>,
    rest: Seq<char>,
    n: int,
)
    requires
        s.consistent(),
        0 <= n <= ids.len(),
        n <= usize::MAX,
        sampled != rest,
        s.catalog.contains(subject, sampled),
        s.catalog.contains(subject, rest),
        forall|a: int, b: int| 0 <= a < b < n ==> ids[a] != ids[b],
        forall|j: int| 0 <= j < n ==> #[trigger] ready(s, subject, ids, picks, sampled, rest, j),
        picked_upto(picks, n) <= s.catalog.get(subject, sampled).room(),
        n - picked_upto(picks, n) <= s.catalog.get(subject, rest).room(),
    ensures
        partition_upto(s, subject, ids, picks, sampled, rest, n).1 is None,
        partition_upto(s, subject, ids, picks, sampled, rest, n).0.consistent(),
        s.leads_to(partition_upto(s, subject, ids, picks, sampled, rest, n).0),
        partition_upto(s, subject, ids, picks, sampled, rest, n).0.catalog.get(
            subject,
            sampled,
        ).assigned == s.catalog.get(subject, sampled).assigned + picked_upto(picks, n),
        partition_upto(s, subject, ids, picks, sampled, rest, n).0.catalog.get(
            subject,
            rest,
        ).assigned == s.catalog.get(subject, rest).assigned + n - picked_upto(picks, n),
        forall|i: int|
            0 <= i < s.roster.len() && (forall|j: int|
                0 <= j < n ==> i != place_of(s.roster, #[trigger] ids[j])) ==> #[trigger] partition_upto(
                s,
                subject,
                ids,
                picks,
                sampled,
                rest,
                n,
            ).0.roster[i] == s.roster[i],
    decreases n,
{
    if n == 0 {
        lemma_leads_to_self(s);
    } else {
        assert forall|j: int| 0 <= j < n - 1 implies #[trigger] ready(
            s,
            subject,
            ids,
            picks,
            sampled,
            rest,
            j,
        ) by {}
        partition_ends_well(s, subject, ids, picks, sampled, rest, n - 1);
        let t = partition_upto(s, subject, ids, picks, sampled, rest, n - 1).0;
        let id = ids[n - 1];
        let division = bucket(picks, n - 1, sampled, rest);
        assert(ready(s, subject, ids, picks, sampled, rest, n - 1));
        lemma_places_stay(s, t, id);
        let p = place_of(s.roster, id);
        lemma_first_exists(
            s.roster,
            id,
            choose|i: int| 0 <= i < s.roster.len() && (#[trigger] s.roster[i]).id == id,
        );
        assert forall|j: int| 0 <= j < n - 1 implies p != place_of(s.roster, #[trigger] ids[j]) by {
            assert(ready(s, subject, ids, picks, sampled, rest, j));
            lemma_first_exists(
                s.roster,
                ids[j],
                choose|i: int| 0 <= i < s.roster.len() && (#[trigger] s.roster[i]).id == ids[j],
            );
            assert(ids[j] != ids[n - 1]);
        }
        assert(t.roster[p] == s.roster[p]);
        let ks = s.catalog.position(subject, sampled);
        let kr = s.catalog.position(subject, rest);
        assert(s.catalog.divisions[ks].is(subject, sampled));
        assert(s.catalog.divisions[kr].is(subject, rest));
        lemma_position(s.catalog, ks);
        lemma_position(s.catalog, kr);
        lemma_same_schedule(s.catalog, t.catalog, subject, sampled);
        lemma_same_schedule(s.catalog, t.catalog, subject, rest);
        lemma_student_same_schedule(s.roster[p], s.catalog, t.catalog);
        assert(t.fault(p, subject, division) is None);
        lemma_enroll_consistent(t, p, subject, division);
        let u = t.enroll(p, subject, division);
        assert(u == partition_upto(s, subject, ids, picks, sampled, rest, n).0);
        lemma_leads_to_chains(s, t, u);
        lemma_same_schedule(t.catalog, u.catalog, subject, sampled);
        lemma_same_schedule(t.catalog, u.catalog, subject, rest);
        assert(ks != kr);
        assert forall|i: int|
            0 <= i < s.roster.len() && (forall|j: int|
                0 <= j < n ==> i != place_of(s.roster, #[trigger] ids[j])) implies #[trigger] u.roster[i]
            == s.roster[i] by {
            assert(i != place_of(s.roster, ids[n - 1]));
            assert forall|j: int| 0 <= j < n - 1 implies i != place_of(
                s.roster,
                #[trigger] ids[j],
            ) by {}
            assert(t.roster[i] == s.roster[i]);
        }
    }
}

} // verus!
