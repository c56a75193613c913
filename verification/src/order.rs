//! The order of the rows of the table: students sorted by id.
use crate::model::StudentView;
use crate::sampling::distinct_below;
use crate::student::Student;
use crate::table::views;
use vstd::prelude::*;
use vstd::utf8::{encode_utf8, encode_utf8_decode_utf8};

verus! {

/// Whether the bytes `a` stand at or before the bytes `b` in the order of
/// a dictionary.
pub open spec fn bytes_le(a: Seq<u8>, b: Seq<u8>) -> bool
    decreases a.len(),
{
    if a.len() == 0 {
        true
    } else if b.len() == 0 {
        false
    } else if a[0] != b[0] {
        a[0] < b[0]
    } else {
        bytes_le(a.drop_first(), b.drop_first())
    }
}

/// Whether the text `a` stands at or before the text `b`: the order of
/// their bytes in UTF-8.
pub open spec fn text_before(a: Seq<char>, b: Seq<char>) -> bool {
    bytes_le(encode_utf8(a), encode_utf8(b))
}

/// Whether the student at place `a` stands at or before the student at
/// place `b` in the table: by id, and by place where the ids are equal.
pub open spec fn precedes(students: Seq<StudentView>, a: int, b: int) -> bool {
    if students[a].id == students[b].id {
        a <= b
    } else {
        text_before(students[a].id, students[b].id)
    }
}

/// Whether `order` lists every place of `students` once, sorted by id,
/// students with the same id in the order of their places.
pub open spec fn sorted_by_id(order: Seq<usize>, students: Seq<StudentView>) -> bool {
    &&& order.len() == students.len()
    &&& distinct_below(order, students.len() as int)
    &&& forall|k: int, m: int|
        0 <= k < m < order.len() ==> precedes(students, order[k] as int, order[m] as int)
}

/// Of two byte strings one stands at or before the other.
pub proof fn lemma_bytes_total(a: Seq<u8>, b: Seq<u8>)
    ensures
        bytes_le(a, b) || bytes_le(b, a),
    decreases a.len(),
{
    if a.len() > 0 && b.len() > 0 && a[0] == b[0] {
        lemma_bytes_total(a.drop_first(), b.drop_first());
    }
}

/// Byte strings that stand at or before each other are equal.
pub proof fn lemma_bytes_equal(a: Seq<u8>, b: Seq<u8>)
    requires
        bytes_le(a, b),
        bytes_le(b, a),
    ensures
        a == b,
    decreases a.len(),
{
    if a.len() > 0 {
        lemma_bytes_equal(a.drop_first(), b.drop_first());
        assert(a =~= seq![a[0]] + a.drop_first());
        assert(b =~= seq![b[0]] + b.drop_first());
    } else {
        assert(a =~= b);
    }
}

/// The order of byte strings is transitive.
pub proof fn lemma_bytes_chain(a: Seq<u8>, b: Seq<u8>, c: Seq<u8>)
    requires
        bytes_le(a, b),
        bytes_le(b, c),
    ensures
        bytes_le(a, c),
    decreases a.len(),
{
    if a.len() > 0 && a[0] == b[0] && b[0] == c[0] {
        lemma_bytes_chain(a.drop_first(), b.drop_first(), c.drop_first());
    }
}

/// Texts that stand at or before each other are equal.
pub proof fn lemma_text_equal(a: Seq<char>, b: Seq<char>)
    requires
        text_before(a, b),
        text_before(b, a),
    ensures
        a == b,
{
    lemma_bytes_equal(encode_utf8(a), encode_utf8(b));
    encode_utf8_decode_utf8(a);
    encode_utf8_decode_utf8(b);
}

/// The order of the students is transitive.
pub proof fn lemma_precedes_chain(students: Seq<StudentView>, a: int, b: int, c: int)
    requires
        precedes(students, a, b),
        precedes(students, b, c),
    ensures
        precedes(students, a, c),
{
    let x = students[a].id;
    let y = students[b].id;
    let z = students[c].id;
    if x != y && y != z {
        lemma_bytes_chain(encode_utf8(x), encode_utf8(y), encode_utf8(z));
        if x == z {
            lemma_text_equal(x, y);
        }
    }
}

/// Whether the text `a` stands at or before the text `b`.
pub fn text_le(a: &str, b: &str) -> (r: bool)
    ensures
        r == text_before(a@, b@),
{
    let x = a.as_bytes();
    let y = b.as_bytes();
    let mut i: usize = 0;
    assert(x@.skip(0) =~= x@);
    assert(y@.skip(0) =~= y@);
    loop
        invariant
            i <= x@.len(),
            i <= y@.len(),
            x@ == encode_utf8(a@),
            y@ == encode_utf8(b@),
            text_before(a@, b@) == bytes_le(x@.skip(i as int), y@.skip(i as int)),
        decreases x@.len() - i,
    {
        if i == x.len() {
            return true;
        }
        if i == y.len() {
            return false;
        }
        if x[i] != y[i] {
            return x[i] < y[i];
        }
        assert(x@.skip(i as int).drop_first() =~= x@.skip(i + 1));
        assert(y@.skip(i as int).drop_first() =~= y@.skip(i + 1));
        i += 1;
    }
}

/// The places of the students, sorted by id; students with the same id
/// keep the order of their places.
pub fn sorted_places(students: &[Student]) -> (order: Vec<usize>)
    ensures
        sorted_by_id(order@, views(students)),
{
    let ghost all = views(students);
    let mut order: Vec<usize> = Vec::new();
    let mut i: usize = 0;
    while i < students.len()
        invariant
            i <= students@.len(),
            all == views(students),
            order@.len() == i,
            distinct_below(order@, i as int),
            forall|k: int, m: int|
                0 <= k < m < order@.len() ==> precedes(all, order@[k] as int, order@[m] as int),
        decreases students.len() - i,
    {
        let mut p: usize = order.len();
        while p > 0 && !text_le(students[order[p - 1]].id.as_str(), students[i].id.as_str())
            invariant
                p <= order@.len(),
                i < students@.len(),
                all == views(students),
                order@.len() == i,
                distinct_below(order@, i as int),
                forall|k: int|
                    p <= k < order@.len() ==> !text_before(
                        all[#[trigger] order@[k] as int].id,
                        all[i as int].id,
                    ),
            decreases p,
        {
            assert(all[order@[p - 1] as int] == students@[order@[p - 1] as int]@);
            assert(all[i as int] == students@[i as int]@);
            p -= 1;
        }
        let ghost before = order@;
        proof {
            assert(all[i as int] == students@[i as int]@);
            if p > 0 {
                assert(all[before[p - 1] as int] == students@[before[p - 1] as int]@);
            }
        }
        order.insert(p, i);
        proof {
            let now = order@;
            assert forall|k: int, m: int| 0 <= k < m < now.len() implies precedes(
                all,
                now[k] as int,
                now[m] as int,
            ) by {
                if m < p {
                    assert(now[k] == before[k] && now[m] == before[m]);
                } else if m == p {
                    assert(now[k] == before[k]);
                    assert(before[p - 1] < i);
                    assert(precedes(all, before[p - 1] as int, i as int));
                    if k < p - 1 {
                        assert(precedes(all, before[k] as int, before[p - 1] as int));
                        lemma_precedes_chain(all, before[k] as int, before[p - 1] as int, i as int);
                    }
                } else if k == p {
                    assert(now[m] == before[m - 1]);
                    let y = all[before[m - 1] as int].id;
                    assert(!text_before(y, all[i as int].id));
                    lemma_bytes_total(encode_utf8(y), encode_utf8(all[i as int].id));
                } else if k < p {
                    assert(now[k] == before[k] && now[m] == before[m - 1]);
                } else {
                    assert(now[k] == before[k - 1] && now[m] == before[m - 1]);
                }
            }
            assert forall|k: int, m: int| 0 <= k < m < now.len() implies now[k] != now[m] by {
                if k != p && m != p {
                    let a = if k < p {
                        k
                    } else {
                        k - 1
                    };
                    let b = if m < p {
                        m
                    } else {
                        m - 1
                    };
                    assert(before[a] != before[b]);
                } else if k == p {
                    assert(before[m - 1] < i);
                } else {
                    assert(before[k] < i);
                }
            }
            assert forall|k: int| 0 <= k < now.len() implies #[trigger] now[k] < i + 1 by {
                if k < p {
                    assert(before[k] < i);
                } else if k > p {
                    assert(before[k - 1] < i);
                }
            }
        }
        i += 1;
    }
    order
}

} // verus!
