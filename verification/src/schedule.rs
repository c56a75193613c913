//! Reading weekly hours from their written form.
//!
//! A schedule is written as lines that end in a carriage return and a line
//! feed, but for the last. Each line holds, between blanks, the name of a
//! weekday and a range `start~end`; a clock time is written as numbers with
//! `:` between them, each number counting sixty of the one after it. What
//! follows the range on a line, and what follows the end within the range
//! after a second `~`, is not read.
use crate::text::{chars_of, is_blank, is_space};
use vstd::prelude::*;

verus! {

/// What a scan looks for.
#[derive(Debug, Clone, Copy, PartialEq, Eq)]
pub enum Mark {
    /// A blank character.
    Blank,
    /// A character that is not blank.
    Ink,
    /// This character.
    Is(char),
}

impl Mark {
    /// Whether `c` is what the scan looks for.
    pub open spec fn hits(self, c: char) -> bool {
        match self {
            Mark::Blank => is_blank(c),
            Mark::Ink => !is_blank(c),
            Mark::Is(x) => c == x,
        }
    }

    /// Whether `c` is what the scan looks for.
    pub fn meets(self, c: char) -> (r: bool)
        ensures
            r == self.hits(c),
    {
        match self {
            Mark::Blank => is_space(c),
            Mark::Ink => !is_space(c),
            Mark::Is(x) => c == x,
        }
    }
}

/// The first place at or after `from` where `s` holds what `mark` looks
/// for; the length of `s` where there is none.
pub open spec fn seek(s: Seq<char>, mark: Mark, from: int) -> int
    decreases s.len() - from,
{
    if from < 0 || from >= s.len() {
        s.len() as int
    } else if mark.hits(s[from]) {
        from
    } else {
        seek(s, mark, from + 1)
    }
}

/// The first place at or after `from` where a carriage return stands
/// before a line feed; the length of `s` where there is none.
pub open spec fn line_end(s: Seq<char>, from: int) -> int
    decreases s.len() - from,
{
    if from < 0 || from + 1 >= s.len() {
        s.len() as int
    } else if s[from] == '\r' && s[from + 1] == '\n' {
        from
    } else {
        line_end(s, from + 1)
    }
}

/// Whether `c` is one of the digits `0` to `9`.
pub open spec fn is_digit(c: char) -> bool {
    0x30 <= c as u32 <= 0x39
}

/// Whether `s` holds digits only.
pub open spec fn all_digits(s: Seq<char>) -> bool {
    forall|i: int| 0 <= i < s.len() ==> is_digit(#[trigger] s[i])
}

/// The number that the digits of `s` write in base ten.
pub open spec fn decimal(s: Seq<char>) -> int
    decreases s.len(),
{
    if s.len() == 0 {
        0
    } else {
        decimal(s.drop_last()) * 10 + (s.last() as u32 - 0x30)
    }
}

/// Whether `v` is a value of `i32`.
pub open spec fn fits(v: int) -> bool {
    i32::MIN <= v <= i32::MAX
}

/// The number that `s` writes: digits, with `+` or `-` before them or
/// without a sign, and a value of `i32`.
pub open spec fn number_of(s: Seq<char>) -> Option<int> {
    let signed = s.len() > 0 && (s[0] == '-' || s[0] == '+');
    let body = if signed {
        s.skip(1)
    } else {
        s
    };
    let value = if signed && s[0] == '-' {
        -decimal(body)
    } else {
        decimal(body)
    };
    if body.len() > 0 && all_digits(body) && fits(value) {
        Some(value)
    } else {
        None
    }
}

/// The clock time that `s` writes after the numbers before it gave `acc`:
/// every number counts sixty of the next. `None` where a number is not
/// written as `number_of` asks or a step leaves the range of `i32`.
pub open spec fn clock_from(s: Seq<char>, acc: int) -> Option<int>
    decreases s.len(),
    via clock_from_ends
{
    let p = seek(s, Mark::Is(':'), 0);
    match number_of(s.take(p)) {
        None => None,
        Some(n) => if !fits(acc * 60) || !fits(acc * 60 + n) {
            None
        } else if p >= s.len() {
            Some(acc * 60 + n)
        } else {
            clock_from(s.skip(p + 1), acc * 60 + n)
        },
    }
}

#[via_fn]
proof fn clock_from_ends(s: Seq<char>, acc: int) {
    lemma_seek_range(s, Mark::Is(':'), 0);
}

/// The clock time that `s` writes.
pub open spec fn clock_of(s: Seq<char>) -> Option<int> {
    clock_from(s, 0)
}

/// The weekday that `s` names, Monday as `0` to Friday as `4`.
pub open spec fn day_of(s: Seq<char>) -> Option<int> {
    if s.len() != 1 {
        None
    } else if s[0] == '월' {
        Some(0)
    } else if s[0] == '화' {
        Some(1)
    } else if s[0] == '수' {
        Some(2)
    } else if s[0] == '목' {
        Some(3)
    } else if s[0] == '금' {
        Some(4)
    } else {
        None
    }
}

/// The minutes of one day.
pub const DAY: i32 = 1440;

/// The block that the line `s` writes, in minutes of the week.
pub open spec fn interval_of(s: Seq<char>) -> Option<(int, int)> {
    let a = seek(s, Mark::Ink, 0);
    let b = seek(s, Mark::Blank, a);
    let c = seek(s, Mark::Ink, b);
    let d = seek(s, Mark::Blank, c);
    let range = s.subrange(c, d);
    let p = seek(range, Mark::Is('~'), 0);
    let tail = range.skip(p + 1);
    let q = seek(tail, Mark::Is('~'), 0);
    if a >= s.len() || c >= s.len() || p >= range.len() {
        None
    } else {
        match (day_of(s.subrange(a, b)), clock_of(range.take(p)), clock_of(tail.take(q))) {
            (Some(day), Some(start), Some(end)) => if fits(day * DAY + start) && fits(
                day * DAY + end,
            ) {
                Some((day * DAY + start, day * DAY + end))
            } else {
                None
            },
            _ => None,
        }
    }
}

/// The blocks that the lines of `s` write, in the order of the lines.
pub open spec fn intervals_of(s: Seq<char>) -> Option<Seq<(int, int)>>
    decreases s.len(),
    via intervals_of_ends
{
    let end = line_end(s, 0);
    match interval_of(s.take(end)) {
        None => None,
        Some(block) => if end >= s.len() {
            Some(seq![block])
        } else {
            match intervals_of(s.skip(end + 2)) {
                None => None,
                Some(rest) => Some(seq![block] + rest),
            }
        },
    }
}

#[via_fn]
proof fn intervals_of_ends(s: Seq<char>) {
    lemma_line_end_range(s, 0);
}

/// A scan ends at or after its start and within the text.
pub proof fn lemma_seek_range(s: Seq<char>, mark: Mark, from: int)
    requires
        0 <= from,
    ensures
        from <= s.len() ==> from <= seek(s, mark, from) <= s.len(),
        from > s.len() ==> seek(s, mark, from) == s.len(),
        seek(s, mark, from) < s.len() ==> mark.hits(s[seek(s, mark, from)]),
        forall|k: int| from <= k < seek(s, mark, from) ==> !mark.hits(#[trigger] s[k]),
    decreases s.len() - from,
{
    if from < s.len() && !mark.hits(s[from]) {
        lemma_seek_range(s, mark, from + 1);
    }
}

/// The end of a line lies at or after the start of the scan and within
/// the text.
pub proof fn lemma_line_end_range(s: Seq<char>, from: int)
    requires
        0 <= from,
    ensures
        from <= s.len() ==> from <= line_end(s, from) <= s.len(),
        line_end(s, from) < s.len() ==> line_end(s, from) + 2 <= s.len(),
    decreases s.len() - from,
{
    if from + 1 < s.len() && !(s[from] == '\r' && s[from + 1] == '\n') {
        lemma_line_end_range(s, from + 1);
    }
}

/// Whether the blocks `v` hold the values `blocks`.
pub open spec fn holds(v: Seq<[i32; 2]>, blocks: Seq<(int, int)>) -> bool {
    &&& v.len() == blocks.len()
    &&& forall|i: int|
        0 <= i < v.len() ==> (#[trigger] v[i])[0] == blocks[i].0 && v[i][1] == blocks[i].1
}

/// A place that follows only misses and is a hit, or the end, is where the
/// scan ends.
pub proof fn lemma_seek_found(s: Seq<char>, mark: Mark, from: int, i: int)
    requires
        0 <= from <= i <= s.len(),
        forall|k: int| from <= k < i ==> !mark.hits(#[trigger] s[k]),
        i < s.len() ==> mark.hits(s[i]),
    ensures
        seek(s, mark, from) == i,
    decreases i - from,
{
    if from < i {
        lemma_seek_found(s, mark, from + 1, i);
    }
}

/// A place that follows no end of a line and is one, or the end of the
/// text, is where the line ends.
pub proof fn lemma_line_end_found(s: Seq<char>, from: int, i: int)
    requires
        0 <= from <= i <= s.len(),
        forall|k: int|
            from <= k < i && k + 1 < s.len() ==> !(#[trigger] s[k] == '\r' && s[k + 1] == '\n'),
        i < s.len() ==> i + 1 < s.len() && s[i] == '\r' && s[i + 1] == '\n',
    ensures
        line_end(s, from) == i,
    decreases i - from,
{
    if from < i {
        lemma_line_end_found(s, from + 1, i);
    }
}

/// The digits of a text write at least what its first digits write.
pub proof fn lemma_decimal_grows(s: Seq<char>, k: int)
    requires
        all_digits(s),
        0 <= k <= s.len(),
    ensures
        0 <= decimal(s.take(k)) <= decimal(s),
    decreases s.len() - k,
{
    if k == s.len() {
        assert(s.take(k) =~= s);
        lemma_decimal_sign(s);
    } else {
        let t = s.drop_last();
        assert(t.take(k) =~= s.take(k));
        assert(is_digit(s[s.len() - 1]));
        lemma_decimal_grows(t, k);
    }
}

/// Digits write no negative number.
pub proof fn lemma_decimal_sign(s: Seq<char>)
    requires
        all_digits(s),
    ensures
        0 <= decimal(s),
    decreases s.len(),
{
    if s.len() > 0 {
        assert(is_digit(s[s.len() - 1]));
        lemma_decimal_sign(s.drop_last());
    }
}

/// The first place at or after `from` where `s` holds what `mark` looks
/// for; the length of `s` where there is none.
pub fn scan(s: &[char], mark: Mark, from: usize) -> (r: usize)
    requires
        from <= s@.len(),
    ensures
        r == seek(s@, mark, from as int),
        from <= r <= s@.len(),
{
    let mut i: usize = from;
    while i < s.len() && !mark.meets(s[i])
        invariant
            from <= i <= s@.len(),
            forall|k: int| from <= k < i ==> !mark.hits(#[trigger] s@[k]),
        decreases s.len() - i,
    {
        i += 1;
    }
    proof {
        lemma_seek_found(s@, mark, from as int, i as int);
    }
    i
}

/// Where the first line of `s` ends: at the first carriage return that
/// stands before a line feed, or at the end of `s`.
pub fn scan_line(s: &[char]) -> (r: usize)
    ensures
        r == line_end(s@, 0),
        r <= s@.len(),
        r < s@.len() ==> r + 2 <= s@.len(),
{
    let n = s.len();
    let mut i: usize = 0;
    while i < n
        invariant
            i <= n,
            n == s@.len(),
            forall|k: int|
                0 <= k < i && k + 1 < n ==> !(#[trigger] s@[k] == '\r' && s@[k + 1] == '\n'),
        decreases n - i,
    {
        if i + 1 < n && s[i] == '\r' && s[i + 1] == '\n' {
            proof {
                lemma_line_end_found(s@, 0, i as int);
            }
            return i;
        }
        i += 1;
    }
    proof {
        lemma_line_end_found(s@, 0, n as int);
    }
    n
}

/// The number that `s` writes, if it writes one.
pub fn read_number(s: &[char]) -> (r: Option<i32>)
    ensures
        match r {
            Some(v) => number_of(s@) == Some(v as int),
            None => number_of(s@) is None,
        },
{
    let n = s.len();
    let negative = n > 0 && s[0] == '-';
    let start: usize = if n > 0 && (s[0] == '-' || s[0] == '+') {
        1
    } else {
        0
    };
    if start == n {
        return None;
    }
    let ghost body = s@.skip(start as int);
    assert(s@.skip(0) =~= s@);
    assert(body.take(0) =~= Seq::<char>::empty());
    let mut acc: i64 = 0;
    let mut i: usize = start;
    while i < n
        invariant
            start <= i <= n,
            n == s@.len(),
            negative == (n > 0 && s@[0] == '-'),
            start == if n > 0 && (s@[0] == '-' || s@[0] == '+') {
                1int
            } else {
                0int
            },
            start < n,
            body == s@.skip(start as int),
            start == 0 ==> body == s@,
            all_digits(body.take(i - start)),
            acc == decimal(body.take(i - start)),
            0 <= acc <= 2147483648,
        decreases n - i,
    {
        let u: u32 = s[i] as u32;
        let ghost prefix = body.take(i - start);
        let ghost longer = body.take(i - start + 1);
        assert(longer.drop_last() =~= prefix);
        assert(longer.last() == s@[i as int]);
        if u < 0x30 || u > 0x39 {
            assert(!is_digit(body[i - start]));
            return None;
        }
        let next: i64 = acc * 10 + (u - 0x30) as i64;
        if next > 2147483648 {
            proof {
                if all_digits(body) {
                    lemma_decimal_grows(body, i - start + 1);
                }
            }
            return None;
        }
        acc = next;
        i += 1;
    }
    assert(body.take(n - start) =~= body);
    let value: i64 = if negative {
        -acc
    } else {
        acc
    };
    if value < -2147483648 || value > 2147483647 {
        None
    } else {
        Some(value as i32)
    }
}

/// The clock time that `s` writes, if it writes one.
pub fn read_clock(s: &[char]) -> (r: Option<i32>)
    ensures
        match r {
            Some(v) => clock_of(s@) == Some(v as int),
            None => clock_of(s@) is None,
        },
{
    let mut rest: &[char] = s;
    let mut acc: i32 = 0;
    loop
        invariant
            clock_from(rest@, acc as int) == clock_of(s@),
        decreases rest@.len(),
    {
        let p = scan(rest, Mark::Is(':'), 0);
        assert(rest@.subrange(0, p as int) == rest@.take(p as int));
        let n = match read_number(&rest[0..p]) {
            Some(n) => n,
            None => {
                return None;
            },
        };
        let scaled: i64 = acc as i64 * 60;
        if scaled < -2147483648 || scaled > 2147483647 {
            return None;
        }
        let value: i64 = scaled + n as i64;
        if value < -2147483648 || value > 2147483647 {
            return None;
        }
        if p >= rest.len() {
            return Some(value as i32);
        }
        assert(rest@.subrange(p + 1, rest@.len() as int) == rest@.skip(p + 1));
        rest = &rest[p + 1..rest.len()];
        acc = value as i32;
    }
}

/// The weekday that `s` names, if it names one.
pub fn read_day(s: &[char]) -> (r: Option<i32>)
    ensures
        match r {
            Some(v) => day_of(s@) == Some(v as int),
            None => day_of(s@) is None,
        },
{
    if s.len() != 1 {
        None
    } else if s[0] == '월' {
        Some(0)
    } else if s[0] == '화' {
        Some(1)
    } else if s[0] == '수' {
        Some(2)
    } else if s[0] == '목' {
        Some(3)
    } else if s[0] == '금' {
        Some(4)
    } else {
        None
    }
}

/// The block that the line `s` writes, if it writes one.
pub fn read_line(s: &[char]) -> (r: Option<[i32; 2]>)
    ensures
        match r {
            Some(v) => interval_of(s@) == Some((v[0] as int, v[1] as int)),
            None => interval_of(s@) is None,
        },
{
    let a = scan(s, Mark::Ink, 0);
    let b = scan(s, Mark::Blank, a);
    let c = scan(s, Mark::Ink, b);
    let d = scan(s, Mark::Blank, c);
    if a >= s.len() || c >= s.len() {
        return None;
    }
    let range = &s[c..d];
    let p = scan(range, Mark::Is('~'), 0);
    if p >= range.len() {
        return None;
    }
    let tail = &range[p + 1..range.len()];
    let q = scan(tail, Mark::Is('~'), 0);
    assert(range@.subrange(p + 1, range@.len() as int) == range@.skip(p + 1));
    assert(range@.subrange(0, p as int) == range@.take(p as int));
    assert(tail@.subrange(0, q as int) == tail@.take(q as int));
    let day = match read_day(&s[a..b]) {
        Some(day) => day,
        None => {
            return None;
        },
    };
    let start = match read_clock(&range[0..p]) {
        Some(start) => start,
        None => {
            return None;
        },
    };
    let end = match read_clock(&tail[0..q]) {
        Some(end) => end,
        None => {
            return None;
        },
    };
    let base: i64 = day as i64 * DAY as i64;
    let first: i64 = base + start as i64;
    let second: i64 = base + end as i64;
    if first < -2147483648 || first > 2147483647 || second < -2147483648 || second > 2147483647 {
        return None;
    }
    Some([first as i32, second as i32])
}

/// The blocks that the lines of `s` write, if every line writes one.
pub fn read_lines(s: &[char]) -> (r: Option<Vec<[i32; 2]>>)
    ensures
        match r {
            Some(v) => intervals_of(s@) matches Some(blocks) && holds(v@, blocks),
            None => intervals_of(s@) is None,
        },
{
    let mut rest: &[char] = s;
    let mut v: Vec<[i32; 2]> = Vec::new();
    let ghost mut done: Seq<(int, int)> = Seq::empty();
    loop
        invariant
            holds(v@, done),
            intervals_of(s@) == match intervals_of(rest@) {
                Some(more) => Some(done + more),
                None => None,
            },
        decreases rest@.len(),
    {
        let end = scan_line(rest);
        assert(rest@.subrange(0, end as int) == rest@.take(end as int));
        let block = match read_line(&rest[0..end]) {
            Some(block) => block,
            None => {
                return None;
            },
        };
        let ghost value = (block[0] as int, block[1] as int);
        v.push(block);
        if end >= rest.len() {
            proof {
                assert(holds(v@, done + seq![value]));
            }
            return Some(v);
        }
        proof {
            assert(rest@.subrange(end + 2, rest@.len() as int) == rest@.skip(end + 2));
            match intervals_of(rest@.skip(end + 2)) {
                Some(more) => {
                    assert(done + (seq![value] + more) =~= done.push(value) + more);
                },
                None => {},
            }
            assert(holds(v@, done.push(value)));
            done = done.push(value);
        }
        rest = &rest[end + 2..rest.len()];
    }
}

/// The block that the line `s` writes, if it writes one.
pub fn read_interval(s: &str) -> (r: Option<[i32; 2]>)
    ensures
        match r {
            Some(v) => interval_of(s@) == Some((v[0] as int, v[1] as int)),
            None => interval_of(s@) is None,
        },
{
    let c = chars_of(s);
    read_line(c.as_slice())
}

/// The blocks that the lines of `s` write, if every line writes one.
pub fn read_intervals(s: &str) -> (r: Option<Vec<[i32; 2]>>)
    ensures
        match r {
            Some(v) => intervals_of(s@) matches Some(blocks) && holds(v@, blocks),
            None => intervals_of(s@) is None,
        },
{
    let c = chars_of(s);
    read_lines(c.as_slice())
}

/// The block that the line `s` writes.
pub fn parse_interval(s: &str) -> (r: [i32; 2])
    requires
        interval_of(s@) is Some,
    ensures
        interval_of(s@) == Some((r[0] as int, r[1] as int)),
{
    match read_interval(s) {
        Some(block) => block,
        None => [0, 0],
    }
}

/// The blocks that the lines of `s` write, in the order of the lines.
pub fn parse_intervals(s: &str) -> (r: Vec<[i32; 2]>)
    requires
        intervals_of(s@) is Some,
    ensures
        intervals_of(s@) matches Some(blocks) && holds(r@, blocks),
{
    match read_intervals(s) {
        Some(blocks) => blocks,
        None => Vec::new(),
    }
}

} // verus!
