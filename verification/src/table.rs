//! The tabular form of the roster: one student per record when it is read,
//! one student per row when it is written.
use crate::model::{StatusView, StudentView};
use crate::roster::{distinct_ids, find_student, first_with_id, holds_id, lemma_first_exists, place_of};
use crate::student::{Status, Student};
use crate::text::{text_eq, trim, trimmed};
use vstd::prelude::*;

verus! {

/// How many subjects are tracked.
pub const TRACKED: usize = 15;

/// How many fields a record of a student has to hold at least.
pub const FIELDS: usize = 24;

/// The ids of the tracked subjects, in the order of their columns.
pub open spec fn subject_names() -> Seq<Seq<char>> {
    seq![
        "CS101"@,
        "BS120"@,
        "CH101"@,
        "PH141"@,
        "PH161"@,
        "PH171"@,
        "MAS101"@,
        "CH102"@,
        "PH151"@,
        "HSS010"@,
        "HSS011"@,
        "HSS023"@,
        "HSS022"@,
        "HSS025"@,
        "HSS024"@,
    ]
}

/// The ids of the tracked subjects, in the order of their columns.
pub fn tracked_subjects() -> (r: [&'static str; 15])
    ensures
        r@.len() == TRACKED,
        forall|i: int| 0 <= i < TRACKED ==> (#[trigger] r@[i])@ == subject_names()[i],
{
    [
        "CS101",
        "BS120",
        "CH101",
        "PH141",
        "PH161",
        "PH171",
        "MAS101",
        "CH102",
        "PH151",
        "HSS010",
        "HSS011",
        "HSS023",
        "HSS022",
        "HSS025",
        "HSS024",
    ]
}

/// No subject is tracked twice.
pub proof fn lemma_subject_names_differ()
    ensures
        subject_names().len() == TRACKED,
        forall|i: int, j: int|
            0 <= i < j < TRACKED ==> #[trigger] subject_names()[i] != #[trigger] subject_names()[j],
{
    reveal_strlit("CS101");
    reveal_strlit("BS120");
    reveal_strlit("CH101");
    reveal_strlit("PH141");
    reveal_strlit("PH161");
    reveal_strlit("PH171");
    reveal_strlit("MAS101");
    reveal_strlit("CH102");
    reveal_strlit("PH151");
    reveal_strlit("HSS010");
    reveal_strlit("HSS011");
    reveal_strlit("HSS023");
    reveal_strlit("HSS022");
    reveal_strlit("HSS025");
    reveal_strlit("HSS024");
    let names = subject_names();
    assert(names[0][0] == 'C' && names[0][1] == 'S');
    assert(names[1][0] == 'B');
    assert(names[2][0] == 'C' && names[2][1] == 'H' && names[2][4] == '1');
    assert(names[3][0] == 'P' && names[3][3] == '4');
    assert(names[4][0] == 'P' && names[4][3] == '6');
    assert(names[5][0] == 'P' && names[5][3] == '7');
    assert(names[6][0] == 'M');
    assert(names[7][0] == 'C' && names[7][1] == 'H' && names[7][4] == '2');
    assert(names[8][0] == 'P' && names[8][3] == '5');
    assert(names[9][0] == 'H' && names[9][4] == '1' && names[9][5] == '0');
    assert(names[10][0] == 'H' && names[10][4] == '1' && names[10][5] == '1');
    assert(names[11][0] == 'H' && names[11][4] == '2' && names[11][5] == '3');
    assert(names[12][0] == 'H' && names[12][4] == '2' && names[12][5] == '2');
    assert(names[13][0] == 'H' && names[13][4] == '2' && names[13][5] == '5');
    assert(names[14][0] == 'H' && names[14][4] == '2' && names[14][5] == '4');
}

/// The decision that a field of a record writes: `Undefined` for an open
/// decision, `-` for a declined subject, and otherwise the id of the
/// division, taken without the blanks around it.
pub open spec fn status_of_field(s: Seq<char>) -> StatusView {
    if s == "Undefined"@ {
        StatusView::Undefined
    } else if s == "-"@ {
        StatusView::No
    } else {
        StatusView::Enroll(trimmed(s))
    }
}

/// How a decision is written in a row: the id of the division for an
/// enrolment, `-` for a declined subject, `?` for an open decision.
pub open spec fn status_text(v: StatusView) -> Seq<char> {
    match v {
        StatusView::Enroll(d) => d,
        StatusView::No => "-"@,
        StatusView::Undefined => "?"@,
    }
}

/// The student that a record writes: the id in field 1, the name in field
/// 2, the gender in field 4, the nationality in field 6, the category of
/// the high school in field 7, the high school in field 8, and the
/// decisions for the tracked subjects in fields 9 to 23. `None` where the
/// record is shorter.
pub open spec fn student_of(record: Seq<Seq<char>>) -> Option<StudentView> {
    if record.len() < FIELDS {
        None
    } else {
        Some(
            StudentView {
                id: record[1],
                name: record[2],
                gender: record[4],
                nationality: record[6],
                high_school_category: record[7],
                high_school: record[8],
                subjects: Seq::new(
                    TRACKED as nat,
                    |k: int| (subject_names()[k], status_of_field(record[9 + k])),
                ),
            },
        )
    }
}

impl Status {
    /// The decision that a field of a record writes.
    pub fn from_field(s: &str) -> (r: Status)
        ensures
            r@ == status_of_field(s@),
    {
        if text_eq(s, "Undefined") {
            Status::Undefined
        } else if text_eq(s, "-") {
            Status::No
        } else {
            Status::Enroll(trim(s).to_owned())
        }
    }

    /// How the decision is written in a row.
    pub fn to_string(&self) -> (r: String)
        ensures
            r@ == status_text(self@),
    {
        match self {
            Status::Enroll(s) => s.clone(),
            Status::No => "-".to_owned(),
            Status::Undefined => "?".to_owned(),
        }
    }
}

/// The texts of a record.
pub open spec fn fields(record: &Vec<String>) -> Seq<Seq<char>> {
    Seq::new(record@.len(), |i: int| record@[i]@)
}

impl Student {
    /// The student that a record writes, if the record holds all fields.
    pub fn from_record(record: &Vec<String>) -> (r: Option<Student>)
        ensures
            match r {
                Some(student) => student_of(fields(record)) == Some(student@) && student@.wf(),
                None => student_of(fields(record)) is None,
            },
    {
        if record.len() < FIELDS {
            return None;
        }
        let names = tracked_subjects();
        let mut subjects: Vec<(String, Status)> = Vec::new();
        let mut k: usize = 0;
        while k < TRACKED
            invariant
                k <= TRACKED,
                record@.len() >= FIELDS,
                names@.len() == TRACKED,
                forall|i: int| 0 <= i < TRACKED ==> (#[trigger] names@[i])@ == subject_names()[i],
                subjects@.len() == k,
                forall|i: int|
                    0 <= i < k ==> (#[trigger] subjects@[i]).0@ == subject_names()[i]
                        && subjects@[i].1@ == status_of_field(record@[9 + i]@),
            decreases TRACKED - k,
        {
            let status = Status::from_field(record[9 + k].as_str());
            subjects.push((names[k].to_owned(), status));
            k += 1;
        }
        let student = Student {
            id: record[1].clone(),
            name: record[2].clone(),
            gender: record[4].clone(),
            nationality: record[6].clone(),
            high_school_category: record[7].clone(),
            high_school: record[8].clone(),
            subjects,
        };
        proof {
            lemma_subject_names_differ();
            assert(student@.subjects =~= student_of(fields(record))->0.subjects);
        }
        Some(student)
    }
}

/// What `format!("{:?}", s)` gives for the text `s`: the text between
/// double quotes, with escapes as the standard library writes them.
pub uninterp spec fn debug_text(s: Seq<char>) -> Seq<char>;

/// Calls the standard library's `Debug` formatting of a string slice.
/// The contract claims only that the result is a function of the
/// characters of `s`, which it names `debug_text`.
#[verifier::external_body]
fn quote(s: &str) -> (r: String)
    ensures
        r@ == debug_text(s@),
{
    format!("{:?}", s)
}

/// The first line of the table.
pub open spec fn header() -> Seq<char> {
    "학번, 이름, 성별, 국적, 고교구분, 출신고교, 프밍기, 일생, 일화, 일물, 고급물리, 실험물리, 미적, 일화실, 일물실, 010, 011, 023, 022, 025, 024\n"@
}

/// The first line of the table.
pub fn header_line() -> (r: String)
    ensures
        r@ == header(),
{
    "학번, 이름, 성별, 국적, 고교구분, 출신고교, 프밍기, 일생, 일화, 일물, 고급물리, 실험물리, 미적, 일화실, 일물실, 010, 011, 023, 022, 025, 024\n".to_owned()
}

/// The columns of the first `k` tracked subjects, each after a comma.
/// `None` where the student lacks a decision for one of them.
pub open spec fn columns_upto(student: StudentView, k: int) -> Option<Seq<char>>
    decreases k,
{
    if k <= 0 {
        Some(Seq::empty())
    } else {
        match (columns_upto(student, k - 1), student.status(subject_names()[k - 1])) {
            (Some(before), Some(v)) => Some(before + ","@ + status_text(v)),
            _ => None,
        }
    }
}

/// The fields of the student that are written in quotes, with commas
/// between them.
pub open spec fn quoted_fields(student: StudentView) -> Seq<char> {
    debug_text(student.id) + ","@ + debug_text(student.name) + ","@ + debug_text(student.gender)
        + ","@ + debug_text(student.nationality) + ","@ + debug_text(
        student.high_school_category,
    ) + ","@ + debug_text(student.high_school)
}

/// The row of a student: the descriptive fields in quotes, then one column
/// for each tracked subject, then a line feed. `None` where the student
/// lacks a decision for a tracked subject.
pub open spec fn row_text(student: StudentView) -> Option<Seq<char>> {
    match columns_upto(student, TRACKED as int) {
        Some(columns) => Some(quoted_fields(student) + columns + "\n"@),
        None => None,
    }
}

/// The header and the rows of the first `n` students. `None` where one of
/// them has no row.
pub open spec fn table_upto(students: Seq<StudentView>, n: int) -> Option<Seq<char>>
    decreases n,
{
    if n <= 0 {
        Some(header())
    } else {
        match (table_upto(students, n - 1), row_text(students[n - 1])) {
            (Some(before), Some(row)) => Some(before + row),
            _ => None,
        }
    }
}

/// The table of the students: the header, then one row for each student,
/// in their order.
pub open spec fn table_text(students: Seq<StudentView>) -> Option<Seq<char>> {
    table_upto(students, students.len() as int)
}

/// The students at the places `order`, in the order of `order`.
pub open spec fn arranged(students: Seq<StudentView>, order: Seq<usize>) -> Seq<StudentView> {
    Seq::new(order.len(), |k: int| students[order[k] as int])
}

/// The table of the students at the places `order`, in the order of
/// `order`. `None` where `order` holds a place outside the list.
pub open spec fn table_in(students: Seq<StudentView>, order: Seq<usize>) -> Option<Seq<char>> {
    if forall|k: int| 0 <= k < order.len() ==> #[trigger] order[k] < students.len() {
        table_text(arranged(students, order))
    } else {
        None
    }
}

/// The views of a list of students.
pub open spec fn views(students: &[Student]) -> Seq<StudentView> {
    Seq::new(students@.len(), |i: int| students@[i]@)
}

impl Student {
    /// The row of the student, if the student has a decision for every
    /// tracked subject.
    pub fn to_row(&self) -> (r: Option<String>)
        requires
            self@.wf(),
        ensures
            match r {
                Some(row) => row_text(self@) == Some(row@),
                None => row_text(self@) is None,
            },
    {
        let mut row = quote(self.id.as_str());
        row.append(",");
        row.append(quote(self.name.as_str()).as_str());
        row.append(",");
        row.append(quote(self.gender.as_str()).as_str());
        row.append(",");
        row.append(quote(self.nationality.as_str()).as_str());
        row.append(",");
        row.append(quote(self.high_school_category.as_str()).as_str());
        row.append(",");
        row.append(quote(self.high_school.as_str()).as_str());
        let names = tracked_subjects();
        let ghost columns: Seq<char> = Seq::empty();
        assert(row@ =~= quoted_fields(self@) + columns);
        let mut k: usize = 0;
        while k < TRACKED
            invariant
                k <= TRACKED,
                self@.wf(),
                names@.len() == TRACKED,
                forall|i: int| 0 <= i < TRACKED ==> (#[trigger] names@[i])@ == subject_names()[i],
                columns_upto(self@, k as int) == Some(columns),
                row@ == quoted_fields(self@) + columns,
            decreases TRACKED - k,
        {
            let status = match self.status(names[k]) {
                Some(status) => status,
                None => {
                    proof {
                        lemma_columns_stop(self@, k + 1, TRACKED as int);
                    }
                    return None;
                },
            };
            row.append(",");
            row.append(status.to_string().as_str());
            proof {
                let longer = columns + ","@ + status_text(status@);
                assert(row@ =~= quoted_fields(self@) + longer);
                columns = longer;
            }
            k += 1;
        }
        row.append("\n");
        Some(row)
    }

    /// The table of the students, if each of them has a decision for every
    /// tracked subject.
    pub fn to_csv(students: &[Student]) -> (r: Option<String>)
        requires
            forall|i: int| 0 <= i < students@.len() ==> (#[trigger] students@[i])@.wf(),
        ensures
            match r {
                Some(text) => table_text(views(students)) == Some(text@),
                None => table_text(views(students)) is None,
            },
    {
        let mut text = header_line();
        let mut i: usize = 0;
        while i < students.len()
            invariant
                i <= students@.len(),
                forall|k: int| 0 <= k < students@.len() ==> (#[trigger] students@[k])@.wf(),
                table_upto(views(students), i as int) == Some(text@),
            decreases students.len() - i,
        {
            assert(views(students)[i as int] == students@[i as int]@);
            let row = match students[i].to_row() {
                Some(row) => row,
                None => {
                    proof {
                        lemma_table_stops(views(students), i + 1, students@.len() as int);
                    }
                    return None;
                },
            };
            text.append(row.as_str());
            i += 1;
        }
        Some(text)
    }
}

impl Student {
    /// The table of the students at the places `order`, in the order of
    /// `order`, if every place lies in the list and each of the students
    /// has a decision for every tracked subject.
    pub fn to_csv_in(students: &[Student], order: &Vec<usize>) -> (r: Option<String>)
        requires
            forall|i: int| 0 <= i < students@.len() ==> (#[trigger] students@[i])@.wf(),
        ensures
            match r {
                Some(text) => table_in(views(students), order@) == Some(text@),
                None => table_in(views(students), order@) is None,
            },
    {
        let ghost rows = arranged(views(students), order@);
        let mut k: usize = 0;
        while k < order.len()
            invariant
                k <= order@.len(),
                forall|m: int| 0 <= m < k ==> #[trigger] order@[m] < students@.len(),
            decreases order.len() - k,
        {
            if order[k] >= students.len() {
                return None;
            }
            k += 1;
        }
        let mut text = header_line();
        let mut i: usize = 0;
        while i < order.len()
            invariant
                i <= order@.len(),
                rows == arranged(views(students), order@),
                forall|m: int| 0 <= m < order@.len() ==> #[trigger] order@[m] < students@.len(),
                forall|m: int| 0 <= m < students@.len() ==> (#[trigger] students@[m])@.wf(),
                table_upto(rows, i as int) == Some(text@),
            decreases order.len() - i,
        {
            assert(rows[i as int] == students@[order@[i as int] as int]@);
            let row = match students[order[i]].to_row() {
                Some(row) => row,
                None => {
                    proof {
                        lemma_table_stops(rows, i + 1, order@.len() as int);
                    }
                    return None;
                },
            };
            text.append(row.as_str());
            i += 1;
        }
        Some(text)
    }
}

/// A subject without a decision leaves the columns after it without a
/// text.
pub proof fn lemma_columns_stop(student: StudentView, k: int, m: int)
    requires
        0 <= k <= m,
        columns_upto(student, k) is None,
    ensures
        columns_upto(student, m) is None,
    decreases m - k,
{
    if k < m {
        lemma_columns_stop(student, k, m - 1);
    }
}

/// A student without a row leaves the table without a text.
pub proof fn lemma_table_stops(students: Seq<StudentView>, n: int, m: int)
    requires
        0 <= n <= m,
        table_upto(students, n) is None,
    ensures
        table_upto(students, m) is None,
    decreases m - n,
{
    if n < m {
        lemma_table_stops(students, n, m - 1);
    }
}

/// Whether every record holds all fields of a student.
pub open spec fn complete(records: Seq<Seq<Seq<char>>>) -> bool {
    forall|i: int| 0 <= i < records.len() ==> (#[trigger] records[i]).len() >= FIELDS
}

/// Whether record `i` is the last of the first `n` records with the id
/// `id`.
pub open spec fn last_with_id(records: Seq<Seq<Seq<char>>>, n: int, i: int, id: Seq<char>) -> bool {
    &&& 0 <= i < n
    &&& records[i][1] == id
    &&& forall|j: int| i < j < n ==> (#[trigger] records[j])[1] != id
}

/// Whether the student is written by the last of the first `n` records
/// with the student's id.
pub open spec fn written_last(records: Seq<Seq<Seq<char>>>, n: int, student: StudentView) -> bool {
    exists|i: int|
        #[trigger] last_with_id(records, n, i, student.id) && student_of(records[i]) == Some(
            student,
        )
}

/// The roster of the first `n` records: one student for each id, at the
/// place of the first record with that id and with the fields of the last.
pub open spec fn roster_upto(records: Seq<Seq<Seq<char>>>, n: int) -> Seq<StudentView>
    decreases n,
{
    if n <= 0 {
        Seq::empty()
    } else {
        let before = roster_upto(records, n - 1);
        let student = student_of(records[n - 1])->0;
        if holds_id(before, student.id) {
            before.update(place_of(before, student.id), student)
        } else {
            before.push(student)
        }
    }
}

/// The texts of a list of records.
pub open spec fn record_views(records: &Vec<Vec<String>>) -> Seq<Seq<Seq<char>>> {
    Seq::new(records@.len(), |i: int| fields(&records@[i]))
}

/// The roster that the records write: one student for each id, a later
/// record replacing an earlier one with the same id. No roster is built
/// where a record holds too few fields.
pub fn roster_of(records: &Vec<Vec<String>>) -> (r: Option<Vec<Student>>)
    ensures
        match r {
            Some(roster) => {
                &&& complete(record_views(records))
                &&& roster.deep_view() == roster_upto(
                    record_views(records),
                    records@.len() as int,
                )
                &&& distinct_ids(roster.deep_view())
                &&& forall|p: int| 0 <= p < roster@.len() ==> (#[trigger] roster.deep_view()[p]).wf()
                &&& forall|i: int|
                    0 <= i < records@.len() ==> holds_id(
                        roster.deep_view(),
                        (#[trigger] record_views(records)[i])[1],
                    )
                &&& forall|p: int|
                    0 <= p < roster@.len() ==> written_last(
                        record_views(records),
                        records@.len() as int,
                        #[trigger] roster.deep_view()[p],
                    )
            },
            None => !complete(record_views(records)),
        },
{
    let ghost all = record_views(records);
    let mut roster: Vec<Student> = Vec::new();
    assert(roster.deep_view() =~= roster_upto(all, 0));
    let mut i: usize = 0;
    while i < records.len()
        invariant
            i <= records@.len(),
            all == record_views(records),
            forall|k: int| 0 <= k < i ==> (#[trigger] all[k]).len() >= FIELDS,
            roster.deep_view() == roster_upto(all, i as int),
        decreases records.len() - i,
    {
        assert(all[i as int] == fields(&records@[i as int]));
        let student = match Student::from_record(&records[i]) {
            Some(student) => student,
            None => {
                return None;
            },
        };
        let ghost before = roster.deep_view();
        let ghost view = student@;
        match find_student(&roster, student.id.as_str()) {
            Some(p) => {
                roster.set(p, student);
                assert(roster.deep_view() =~= before.update(p as int, view));
            },
            None => {
                roster.push(student);
                assert(roster.deep_view() =~= before.push(view));
            },
        }
        i += 1;
    }
    proof {
        lemma_roster_upto(all, all.len() as int);
    }
    Some(roster)
}

/// The roster of complete records holds one student for each id of a
/// record, each with the fields of the last record with its id.
pub proof fn lemma_roster_upto(records: Seq<Seq<Seq<char>>>, n: int)
    requires
        0 <= n <= records.len(),
        forall|k: int| 0 <= k < n ==> (#[trigger] records[k]).len() >= FIELDS,
    ensures
        distinct_ids(roster_upto(records, n)),
        forall|p: int|
            0 <= p < roster_upto(records, n).len() ==> (#[trigger] roster_upto(records, n)[p]).wf(),
        forall|i: int|
            0 <= i < n ==> holds_id(roster_upto(records, n), (#[trigger] records[i])[1]),
        forall|p: int|
            0 <= p < roster_upto(records, n).len() ==> written_last(
                records,
                n,
                #[trigger] roster_upto(records, n)[p],
            ),
    decreases n,
{
    if n > 0 {
        lemma_roster_upto(records, n - 1);
        lemma_subject_names_differ();
        let before = roster_upto(records, n - 1);
        let now = roster_upto(records, n);
        let student = student_of(records[n - 1])->0;
        let id = student.id;
        assert(records[n - 1].len() >= FIELDS);
        assert(id == records[n - 1][1]);
        assert(student.wf());
        if holds_id(before, id) {
            let q = choose|q: int| 0 <= q < before.len() && (#[trigger] before[q]).id == id;
            lemma_first_exists(before, id, q);
            let p0 = place_of(before, id);
            assert(first_with_id(before, id, p0));
            assert forall|a: int| 0 <= a < now.len() implies (#[trigger] now[a]).id
                == before[a].id by {}
            assert forall|a: int, b: int| 0 <= a < b < now.len() implies (#[trigger] now[a]).id != (
            #[trigger] now[b]).id by {
                assert(before[a].id != before[b].id);
            }
            assert forall|i: int| 0 <= i < n implies holds_id(now, (#[trigger] records[i])[1]) by {
                if i < n - 1 {
                    let a = choose|a: int|
                        0 <= a < before.len() && (#[trigger] before[a]).id == records[i][1];
                    assert(now[a].id == records[i][1]);
                } else {
                    assert(now[p0].id == id);
                }
            }
            assert forall|p: int| 0 <= p < now.len() implies written_last(
                records,
                n,
                #[trigger] now[p],
            ) by {
                if p == p0 {
                    assert(last_with_id(records, n, n - 1, now[p].id));
                } else {
                    assert(written_last(records, n - 1, before[p]));
                    let i = choose|i: int|
                        #[trigger] last_with_id(records, n - 1, i, before[p].id) && student_of(
                            records[i],
                        ) == Some(before[p]);
                    if p < p0 {
                        assert(before[p].id != before[p0].id);
                    } else {
                        assert(before[p0].id != before[p].id);
                    }
                    assert(last_with_id(records, n, i, now[p].id));
                }
            }
        } else {
            assert forall|a: int, b: int| 0 <= a < b < now.len() implies (#[trigger] now[a]).id != (
            #[trigger] now[b]).id by {
                if b < before.len() {
                    assert(before[a].id != before[b].id);
                } else {
                    assert(before[a].id != id);
                }
            }
            assert forall|i: int| 0 <= i < n implies holds_id(now, (#[trigger] records[i])[1]) by {
                if i < n - 1 {
                    let a = choose|a: int|
                        0 <= a < before.len() && (#[trigger] before[a]).id == records[i][1];
                    assert(now[a].id == records[i][1]);
                } else {
                    assert(now[now.len() - 1].id == id);
                }
            }
            assert forall|p: int| 0 <= p < now.len() implies written_last(
                records,
                n,
                #[trigger] now[p],
            ) by {
                if p == now.len() - 1 {
                    assert(last_with_id(records, n, n - 1, now[p].id));
                } else {
                    assert(written_last(records, n - 1, before[p]));
                    let i = choose|i: int|
                        #[trigger] last_with_id(records, n - 1, i, before[p].id) && student_of(
                            records[i],
                        ) == Some(before[p]);
                    assert(before[p].id != id);
                    assert(last_with_id(records, n, i, now[p].id));
                }
            }
        }
    }
}

} // verus!
