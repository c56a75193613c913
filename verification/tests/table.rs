use enrollment::order::{sorted_places, text_le};
use enrollment::student::{Status, Student};
use enrollment::roster::has_distinct_ids;
use enrollment::table::{header_line, roster_of, tracked_subjects};
use enrollment::text::{chars_of, is_space, text_eq, trim};

fn record(fields: &[&str]) -> Vec<String> {
    fields.iter().map(|f| f.to_string()).collect()
}

fn sample_record() -> Vec<String> {
    record(&[
        "7", "20210001", "Kim", "x", "F", "y", "KR", "general", "Hana High", "Undefined", "-",
        " A ", "B", "Undefined", "-", "C", "", "Undefined", "-", "AB", "Undefined", "-", "D",
        "Undefined",
    ])
}

#[test]
fn fields_are_read_as_decisions() {
    assert_eq!(Status::from_field("Undefined"), Status::Undefined);
    assert_eq!(Status::from_field("-"), Status::No);
    assert_eq!(Status::from_field("A"), Status::Enroll("A".to_owned()));
    assert_eq!(Status::from_field("  AB\t"), Status::Enroll("AB".to_owned()));
    assert_eq!(Status::from_field(""), Status::Enroll("".to_owned()));
    assert_eq!(Status::from_field(" - "), Status::Enroll("-".to_owned()));
    assert_eq!(Status::from_field("undefined"), Status::Enroll("undefined".to_owned()));
    assert_eq!(Status::from_field("?"), Status::Enroll("?".to_owned()));
}

#[test]
fn decisions_are_written_as_text() {
    assert_eq!(Status::Enroll("A".to_owned()).to_string(), "A");
    assert_eq!(Status::Enroll("".to_owned()).to_string(), "");
    assert_eq!(Status::Enroll("AB".to_owned()).to_string(), "AB");
    assert_eq!(Status::Enroll(" ".to_owned()).to_string(), " ");
    assert_eq!(Status::No.to_string(), "-");
    assert_eq!(Status::Undefined.to_string(), "?");
}

#[test]
fn fifteen_subjects_are_tracked() {
    let names = tracked_subjects();
    assert_eq!(
        names,
        [
            "CS101", "BS120", "CH101", "PH141", "PH161", "PH171", "MAS101", "CH102", "PH151",
            "HSS010", "HSS011", "HSS023", "HSS022", "HSS025", "HSS024",
        ]
    );
}

#[test]
fn a_record_is_read_as_a_student() {
    let student = Student::from_record(&sample_record()).unwrap();
    assert_eq!(student.id, "20210001");
    assert_eq!(student.name, "Kim");
    assert_eq!(student.gender, "F");
    assert_eq!(student.nationality, "KR");
    assert_eq!(student.high_school_category, "general");
    assert_eq!(student.high_school, "Hana High");
    assert_eq!(student.subjects.len(), 15);
    assert!(student.is_well_formed());
    assert_eq!(student.status("CS101"), Some(&Status::Undefined));
    assert_eq!(student.status("BS120"), Some(&Status::No));
    assert_eq!(student.status("CH101"), Some(&Status::Enroll("A".to_owned())));
    assert_eq!(student.status("PH141"), Some(&Status::Enroll("B".to_owned())));
    assert_eq!(student.status("CH102"), Some(&Status::Enroll("".to_owned())));
    assert_eq!(student.status("HSS011"), Some(&Status::Enroll("AB".to_owned())));
    assert_eq!(student.status("HSS024"), Some(&Status::Undefined));
    assert_eq!(student.status("XX000"), None);
}

#[test]
fn a_short_record_is_no_student() {
    let mut fields = sample_record();
    fields.pop();
    assert_eq!(Student::from_record(&fields), None);
    assert_eq!(Student::from_record(&record(&[])), None);
    let mut longer = sample_record();
    longer.push("more".to_owned());
    assert!(Student::from_record(&longer).is_some());
}

#[test]
fn a_row_quotes_the_descriptive_fields() {
    let student = Student::from_record(&sample_record()).unwrap();
    assert_eq!(
        student.to_row().unwrap(),
        "\"20210001\",\"Kim\",\"F\",\"KR\",\"general\",\"Hana High\",?,-,A,B,?,-,C,,?,-,AB,?,-,D,?\n"
    );
}

#[test]
fn quotes_inside_a_field_are_escaped() {
    let mut student = Student::from_record(&sample_record()).unwrap();
    student.name = "Kim \"Jr\"\n".to_owned();
    student.high_school = "a\\b".to_owned();
    let row = student.to_row().unwrap();
    assert!(row.starts_with("\"20210001\",\"Kim \\\"Jr\\\"\\n\",\"F\",\"KR\",\"general\",\"a\\\\b\","));
}

#[test]
fn a_student_without_a_tracked_subject_has_no_row() {
    let mut student = Student::from_record(&sample_record()).unwrap();
    student.subjects.remove(3);
    assert_eq!(student.to_row(), None);
    assert_eq!(Student::to_csv(&[student]), None);
}

#[test]
fn the_table_holds_the_header_and_one_row_each() {
    let first = Student::from_record(&sample_record()).unwrap();
    let mut fields = sample_record();
    fields[1] = "20210002".to_owned();
    fields[9] = "J".to_owned();
    let second = Student::from_record(&fields).unwrap();
    let header = "학번, 이름, 성별, 국적, 고교구분, 출신고교, 프밍기, 일생, 일화, 일물, 고급물리, 실험물리, 미적, 일화실, 일물실, 010, 011, 023, 022, 025, 024\n";
    assert_eq!(Student::to_csv(&[]).unwrap(), header);
    let text = Student::to_csv(&[first, second]).unwrap();
    let expected = format!(
        "{}{}{}",
        header,
        "\"20210001\",\"Kim\",\"F\",\"KR\",\"general\",\"Hana High\",?,-,A,B,?,-,C,,?,-,AB,?,-,D,?\n",
        "\"20210002\",\"Kim\",\"F\",\"KR\",\"general\",\"Hana High\",J,-,A,B,?,-,C,,?,-,AB,?,-,D,?\n"
    );
    assert_eq!(text, expected);
}

#[test]
fn trim_removes_blanks_at_both_ends() {
    assert_eq!(trim("  a b \t\r\n"), "a b");
    assert_eq!(trim("\u{3000}월\u{a0}"), "월");
    assert_eq!(trim("   "), "");
    assert_eq!(trim(""), "");
    assert_eq!(trim("x"), "x");
    for s in ["  a b \t\r\n", "\u{2003}x\u{205f}", "\u{200b}x", "\u{1680}y\u{85}", ""] {
        assert_eq!(trim(s), s.trim());
    }
}

#[test]
fn blank_characters_are_those_of_the_standard_library() {
    for u in 0..0x11000u32 {
        if let Some(c) = char::from_u32(u) {
            assert_eq!(is_space(c), c.is_whitespace());
        }
    }
}

#[test]
fn texts_are_compared_by_their_characters() {
    assert!(text_eq("", ""));
    assert!(text_eq("월 09", "월 09"));
    assert!(!text_eq("a", "b"));
    assert!(!text_eq("a", "ab"));
    assert!(!text_eq("ab", "a"));
    assert_eq!(chars_of("a월b"), vec!['a', '월', 'b']);
}

fn with_id(id: &str) -> Student {
    let mut fields = sample_record();
    fields[1] = id.to_owned();
    Student::from_record(&fields).unwrap()
}

#[test]
fn texts_are_ordered_by_their_bytes() {
    let samples = ["", "a", "ab", "b", "B", "10", "9", "20210001", "2021", "월", "화", "é", "z", "\u{10000}", "\u{ffff}"];
    for a in samples {
        for b in samples {
            assert_eq!(text_le(a, b), a <= b, "{:?} {:?}", a, b);
        }
    }
}

#[test]
fn students_are_sorted_by_id() {
    let students: Vec<Student> =
        ["20210003", "20210001", "9", "20210002", "20210001", "100"].iter().map(|id| with_id(id)).collect();
    assert_eq!(sorted_places(&students), [5, 1, 4, 3, 0, 2]);
    assert_eq!(sorted_places(&[]), Vec::<usize>::new());
    let mut sorted: Vec<&Student> = students.iter().collect();
    sorted.sort_by_key(|student| student.id.clone());
    let by_places: Vec<&Student> = sorted_places(&students).iter().map(|place| &students[*place]).collect();
    assert_eq!(sorted, by_places);
}

#[test]
fn the_table_follows_the_given_order() {
    let students = vec![with_id("b"), with_id("c"), with_id("a")];
    let order = sorted_places(&students);
    assert_eq!(order, [2, 0, 1]);
    let sorted = vec![with_id("a"), with_id("b"), with_id("c")];
    assert_eq!(Student::to_csv_in(&students, &order), Student::to_csv(&sorted));
    assert_eq!(Student::to_csv_in(&students, &vec![]).unwrap(), header_line());
    assert_eq!(
        Student::to_csv_in(&students, &vec![1, 1]).unwrap(),
        format!("{}{}{}", header_line(), students[1].to_row().unwrap(), students[1].to_row().unwrap())
    );
    assert_eq!(Student::to_csv_in(&students, &vec![0, 3]), None);
}

#[test]
fn the_roster_holds_one_student_for_each_id() {
    let record_of = |id: &str, name: &str| {
        let mut fields = sample_record();
        fields[1] = id.to_owned();
        fields[2] = name.to_owned();
        fields
    };
    let records = vec![
        record_of("b", "first b"),
        record_of("a", "first a"),
        record_of("b", "second b"),
        record_of("c", "only c"),
        record_of("b", "third b"),
    ];
    let roster = roster_of(&records).unwrap();
    assert!(has_distinct_ids(&roster));
    let ids: Vec<&str> = roster.iter().map(|s| s.id.as_str()).collect();
    assert_eq!(ids, ["b", "a", "c"]);
    let names: Vec<&str> = roster.iter().map(|s| s.name.as_str()).collect();
    assert_eq!(names, ["third b", "first a", "only c"]);
    assert_eq!(roster[0], Student::from_record(&records[4]).unwrap());
    assert_eq!(roster[1], Student::from_record(&records[1]).unwrap());
    assert_eq!(roster_of(&vec![]), Some(vec![]));
}

#[test]
fn a_short_record_leaves_no_roster() {
    let mut short = sample_record();
    short.truncate(23);
    assert_eq!(roster_of(&vec![sample_record(), short.clone()]), None);
    assert_eq!(roster_of(&vec![short, sample_record()]), None);
    assert_eq!(roster_of(&vec![vec![]]), None);
}
