use enrollment::interval::{disjoint_interval, disjoint_intervals};
use enrollment::schedule::{
    parse_interval, parse_intervals, read_interval, read_intervals, read_number, scan, Mark,
};

#[test]
fn parse_interval_simple() {
    assert_eq!(parse_intervals("월 09:00~12:00"), vec![[9 * 60, 12 * 60]]);
    assert_eq!(
        parse_intervals("화 09:00~12:00"),
        vec![[(24 + 9) * 60, (24 + 12) * 60]]
    );
    assert_eq!(
        parse_intervals("월 14:30~16:00\r\n수 14:30~16:00\r\n금 13:00~14:00"),
        vec![
            [14 * 60 + 30, 16 * 60],
            [(24 * 2 + 14) * 60 + 30, (24 * 2 + 16) * 60],
            [(24 * 4 + 13) * 60, (24 * 4 + 14) * 60],
        ]
    );
}

#[test]
fn disjoint_intervals_simple() {
    assert!(disjoint_intervals(
        &parse_intervals("월 09:00~12:00"),
        &parse_intervals("수 09:00~12:00")
    ));
    assert!(disjoint_intervals(
        &parse_intervals("월 14:30~16:00\r\n수 14:30~16:00\r\n금 13:00~14:00"),
        &parse_intervals("수 09:00~12:00")
    ));
    assert!(!disjoint_intervals(
        &parse_intervals("월 14:30~16:00\r\n수 14:30~16:00\r\n금 13:00~14:00"),
        &parse_intervals("월 12:30~14:00\r\n수 12:30~14:00\r\n금 13:00~14:00")
    ));
}

#[test]
fn every_weekday_is_read() {
    assert_eq!(parse_interval("월 00:00~00:01"), [0, 1]);
    assert_eq!(parse_interval("화 00:00~00:01"), [1440, 1441]);
    assert_eq!(parse_interval("수 00:00~00:01"), [2880, 2881]);
    assert_eq!(parse_interval("목 00:00~00:01"), [4320, 4321]);
    assert_eq!(parse_interval("금 23:59~24:00"), [5760 + 1439, 5760 + 1440]);
}

#[test]
fn blanks_and_trailing_text_are_skipped() {
    assert_eq!(read_interval("  월\t09:00~10:00  "), Some([540, 600]));
    assert_eq!(read_interval("월 09:00~10:00 extra"), Some([540, 600]));
    assert_eq!(read_interval("월 09:00~10:00~11:00"), Some([540, 600]));
    assert_eq!(read_interval("월\u{3000}09:00~10:00"), Some([540, 600]));
}

#[test]
fn a_clock_time_may_have_any_number_of_parts() {
    assert_eq!(read_interval("월 90~1:30"), Some([90, 90]));
    assert_eq!(read_interval("월 1:0:0~1:0:1"), Some([3600, 3601]));
    assert_eq!(read_interval("월 +9:00~-1:30"), Some([540, -30]));
}

#[test]
fn malformed_lines_are_refused() {
    assert_eq!(read_interval(""), None);
    assert_eq!(read_interval("월"), None);
    assert_eq!(read_interval("일 09:00~10:00"), None);
    assert_eq!(read_interval("월요일 09:00~10:00"), None);
    assert_eq!(read_interval("월 09:00"), None);
    assert_eq!(read_interval("월 09:00~"), None);
    assert_eq!(read_interval("월 ~10:00"), None);
    assert_eq!(read_interval("월 09:~10:00"), None);
    assert_eq!(read_interval("월 09:xx~10:00"), None);
    assert_eq!(read_interval("월 09:00 ~ 10:00"), None);
}

#[test]
fn values_outside_the_range_are_refused() {
    assert_eq!(read_interval("월 2147483647~0"), Some([2147483647, 0]));
    assert_eq!(read_interval("월 2147483648~0"), None);
    assert_eq!(read_interval("화 2147483647~0"), None);
    assert_eq!(read_interval("월 35791394:7~0"), Some([2147483647, 0]));
    assert_eq!(read_interval("월 35791395:0~0"), None);
    assert_eq!(read_interval("월 99999999999999999999999999~0"), None);
}

#[test]
fn numbers_are_read_with_an_optional_sign() {
    let chars = |s: &str| s.chars().collect::<Vec<char>>();
    assert_eq!(read_number(&chars("0")), Some(0));
    assert_eq!(read_number(&chars("007")), Some(7));
    assert_eq!(read_number(&chars("+12")), Some(12));
    assert_eq!(read_number(&chars("-12")), Some(-12));
    assert_eq!(read_number(&chars("-2147483648")), Some(i32::MIN));
    assert_eq!(read_number(&chars("2147483647")), Some(i32::MAX));
    assert_eq!(read_number(&chars("-2147483649")), None);
    assert_eq!(read_number(&chars("")), None);
    assert_eq!(read_number(&chars("+")), None);
    assert_eq!(read_number(&chars("-")), None);
    assert_eq!(read_number(&chars("+-1")), None);
    assert_eq!(read_number(&chars("1 ")), None);
    assert_eq!(read_number(&chars("١")), None);
}

#[test]
fn lines_end_in_carriage_return_and_line_feed() {
    assert_eq!(
        read_intervals("월 09:00~10:00\r\n화 09:00~10:00"),
        Some(vec![[540, 600], [1980, 2040]])
    );
    assert_eq!(read_intervals("월 09:00~10:00\n화 09:00~10:00"), Some(vec![[540, 600]]));
    assert_eq!(read_intervals("월 09:00~10:00\r\n"), None);
    assert_eq!(read_intervals(""), None);
    assert_eq!(read_intervals("월 09:00~10:00\r\n\r\n화 09:00~10:00"), None);
}

#[test]
fn scan_finds_the_first_hit() {
    let s: Vec<char> = "ab cd".chars().collect();
    assert_eq!(scan(&s, Mark::Blank, 0), 2);
    assert_eq!(scan(&s, Mark::Ink, 2), 3);
    assert_eq!(scan(&s, Mark::Is('d'), 0), 4);
    assert_eq!(scan(&s, Mark::Is('x'), 0), 5);
    assert_eq!(scan(&s, Mark::Blank, 5), 5);
}

#[test]
fn blocks_that_touch_do_not_overlap() {
    assert!(disjoint_interval(&[540, 600], &[600, 660]));
    assert!(disjoint_interval(&[600, 660], &[540, 600]));
    assert!(!disjoint_interval(&[540, 600], &[570, 630]));
    assert!(!disjoint_interval(&[540, 600], &[550, 560]));
    assert!(disjoint_intervals(&[], &[[0, 10]]));
    assert!(disjoint_intervals(&[[0, 10]], &[]));
}

#[test]
fn disjointness_is_symmetric() {
    let a = vec![[540, 600], [2000, 2100]];
    let b = vec![[570, 630]];
    let c = vec![[600, 700]];
    assert_eq!(disjoint_intervals(&a, &b), disjoint_intervals(&b, &a));
    assert_eq!(disjoint_intervals(&a, &c), disjoint_intervals(&c, &a));
    assert!(!disjoint_intervals(&a, &b));
    assert!(disjoint_intervals(&a, &c));
}

fn clock_with_std(text: &str) -> Option<i32> {
    let mut acc: i32 = 0;
    for part in text.split(':') {
        let n = part.parse::<i32>().ok()?;
        acc = acc.checked_mul(60)?.checked_add(n)?;
    }
    Some(acc)
}

fn line_with_std(line: &str) -> Option<[i32; 2]> {
    let mut words = line.split_whitespace();
    let day: i32 = match words.next()? {
        "월" => 0,
        "화" => 1,
        "수" => 2,
        "목" => 3,
        "금" => 4,
        _ => return None,
    } * 24
        * 60;
    let mut ends = words.next()?.split('~');
    let start = ends.next()?;
    let end = ends.next()?;
    let start = clock_with_std(start);
    let end = clock_with_std(end);
    Some([day.checked_add(start?)?, day.checked_add(end?)?])
}

fn lines_with_std(text: &str) -> Option<Vec<[i32; 2]>> {
    text.split("\r\n").map(line_with_std).collect()
}

#[test]
fn reading_agrees_with_the_standard_library() {
    let alphabet = [
        '월', '화', '금', '일', ' ', '\t', '\r', '\n', '~', ':', '0', '1', '9', '+', '-', 'x',
        '\u{3000}', '\u{a0}',
    ];
    let mut state: u64 = 0x2545_f491_4f6c_dd1d;
    let mut next = move || {
        state ^= state << 13;
        state ^= state >> 7;
        state ^= state << 17;
        state
    };
    for _ in 0..20000 {
        let length = (next() % 14) as usize;
        let text: String =
            (0..length).map(|_| alphabet[(next() % alphabet.len() as u64) as usize]).collect();
        assert_eq!(read_intervals(&text), lines_with_std(&text), "{:?}", text);
        assert_eq!(read_interval(&text), line_with_std(&text), "{:?}", text);
    }
    for _ in 0..20000 {
        let mut text = String::new();
        let lines = 1 + next() % 3;
        for l in 0..lines {
            if l > 0 {
                text.push_str(["\r\n", "\n", "\r", "\r\r\n"][(next() % 4) as usize]);
            }
            text.push(alphabet[(next() % 4) as usize]);
            text.push_str([" ", "  ", "\t", ""][(next() % 4) as usize]);
            for side in 0..2 {
                if side == 1 {
                    text.push_str(["~", "~", "~~", ""][(next() % 4) as usize]);
                }
                let parts = 1 + next() % 3;
                for p in 0..parts {
                    if p > 0 {
                        text.push(':');
                    }
                    text.push_str(["", "+", "-", ""][(next() % 4) as usize]);
                    let digits = next() % 4;
                    for _ in 0..digits {
                        text.push(alphabet[10 + (next() % 3) as usize]);
                    }
                    if next() % 16 == 0 {
                        text.push_str("2147483647");
                    }
                }
            }
            text.push_str(["", "", " ", " x~1"][(next() % 4) as usize]);
        }
        assert_eq!(read_intervals(&text), lines_with_std(&text), "{:?}", text);
    }
}
