use enrollment::error::Error;
use enrollment::fill::{
    check_filter, eligible_students, enroll_chosen, fill_division, Rule, Shortfall, Strategy,
};
use enrollment::partition::{all_places, is_picked, partition, partition_with};
use enrollment::pass::{run_pass, run_passes, Pass, Report};
use enrollment::replay::{count_enrolled, is_consistent, replay};
use enrollment::roster::{find_student, has_distinct_ids};
use enrollment::sampling::pick;
use enrollment::schedule::parse_intervals;
use enrollment::student::{Status, Student};
use enrollment::subject::{Catalog, Division};
use rand::rngs::StdRng;
use rand::SeedableRng;

fn division(id: &str, section: &str, quota: i32, hour: &str) -> Division {
    Division {
        id: id.to_owned(),
        name: format!("{} lecture", id),
        division: section.to_owned(),
        english: false,
        assigned: 0,
        quota,
        hour: parse_intervals(hour),
    }
}

fn student(id: &str, subjects: &[(&str, &str)]) -> Student {
    Student {
        id: id.to_owned(),
        name: format!("student {}", id),
        gender: "M".to_owned(),
        nationality: "KR".to_owned(),
        high_school: "school".to_owned(),
        high_school_category: "general".to_owned(),
        subjects: subjects
            .iter()
            .map(|(s, d)| {
                let status = match *d {
                    "?" => Status::Undefined,
                    "-" => Status::No,
                    other => Status::Enroll(other.to_owned()),
                };
                (s.to_string(), status)
            })
            .collect(),
    }
}

fn start(rows: Vec<Division>, roster: &Vec<Student>) -> Catalog {
    let mut catalog = Catalog::from_rows(rows).unwrap();
    assert_eq!(replay(roster, &mut catalog), Ok(()));
    catalog
}

fn pass(subject: &str, divisions: &[&str], filter: Vec<Rule>, strategy: Strategy) -> Pass {
    Pass {
        subject: subject.to_owned(),
        divisions: divisions.iter().map(|d| d.to_string()).collect(),
        filter,
        strategy,
        shortfall: Shortfall::Tolerate,
    }
}

fn decisions(roster: &Vec<Student>, subject: &str) -> Vec<String> {
    roster.iter().map(|s| s.status(subject).unwrap().to_string()).collect()
}

fn counts(catalog: &Catalog) -> Vec<i32> {
    catalog.divisions.iter().map(|d| d.assigned).collect()
}

fn check_snapshot(roster: &Vec<Student>, catalog: &Catalog) {
    assert!(is_consistent(roster, catalog));
    for d in &catalog.divisions {
        assert!(0 <= d.assigned && d.assigned <= d.quota);
        let enrolled = roster
            .iter()
            .filter(|s| s.find(&d.id).is_some() && s.is_taking(&d.id, &d.division))
            .count();
        assert_eq!(d.assigned as usize, enrolled);
    }
    for s in roster {
        let taken = s.subjects(catalog).unwrap();
        for i in 0..taken.len() {
            for j in i + 1..taken.len() {
                assert!(taken[i].is_disjoint(taken[j]));
            }
        }
    }
}

#[test]
fn two_of_three_eligible_students_are_enrolled() {
    for strategy in [Strategy::Ordered, Strategy::Sampled] {
        let mut roster = vec![
            student("1", &[("CS101", "?")]),
            student("2", &[("CS101", "?")]),
            student("3", &[("CS101", "?")]),
        ];
        let mut catalog = start(vec![division("CS101", "X", 2, "월 09:00~10:00")], &roster);
        let mut rng = StdRng::seed_from_u64(1001);
        let report =
            run_pass(&mut roster, &mut catalog, &pass("CS101", &["X"], vec![], strategy), &mut rng);
        assert_eq!(report.halted, None);
        assert_eq!(report.chosen.len(), 1);
        assert_eq!(report.chosen[0].len(), 2);
        assert_eq!(catalog.get("CS101", "X").unwrap().assigned, 2);
        let all = decisions(&roster, "CS101");
        assert_eq!(all.iter().filter(|d| d.as_str() == "X").count(), 2);
        assert_eq!(all.iter().filter(|d| d.as_str() == "?").count(), 1);
        for place in &report.chosen[0] {
            assert!(roster[*place].is_taking("CS101", "X"));
        }
        check_snapshot(&roster, &catalog);
    }
}

#[test]
fn an_ordered_pass_takes_the_first_eligible() {
    let mut roster = vec![
        student("1", &[("CS101", "-")]),
        student("2", &[("CS101", "?")]),
        student("3", &[("CS101", "?"), ("MAS101", "A")]),
        student("4", &[("CS101", "?")]),
        student("5", &[("CS101", "?")]),
        student("6", &[("CS101", "?")]),
    ];
    let mut catalog = start(
        vec![
            division("CS101", "A", 2, "월 09:00~10:00"),
            division("CS101", "B", 1, "화 09:00~10:00"),
            division("MAS101", "A", 9, "월 09:30~10:30"),
        ],
        &roster,
    );
    let mut rng = StdRng::seed_from_u64(1002);
    let report = run_pass(
        &mut roster,
        &mut catalog,
        &pass("CS101", &["A", "B"], vec![], Strategy::Ordered),
        &mut rng,
    );
    assert_eq!(report, Report { chosen: vec![vec![1, 3], vec![2]], halted: None });
    assert_eq!(decisions(&roster, "CS101"), ["-", "A", "B", "A", "?", "?"]);
    assert_eq!(counts(&catalog), [2, 1, 1]);
    check_snapshot(&roster, &catalog);
}

#[test]
fn divisions_are_filled_in_the_order_of_the_pass() {
    let roster = || {
        vec![
            student("1", &[("CS101", "?")]),
            student("2", &[("CS101", "?")]),
            student("3", &[("CS101", "?")]),
        ]
    };
    let rows = || {
        vec![
            division("CS101", "A", 2, "월 09:00~10:00"),
            division("CS101", "B", 2, "화 09:00~10:00"),
        ]
    };
    let mut rng = StdRng::seed_from_u64(1003);
    let mut first = roster();
    let mut catalog = start(rows(), &first);
    run_pass(&mut first, &mut catalog, &pass("CS101", &["A", "B"], vec![], Strategy::Ordered), &mut rng);
    assert_eq!(decisions(&first, "CS101"), ["A", "A", "B"]);
    assert_eq!(counts(&catalog), [2, 1]);
    let mut second = roster();
    let mut catalog = start(rows(), &second);
    run_pass(&mut second, &mut catalog, &pass("CS101", &["B", "A"], vec![], Strategy::Ordered), &mut rng);
    assert_eq!(decisions(&second, "CS101"), ["B", "B", "A"]);
    assert_eq!(counts(&catalog), [1, 2]);
}

#[test]
fn a_strict_pass_claims_seats_before_the_rest() {
    let mut roster = vec![
        student("1", &[("CS101", "-"), ("CH102", "?")]),
        student("2", &[("CS101", "A"), ("CH102", "?")]),
        student("3", &[("CS101", "I"), ("CH102", "?")]),
        student("4", &[("CS101", "?"), ("CH102", "?")]),
        student("5", &[("CS101", "B"), ("CH102", "?")]),
    ];
    let mut catalog = start(
        vec![
            division("CS101", "A", 9, "월 09:00~10:00"),
            division("CS101", "B", 9, "월 11:00~12:00"),
            division("CS101", "I", 9, "월 13:00~14:00"),
            division("CH102", "V", 2, "화 09:00~10:00"),
            division("CH102", "W", 9, "수 09:00~10:00"),
        ],
        &roster,
    );
    let mut rng = StdRng::seed_from_u64(1004);
    let strict = pass(
        "CH102",
        &["V", "W"],
        vec![Rule::Enrolled("CS101".to_owned()), Rule::NotTaking("CS101".to_owned(), "I".to_owned())],
        Strategy::Ordered,
    );
    let report = run_pass(&mut roster, &mut catalog, &strict, &mut rng);
    assert_eq!(report, Report { chosen: vec![vec![1, 4], vec![]], halted: None });
    assert_eq!(decisions(&roster, "CH102"), ["?", "V", "?", "?", "V"]);
    let rest = pass("CH102", &["V", "W"], vec![], Strategy::Ordered);
    let report = run_pass(&mut roster, &mut catalog, &rest, &mut rng);
    assert_eq!(report, Report { chosen: vec![vec![], vec![0, 2, 3]], halted: None });
    assert_eq!(decisions(&roster, "CH102"), ["W", "V", "W", "W", "V"]);
    check_snapshot(&roster, &catalog);
}

#[test]
fn each_rule_screens_the_students() {
    let a = student("1", &[("CS101", "A"), ("MAS101", "-"), ("PH141", "?")]);
    let enrolled = |s: &str| Rule::Enrolled(s.to_owned());
    let declined = |s: &str| Rule::Declined(s.to_owned());
    let not_declined = |s: &str| Rule::NotDeclined(s.to_owned());
    let taking = |s: &str, d: &str| Rule::Taking(s.to_owned(), d.to_owned());
    let not_taking = |s: &str, d: &str| Rule::NotTaking(s.to_owned(), d.to_owned());
    assert!(enrolled("CS101").holds(&a));
    assert!(!enrolled("MAS101").holds(&a));
    assert!(!enrolled("PH141").holds(&a));
    assert!(!enrolled("BS120").holds(&a));
    assert!(declined("MAS101").holds(&a));
    assert!(!declined("CS101").holds(&a));
    assert!(!declined("BS120").holds(&a));
    assert!(not_declined("CS101").holds(&a));
    assert!(not_declined("PH141").holds(&a));
    assert!(not_declined("BS120").holds(&a));
    assert!(!not_declined("MAS101").holds(&a));
    assert!(taking("CS101", "A").holds(&a));
    assert!(!taking("BS120", "A").holds(&a));
    assert!(not_taking("BS120", "A").holds(&a));
    assert!(!taking("CS101", "B").holds(&a));
    assert!(not_taking("CS101", "B").holds(&a));
    assert!(!not_taking("CS101", "A").holds(&a));
    assert!(check_filter(&vec![], &a));
    assert!(check_filter(&vec![enrolled("CS101"), declined("MAS101")], &a));
    assert!(!check_filter(&vec![enrolled("CS101"), declined("CS101")], &a));
}

#[test]
fn the_eligible_are_open_admitted_and_free() {
    let roster = vec![
        student("1", &[("CS101", "?"), ("MAS101", "A")]),
        student("2", &[("CS101", "?"), ("MAS101", "B")]),
        student("3", &[("CS101", "B"), ("MAS101", "B")]),
        student("4", &[("CS101", "?"), ("MAS101", "-")]),
        student("5", &[("MAS101", "B")]),
    ];
    let catalog = start(
        vec![
            division("CS101", "A", 1, "월 09:00~10:00"),
            division("CS101", "B", 1, "목 09:00~10:00"),
            division("MAS101", "A", 9, "월 09:59~11:00"),
            division("MAS101", "B", 9, "월 10:00~11:00"),
        ],
        &roster,
    );
    assert_eq!(eligible_students(&roster, &catalog, "CS101", "A", &vec![]), Ok(vec![1, 3]));
    assert_eq!(
        eligible_students(&roster, &catalog, "CS101", "A", &vec![Rule::NotDeclined("MAS101".to_owned())]),
        Ok(vec![1])
    );
    assert_eq!(eligible_students(&roster, &catalog, "CS101", "B", &vec![]), Ok(vec![0, 1, 3]));
    assert_eq!(eligible_students(&roster, &catalog, "CS101", "C", &vec![]), Err(Error::NotFound));
}

#[test]
fn an_idle_pass_changes_nothing() {
    for shortfall in [Shortfall::Tolerate, Shortfall::Halt] {
        let mut roster = vec![
            student("1", &[("CS101", "A"), ("MAS101", "?")]),
            student("2", &[("CS101", "-"), ("MAS101", "?")]),
            student("3", &[("MAS101", "?")]),
        ];
        let mut catalog = start(
            vec![
                division("CS101", "A", 3, "월 09:00~10:00"),
                division("CS101", "B", 3, "화 09:00~10:00"),
                division("MAS101", "A", 3, "월 09:00~10:00"),
            ],
            &roster,
        );
        let before_roster = format!("{:?}", roster);
        let before_catalog = format!("{:?}", catalog);
        let mut rng = StdRng::seed_from_u64(1005);
        let mut idle = pass("CS101", &["A", "B"], vec![], Strategy::Sampled);
        idle.shortfall = shortfall;
        let report = run_pass(&mut roster, &mut catalog, &idle, &mut rng);
        assert!(report.chosen.iter().all(|c| c.is_empty()));
        assert_eq!(format!("{:?}", roster), before_roster);
        assert_eq!(format!("{:?}", catalog), before_catalog);
        match shortfall {
            Shortfall::Tolerate => assert_eq!(report, Report { chosen: vec![vec![], vec![]], halted: None }),
            Shortfall::Halt => {
                assert_eq!(report, Report { chosen: vec![vec![]], halted: Some(Error::Exhausted) })
            }
        }
    }
}

#[test]
fn ordered_runs_give_the_same_result() {
    let run = || {
        let mut roster: Vec<Student> = (0..40)
            .map(|i| {
                student(
                    &format!("{}", 1000 + i),
                    &[("CS101", if i % 7 == 0 { "-" } else { "?" }), ("MAS101", if i % 3 == 0 { "A" } else { "?" })],
                )
            })
            .collect();
        let mut catalog = start(
            vec![
                division("CS101", "A", 5, "월 09:00~10:00"),
                division("CS101", "B", 7, "화 09:00~10:00"),
                division("CS101", "C", 50, "수 09:00~10:00"),
                division("MAS101", "A", 40, "월 09:30~10:30"),
                division("MAS101", "B", 40, "화 09:30~10:30"),
            ],
            &roster,
        );
        let mut rng = StdRng::seed_from_u64(1006);
        let first = run_pass(
            &mut roster,
            &mut catalog,
            &pass("CS101", &["A", "B", "C"], vec![Rule::Enrolled("MAS101".to_owned())], Strategy::Ordered),
            &mut rng,
        );
        let second = run_pass(
            &mut roster,
            &mut catalog,
            &pass("CS101", &["B", "A", "C"], vec![], Strategy::Ordered),
            &mut rng,
        );
        check_snapshot(&roster, &catalog);
        (roster, catalog, first, second)
    };
    assert_eq!(run(), run());
}

#[test]
fn a_shortfall_halts_the_pass_where_asked() {
    let roster = || {
        vec![
            student("1", &[("CS101", "?")]),
            student("2", &[("CS101", "?")]),
            student("3", &[("CS101", "?")]),
        ]
    };
    let rows = || {
        vec![
            division("CS101", "A", 1, "월 09:00~10:00"),
            division("CS101", "B", 3, "화 09:00~10:00"),
            division("CS101", "C", 3, "수 09:00~10:00"),
        ]
    };
    let mut rng = StdRng::seed_from_u64(1007);
    let mut halting = pass("CS101", &["A", "B", "C"], vec![], Strategy::Ordered);
    halting.shortfall = Shortfall::Halt;
    let mut students = roster();
    let mut catalog = start(rows(), &students);
    let report = run_pass(&mut students, &mut catalog, &halting, &mut rng);
    assert_eq!(report, Report { chosen: vec![vec![0], vec![1, 2]], halted: Some(Error::Exhausted) });
    assert_eq!(decisions(&students, "CS101"), ["A", "B", "B"]);
    assert_eq!(counts(&catalog), [1, 2, 0]);
    let tolerant = pass("CS101", &["A", "B", "C"], vec![], Strategy::Ordered);
    let mut students = roster();
    let mut catalog = start(rows(), &students);
    let report = run_pass(&mut students, &mut catalog, &tolerant, &mut rng);
    assert_eq!(report, Report { chosen: vec![vec![0], vec![1, 2], vec![]], halted: None });
    // a division that is filled to its last seat is no shortfall
    let mut exact = pass("CS101", &["A", "B"], vec![], Strategy::Ordered);
    exact.shortfall = Shortfall::Halt;
    let mut students = roster();
    let mut catalog = start(
        vec![division("CS101", "A", 1, "월 09:00~10:00"), division("CS101", "B", 2, "화 09:00~10:00")],
        &students,
    );
    let report = run_pass(&mut students, &mut catalog, &exact, &mut rng);
    assert_eq!(report, Report { chosen: vec![vec![0], vec![1, 2]], halted: None });
}

#[test]
fn a_division_that_is_not_found_ends_the_pass() {
    let mut roster = vec![student("1", &[("CS101", "?")]), student("2", &[("CS101", "?")])];
    let mut catalog = start(
        vec![division("CS101", "A", 1, "월 09:00~10:00"), division("CS101", "B", 1, "화 09:00~10:00")],
        &roster,
    );
    let mut rng = StdRng::seed_from_u64(1008);
    let report = run_pass(
        &mut roster,
        &mut catalog,
        &pass("CS101", &["A", "Z", "B"], vec![], Strategy::Ordered),
        &mut rng,
    );
    assert_eq!(report, Report { chosen: vec![vec![0]], halted: Some(Error::NotFound) });
    assert_eq!(decisions(&roster, "CS101"), ["A", "?"]);
    assert_eq!(counts(&catalog), [1, 0]);
    let report = run_pass(&mut roster, &mut catalog, &pass("XX", &["A"], vec![], Strategy::Ordered), &mut rng);
    assert_eq!(report, Report { chosen: vec![], halted: Some(Error::NotFound) });
    let report = run_pass(&mut roster, &mut catalog, &pass("CS101", &[], vec![], Strategy::Ordered), &mut rng);
    assert_eq!(report, Report { chosen: vec![], halted: None });
}

#[test]
fn a_sampled_fill_draws_distinct_eligible_students() {
    for _ in 0..50 {
        let mut roster: Vec<Student> = (0..30)
            .map(|i| student(&format!("{}", i), &[("CS101", if i % 5 == 0 { "-" } else { "?" })]))
            .collect();
        let mut catalog = start(vec![division("CS101", "A", 10, "월 09:00~10:00")], &roster);
        let pool = eligible_students(&roster, &catalog, "CS101", "A", &vec![]).unwrap();
        assert_eq!(pool.len(), 24);
        let mut rng = StdRng::seed_from_u64(1009);
        let chosen =
            fill_division(&mut roster, &mut catalog, "CS101", "A", &vec![], Strategy::Sampled, &mut rng)
                .unwrap();
        assert_eq!(chosen.len(), 10);
        let mut seen = chosen.clone();
        seen.sort();
        seen.dedup();
        assert_eq!(seen.len(), 10);
        for place in 0..roster.len() {
            assert_eq!(roster[place].is_taking("CS101", "A"), chosen.contains(&place));
        }
        for place in &chosen {
            assert!(pool.contains(place));
        }
        assert_eq!(catalog.get("CS101", "A").unwrap().assigned, 10);
        check_snapshot(&roster, &catalog);
    }
}

#[test]
fn a_sampled_fill_takes_all_where_few_are_eligible() {
    let mut roster = vec![
        student("1", &[("CS101", "?")]),
        student("2", &[("CS101", "-")]),
        student("3", &[("CS101", "?")]),
    ];
    let mut catalog = start(vec![division("CS101", "A", 10, "월 09:00~10:00")], &roster);
    let mut rng = StdRng::seed_from_u64(1010);
    let mut chosen =
        fill_division(&mut roster, &mut catalog, "CS101", "A", &vec![], Strategy::Sampled, &mut rng)
            .unwrap();
    chosen.sort();
    assert_eq!(chosen, [0, 2]);
    assert_eq!(decisions(&roster, "CS101"), ["A", "-", "A"]);
    assert_eq!(
        fill_division(&mut roster, &mut catalog, "CS101", "B", &vec![], Strategy::Sampled, &mut rng),
        Err(Error::NotFound)
    );
}

#[test]
fn sampled_passes_keep_the_snapshot_consistent() {
    for _ in 0..20 {
        let mut roster: Vec<Student> = (0..60)
            .map(|i| {
                student(
                    &format!("{}", i),
                    &[
                        ("CS101", if i % 4 == 0 { "A" } else { "?" }),
                        ("MAS101", "?"),
                        ("PH141", if i % 9 == 0 { "-" } else { "?" }),
                    ],
                )
            })
            .collect();
        let before: Vec<Vec<String>> =
            ["CS101", "MAS101", "PH141"].iter().map(|s| decisions(&roster, s)).collect();
        let mut catalog = start(
            vec![
                division("CS101", "A", 20, "월 09:00~10:00"),
                division("CS101", "B", 25, "화 09:00~10:00"),
                division("CS101", "C", 25, "수 09:00~10:00"),
                division("MAS101", "A", 20, "월 09:30~10:30"),
                division("MAS101", "B", 20, "화 09:30~10:30"),
                division("MAS101", "C", 30, "수 09:30~10:30\r\n금 09:00~10:00"),
                division("PH141", "A", 30, "금 09:30~10:30"),
                division("PH141", "B", 40, "목 09:30~10:30"),
            ],
            &roster,
        );
        let mut rng = StdRng::seed_from_u64(1011);
        for (subject, divisions) in
            [("MAS101", ["A", "B", "C"]), ("CS101", ["C", "B", "A"]), ("PH141", ["A", "B", "A"])]
        {
            run_pass(&mut roster, &mut catalog, &pass(subject, &divisions, vec![], Strategy::Sampled), &mut rng);
            check_snapshot(&roster, &catalog);
        }
        let after: Vec<Vec<String>> =
            ["CS101", "MAS101", "PH141"].iter().map(|s| decisions(&roster, s)).collect();
        for (subject, (old, new)) in ["CS101", "MAS101", "PH141"].iter().zip(before.iter().zip(after.iter())) {
            for (o, n) in old.iter().zip(new.iter()) {
                if o != n {
                    assert_eq!(o, "?");
                    assert!(catalog.get(subject, n).is_ok());
                }
            }
        }
    }
}

#[test]
fn enroll_chosen_stops_at_the_first_refusal() {
    let mut roster = vec![
        student("1", &[("CS101", "?")]),
        student("2", &[("CS101", "-")]),
        student("3", &[("CS101", "?")]),
    ];
    let mut catalog = start(vec![division("CS101", "A", 5, "월 09:00~10:00")], &roster);
    assert_eq!(
        enroll_chosen(&mut roster, &mut catalog, "CS101", "A", &vec![0, 1, 2]),
        Err(Error::AlreadyDecided)
    );
    assert_eq!(decisions(&roster, "CS101"), ["A", "-", "?"]);
    assert_eq!(counts(&catalog), [1]);
    assert_eq!(enroll_chosen(&mut roster, &mut catalog, "CS101", "A", &vec![2, 7]), Err(Error::NotFound));
    assert_eq!(decisions(&roster, "CS101"), ["A", "-", "A"]);
    assert_eq!(enroll_chosen(&mut roster, &mut catalog, "CS101", "A", &vec![]), Ok(()));
    assert_eq!(counts(&catalog), [2]);
}

#[test]
fn ten_students_are_split_three_to_seven() {
    for _ in 0..20 {
        let mut roster: Vec<Student> =
            (0..14).map(|i| student(&format!("s{}", i), &[("HSS022", "?")])).collect();
        let mut catalog = start(
            vec![division("HSS022", "A", 25, "월 09:00~10:00"), division("HSS022", "C", 25, "화 09:00~10:00")],
            &roster,
        );
        let ids = ["s2", "s3", "s5", "s7", "s11", "s13", "s0", "s4", "s6", "s8"];
        let mut rng = StdRng::seed_from_u64(1012);
        let (picks, done) = partition(&mut roster, &mut catalog, "HSS022", &ids, 3, "C", "A", &mut rng);
        assert_eq!(done, Ok(()));
        assert_eq!(picks.len(), 3);
        let mut places = picks.clone();
        places.sort();
        places.dedup();
        assert_eq!(places.len(), 3);
        assert!(places.iter().all(|place| *place < ids.len()));
        let in_c: Vec<&str> =
            roster.iter().filter(|s| s.is_taking("HSS022", "C")).map(|s| s.id.as_str()).collect();
        let in_a: Vec<&str> =
            roster.iter().filter(|s| s.is_taking("HSS022", "A")).map(|s| s.id.as_str()).collect();
        assert_eq!(in_c.len(), 3);
        assert_eq!(in_a.len(), 7);
        for id in &in_c {
            assert!(ids.contains(id));
            assert!(!in_a.contains(id));
        }
        for id in &in_a {
            assert!(ids.contains(id));
        }
        for (j, id) in ids.iter().enumerate() {
            assert_eq!(in_c.contains(id), picks.contains(&j));
        }
        for s in &roster {
            if !ids.contains(&s.id.as_str()) {
                assert_eq!(s.status("HSS022"), Some(&Status::Undefined));
            }
        }
        assert_eq!(catalog.get("HSS022", "C").unwrap().assigned, 3);
        assert_eq!(catalog.get("HSS022", "A").unwrap().assigned, 7);
        check_snapshot(&roster, &catalog);
    }
}

#[test]
fn a_partition_follows_the_picks() {
    let mut roster: Vec<Student> =
        (0..5).map(|i| student(&format!("s{}", i), &[("HSS022", "?")])).collect();
    let mut catalog = start(
        vec![division("HSS022", "A", 25, "월 09:00~10:00"), division("HSS022", "C", 25, "화 09:00~10:00")],
        &roster,
    );
    let ids = ["s4", "s1", "s0", "s3"];
    assert_eq!(
        partition_with(&mut roster, &mut catalog, "HSS022", &ids, &vec![3, 0], "C", "A"),
        Ok(())
    );
    assert_eq!(decisions(&roster, "HSS022"), ["A", "A", "?", "C", "C"]);
    assert_eq!(counts(&catalog), [2, 2]);
}

#[test]
fn a_partition_stops_at_the_first_fault() {
    let roster = || -> Vec<Student> {
        (0..4).map(|i| student(&format!("s{}", i), &[("HSS022", if i == 2 { "-" } else { "?" })])).collect()
    };
    let rows = || {
        vec![division("HSS022", "A", 1, "월 09:00~10:00"), division("HSS022", "C", 25, "화 09:00~10:00")]
    };
    let mut students = roster();
    let mut catalog = start(rows(), &students);
    assert_eq!(
        partition_with(&mut students, &mut catalog, "HSS022", &["s0", "nobody", "s1"], &vec![], "C", "A"),
        Err(Error::NotFound)
    );
    assert_eq!(decisions(&students, "HSS022"), ["A", "?", "-", "?"]);
    let mut students = roster();
    let mut catalog = start(rows(), &students);
    assert_eq!(
        partition_with(&mut students, &mut catalog, "HSS022", &["s0", "s1", "s3"], &vec![2], "C", "A"),
        Err(Error::CapacityExceeded)
    );
    assert_eq!(decisions(&students, "HSS022"), ["A", "?", "-", "?"]);
    let mut students = roster();
    let mut catalog = start(rows(), &students);
    assert_eq!(
        partition_with(&mut students, &mut catalog, "HSS022", &["s1", "s2"], &vec![0, 1], "C", "A"),
        Err(Error::AlreadyDecided)
    );
    assert_eq!(decisions(&students, "HSS022"), ["?", "C", "-", "?"]);
    let mut students = roster();
    let mut catalog = start(rows(), &students);
    assert_eq!(
        partition_with(&mut students, &mut catalog, "HSS022", &["s1", "s1"], &vec![0, 1], "C", "A"),
        Err(Error::AlreadyDecided)
    );
    assert_eq!(counts(&catalog), [0, 1]);
}

#[test]
fn a_partition_samples_all_where_the_list_is_short() {
    let mut roster: Vec<Student> =
        (0..3).map(|i| student(&format!("s{}", i), &[("HSS022", "?")])).collect();
    let mut catalog = start(
        vec![division("HSS022", "A", 25, "월 09:00~10:00"), division("HSS022", "C", 25, "화 09:00~10:00")],
        &roster,
    );
    let mut rng = StdRng::seed_from_u64(1013);
    let (mut picks, done) =
        partition(&mut roster, &mut catalog, "HSS022", &["s2", "s0"], 25, "C", "A", &mut rng);
    picks.sort();
    assert_eq!(picks, [0, 1]);
    assert_eq!(done, Ok(()));
    assert_eq!(decisions(&roster, "HSS022"), ["C", "?", "C"]);
    let (picks, done) = partition(&mut roster, &mut catalog, "HSS022", &[], 3, "C", "A", &mut rng);
    assert_eq!(picks, Vec::<usize>::new());
    assert_eq!(done, Ok(()));
}

#[test]
fn students_are_found_by_id() {
    let roster = vec![student("a", &[]), student("b", &[]), student("a", &[])];
    assert_eq!(find_student(&roster, "a"), Some(0));
    assert_eq!(find_student(&roster, "b"), Some(1));
    assert_eq!(find_student(&roster, "c"), None);
    assert!(!has_distinct_ids(&roster));
    assert!(has_distinct_ids(&vec![student("a", &[]), student("b", &[])]));
    assert!(has_distinct_ids(&vec![]));
    assert!(is_picked(&vec![4, 2], 2));
    assert!(!is_picked(&vec![4, 2], 3));
}

#[test]
fn items_are_picked_by_position() {
    assert_eq!(pick(&vec![10, 20, 30], &vec![2, 0]), [30, 10]);
    assert_eq!(pick(&vec![10, 20, 30], &vec![]), Vec::<usize>::new());
    assert_eq!(all_places(4), [0, 1, 2, 3]);
    assert_eq!(all_places(0), Vec::<usize>::new());
}

#[test]
fn passes_run_in_sequence_until_one_ends_early() {
    let roster = || -> Vec<Student> {
        (0..6).map(|i| student(&format!("s{}", i), &[("CS101", "?"), ("MAS101", "?")])).collect()
    };
    let rows = || {
        vec![
            division("CS101", "A", 2, "월 09:00~10:00"),
            division("CS101", "B", 9, "화 09:00~10:00"),
            division("MAS101", "A", 3, "월 09:30~10:30"),
        ]
    };
    let mut rng = StdRng::seed_from_u64(1014);
    let mut students = roster();
    let mut catalog = start(rows(), &students);
    let table = vec![
        pass("CS101", &["A"], vec![], Strategy::Ordered),
        pass("MAS101", &["A"], vec![], Strategy::Ordered),
        pass("CS101", &["B"], vec![Rule::Enrolled("MAS101".to_owned())], Strategy::Ordered),
    ];
    let reports = run_passes(&mut students, &mut catalog, &table, &mut rng);
    assert_eq!(
        reports,
        vec![
            Report { chosen: vec![vec![0, 1]], halted: None },
            Report { chosen: vec![vec![2, 3, 4]], halted: None },
            Report { chosen: vec![vec![2, 3, 4]], halted: None },
        ]
    );
    assert_eq!(decisions(&students, "CS101"), ["A", "A", "B", "B", "B", "?"]);
    assert_eq!(decisions(&students, "MAS101"), ["?", "?", "A", "A", "A", "?"]);
    assert_eq!(counts(&catalog), [2, 3, 3]);
    check_snapshot(&students, &catalog);

    let mut students = roster();
    let mut catalog = start(rows(), &students);
    let table = vec![
        pass("CS101", &["A"], vec![], Strategy::Ordered),
        pass("MAS101", &["A", "Q"], vec![], Strategy::Ordered),
        pass("CS101", &["B"], vec![], Strategy::Ordered),
    ];
    let reports = run_passes(&mut students, &mut catalog, &table, &mut rng);
    assert_eq!(
        reports,
        vec![
            Report { chosen: vec![vec![0, 1]], halted: None },
            Report { chosen: vec![vec![2, 3, 4]], halted: Some(Error::NotFound) },
        ]
    );
    assert_eq!(decisions(&students, "CS101"), ["A", "A", "?", "?", "?", "?"]);
    assert_eq!(run_passes(&mut students, &mut catalog, &vec![], &mut rng), vec![]);
}

#[test]
fn consistency_is_tested_part_by_part() {
    let rows = || {
        vec![
            division("CS101", "A", 2, "월 09:00~10:00"),
            division("MAS101", "A", 2, "월 09:30~10:30"),
            division("MAS101", "B", 2, "화 09:30~10:30"),
        ]
    };
    let roster = vec![
        student("1", &[("CS101", "A"), ("MAS101", "B")]),
        student("2", &[("CS101", "A"), ("MAS101", "?")]),
        student("3", &[("CS101", "-"), ("MAS101", "B")]),
    ];
    let mut catalog = Catalog::from_rows(rows()).unwrap();
    assert!(catalog.is_well_formed());
    // nobody is counted yet
    assert!(!is_consistent(&roster, &catalog));
    assert_eq!(replay(&roster, &mut catalog), Ok(()));
    assert!(is_consistent(&roster, &catalog));
    assert_eq!(count_enrolled(&roster, "CS101", "A"), 2);
    assert_eq!(count_enrolled(&roster, "MAS101", "B"), 2);
    assert_eq!(count_enrolled(&roster, "MAS101", "A"), 0);
    assert_eq!(count_enrolled(&roster, "PH141", "A"), 0);
    // a count that is off by one
    catalog.divisions[2].assigned = 1;
    assert!(!is_consistent(&roster, &catalog));
    catalog.divisions[2].assigned = 2;
    // a count above the quota
    catalog.divisions[0].quota = 1;
    assert!(!catalog.is_well_formed());
    assert!(!is_consistent(&roster, &catalog));
    catalog.divisions[0].quota = 2;
    // a division that is listed twice
    let twice = vec![student("1", &[("CS101", "?")])];
    let mut doubled = Catalog::from_rows(rows()).unwrap();
    doubled.divisions.push(division("MAS101", "A", 5, "수 09:30~10:30"));
    assert!(!doubled.is_well_formed());
    assert!(!is_consistent(&twice, &doubled));
    // an enrolment outside the catalog, overlapping enrolments, a subject twice
    let catalog = Catalog::from_rows(rows()).unwrap();
    assert!(is_consistent(&vec![student("1", &[("CS101", "?")])], &catalog));
    assert!(!is_consistent(&vec![student("1", &[("CS101", "Z")])], &catalog));
    let mut counted = Catalog::from_rows(rows()).unwrap();
    counted.divisions[0].assigned = 1;
    counted.divisions[1].assigned = 1;
    assert!(!is_consistent(&vec![student("1", &[("CS101", "A"), ("MAS101", "A")])], &counted));
    assert!(!is_consistent(&vec![student("1", &[("CS101", "?"), ("CS101", "?")])], &catalog));
    assert!(is_consistent(&vec![], &catalog));
}

#[test]
fn one_seed_gives_one_run() {
    let run = |seed: u64| {
        let mut roster: Vec<Student> =
            (0..50).map(|i| student(&format!("{}", i), &[("CS101", "?"), ("MAS101", "?")])).collect();
        let mut catalog = start(
            vec![
                division("CS101", "A", 10, "월 09:00~10:00"),
                division("CS101", "B", 10, "화 09:00~10:00"),
                division("MAS101", "A", 20, "월 09:30~10:30"),
            ],
            &roster,
        );
        let mut rng = StdRng::seed_from_u64(seed);
        let reports = run_passes(
            &mut roster,
            &mut catalog,
            &vec![
                pass("CS101", &["A", "B"], vec![], Strategy::Sampled),
                pass("MAS101", &["A"], vec![], Strategy::Sampled),
            ],
            &mut rng,
        );
        check_snapshot(&roster, &catalog);
        (roster, catalog, reports)
    };
    assert_eq!(run(7), run(7));
    let (_, catalog, reports) = run(8);
    assert_eq!(counts(&catalog), [10, 10, 20]);
    assert_eq!(reports[0].chosen[0].len(), 10);
    assert_eq!(reports[0].chosen[1].len(), 10);
    assert_ne!(run(7).2, run(8).2);
}
