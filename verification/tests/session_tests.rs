use vocage::session::{
    parse_csv_strings, parse_csv_u32, parse_showcolumns, CommonArguments, SessionError,
    VocaSession,
};
use vocage::IntErrorKind;

fn texts(v: &[&str]) -> Vec<String> {
    v.iter().map(|s| s.to_string()).collect()
}

#[test]
fn csv_strings_are_trimmed_and_empty_items_dropped() {
    assert_eq!(parse_csv_strings(" a, b ,,c "), texts(&["a", "b", "c"]));
    assert_eq!(parse_csv_strings(""), Vec::<String>::new());
    assert_eq!(parse_csv_strings(" , ,"), Vec::<String>::new());
    assert_eq!(parse_csv_strings("immediate,daily"), texts(&["immediate", "daily"]));
}

#[test]
fn csv_u32_reads_intervals() {
    assert_eq!(parse_csv_u32("10, 20,,30").ok(), Some(vec![10, 20, 30]));
    assert_eq!(parse_csv_u32("").ok(), Some(vec![]));
    assert_eq!(parse_csv_u32("+5").ok(), Some(vec![5]));
    assert_eq!(parse_csv_u32("4294967295").ok(), Some(vec![4294967295]));
}

#[test]
fn csv_u32_refuses_first_bad_item() {
    match parse_csv_u32("10,x,4294967296") {
        Err(SessionError::InvalidInteger { text, kind }) => {
            assert_eq!(text, "x");
            assert_eq!(kind, IntErrorKind::InvalidDigit);
        }
        _ => panic!("expected an invalid integer"),
    }
    match parse_csv_u32("1, 4294967296 ") {
        Err(e) => {
            assert_eq!(e.message(), "invalid integer '4294967296': number too large to fit in target type");
        }
        _ => panic!("expected an overflow"),
    }
    match parse_csv_u32("+") {
        Err(SessionError::InvalidInteger { kind, .. }) => assert_eq!(kind, IntErrorKind::InvalidDigit),
        _ => panic!("expected an invalid digit"),
    }
    match parse_csv_u32("-1") {
        Err(e) => assert_eq!(e.message(), "invalid integer '-1': invalid digit found in string"),
        _ => panic!("expected an invalid digit"),
    }
}

#[test]
fn showcolumns_reads_sides() {
    assert_eq!(parse_showcolumns("0|1,2").ok(), Some(vec![vec![0], vec![1, 2]]));
    assert_eq!(parse_showcolumns("0|").ok(), Some(vec![vec![0], vec![]]));
    assert_eq!(parse_showcolumns("").ok(), Some(vec![vec![]]));
    assert_eq!(parse_showcolumns(" 3 , 255 ").ok(), Some(vec![vec![3, 255]]));
}

#[test]
fn showcolumns_refuses_bad_column() {
    match parse_showcolumns("0|1,300") {
        Err(e) => {
            assert_eq!(e.message(), "invalid column '300': number too large to fit in target type");
            match e {
                SessionError::InvalidColumn { text, kind } => {
                    assert_eq!(text, "300");
                    assert_eq!(kind, IntErrorKind::PosOverflow);
                }
                _ => panic!("expected an invalid column"),
            }
        }
        _ => panic!("expected a refusal"),
    }
}

#[test]
fn from_arguments_defaults() {
    let s = VocaSession::from_arguments(vec![]).ok().unwrap();
    assert!(s.columns.is_empty());
    assert!(s.decks.is_empty());
    assert!(s.intervals.is_empty());
    assert_eq!(s.showcolumns, vec![vec![0], vec![1]]);
    assert_eq!(s.listdelimiter, None);
    assert!(s.header);
    assert!(s.returntofirst);
    assert_eq!(s.filename, None);
}

#[test]
fn from_arguments_reads_every_flag() {
    let s = VocaSession::from_arguments(vec![
        "--columns", "A, B", "--decks", "d1,d2", "--intervals", "10,20", "--no-header",
        "--listdelimiter", ";", "--no-returntofirst", "--showcolumns", "1|0,1", "--bogus",
    ])
    .ok()
    .unwrap();
    assert_eq!(s.columns, texts(&["A", "B"]));
    assert_eq!(s.decks, texts(&["d1", "d2"]));
    assert_eq!(s.intervals, vec![10, 20]);
    assert!(!s.header);
    assert_eq!(s.listdelimiter, Some(";".to_string()));
    assert!(!s.returntofirst);
    assert_eq!(s.showcolumns, vec![vec![1], vec![0, 1]]);
}

#[test]
fn from_arguments_later_flags_win_and_missing_values_are_passed_over() {
    let s = VocaSession::from_arguments(vec!["--no-header", "--header", "--decks", "a", "--decks"])
        .ok()
        .unwrap();
    assert!(s.header);
    assert_eq!(s.decks, texts(&["a"]));
}

#[test]
fn from_arguments_refuses_mismatched_lengths() {
    match VocaSession::from_arguments(vec!["--decks", "a,b", "--intervals", "1"]) {
        Err(e) => {
            assert_eq!(e.message(), "intervals length (1) must match decks length (2)");
            match e {
                SessionError::LengthMismatch { intervals, decks } => {
                    assert_eq!(intervals, 1);
                    assert_eq!(decks, 2);
                }
                _ => panic!("expected a length mismatch"),
            }
        }
        Ok(_) => panic!("expected a refusal"),
    }
    // only one of them given: accepted
    assert!(VocaSession::from_arguments(vec!["--intervals", "1,2,3"]).is_ok());
}

#[test]
fn from_arguments_refuses_bad_interval() {
    match VocaSession::from_arguments(vec!["--intervals", "1,two"]) {
        Err(SessionError::InvalidInteger { text, kind }) => {
            assert_eq!(text, "two");
            assert_eq!(kind, IntErrorKind::InvalidDigit);
        }
        _ => panic!("expected an invalid integer"),
    }
}

#[test]
fn deck_lookup_finds_first_match() {
    let s = VocaSession::from_arguments(vec!["--decks", "immediate,daily,daily"]).ok().unwrap();
    assert_eq!(s.get_deck_by_name("immediate"), Some(0));
    assert_eq!(s.get_deck_by_name("daily"), Some(1));
    assert_eq!(s.get_deck_by_name("weekly"), None);
}

fn no_settings() -> CommonArguments {
    CommonArguments {
        columns: None,
        decks: None,
        intervals: None,
        showcolumns: None,
        listdelimiter: None,
        header: false,
        no_header: false,
        returntofirst: false,
        no_returntofirst: false,
    }
}

#[test]
fn common_arguments_apply_given_settings() {
    let mut s = VocaSession::from_arguments(vec!["--decks", "a,b"]).ok().unwrap();
    let mut m = no_settings();
    m.decks = Some("x,y,z".to_string());
    m.intervals = Some("1,2,3".to_string());
    m.header = true;
    m.no_header = true;
    m.no_returntofirst = true;
    m.listdelimiter = Some("|".to_string());
    assert!(s.set_common_arguments(&m).is_ok());
    assert_eq!(s.decks, texts(&["x", "y", "z"]));
    assert_eq!(s.intervals, vec![1, 2, 3]);
    assert!(!s.header);
    assert!(!s.returntofirst);
    assert_eq!(s.listdelimiter, Some("|".to_string()));
    assert_eq!(s.showcolumns, vec![vec![0], vec![1]]);
}

#[test]
fn common_arguments_with_nothing_keep_session() {
    let mut s = VocaSession::from_arguments(vec!["--columns", "q", "--no-header"]).ok().unwrap();
    assert!(s.set_common_arguments(&no_settings()).is_ok());
    assert_eq!(s.columns, texts(&["q"]));
    assert!(!s.header);
    assert!(s.returntofirst);
}

#[test]
fn common_arguments_keep_what_came_before_a_refusal() {
    let mut s = VocaSession::from_arguments(vec![]).ok().unwrap();
    let mut m = no_settings();
    m.columns = Some("c1,c2".to_string());
    m.intervals = Some("1,x".to_string());
    m.no_header = true;
    assert!(s.set_common_arguments(&m).is_err());
    assert_eq!(s.columns, texts(&["c1", "c2"]));
    assert!(s.intervals.is_empty());
    assert!(s.header);
}

#[test]
fn common_arguments_refuse_mismatch_after_applying() {
    let mut s = VocaSession::from_arguments(vec![]).ok().unwrap();
    let mut m = no_settings();
    m.decks = Some("a,b".to_string());
    m.intervals = Some("1".to_string());
    match s.set_common_arguments(&m) {
        Err(e) => assert_eq!(e.message(), "intervals length (1) must match decks length (2)"),
        Ok(()) => panic!("expected a refusal"),
    }
    assert_eq!(s.intervals, vec![1]);
}
