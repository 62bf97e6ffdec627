use vocage::{Moment, VocaCard, VocaData};

fn texts(v: &[&str]) -> Vec<String> {
    v.iter().map(|s| s.to_string()).collect()
}

const SAMPLE: &str = "# c1\n\nfront\tback\nhello\tworld\r\n#c2\n   \nfoo\tbar  \n";

#[test]
fn from_text_reads_header_cards_and_comments() {
    let d = VocaData::from_text("f.tsv", SAMPLE, false);
    assert_eq!(d.session.columns, texts(&["front", "back"]));
    assert_eq!(d.session.filename, Some("f.tsv".to_string()));
    assert_eq!(d.session.decks, texts(&["immediate", "daily", "weekly", "monthly"]));
    assert_eq!(d.session.intervals, vec![0, 1440, 10080, 43200]);
    assert_eq!(d.session.showcolumns, vec![vec![0], vec![1]]);
    assert!(d.session.header);
    assert!(d.session.returntofirst);
    assert_eq!(d.session.listdelimiter, None);
    assert_eq!(d.comments, vec![(1, "# c1".to_string()), (5, "#c2".to_string())]);
    assert_eq!(d.cards.len(), 2);
    assert_eq!(d.cards[0].fields, texts(&["hello", "world"]));
    assert_eq!(d.cards[1].fields, texts(&["foo", "bar"]));
    assert_eq!(d.cards[1].deck, 0);
    assert_eq!(d.cards[1].due, None);
}

#[test]
fn from_text_edge_cases() {
    let d = VocaData::from_text("e", "", true);
    assert!(d.session.columns.is_empty());
    assert!(d.cards.is_empty());
    let d = VocaData::from_text("e", " a \t b \nx", false);
    assert_eq!(d.session.columns, texts(&["a", "b"]));
    assert_eq!(d.cards.len(), 1);
    assert_eq!(d.cards[0].fields, texts(&["x"]));
}

#[test]
fn write_lines_puts_comments_header_then_cards() {
    let d = VocaData::from_text("f.tsv", SAMPLE, false);
    assert_eq!(
        d.write_lines(false),
        texts(&["# c1", "#c2", "front\tback", "hello\tworld", "foo\tbar"])
    );
}

#[test]
fn written_data_reads_back() {
    let d = VocaData::from_text("f.tsv", SAMPLE, false);
    let mut text = String::new();
    for line in d.write_lines(false) {
        text.push_str(&line);
        text.push('\n');
    }
    let e = VocaData::from_text("f.tsv", &text, false);
    assert_eq!(e.session.columns, d.session.columns);
    assert_eq!(e.cards.len(), d.cards.len());
    for (a, b) in e.cards.iter().zip(d.cards.iter()) {
        assert_eq!(a.fields, b.fields);
    }
    let ec: Vec<&String> = e.comments.iter().map(|c| &c.1).collect();
    let dc: Vec<&String> = d.comments.iter().map(|c| &c.1).collect();
    assert_eq!(ec, dc);
}

#[test]
fn write_lines_pads_cards_to_columns() {
    let mut d = VocaData::from_text("f", "a\tb\tc\nx\n", false);
    assert_eq!(d.write_lines(false), texts(&["a\tb\tc", "x\t\t"]));
    d.session.header = false;
    assert_eq!(d.write_lines(false), texts(&["x\t\t"]));
}

fn deck_data(decks: &[u8]) -> VocaData {
    let mut d = VocaData::from_text("f", "front\tback\n", false);
    for (i, deck) in decks.iter().enumerate() {
        d.cards.push(VocaCard { fields: vec![format!("c{}", i)], due: None, deck: *deck });
    }
    d
}

#[test]
fn presentable_indices_filters_by_deck() {
    let d = deck_data(&[0, 1, 0, 2]);
    let at = Moment { secs: 0, nanos: 0 };
    let zero = vec![0u8];
    assert_eq!(d.presentable_indices(&at, Some(&zero), false, false), vec![0, 2]);
    assert_eq!(d.presentable_indices(&at, None, false, false), vec![0, 1, 2, 3]);
    assert!(d.presentable_indices(&at, None, true, false).is_empty());
}

#[test]
fn next_index_walks_round() {
    let d = deck_data(&[0, 1, 0, 2]);
    let at = Moment { secs: 0, nanos: 0 };
    let zero = vec![0u8];
    assert_eq!(d.next_index_at(&at, 0, Some(&zero), false, false, false), Some((2, 2)));
    assert_eq!(d.next_index_at(&at, 2, Some(&zero), false, false, false), Some((0, 2)));
    assert_eq!(d.next_index_at(&at, 2, Some(&zero), false, false, true), Some((2, 1)));
    assert_eq!(d.next_index_at(&at, 3, Some(&zero), false, false, true), Some((0, 2)));
    let nine = vec![9u8];
    assert_eq!(d.next_index_at(&at, 1, Some(&nine), false, false, false), None);
    assert_eq!(d.next_index(3, None, false, false, false), Some((0, 1)));
    let empty = deck_data(&[]);
    assert_eq!(empty.next_index(5, None, false, false, true), None);
}

#[test]
fn next_index_never_returns_current_unless_inclusive() {
    let one = deck_data(&[0]);
    let at = Moment { secs: 0, nanos: 0 };
    let zero = vec![0u8];
    assert_eq!(one.next_index_at(&at, 0, Some(&zero), false, false, false), None);
    assert_eq!(one.next_index_at(&at, 0, Some(&zero), false, false, true), Some((0, 1)));
    let d = deck_data(&[0, 1, 1]);
    assert_eq!(d.next_index_at(&at, 0, Some(&zero), false, false, false), None);
    // an index past the cards: every card is looked at
    assert_eq!(d.next_index_at(&at, 7, Some(&zero), false, false, false), Some((0, 2)));
}

#[test]
fn chosen_index_picks_kth_shown() {
    let d = deck_data(&[0, 1, 0, 2]);
    let at = Moment { secs: 0, nanos: 0 };
    let zero = vec![0u8];
    assert_eq!(d.chosen_index(&at, Some(&zero), false, false, 0), Some((0, 2)));
    assert_eq!(d.chosen_index(&at, Some(&zero), false, false, 1), Some((2, 2)));
    assert_eq!(d.chosen_index(&at, Some(&zero), false, false, 2), None);
}

#[test]
fn moment_for_due_reads_clock() {
    assert_eq!(VocaData::moment_for(false), Some(Moment { secs: 0, nanos: 0 }));
    let m = VocaData::moment_for(true).unwrap();
    assert!(m.secs > 1_000_000_000);
    assert!(vocage::clock::now().is_some());
}

#[test]
fn random_index_picks_a_shown_card() {
    let d = deck_data(&[0, 1, 0, 2]);
    let mut rng = rand::thread_rng();
    let zero = vec![0u8];
    for _ in 0..20 {
        let (i, n) = d.random_index(&mut rng, Some(&zero), false, false).unwrap();
        assert_eq!(n, 2);
        assert!(i == 0 || i == 2);
    }
    let nine = vec![9u8];
    assert_eq!(d.random_index(&mut rng, Some(&nine), false, false), None);
}

#[test]
fn fits_with_compares_columns() {
    let a = VocaData::from_text("a", "x\ty\n", false);
    let b = VocaData::from_text("b", "x\ty\n1\t2\n", false);
    let c = VocaData::from_text("c", "x\tz\n", false);
    let loaded = vec![a];
    assert!(b.fits_with(&loaded, false));
    assert!(!c.fits_with(&loaded, false));
    assert!(c.fits_with(&loaded, true));
    assert!(c.fits_with(&Vec::new(), false));
}

#[test]
fn lines_beginning_with_tab_read_back() {
    let d = VocaData::from_text("f", "\tx\n\ty\n", false);
    assert_eq!(d.session.columns, texts(&["", "x"]));
    assert_eq!(d.cards[0].fields, texts(&["", "y"]));
    let lines = d.write_lines(false);
    assert_eq!(lines, texts(&["\tx", "\ty"]));
    let mut text = String::new();
    for line in lines {
        text.push_str(&line);
        text.push('\n');
    }
    let e = VocaData::from_text("f", &text, false);
    assert_eq!(e.session.columns, d.session.columns);
    assert_eq!(e.cards[0].fields, d.cards[0].fields);
}
