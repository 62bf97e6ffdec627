use vocage::{Moment, PrintFormat, VocaCard, VocaSession};

fn texts(v: &[&str]) -> Vec<String> {
    v.iter().map(|s| s.to_string()).collect()
}

fn card(fields: &[&str], deck: u8, due: Option<Moment>) -> VocaCard {
    VocaCard { fields: texts(fields), due, deck }
}

fn session(args: Vec<&str>) -> VocaSession {
    VocaSession::from_arguments(args).ok().unwrap()
}

#[test]
fn parse_line_splits_on_tabs_and_trims_ends() {
    let c = VocaCard::parse_line("a \tb\t c  ", false, 1).ok().unwrap();
    assert_eq!(c.fields, texts(&["a", "b", " c"]));
    assert_eq!(c.due, None);
    assert_eq!(c.deck, 0);
    let c = VocaCard::parse_line("", true, 7).ok().unwrap();
    assert_eq!(c.fields, texts(&[""]));
    let c = VocaCard::parse_line("x\t\t", false, 2).ok().unwrap();
    assert_eq!(c.fields, texts(&["x", "", ""]));
}

#[test]
fn write_to_string_pads_and_cuts() {
    let c = card(&["a", "b"], 0, None);
    assert_eq!(c.write_to_string(3, false), "a\tb\t");
    assert_eq!(c.write_to_string(2, false), "a\tb");
    assert_eq!(c.write_to_string(1, false), "a");
    assert_eq!(c.write_to_string(0, false), "");
}

#[test]
fn card_line_roundtrip() {
    let c = card(&["hello", " spaced", "x"], 2, None);
    let line = c.write_to_string(4, false);
    let back = VocaCard::parse_line(&line, false, 1).ok().unwrap();
    assert_eq!(back.fields, texts(&["hello", " spaced", "x", ""]));
}

#[test]
fn moment_order_and_minutes() {
    let a = Moment { secs: 10, nanos: 5 };
    let b = Moment { secs: 10, nanos: 6 };
    let c = Moment { secs: 11, nanos: 0 };
    assert!(a.not_later_than(&b));
    assert!(!b.not_later_than(&a));
    assert!(b.not_later_than(&c));
    assert!(a.not_later_than(&a));
    assert_eq!(a.plus_minutes(2), Moment { secs: 130, nanos: 5 });
}

#[test]
fn move_to_deck_at_sets_due_from_interval() {
    let s = session(vec!["--decks", "a,b,c", "--intervals", "0,1440,10080"]);
    let at = Moment { secs: 1000, nanos: 5 };
    let mut c = card(&["x"], 0, None);
    assert!(c.move_to_deck_at(1, &s, at));
    assert_eq!(c.deck, 1);
    assert_eq!(c.due, Some(Moment { secs: 1000 + 86400, nanos: 5 }));
    assert!(!c.move_to_deck_at(1, &s, at));
    // a deck without interval keeps the due moment
    assert!(c.move_to_deck_at(7, &s, Moment { secs: 0, nanos: 0 }));
    assert_eq!(c.deck, 7);
    assert_eq!(c.due, Some(Moment { secs: 1000 + 86400, nanos: 5 }));
}

#[test]
fn move_to_deck_with_follows_the_reading() {
    let s = session(vec!["--decks", "a,b,c", "--intervals", "0,1440,10080"]);
    let before = card(&["x"], 0, Some(Moment { secs: 5, nanos: 1 }));
    // a reading: the card moves and becomes due one day after it
    let mut c = before.clone();
    assert!(c.move_to_deck_with(1, &s, Some(Moment { secs: 2000, nanos: 3 })));
    assert_eq!(c.deck, 1);
    assert_eq!(c.due, Some(Moment { secs: 2000 + 86400, nanos: 3 }));
    // no reading: the card stays as it is
    let mut c = before.clone();
    assert!(!c.move_to_deck_with(1, &s, None));
    assert_eq!(c.deck, 0);
    assert_eq!(c.due, Some(Moment { secs: 5, nanos: 1 }));
    // a due moment past the calendar: the card stays as it is
    let late = Moment { secs: vocage::clock::MAX_TIMESTAMP - 100, nanos: 0 };
    let mut c = before.clone();
    assert!(!c.move_to_deck_with(2, &s, Some(late)));
    assert_eq!(c.deck, 0);
    assert_eq!(c.due, Some(Moment { secs: 5, nanos: 1 }));
    // the same reading with a short interval still fits
    let mut c = before.clone();
    assert!(c.move_to_deck_with(0, &s, Some(late)) == false);
    assert_eq!(c.due, Some(late));
    // a deck without an interval needs no reading
    let mut c = before.clone();
    assert!(c.move_to_deck_with(9, &s, None));
    assert_eq!(c.deck, 9);
    assert_eq!(c.due, Some(Moment { secs: 5, nanos: 1 }));
}

#[test]
fn move_to_deck_now_sets_due_after_interval() {
    let s = session(vec!["--decks", "a,b", "--intervals", "0,1440"]);
    let mut c = card(&["x"], 0, None);
    assert!(c.move_to_deck(1, &s));
    assert_eq!(c.deck, 1);
    let due = c.due.unwrap();
    assert!(due.secs >= 86400);
    assert!(due.nanos < 1_000_000_000);
}

#[test]
fn promote_is_capped_at_last_deck() {
    let s = session(vec!["--decks", "a,b,c", "--intervals", "1,2,3"]);
    let at = Moment { secs: 0, nanos: 0 };
    let mut c = card(&["x"], 1, None);
    assert!(c.promote_at(&s, at));
    assert_eq!(c.deck, 2);
    assert_eq!(c.due, Some(Moment { secs: 180, nanos: 0 }));
    assert!(!c.promote_at(&s, at));
    assert_eq!(c.deck, 2);
    let mut far = card(&["x"], 9, None);
    assert!(far.promote_at(&s, at));
    assert_eq!(far.deck, 2);
    let empty = session(vec![]);
    let mut d = card(&["x"], 3, None);
    assert!(d.promote(&empty));
    assert_eq!(d.deck, 0);
    assert_eq!(d.due, None);
}

#[test]
fn demote_steps_down_or_returns_to_first() {
    let at = Moment { secs: 60, nanos: 0 };
    let first = session(vec!["--decks", "a,b,c", "--intervals", "1,2,3"]);
    let mut c = card(&["x"], 2, None);
    assert!(c.demote_at(&first, at));
    assert_eq!(c.deck, 0);
    assert_eq!(c.due, Some(Moment { secs: 120, nanos: 0 }));
    let step = session(vec!["--decks", "a,b,c", "--intervals", "1,2,3", "--no-returntofirst"]);
    let mut c = card(&["x"], 2, None);
    assert!(c.demote_at(&step, at));
    assert_eq!(c.deck, 1);
    let mut z = card(&["x"], 0, None);
    assert!(!z.demote(&step));
    assert_eq!(z.deck, 0);
    assert!(z.due.is_some());
}

#[test]
fn promote_then_demote_returns() {
    let step = session(vec!["--decks", "a,b,c,d", "--no-returntofirst"]);
    let at = Moment { secs: 0, nanos: 0 };
    let mut c = card(&["x"], 1, None);
    c.promote_at(&step, at);
    c.demote_at(&step, at);
    assert_eq!(c.deck, 1);
}

#[test]
fn presentable_filters() {
    let at = Moment { secs: 100, nanos: 0 };
    let unseen = card(&["x"], 1, None);
    let due = card(&["x"], 1, Some(Moment { secs: 50, nanos: 0 }));
    let later = card(&["x"], 2, Some(Moment { secs: 150, nanos: 0 }));
    let decks = vec![1u8];
    assert!(unseen.is_presentable(Some(&at), None, false, false));
    assert!(!unseen.is_presentable(Some(&at), None, false, true));
    assert!(!unseen.is_presentable(Some(&at), None, true, false));
    assert!(due.is_presentable(Some(&at), Some(&decks), true, true));
    assert!(!later.is_presentable(Some(&at), Some(&decks), false, false));
    assert!(!later.is_presentable(Some(&at), None, true, false));
    assert!(later.is_presentable(Some(&at), None, false, true));
    // the current moment is long after 1970
    assert!(due.is_presentable(None, None, true, false));
}

#[test]
fn field_to_str_wraps_lists() {
    let s = session(vec!["--listdelimiter", ";"]);
    let c = card(&["a; b;;c ", "single"], 0, None);
    assert_eq!(c.field_to_str(0, &s, true).unwrap(), vec!["a", "b", "c"]);
    assert_eq!(c.field_to_str(0, &s, false).unwrap(), vec!["a; b;;c "]);
    assert_eq!(c.field_to_str(1, &s, true).unwrap(), vec!["single"]);
    assert!(c.field_to_str(2, &s, true).unwrap().is_empty());
    let none = session(vec![]);
    assert_eq!(c.field_to_str(0, &none, true).unwrap(), vec!["a; b;;c "]);
    let multi = session(vec!["--listdelimiter", "::"]);
    let m = card(&["x::y:z::"], 0, None);
    assert_eq!(m.field_to_str(0, &multi, true).unwrap(), vec!["x", "y:z"]);
}

#[test]
fn fields_to_str_follows_showcolumns() {
    let s = session(vec!["--showcolumns", "0|1,2", "--listdelimiter", ","]);
    let c = card(&["front", "b1,b2", "extra"], 0, None);
    assert_eq!(c.fields_to_str(0, &s, true).unwrap(), vec![(0u8, "front")]);
    assert_eq!(
        c.fields_to_str(1, &s, true).unwrap(),
        vec![(1u8, "b1"), (1u8, "b2"), (2u8, "extra")]
    );
    assert!(c.fields_to_str(2, &s, true).unwrap().is_empty());
}

#[test]
fn print_lines_plain_and_colour() {
    let s = session(vec!["--showcolumns", "0|1"]);
    let c = card(&["front", "back"], 0, None);
    assert_eq!(c.print_lines(1, &s, PrintFormat::Plain, false).unwrap(), texts(&["back"]));
    assert_eq!(
        c.print_lines(1, &s, PrintFormat::AnsiColour, false).unwrap(),
        texts(&["\u{1b}[32m[1] back\u{1b}[0m"])
    );
    let wide = session(vec!["--showcolumns", "200"]);
    let mut many: Vec<&str> = vec![""; 200];
    many.push("far");
    let far = card(&many, 0, None);
    assert_eq!(
        far.print_lines(0, &wide, PrintFormat::AnsiColour, false).unwrap(),
        texts(&["\u{1b}[32m[200] far\u{1b}[0m"])
    );
}
