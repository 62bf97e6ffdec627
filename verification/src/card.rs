//! A single flashcard: its fields, when it is due, and the deck it is in.
use vstd::prelude::*;

use crate::clock::{can_add_minutes, is_moment, not_later, plus_minutes, ClockReading, Moment};
use crate::format::PrintFormat;
use crate::session::{SessionModel, VocaSession};
use crate::text::{
    chars_of, decimal, decimal_string, join, join_strings, nonempty_trimmed, range_views, split,
    split_ranges, string_of, trim_end, trim_end_range, trim_range, views,
};

verus! {

#[verifier::external_type_specification]
#[verifier::external_body]
pub struct ExIoError(std::io::Error);

#[verifier::external_type_specification]
#[verifier::external_body]
pub struct ExFmtError(std::fmt::Error);

/// A single flashcard.
#[derive(Clone, Debug)]
pub struct VocaCard {
    pub fields: Vec<String>,
    pub due: Option<Moment>,
    /// index into `VocaSession.decks`
    pub deck: u8,
}

/// A card, as plain values.
pub struct CardModel {
    pub fields: Seq<Seq<char>>,
    pub due: Option<Moment>,
    pub deck: u8,
}

impl View for VocaCard {
    type V = CardModel;

    open spec fn view(&self) -> CardModel {
        CardModel { fields: views(self.fields@), due: self.due, deck: self.deck }
    }
}

// ---------------------------------------------------------------------------
// Models
// ---------------------------------------------------------------------------

/// The fields of a line: its tab-separated pieces, trailing whitespace removed.
pub open spec fn fields_of_line(line: Seq<char>) -> Seq<Seq<char>> {
    split(line, seq!['\t']).map_values(|p: Seq<char>| trim_end(p))
}

/// The card that a line holds: its fields, not due, in the first deck.
pub open spec fn card_of_line(line: Seq<char>) -> CardModel {
    CardModel { fields: fields_of_line(line), due: None, deck: 0 }
}

/// `fields` padded with empty fields, or cut, to `n` fields.
pub open spec fn fit_columns(fields: Seq<Seq<char>>, n: nat) -> Seq<Seq<char>> {
    if fields.len() < n {
        fields + Seq::new((n - fields.len()) as nat, |i: int| Seq::<char>::empty())
    } else {
        fields.take(n as int)
    }
}

/// The line that holds the card `c` with `n` fields.
pub open spec fn card_line(c: CardModel, n: nat) -> Seq<char> {
    join(fit_columns(c.fields, n), seq!['\t'])
}

/// The card `c` moved to `deck` at the moment `at`: it becomes due after
/// the interval of its new deck, where that deck has one.
pub open spec fn moved(c: CardModel, deck: u8, s: SessionModel, at: Moment) -> CardModel {
    CardModel {
        fields: c.fields,
        due: if (deck as int) < s.intervals.len() {
            Some(plus_minutes(at, s.intervals[deck as int]))
        } else {
            c.due
        },
        deck,
    }
}

/// Whether moving to `deck` at the moment `at` stays within the calendar.
pub open spec fn can_move(deck: u8, s: SessionModel, at: Moment) -> bool {
    (deck as int) < s.intervals.len() ==> can_add_minutes(at, s.intervals[deck as int])
}

/// Whether `after` and `changed` are what moving `before` to `deck` by the
/// clock gives: where the new deck has no interval, the card just moves;
/// where it has one, it is what the move gives with the moment of a reading
/// the clock gave (left as it is when that reading gave no moment, or a due
/// moment past the calendar).
pub open spec fn moved_by_clock(before: CardModel, deck: u8, s: SessionModel, after: CardModel, changed: bool) -> bool {
    if (deck as int) < s.intervals.len() {
        exists|c: ClockReading|
            {
                &&& (#[trigger] c.moment() matches Some(at) ==> is_moment(at))
                &&& after == moved_with(before, deck, s, c.moment())
                &&& changed == (move_goes_ahead(deck, s, c.moment()) && before.deck != deck)
            }
    } else {
        after == moved(before, deck, s, Moment { secs: 0, nanos: 0 }) && changed == (before.deck != deck)
    }
}

/// Whether a move to `deck` goes ahead with the clock reading `reading`:
/// always where the new deck has no interval; else only with a reading from
/// which the due moment stays within the calendar.
pub open spec fn move_goes_ahead(deck: u8, s: SessionModel, reading: Option<Moment>) -> bool {
    (deck as int) < s.intervals.len() ==> match reading {
        Some(at) => can_move(deck, s, at),
        None => false,
    }
}

/// The card `c` after a move to `deck` with the clock reading `reading`: moved
/// where the move goes ahead, else as it was.
pub open spec fn moved_with(c: CardModel, deck: u8, s: SessionModel, reading: Option<Moment>) -> CardModel {
    if move_goes_ahead(deck, s, reading) {
        moved(
            c,
            deck,
            s,
            match reading {
                Some(at) => at,
                None => Moment { secs: 0, nanos: 0 },
            },
        )
    } else {
        c
    }
}

/// The deck after `deck` (the last deck stays), as a `u8` (modulo 256).
pub open spec fn promoted_deck(deck: u8, s: SessionModel) -> u8 {
    let last: int = if s.decks.len() > 0 { s.decks.len() - 1 } else { 0 };
    let next: int = if deck + 1 <= last { deck + 1 } else { last };
    (next % 256) as u8
}

/// The deck a demoted card goes to: the first one if the session says so,
/// else the one before `deck` (the first deck stays).
pub open spec fn demoted_deck(deck: u8, s: SessionModel) -> u8 {
    if s.returntofirst {
        0
    } else if deck > 0 {
        (deck - 1) as u8
    } else {
        0
    }
}

pub open spec fn opt_bytes(o: Option<&Vec<u8>>) -> Option<Seq<u8>> {
    match o {
        Some(v) => Some(v@),
        None => None,
    }
}

/// Whether the card `c` is shown at the moment `at`: it is in one of `decks`
/// (if given), it has been seen (if `seen_only`), it is due by `at` (if
/// `due_only`).
pub open spec fn presentable(
    c: CardModel,
    at: Moment,
    decks: Option<Seq<u8>>,
    due_only: bool,
    seen_only: bool,
) -> bool {
    &&& match decks {
        Some(ds) => ds.contains(c.deck),
        None => true,
    }
    &&& (seen_only ==> c.due is Some)
    &&& (due_only ==> match c.due {
        Some(d) => not_later(d, at),
        None => false,
    })
}

/// The texts that field `index` of `c` is shown as: its pieces between list
/// delimiters, trimmed, the empty ones left out, when `wraplist` is set and
/// the session has a non-empty delimiter; else the whole field; nothing
/// for a field the card does not have.
pub open spec fn field_pieces(c: CardModel, index: u8, s: SessionModel, wraplist: bool) -> Seq<Seq<char>> {
    if index >= c.fields.len() {
        seq![]
    } else if wraplist && s.listdelimiter is Some && s.listdelimiter->0.len() > 0 {
        nonempty_trimmed(split(c.fields[index as int], s.listdelimiter->0))
    } else {
        seq![c.fields[index as int]]
    }
}

/// The texts shown for the columns `cols`, each with its column.
pub open spec fn shown_pieces(c: CardModel, cols: Seq<u8>, s: SessionModel, wraplist: bool) -> Seq<(u8, Seq<char>)>
    decreases cols.len(),
{
    if cols.len() == 0 {
        seq![]
    } else {
        shown_pieces(c, cols.drop_last(), s, wraplist) + field_pieces(c, cols.last(), s, wraplist).map_values(
            |p: Seq<char>| (cols.last(), p),
        )
    }
}

/// The columns that side `side` shows (none for a side not configured).
pub open spec fn side_columns(s: SessionModel, side: u8) -> Seq<u8> {
    if (side as int) < s.showcolumns.len() {
        s.showcolumns[side as int]
    } else {
        seq![]
    }
}

/// `text` in green on an ANSI terminal.
pub open spec fn green(text: Seq<char>) -> Seq<char> {
    "\x1B[32m"@ + text + "\x1B[0m"@
}

/// The line printed for `text` of column `col`.
pub open spec fn printed_line(col: u8, text: Seq<char>, format: PrintFormat) -> Seq<char> {
    match format {
        PrintFormat::Plain => text,
        PrintFormat::AnsiColour => green("["@ + decimal(col as nat) + "] "@ + text),
    }
}

pub open spec fn str_views(v: Seq<&str>) -> Seq<Seq<char>> {
    v.map_values(|x: &str| x@)
}

pub open spec fn col_views(v: Seq<(u8, &str)>) -> Seq<(u8, Seq<char>)> {
    v.map_values(|x: (u8, &str)| (x.0, x.1@))
}

// ---------------------------------------------------------------------------
// Outside calls
// ---------------------------------------------------------------------------

/// `text` painted green by `ansi_term::Colour::Green.paint`, as its
/// `Display` writes it: the style prefix `ESC [32m`, the text, then the
/// reset suffix `ESC [0m`.
#[verifier::external_body]
fn paint_green(text: &str) -> (r: String)
    ensures
        r@ == green(text@),
{
    ansi_term::Colour::Green.paint(text).to_string()
}

// ---------------------------------------------------------------------------
// Executable functions
// ---------------------------------------------------------------------------

/// Whether `v` holds `x`.
pub fn contains_byte(v: &Vec<u8>, x: u8) -> (r: bool)
    ensures
        r == v@.contains(x),
{
    let n = v.len();
    let mut i: usize = 0;
    while i < n
        invariant
            n == v.len(),
            i <= n,
            forall|j: int| 0 <= j < i ==> v@[j] != x,
        decreases n - i,
    {
        if v[i] == x {
            assert(v@[i as int] == x);
            return true;
        }
        i += 1;
    }
    false
}

impl VocaCard {
    /// The card that a tab-separated line holds: each field with its
    /// trailing whitespace removed; not due, in the first deck (so `reset`
    /// changes nothing).
    pub fn parse_line(line: &str, reset: bool, linenr: usize) -> (r: Result<VocaCard, std::io::Error>)
        ensures
            r matches Ok(c) && c@ == card_of_line(line@),
    {
        let chars = chars_of(line);
        let tab = vec!['\t'];
        assert(tab@ =~= seq!['\t']);
        let pieces = split_ranges(&chars, &tab);
        let ghost pv = range_views(chars@, pieces@);
        let mut fields: Vec<String> = Vec::new();
        let n = pieces.len();
        let mut k: usize = 0;
        while k < n
            invariant
                n == pieces.len(),
                k <= n,
                pv == range_views(chars@, pieces@),
                forall|j: int| 0 <= j < pieces.len() ==> (#[trigger] pieces[j]).0 <= pieces[j].1 <= chars.len(),
                views(fields@) == pv.take(k as int).map_values(|p: Seq<char>| trim_end(p)),
            decreases n - k,
        {
            let (a, b0) = pieces[k];
            assert(pieces[k as int] == (a, b0));
            let b = trim_end_range(&chars, a, b0);
            let f = string_of(&chars, a, b);
            let ghost old_fields = fields@;
            fields.push(f);
            proof {
                assert(pv[k as int] == chars@.subrange(a as int, b0 as int));
                assert(views(fields@) =~= views(old_fields).push(f@));
                assert(pv.take(k + 1).map_values(|p: Seq<char>| trim_end(p)) =~= pv.take(k as int).map_values(
                    |p: Seq<char>| trim_end(p),
                ).push(trim_end(pv[k as int])));
            }
            k += 1;
        }
        assert(pv.take(n as int) =~= pv);
        let mut card = VocaCard { fields, due: None, deck: 0 };
        if reset {
            card.due = None;
            card.deck = 0;
        }
        Ok(card)
    }

    /// The line that holds this card, its fields padded with empty fields,
    /// or cut, to `columncount`, separated by tabs.
    pub fn write_to_string(&self, columncount: usize, reset: bool) -> (r: String)
        ensures
            r@ == card_line(self@, columncount as nat),
    {
        let mut cols: Vec<String> = Vec::new();
        let n = self.fields.len();
        let mut i: usize = 0;
        while i < columncount
            invariant
                n == self.fields.len(),
                i <= columncount,
                views(cols@) == fit_columns(self@.fields, columncount as nat).take(i as int),
            decreases columncount - i,
        {
            let ghost old_cols = cols@;
            if i < n {
                cols.push(self.fields[i].clone());
            } else {
                cols.push(String::new());
            }
            proof {
                assert(views(cols@) =~= views(old_cols).push(cols@[i as int]@));
                assert(fit_columns(self@.fields, columncount as nat).take(i + 1) =~= fit_columns(
                    self@.fields,
                    columncount as nat,
                ).take(i as int).push(fit_columns(self@.fields, columncount as nat)[i as int]));
            }
            i += 1;
        }
        assert(fit_columns(self@.fields, columncount as nat).take(columncount as int) =~= fit_columns(
            self@.fields,
            columncount as nat,
        ));
        let tab = "\t";
        proof {
            reveal_strlit("\t");
            assert(tab@ =~= seq!['\t']);
        }
        join_strings(&cols, tab)
    }

    /// Moves this card to `deck` at the moment `at`; the card becomes due
    /// after the interval of the new deck, where the session has one.
    /// Returns whether the deck changed.
    pub fn move_to_deck_at(&mut self, deck: u8, session: &VocaSession, at: Moment) -> (changed: bool)
        requires
            is_moment(at),
            can_move(deck, session@, at),
        ensures
            final(self)@ == moved(old(self)@, deck, session@, at),
            changed == (old(self).deck != deck),
    {
        let changed = self.deck != deck;
        self.deck = deck;
        if (self.deck as usize) < session.intervals.len() {
            let minutes = session.intervals[self.deck as usize];
            self.due = Some(at.plus_minutes(minutes));
        }
        changed
    }

    /// Moves this card to `deck` with the clock reading `reading`: where the
    /// new deck has an interval, the card becomes due that long after the
    /// reading. Where it has one and there is no reading, or the due moment
    /// would fall past the calendar, the card is left as it is. Returns
    /// whether the card went to another deck.
    pub fn move_to_deck_with(&mut self, deck: u8, session: &VocaSession, reading: Option<Moment>) -> (changed: bool)
        requires
            reading matches Some(m) ==> is_moment(m),
        ensures
            final(self)@ == moved_with(old(self)@, deck, session@, reading),
            changed == (move_goes_ahead(deck, session@, reading) && old(self).deck != deck),
    {
        if (deck as usize) < session.intervals.len() {
            let minutes = session.intervals[deck as usize];
            match reading {
                None => false,
                Some(at) => {
                    if at.secs > crate::clock::MAX_TIMESTAMP - 60 * (minutes as i64) {
                        false
                    } else {
                        self.move_to_deck_at(deck, session, at)
                    }
                },
            }
        } else {
            let changed = self.deck != deck;
            self.deck = deck;
            changed
        }
    }

    /// Moves this card to `deck`; where the new deck has an interval, the
    /// card becomes due that long after the current moment. Returns whether
    /// the deck changed. Where the clock gives no reading, or the due moment
    /// would fall past the calendar, the card is left as it is and `false`
    /// is returned.
    pub fn move_to_deck(&mut self, deck: u8, session: &VocaSession) -> (changed: bool)
        ensures
            moved_by_clock(old(self)@, deck, session@, final(self)@, changed),
    {
        if (deck as usize) < session.intervals.len() {
            let c = crate::clock::now();
            let reading = c.get();
            let changed = self.move_to_deck_with(deck, session, reading);
            assert(c.moment() == reading);
            changed
        } else {
            self.move_to_deck_with(deck, session, None)
        }
    }

    fn promoted(&self, session: &VocaSession) -> (d: u8)
        ensures
            d == promoted_deck(self.deck, session@),
    {
        let len = session.decks.len();
        let last = if len > 0 { len - 1 } else { 0 };
        let up = self.deck as usize + 1;
        let next = if up <= last { up } else { last };
        (next % 256) as u8
    }

    fn demoted(&self, session: &VocaSession) -> (d: u8)
        ensures
            d == demoted_deck(self.deck, session@),
    {
        if session.returntofirst {
            0
        } else if self.deck > 0 {
            self.deck - 1
        } else {
            0
        }
    }

    /// Promotes this card by one deck (the last deck stays) at the moment `at`.
    pub fn promote_at(&mut self, session: &VocaSession, at: Moment) -> (changed: bool)
        requires
            is_moment(at),
            can_move(promoted_deck(old(self).deck, session@), session@, at),
        ensures
            final(self)@ == moved(old(self)@, promoted_deck(old(self).deck, session@), session@, at),
            changed == (old(self).deck != promoted_deck(old(self).deck, session@)),
    {
        let next = self.promoted(session);
        self.move_to_deck_at(next, session, at)
    }

    /// Promotes this card by one deck (the last deck stays) now.
    pub fn promote(&mut self, session: &VocaSession) -> (changed: bool)
        ensures
            moved_by_clock(old(self)@, promoted_deck(old(self).deck, session@), session@, final(self)@, changed),
    {
        let next = self.promoted(session);
        self.move_to_deck(next, session)
    }

    /// Demotes this card by one deck (or to the first deck, as the session
    /// says) at the moment `at`.
    pub fn demote_at(&mut self, session: &VocaSession, at: Moment) -> (changed: bool)
        requires
            is_moment(at),
            can_move(demoted_deck(old(self).deck, session@), session@, at),
        ensures
            final(self)@ == moved(old(self)@, demoted_deck(old(self).deck, session@), session@, at),
            changed == (old(self).deck != demoted_deck(old(self).deck, session@)),
    {
        let target = self.demoted(session);
        self.move_to_deck_at(target, session, at)
    }

    /// Demotes this card by one deck (or to the first deck, as the session
    /// says) now.
    pub fn demote(&mut self, session: &VocaSession) -> (changed: bool)
        ensures
            moved_by_clock(old(self)@, demoted_deck(old(self).deck, session@), session@, final(self)@, changed),
    {
        let target = self.demoted(session);
        self.move_to_deck(target, session)
    }

    /// Whether this card passes the seen and due tests at the moment `at`
    /// (never due without a moment).
    fn due_by(&self, at: Option<Moment>, due_only: bool, seen_only: bool) -> (r: bool)
        ensures
            r == ((seen_only ==> self.due is Some) && (due_only ==> match (self@.due, at) {
                (Some(d), Some(t)) => not_later(d, t),
                _ => false,
            })),
    {
        if seen_only && self.due.is_none() {
            false
        } else if due_only {
            match (self.due, at) {
                (Some(d), Some(t)) => d.not_later_than(&t),
                _ => false,
            }
        } else {
            true
        }
    }

    /// Whether this card is shown: it is in one of `decks` (if given), it
    /// has been seen (if `seen_only`), it is due by `now` (if `due_only`;
    /// without `now`, by the current moment, and not shown when the clock
    /// gives no reading).
    pub fn is_presentable(
        &self,
        now: Option<&Moment>,
        decks: Option<&Vec<u8>>,
        due_only: bool,
        seen_only: bool,
    ) -> (r: bool)
        ensures
            match now {
                Some(at) => r == presentable(self@, *at, opt_bytes(decks), due_only, seen_only),
                None => {
                    &&& !due_only ==> r == presentable(
                        self@,
                        Moment { secs: 0, nanos: 0 },
                        opt_bytes(decks),
                        false,
                        seen_only,
                    )
                    &&& due_only ==> exists|c: ClockReading|
                        match #[trigger] c.moment() {
                            Some(at) => is_moment(at) && r == presentable(
                                self@,
                                at,
                                opt_bytes(decks),
                                true,
                                seen_only,
                            ),
                            None => !r,
                        }
                },
            },
    {
        let ghost mut clock: Option<ClockReading> = None;
        let at: Option<Moment> = match now {
            Some(t) => Some(*t),
            None => {
                if due_only {
                    let c = crate::clock::now();
                    proof {
                        clock = Some(c);
                    }
                    c.get()
                } else {
                    Some(Moment { secs: 0, nanos: 0 })
                }
            },
        };
        let r = if let Some(ds) = decks {
            if !contains_byte(ds, self.deck) {
                false
            } else {
                self.due_by(at, due_only, seen_only)
            }
        } else {
            self.due_by(at, due_only, seen_only)
        };
        proof {
            if now is None && due_only {
                let c = clock.unwrap();
                assert(c.moment() == at);
            }
        }
        r
    }
}

impl VocaCard {
    /// The texts that field `index` is shown as: its pieces between list
    /// delimiters, trimmed, the empty ones left out, when `wraplist` is set
    /// and the session has a non-empty delimiter; else the whole field;
    /// nothing for a field this card does not have.
    pub fn field_to_str<'a>(&'a self, index: u8, session: &VocaSession, wraplist: bool) -> (r: Result<
        Vec<&'a str>,
        std::fmt::Error,
    >)
        ensures
            r matches Ok(v) && str_views(v@) == field_pieces(self@, index, session@, wraplist),
    {
        let idx = index as usize;
        if idx >= self.fields.len() {
            let v: Vec<&str> = Vec::new();
            assert(str_views(v@) =~= Seq::<Seq<char>>::empty());
            return Ok(v);
        }
        let field = self.fields[idx].as_str();
        assert(field@ == self@.fields[idx as int]);
        if wraplist {
            if let Some(delim) = &session.listdelimiter {
                let dchars = chars_of(delim.as_str());
                if dchars.len() > 0 {
                    let chars = chars_of(field);
                    let pieces = split_ranges(&chars, &dchars);
                    let ghost pv = range_views(chars@, pieces@);
                    let mut parts: Vec<&str> = Vec::new();
                    let n = pieces.len();
                    let mut k: usize = 0;
                    assert(pv.take(0) =~= Seq::<Seq<char>>::empty());
                    assert(str_views(parts@) =~= Seq::<Seq<char>>::empty());
                    while k < n
                        invariant
                            n == pieces.len(),
                            k <= n,
                            chars@ == field@,
                            pv == range_views(chars@, pieces@),
                            forall|j: int|
                                0 <= j < pieces.len() ==> (#[trigger] pieces[j]).0 <= pieces[j].1
                                    <= chars.len(),
                            str_views(parts@) == nonempty_trimmed(pv.take(k as int)),
                        decreases n - k,
                    {
                        let (a0, b0) = pieces[k];
                        assert(pieces[k as int] == (a0, b0));
                        let (a, b) = trim_range(&chars, a0, b0);
                        let ghost old_parts = parts@;
                        proof {
                            assert(pv.take(k + 1).drop_last() =~= pv.take(k as int));
                            assert(pv.take(k + 1).last() == pv[k as int]);
                            assert(pv[k as int] == chars@.subrange(a0 as int, b0 as int));
                        }
                        if a < b {
                            let piece = field.substring_char(a, b);
                            parts.push(piece);
                            assert(str_views(parts@) =~= str_views(old_parts).push(piece@));
                        }
                        k += 1;
                    }
                    assert(pv.take(n as int) =~= pv);
                    return Ok(parts);
                }
            }
        }
        let v = vec![field];
        assert(str_views(v@) =~= seq![field@]);
        Ok(v)
    }

    /// The texts shown on side `side` of this card, each with its column:
    /// for each column that the session shows on that side (none for a side
    /// it does not configure), the texts of that field.
    pub fn fields_to_str<'a>(&'a self, side: u8, session: &VocaSession, wraplist: bool) -> (r: Result<
        Vec<(u8, &'a str)>,
        std::fmt::Error,
    >)
        ensures
            r matches Ok(v) && col_views(v@) == shown_pieces(
                self@,
                side_columns(session@, side),
                session@,
                wraplist,
            ),
    {
        let mut out: Vec<(u8, &'a str)> = Vec::new();
        let empty: Vec<u8> = Vec::new();
        let cols: &Vec<u8> = if (side as usize) < session.showcolumns.len() {
            &session.showcolumns[side as usize]
        } else {
            &empty
        };
        assert(cols@ == side_columns(session@, side));
        let n = cols.len();
        let mut k: usize = 0;
        assert(cols@.take(0) =~= Seq::<u8>::empty());
        assert(col_views(out@) =~= Seq::<(u8, Seq<char>)>::empty());
        while k < n
            invariant
                n == cols.len(),
                k <= n,
                col_views(out@) == shown_pieces(self@, cols@.take(k as int), session@, wraplist),
            decreases n - k,
        {
            let idx = cols[k];
            let pieces = match self.field_to_str(idx, session, wraplist) {
                Ok(p) => p,
                Err(e) => {
                    return Err(e);
                },
            };
            let ghost before = out@;
            let m = pieces.len();
            let mut j: usize = 0;
            while j < m
                invariant
                    m == pieces.len(),
                    j <= m,
                    col_views(out@) == col_views(before) + str_views(pieces@).take(j as int).map_values(
                        |p: Seq<char>| (idx, p),
                    ),
                decreases m - j,
            {
                let ghost prev = out@;
                out.push((idx, pieces[j]));
                assert(col_views(out@) =~= col_views(prev).push((idx, pieces@[j as int]@)));
                assert(str_views(pieces@).take(j + 1).map_values(|p: Seq<char>| (idx, p)) =~= str_views(
                    pieces@,
                ).take(j as int).map_values(|p: Seq<char>| (idx, p)).push((idx, pieces@[j as int]@)));
                j += 1;
            }
            proof {
                assert(str_views(pieces@).take(m as int) =~= str_views(pieces@));
                assert(cols@.take(k + 1).drop_last() =~= cols@.take(k as int));
                assert(cols@.take(k + 1).last() == idx);
                assert(col_views(out@) =~= col_views(before) + field_pieces(self@, idx, session@, wraplist).map_values(
                    |p: Seq<char>| (idx, p),
                ));
            }
            k += 1;
        }
        assert(cols@.take(n as int) =~= cols@);
        Ok(out)
    }

    /// The lines that show side `side` of this card: each text as it is
    /// (`Plain`), or in green after its column in brackets (`AnsiColour`).
    pub fn print_lines(&self, side: u8, session: &VocaSession, format: PrintFormat, wraplist: bool) -> (r:
        Result<Vec<String>, std::fmt::Error>)
        ensures
            r matches Ok(v) && views(v@) == shown_pieces(
                self@,
                side_columns(session@, side),
                session@,
                wraplist,
            ).map_values(|e: (u8, Seq<char>)| printed_line(e.0, e.1, format)),
    {
        let rows = match self.fields_to_str(side, session, wraplist) {
            Ok(r) => r,
            Err(e) => {
                return Err(e);
            },
        };
        let ghost goal = col_views(rows@).map_values(|e: (u8, Seq<char>)| printed_line(e.0, e.1, format));
        let mut out: Vec<String> = Vec::new();
        let n = rows.len();
        let mut k: usize = 0;
        assert(views(out@) =~= goal.take(0));
        while k < n
            invariant
                n == rows.len(),
                k <= n,
                goal == col_views(rows@).map_values(|e: (u8, Seq<char>)| printed_line(e.0, e.1, format)),
                views(out@) == goal.take(k as int),
            decreases n - k,
        {
            let (col, text) = rows[k];
            assert(col_views(rows@)[k as int] == (col, text@));
            let line = match format {
                PrintFormat::Plain => String::from_str(text),
                PrintFormat::AnsiColour => {
                    let mut inner = String::from_str("[");
                    let digits = decimal_string(col as u64);
                    inner.append(digits.as_str());
                    inner.append("] ");
                    inner.append(text);
                    paint_green(inner.as_str())
                },
            };
            let ghost prev = out@;
            out.push(line);
            assert(views(out@) =~= views(prev).push(line@));
            assert(goal.take(k + 1) =~= goal.take(k as int).push(goal[k as int]));
            k += 1;
        }
        assert(goal.take(n as int) =~= goal);
        Ok(out)
    }
}

} // verus!
