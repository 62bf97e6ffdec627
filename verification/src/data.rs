//! A data set: the session configuration, the cards, and the comment lines
//! of a card file; reading and writing its text, and choosing cards.
use vstd::prelude::*;

use rand::Rng;

use crate::card::{card_line, card_of_line, opt_bytes, presentable, CardModel, VocaCard};
use crate::clock::{is_moment, ClockReading, Moment};
use crate::session::{byte_lists, default_showcolumns, SessionModel, VocaSession};
use crate::text::{
    chars_of, join, join_strings, range_views, split, split_ranges, split_trimmed_strings,
    string_of, strip_line_end, strip_line_end_range, trim, trim_range, views,
};

verus! {

#[verifier::external_type_specification]
#[verifier::external_body]
pub struct ExThreadRng(rand::rngs::ThreadRng);

/// A data set: session configuration, cards, and the comment lines kept
/// with their line numbers.
#[derive(Clone, Debug)]
pub struct VocaData {
    pub session: VocaSession,
    pub cards: Vec<VocaCard>,
    pub comments: Vec<(usize, String)>,
}

/// A data set, as plain values.
pub struct DataModel {
    pub session: SessionModel,
    pub cards: Seq<CardModel>,
    pub comments: Seq<(usize, Seq<char>)>,
}

pub open spec fn card_views(v: Seq<VocaCard>) -> Seq<CardModel> {
    v.map_values(|c: VocaCard| c@)
}

pub open spec fn comment_views(v: Seq<(usize, String)>) -> Seq<(usize, Seq<char>)> {
    v.map_values(|c: (usize, String)| (c.0, c.1@))
}

impl View for VocaData {
    type V = DataModel;

    open spec fn view(&self) -> DataModel {
        DataModel {
            session: self.session@,
            cards: card_views(self.cards@),
            comments: comment_views(self.comments@),
        }
    }
}

// ---------------------------------------------------------------------------
// Reading a card file
// ---------------------------------------------------------------------------

/// The lines of a text: its pieces between line feeds, without the empty
/// piece after a final line feed.
pub open spec fn file_lines(content: Seq<char>) -> Seq<Seq<char>> {
    let p = split(content, seq!['\n']);
    if p.len() > 0 && p.last().len() == 0 {
        p.drop_last()
    } else {
        p
    }
}

/// What reading lines gathers: the header's columns, the cards, and the
/// comment lines with their line numbers (counted from 1).
pub struct LoadModel {
    pub columns: Seq<Seq<char>>,
    pub cards: Seq<CardModel>,
    pub comments: Seq<(usize, Seq<char>)>,
}

/// Reading `lines` one after another: a line, without its line end, that is
/// blank is passed over; one that starts with `#` is a comment; the first
/// other line is the header, whose tab-separated, trimmed pieces are the
/// columns; every later one is a card.
pub open spec fn load_lines(lines: Seq<Seq<char>>) -> LoadModel
    decreases lines.len(),
{
    if lines.len() == 0 {
        LoadModel { columns: seq![], cards: seq![], comments: seq![] }
    } else {
        let st = load_lines(lines.drop_last());
        let line = strip_line_end(lines.last());
        if trim(line).len() == 0 {
            st
        } else if line[0] == '#' {
            LoadModel { comments: st.comments.push((lines.len() as usize, line)), ..st }
        } else if st.columns.len() == 0 {
            LoadModel { columns: split(line, seq!['\t']).map_values(|p: Seq<char>| trim(p)), ..st }
        } else {
            LoadModel { cards: st.cards.push(card_of_line(line)), ..st }
        }
    }
}

/// The decks of a data set read from a file.
pub open spec fn default_decks() -> Seq<Seq<char>> {
    seq!["immediate"@, "daily"@, "weekly"@, "monthly"@]
}

/// The intervals of those decks, in minutes: none, a day, a week, 30 days.
pub open spec fn default_intervals() -> Seq<u32> {
    seq![0u32, 1440u32, 10080u32, 43200u32]
}

/// The data set that the text `content` of the file `filename` holds.
pub open spec fn data_from_text(filename: Seq<char>, content: Seq<char>) -> DataModel {
    let st = load_lines(file_lines(content));
    DataModel {
        session: SessionModel {
            columns: st.columns,
            decks: default_decks(),
            intervals: default_intervals(),
            returntofirst: true,
            showcolumns: default_showcolumns(),
            listdelimiter: None,
            header: true,
            filename: Some(filename),
        },
        cards: st.cards,
        comments: st.comments,
    }
}

impl VocaData {
    /// The data set that the text `content` of the file `filename` holds:
    /// a tab-separated file whose first line that is neither blank nor a
    /// comment (`#`) is the header, the lines after it cards. `reset` clears
    /// what cards know of decks and due moments, which the text does not hold.
    pub fn from_text(filename: &str, content: &str, reset: bool) -> (d: VocaData)
        ensures
            d@ == data_from_text(filename@, content@),
    {
        let chars = chars_of(content);
        let nl = vec!['\n'];
        assert(nl@ =~= seq!['\n']);
        let pieces = split_ranges(&chars, &nl);
        let ghost pv = range_views(chars@, pieces@);
        let mut n = pieces.len();
        if n > 0 && pieces[n - 1].0 == pieces[n - 1].1 {
            n = n - 1;
        }
        let ghost lines = file_lines(content@);
        proof {
            assert(pv == split(content@, seq!['\n']));
            if pieces.len() > 0 {
                assert(pv.last() == chars@.subrange(
                    pieces[pieces.len() - 1].0 as int,
                    pieces[pieces.len() - 1].1 as int,
                ));
            }
            assert(lines =~= pv.take(n as int));
        }
        let mut columns: Vec<String> = Vec::new();
        let mut cards: Vec<VocaCard> = Vec::new();
        let mut comments: Vec<(usize, String)> = Vec::new();
        let mut k: usize = 0;
        proof {
            assert(lines.take(0) =~= Seq::<Seq<char>>::empty());
            assert(views(columns@) =~= Seq::<Seq<char>>::empty());
            assert(card_views(cards@) =~= Seq::<CardModel>::empty());
            assert(comment_views(comments@) =~= Seq::<(usize, Seq<char>)>::empty());
        }
        while k < n
            invariant
                n <= pieces.len(),
                k <= n,
                pv == range_views(chars@, pieces@),
                lines == pv.take(n as int),
                forall|j: int| 0 <= j < pieces.len() ==> (#[trigger] pieces[j]).0 <= pieces[j].1 <= chars.len(),
                load_lines(lines.take(k as int)) == (LoadModel {
                    columns: views(columns@),
                    cards: card_views(cards@),
                    comments: comment_views(comments@),
                }),
            decreases n - k,
        {
            let (a, b0) = pieces[k];
            assert(pieces[k as int] == (a, b0));
            let b = strip_line_end_range(&chars, a, b0);
            let (ta, tb) = trim_range(&chars, a, b);
            let ghost line = chars@.subrange(a as int, b as int);
            proof {
                assert(lines.take(k + 1).drop_last() =~= lines.take(k as int));
                assert(lines.take(k + 1).last() == lines[k as int]);
                assert(lines[k as int] == pv[k as int]);
                assert(pv[k as int] == chars@.subrange(a as int, b0 as int));
                assert(lines.take(k + 1).len() == k + 1);
            }
            if ta == tb {
                assert(trim(line).len() == 0);
            } else {
                assert(line[0] == chars@[a as int]);
                if chars[a] == '#' {
                    let text = string_of(&chars, a, b);
                    let ghost old_c = comments@;
                    comments.push((k + 1, text));
                    assert(comment_views(comments@) =~= comment_views(old_c).push(((k + 1) as usize, line)));
                } else if columns.len() == 0 {
                    columns = split_trimmed_strings(&chars, a, b, '\t');
                } else {
                    let text = string_of(&chars, a, b);
                    let ghost old_cards = cards@;
                    if let Ok(card) = VocaCard::parse_line(text.as_str(), reset, k + 1) {
                        cards.push(card);
                    }
                    assert(card_views(cards@) =~= card_views(old_cards).push(card_of_line(line)));
                }
            }
            k += 1;
        }
        assert(lines.take(n as int) =~= lines);
        let decks = vec![
            String::from_str("immediate"),
            String::from_str("daily"),
            String::from_str("weekly"),
            String::from_str("monthly"),
        ];
        let intervals = vec![0u32, 60 * 24, 60 * 24 * 7, 60 * 24 * 30];
        let showcolumns = vec![vec![0u8], vec![1u8]];
        proof {
            assert(views(decks@) =~= default_decks());
            assert(intervals@ =~= default_intervals());
            assert(byte_lists(showcolumns@) =~= default_showcolumns()) by {
                assert(showcolumns@[0]@ =~= seq![0u8]);
                assert(showcolumns@[1]@ =~= seq![1u8]);
            }
        }
        let session = VocaSession {
            columns,
            decks,
            intervals,
            returntofirst: true,
            showcolumns,
            listdelimiter: None,
            header: true,
            filename: Some(String::from_str(filename)),
        };
        VocaData { session, cards, comments }
    }
}

// ---------------------------------------------------------------------------
// Choosing cards
// ---------------------------------------------------------------------------

/// The indices, in order, of the cards in `cards` that are shown at the
/// moment `at`.
pub open spec fn presentable_indices(
    cards: Seq<CardModel>,
    at: Moment,
    decks: Option<Seq<u8>>,
    due_only: bool,
    seen_only: bool,
) -> Seq<usize>
    decreases cards.len(),
{
    if cards.len() == 0 {
        seq![]
    } else {
        let r = presentable_indices(cards.drop_last(), at, decks, due_only, seen_only);
        if presentable(cards.last(), at, decks, due_only, seen_only) {
            r.push((cards.len() - 1) as usize)
        } else {
            r
        }
    }
}

/// Where a walk over `n` cards that starts at `start` is after `k` steps.
pub open spec fn ring_index(start: int, k: int, n: int) -> int {
    (start + k) % n
}

/// What a random draw of `r` among `shown` may give: none when no card is
/// shown, else one of the shown cards and their number.
pub open spec fn draws_from(shown: Seq<usize>, r: Option<(usize, usize)>) -> bool {
    match r {
        None => shown.len() == 0,
        Some((i, count)) => count == shown.len() && shown.contains(i),
    }
}

/// Where `next_index` starts looking: at `index` itself when `inclusive`,
/// else at the card after it (the first one after the last).
pub open spec fn walk_start(index: usize, n: int, inclusive: bool) -> int {
    if inclusive {
        index as int
    } else {
        (index + 1) % n
    }
}

/// Whether the walk over `cards` from `start` finds a shown card after `k` steps.
pub open spec fn shown_after(
    cards: Seq<CardModel>,
    start: int,
    k: int,
    at: Moment,
    decks: Option<Seq<u8>>,
    due_only: bool,
    seen_only: bool,
) -> bool {
    presentable(cards[ring_index(start, k, cards.len() as int)], at, decks, due_only, seen_only)
}

/// How many cards `next_index` looks at: all of them when `inclusive` (or
/// when there is no card at `index`), else all but the one at `index`.
pub open spec fn walk_length(index: usize, n: int, inclusive: bool) -> int {
    if !inclusive && index < n {
        n - 1
    } else {
        n
    }
}

/// Whether `r` is what a walk of `len` steps over `cards` from `start` finds
/// at the moment `at`: the first shown card and the number of cards looked
/// at, or none when no card it looks at is shown.
pub open spec fn walk_finds(
    cards: Seq<CardModel>,
    start: int,
    len: int,
    at: Moment,
    decks: Option<Seq<u8>>,
    due_only: bool,
    seen_only: bool,
    r: Option<(usize, usize)>,
) -> bool {
    let n = cards.len() as int;
    match r {
        None => forall|k: int| 0 <= k < len ==> !#[trigger] shown_after(cards, start, k, at, decks, due_only, seen_only),
        Some((i, count)) => {
            &&& 1 <= count <= len
            &&& i == ring_index(start, count - 1, n)
            &&& shown_after(cards, start, count - 1, at, decks, due_only, seen_only)
            &&& forall|k: int| 0 <= k < count - 1 ==> !#[trigger] shown_after(cards, start, k, at, decks, due_only, seen_only)
        },
    }
}

/// A number below `n`, drawn by `rand::Rng::gen_range(0..n)` from the
/// thread-local generator. What is claimed: it lies in `0..n` (the call
/// panics on an empty range, hence `n > 0`). Which number it is rests on
/// chance and is not stated.
#[verifier::external_body]
fn random_below(rng: &mut rand::rngs::ThreadRng, n: usize) -> (r: usize)
    requires
        n > 0,
    ensures
        r < n,
{
    rng.gen_range(0..n)
}

pub proof fn lemma_step_mod(x: int, n: int)
    requires
        0 < n,
        0 <= x < 2 * n,
    ensures
        x % n == (if x < n { x } else { x - n }),
{
    if x < n {
        assert(x % n == x) by (nonlinear_arith)
            requires
                0 <= x < n,
        ;
    } else {
        assert(x % n == x - n) by (nonlinear_arith)
            requires
                n <= x < 2 * n,
        ;
    }
}

impl VocaData {
    /// The indices, in order, of the cards shown at the moment `now`.
    pub fn presentable_indices(
        &self,
        now: &Moment,
        decks: Option<&Vec<u8>>,
        due_only: bool,
        seen_only: bool,
    ) -> (r: Vec<usize>)
        ensures
            r@ == presentable_indices(self@.cards, *now, opt_bytes(decks), due_only, seen_only),
    {
        let ghost cs = self@.cards;
        let mut r: Vec<usize> = Vec::new();
        let n = self.cards.len();
        let mut i: usize = 0;
        assert(cs.take(0) =~= Seq::<CardModel>::empty());
        while i < n
            invariant
                n == self.cards.len(),
                i <= n,
                cs == self@.cards,
                cs.len() == n,
                r@ == presentable_indices(cs.take(i as int), *now, opt_bytes(decks), due_only, seen_only),
            decreases n - i,
        {
            proof {
                assert(cs.take(i + 1).drop_last() =~= cs.take(i as int));
                assert(cs.take(i + 1).last() == cs[i as int]);
                assert(cs[i as int] == self.cards@[i as int]@);
            }
            if self.cards[i].is_presentable(Some(now), decks, due_only, seen_only) {
                r.push(i);
            }
            i += 1;
        }
        assert(cs.take(n as int) =~= cs);
        r
    }

    /// The moment at which cards are chosen: the one a reading of the clock
    /// gives when due cards are asked for (none when it gives none), else any
    /// moment, since none other matters (the start of 1970).
    pub fn moment_for(due_only: bool) -> (r: Option<Moment>)
        ensures
            !due_only ==> r == Some(Moment { secs: 0, nanos: 0 }),
            due_only ==> exists|c: ClockReading| c.moment() == r,
            r matches Some(m) ==> is_moment(m),
    {
        if due_only {
            let c = crate::clock::now();
            let r = c.get();
            assert(c.moment() == r);
            r
        } else {
            Some(Moment { secs: 0, nanos: 0 })
        }
    }

    /// The `k`-th card shown at the moment `now` (counting from 0), and how
    /// many cards are shown; none when fewer than `k + 1` are shown.
    pub fn chosen_index(
        &self,
        now: &Moment,
        decks: Option<&Vec<u8>>,
        due_only: bool,
        seen_only: bool,
        k: usize,
    ) -> (r: Option<(usize, usize)>)
        ensures
            ({
                let shown = presentable_indices(self@.cards, *now, opt_bytes(decks), due_only, seen_only);
                r == if (k as int) < shown.len() {
                    Some((shown[k as int], shown.len() as usize))
                } else {
                    None::<(usize, usize)>
                }
            }),
    {
        let shown = self.presentable_indices(now, decks, due_only, seen_only);
        if k < shown.len() {
            Some((shown[k], shown.len()))
        } else {
            None
        }
    }

    /// A card shown now, drawn at random, and how many cards are shown; none
    /// when no card is shown, or when due cards are asked for and the clock
    /// gives no reading.
    pub fn random_index(
        &self,
        rng: &mut rand::rngs::ThreadRng,
        decks: Option<&Vec<u8>>,
        due_only: bool,
        seen_only: bool,
    ) -> (r: Option<(usize, usize)>)
        ensures
            !due_only ==> draws_from(
                presentable_indices(self@.cards, Moment { secs: 0, nanos: 0 }, opt_bytes(decks), false, seen_only),
                r,
            ),
            due_only ==> exists|c: ClockReading|
                match #[trigger] c.moment() {
                    Some(at) => is_moment(at) && draws_from(
                        presentable_indices(self@.cards, at, opt_bytes(decks), true, seen_only),
                        r,
                    ),
                    None => r is None,
                },
    {
        let mo = Self::moment_for(due_only);
        let ghost c = choose|c: ClockReading| c.moment() == mo;
        let at = match mo {
            Some(t) => t,
            None => {
                return None;
            },
        };
        let filtered = self.presentable_indices(&at, decks, due_only, seen_only);
        if filtered.len() == 0 {
            assert(draws_from(filtered@, None));
            assert(due_only ==> c.moment() == mo);
            None
        } else {
            let pick = random_below(rng, filtered.len());
            let r = self.chosen_index(&at, decks, due_only, seen_only, pick);
            assert(draws_from(filtered@, r));
            assert(due_only ==> c.moment() == mo);
            r
        }
    }

    /// The first card shown at the moment `now`, looking from `index` on
    /// (from the card after it, and never at `index` itself, unless
    /// `inclusive`), round to the beginning, at each card once; with how
    /// many cards were looked at.
    pub fn next_index_at(
        &self,
        now: &Moment,
        index: usize,
        decks: Option<&Vec<u8>>,
        due_only: bool,
        seen_only: bool,
        inclusive: bool,
    ) -> (r: Option<(usize, usize)>)
        requires
            self.cards.len() > 0 && inclusive ==> index < self.cards.len(),
            self.cards.len() > 0 && !inclusive ==> index < usize::MAX,
        ensures
            walk_finds(
                self@.cards,
                walk_start(index, self@.cards.len() as int, inclusive),
                walk_length(index, self@.cards.len() as int, inclusive),
                *now,
                opt_bytes(decks),
                due_only,
                seen_only,
                r,
            ),
    {
        let n = self.cards.len();
        if n == 0 {
            return None;
        }
        let len: usize = if !inclusive && index < n { n - 1 } else { n };
        if len == 0 {
            return None;
        }
        let ghost cs = self@.cards;
        let start: usize = if inclusive { index } else { (index + 1) % n };
        assert(start as int == walk_start(index, n as int, inclusive));
        let mut i = start;
        let mut count: usize = 0;
        proof {
            lemma_step_mod(start as int, n as int);
        }
        loop
            invariant_except_break
                count < len,
                i < n,
                i as int == ring_index(start as int, count as int, n as int),
                forall|k: int|
                    0 <= k < count ==> !#[trigger] shown_after(
                        cs,
                        start as int,
                        k,
                        *now,
                        opt_bytes(decks),
                        due_only,
                        seen_only,
                    ),
            invariant
                n == self.cards.len(),
                cs == self@.cards,
                cs.len() == n,
                start < n,
                len <= n,
                len as int == walk_length(index, n as int, inclusive),
                start as int == walk_start(index, n as int, inclusive),
            ensures
                forall|k: int|
                    0 <= k < len ==> !#[trigger] shown_after(
                        cs,
                        start as int,
                        k,
                        *now,
                        opt_bytes(decks),
                        due_only,
                        seen_only,
                    ),
            decreases len - count,
        {
            assert(cs[i as int] == self.cards@[i as int]@);
            if self.cards[i].is_presentable(Some(now), decks, due_only, seen_only) {
                assert(shown_after(cs, start as int, count as int, *now, opt_bytes(decks), due_only, seen_only));
                return Some((i, count + 1));
            }
            assert(!shown_after(cs, start as int, count as int, *now, opt_bytes(decks), due_only, seen_only));
            proof {
                lemma_step_mod(start + count, n as int);
                lemma_step_mod(start + count + 1, n as int);
                lemma_step_mod(i + 1, n as int);
            }
            i = (i + 1) % n;
            count += 1;
            if count == len {
                break;
            }
        }
        None
    }

    /// As `next_index_at`, at the current moment; none when due cards are
    /// asked for and the clock gives no reading.
    pub fn next_index(
        &self,
        index: usize,
        decks: Option<&Vec<u8>>,
        due_only: bool,
        seen_only: bool,
        inclusive: bool,
    ) -> (r: Option<(usize, usize)>)
        requires
            self.cards.len() > 0 && inclusive ==> index < self.cards.len(),
            self.cards.len() > 0 && !inclusive ==> index < usize::MAX,
        ensures
            !due_only ==> walk_finds(
                self@.cards,
                walk_start(index, self@.cards.len() as int, inclusive),
                walk_length(index, self@.cards.len() as int, inclusive),
                Moment { secs: 0, nanos: 0 },
                opt_bytes(decks),
                false,
                seen_only,
                r,
            ),
            due_only ==> exists|c: ClockReading|
                match #[trigger] c.moment() {
                    Some(at) => is_moment(at) && walk_finds(
                        self@.cards,
                        walk_start(index, self@.cards.len() as int, inclusive),
                        walk_length(index, self@.cards.len() as int, inclusive),
                        at,
                        opt_bytes(decks),
                        true,
                        seen_only,
                        r,
                    ),
                    None => r is None,
                },
    {
        let mo = Self::moment_for(due_only);
        let ghost c = choose|c: ClockReading| c.moment() == mo;
        let at = match mo {
            Some(t) => t,
            None => {
                assert(due_only ==> c.moment() == mo);
                return None;
            },
        };
        let r = self.next_index_at(&at, index, decks, due_only, seen_only, inclusive);
        assert(due_only ==> c.moment() == mo);
        r
    }
}

// ---------------------------------------------------------------------------
// Writing a card file, and loading several
// ---------------------------------------------------------------------------

/// The number of fields written for each card: that of the columns, at
/// least one.
pub open spec fn row_width(columns: Seq<Seq<char>>) -> nat {
    if columns.len() > 1 {
        columns.len()
    } else {
        1
    }
}

/// The lines that a data set is written as: its comments, then the header
/// (if the session has one and knows its columns), then one line per card
/// with as many fields as there are columns.
pub open spec fn data_lines(d: DataModel) -> Seq<Seq<char>> {
    d.comments.map_values(|c: (usize, Seq<char>)| c.1) + (if d.session.header && d.session.columns.len() > 0 {
        seq![join(d.session.columns, seq!['\t'])]
    } else {
        seq![]
    }) + d.cards.map_values(|c: CardModel| card_line(c, row_width(d.session.columns)))
}

/// Whether two lists of texts are equal.
pub fn same_strings(a: &Vec<String>, b: &Vec<String>) -> (r: bool)
    ensures
        r == (views(a@) == views(b@)),
{
    if a.len() != b.len() {
        assert(views(a@).len() != views(b@).len());
        return false;
    }
    let n = a.len();
    let mut i: usize = 0;
    while i < n
        invariant
            n == a.len(),
            n == b.len(),
            i <= n,
            forall|j: int| 0 <= j < i ==> a@[j]@ == b@[j]@,
        decreases n - i,
    {
        if a[i] != b[i] {
            assert(views(a@)[i as int] != views(b@)[i as int]);
            return false;
        }
        i += 1;
    }
    assert(views(a@) =~= views(b@));
    true
}

impl VocaData {
    /// The lines that this data set is written as: its comments, then the
    /// header (if the session has one and knows its columns), then one line
    /// per card with as many fields as there are columns (at least one).
    pub fn write_lines(&self, reset: bool) -> (r: Vec<String>)
        ensures
            views(r@) == data_lines(self@),
    {
        let ghost d = self@;
        let mut out: Vec<String> = Vec::new();
        let nc = self.comments.len();
        let mut i: usize = 0;
        assert(views(out@) =~= d.comments.map_values(|c: (usize, Seq<char>)| c.1).take(0));
        while i < nc
            invariant
                nc == self.comments.len(),
                i <= nc,
                d == self@,
                views(out@) == d.comments.map_values(|c: (usize, Seq<char>)| c.1).take(i as int),
            decreases nc - i,
        {
            let ghost prev = out@;
            out.push(self.comments[i].1.clone());
            proof {
                assert(views(out@) =~= views(prev).push(self.comments@[i as int].1@));
                assert(d.comments.map_values(|c: (usize, Seq<char>)| c.1).take(i + 1) =~= d.comments.map_values(
                    |c: (usize, Seq<char>)| c.1,
                ).take(i as int).push(self.comments@[i as int].1@));
            }
            i += 1;
        }
        let ghost head = views(out@);
        assert(head =~= d.comments.map_values(|c: (usize, Seq<char>)| c.1));
        let tab = "\t";
        proof {
            reveal_strlit("\t");
            assert(tab@ =~= seq!['\t']);
        }
        if self.session.header && self.session.columns.len() > 0 {
            let h = join_strings(&self.session.columns, tab);
            out.push(h);
            assert(views(out@) =~= head + seq![join(d.session.columns, seq!['\t'])]);
        } else {
            assert(views(out@) =~= head + Seq::<Seq<char>>::empty());
        }
        let ghost mid = views(out@);
        let width: usize = if self.session.columns.len() > 1 { self.session.columns.len() } else { 1 };
        let n = self.cards.len();
        let mut k: usize = 0;
        let ghost rows = d.cards.map_values(|c: CardModel| card_line(c, row_width(d.session.columns)));
        assert(views(out@) =~= mid + rows.take(0));
        while k < n
            invariant
                n == self.cards.len(),
                k <= n,
                d == self@,
                width as nat == row_width(d.session.columns),
                rows == d.cards.map_values(|c: CardModel| card_line(c, row_width(d.session.columns))),
                views(out@) == mid + rows.take(k as int),
            decreases n - k,
        {
            let line = self.cards[k].write_to_string(width, reset);
            let ghost prev = out@;
            out.push(line);
            proof {
                assert(d.cards[k as int] == self.cards@[k as int]@);
                assert(views(out@) =~= views(prev).push(line@));
                assert(rows.take(k + 1) =~= rows.take(k as int).push(rows[k as int]));
            }
            k += 1;
        }
        assert(rows.take(n as int) =~= rows);
        out
    }

    /// Whether a data set `self` may be loaded after `loaded`: always when
    /// `force`, else when nothing is loaded yet or its columns are those of
    /// the first data set loaded.
    pub fn fits_with(&self, loaded: &Vec<VocaData>, force: bool) -> (r: bool)
        ensures
            r == (force || loaded.len() == 0 || self@.session.columns == loaded@[0]@.session.columns),
    {
        if force || loaded.len() == 0 {
            return true;
        }
        same_strings(&self.session.columns, &loaded[0].session.columns)
    }
}

} // verus!
