//! What holds of the library across its functions.
use vstd::prelude::*;

use crate::card::{
    card_line, card_of_line, demoted_deck, fit_columns, move_goes_ahead, moved_with, presentable, promoted_deck,
    CardModel,
};
use crate::data::{data_from_text, data_lines, file_lines, load_lines, row_width, DataModel, LoadModel};
use crate::clock::{is_moment, not_later, Moment, MAX_TIMESTAMP};
use crate::data::{
    draws_from, lemma_step_mod, presentable_indices, ring_index, shown_after, walk_finds, walk_length, walk_start,
};
use crate::session::{
    apply_common, apply_showcolumns, apply_switches, csv_u32, initial_model, SessionErrorModel, lengths_clash, read_flags, session_from_flags,
    showcolumns_spec, CommonArgumentsModel, SessionModel,
};
use crate::text::{
    csv_items, is_white_space, join, split_from, lemma_join_push, lemma_split_join_char,
    lemma_strip_line_end_take, lemma_trim_end_take, lemma_trim_start_skip, nonempty_trimmed, split,
    strip_line_end, trim, trim_end, trim_start,
};

verus! {

// ---------------------------------------------------------------------------
// Trimming
// ---------------------------------------------------------------------------

proof fn lemma_trim_start_shape(s: Seq<char>)
    ensures
        trim_start(s).len() == 0 || !is_white_space(trim_start(s)[0]),
        trim_start(s).len() <= s.len(),
    decreases s.len(),
{
    if s.len() > 0 && is_white_space(s[0]) {
        lemma_trim_start_shape(s.drop_first());
    }
}

proof fn lemma_trim_end_shape(s: Seq<char>)
    ensures
        trim_end(s).len() == 0 || !is_white_space(trim_end(s).last()),
        trim_end(s).len() <= s.len(),
        trim_end(s) == s.take(trim_end(s).len() as int),
    decreases s.len(),
{
    if s.len() > 0 && is_white_space(s.last()) {
        lemma_trim_end_shape(s.drop_last());
        let t = trim_end(s.drop_last());
        assert(s.drop_last().take(t.len() as int) =~= s.take(t.len() as int));
    } else {
        assert(s.take(s.len() as int) =~= s);
    }
}

/// Trimming a trimmed text changes nothing.
pub proof fn lemma_trim_idempotent(s: Seq<char>)
    ensures
        trim(trim(s)) == trim(s),
{
    let a = trim_start(s);
    let y = trim_end(a);
    lemma_trim_start_shape(s);
    lemma_trim_end_shape(a);
    if y.len() > 0 {
        assert(y[0] == a[0]);
        lemma_trim_start_skip(y, 0);
        assert(y.skip(0) =~= y);
        lemma_trim_end_take(y, y.len() as int);
        assert(y.take(y.len() as int) =~= y);
    } else {
        assert(trim_start(y) == y);
        assert(trim_end(y) == y);
    }
}

/// Each piece that `nonempty_trimmed` keeps is trimmed and not empty.
pub proof fn lemma_nonempty_trimmed_items(p: Seq<Seq<char>>)
    ensures
        forall|k: int|
            0 <= k < nonempty_trimmed(p).len() ==> (#[trigger] nonempty_trimmed(p)[k]).len() > 0 && trim(
                nonempty_trimmed(p)[k],
            ) == nonempty_trimmed(p)[k],
    decreases p.len(),
{
    if p.len() > 0 {
        lemma_nonempty_trimmed_items(p.drop_last());
        lemma_trim_idempotent(p.last());
        let r = nonempty_trimmed(p.drop_last());
        let q = nonempty_trimmed(p);
        assert forall|k: int| 0 <= k < q.len() implies (#[trigger] q[k]).len() > 0 && trim(q[k]) == q[k] by {
            if k < r.len() {
                assert(q[k] == r[k]);
            } else {
                assert(q[k] == trim(p.last()));
            }
        }
    }
}

/// The items of a comma-separated list (the columns or decks a flag names)
/// are never empty and never begin or end with whitespace.
pub proof fn law_csv_items_trimmed(s: Seq<char>)
    ensures
        forall|k: int|
            0 <= k < csv_items(s).len() ==> (#[trigger] csv_items(s)[k]).len() > 0 && trim(csv_items(s)[k])
                == csv_items(s)[k],
{
    lemma_nonempty_trimmed_items(split(s, seq![',']));
}

// ---------------------------------------------------------------------------
// Card lines
// ---------------------------------------------------------------------------

/// A card written with `n` (at least one) fields reads back as its fields
/// padded or cut to `n`, when no field holds a tab or ends in whitespace.
pub proof fn law_card_line_roundtrip(c: CardModel, n: nat)
    requires
        n >= 1,
        forall|k: int| 0 <= k < c.fields.len() ==> !(#[trigger] c.fields[k]).contains('\t'),
        forall|k: int| 0 <= k < c.fields.len() ==> trim_end(#[trigger] c.fields[k]) == c.fields[k],
    ensures
        card_of_line(card_line(c, n)).fields == fit_columns(c.fields, n),
        card_of_line(card_line(c, n)).due is None,
        card_of_line(card_line(c, n)).deck == 0,
{
    let f = fit_columns(c.fields, n);
    assert forall|k: int| 0 <= k < f.len() implies !(#[trigger] f[k]).contains('\t') && trim_end(f[k]) == f[k] by {
        if k < c.fields.len() {
            assert(f[k] == c.fields[k]);
        } else {
            assert(f[k] =~= Seq::<char>::empty());
        }
    }
    lemma_split_join_char(f, '\t');
    assert(split(join(f, seq!['\t']), seq!['\t']).map_values(|p: Seq<char>| trim_end(p)) =~= f);
}

/// A header written from columns reads back as those columns, when no
/// column holds a tab or begins or ends with whitespace.
pub proof fn law_header_roundtrip(columns: Seq<Seq<char>>)
    requires
        columns.len() >= 1,
        forall|k: int| 0 <= k < columns.len() ==> !(#[trigger] columns[k]).contains('\t'),
        forall|k: int| 0 <= k < columns.len() ==> trim(#[trigger] columns[k]) == columns[k],
    ensures
        split(join(columns, seq!['\t']), seq!['\t']).map_values(|p: Seq<char>| trim(p)) == columns,
{
    lemma_split_join_char(columns, '\t');
    assert(split(join(columns, seq!['\t']), seq!['\t']).map_values(|p: Seq<char>| trim(p)) =~= columns);
}

// ---------------------------------------------------------------------------
// Decks
// ---------------------------------------------------------------------------

/// Promotion never takes a card past the last deck.
pub proof fn law_promote_capped(deck: u8, s: SessionModel)
    requires
        0 < s.decks.len() <= 256,
    ensures
        (promoted_deck(deck, s) as int) < s.decks.len(),
        (deck as int) < s.decks.len() - 1 ==> promoted_deck(deck, s) == deck + 1,
        (deck as int) >= s.decks.len() - 1 ==> promoted_deck(deck, s) == s.decks.len() - 1,
{
}

/// Where demotion steps down one deck, it undoes a promotion that did not
/// stop at the last deck.
pub proof fn law_demote_undoes_promote(deck: u8, s: SessionModel)
    requires
        !s.returntofirst,
        deck + 1 < s.decks.len(),
        deck < 255,
    ensures
        demoted_deck(promoted_deck(deck, s), s) == deck,
{
}

/// With `returntofirst`, demotion always goes back to the first deck.
pub proof fn law_demote_returns_to_first(deck: u8, s: SessionModel)
    requires
        s.returntofirst,
    ensures
        demoted_deck(deck, s) == 0,
{
}

/// A card promoted with a reading `t` of the clock, from a deck below the
/// last one, goes to the next deck and is due that deck's interval after `t`
/// (where that stays within the calendar); its fields stay.
pub proof fn law_promote_with_reading(c: CardModel, s: SessionModel, t: Moment)
    requires
        is_moment(t),
        s.decks.len() <= 256,
        c.deck + 1 < s.decks.len(),
        c.deck + 1 < s.intervals.len(),
        t.secs + 60 * s.intervals[c.deck + 1] <= MAX_TIMESTAMP,
    ensures
        move_goes_ahead(promoted_deck(c.deck, s), s, Some(t)),
        moved_with(c, promoted_deck(c.deck, s), s, Some(t)) == (CardModel {
            fields: c.fields,
            deck: (c.deck + 1) as u8,
            due: Some(Moment { secs: (t.secs + 60 * s.intervals[c.deck + 1]) as i64, nanos: t.nanos }),
        }),
{
}

/// A card demoted with a reading `t` of the clock goes to the first deck
/// when the session returns to it, else one deck down (the first deck
/// stays), and is due that deck's interval after `t` (where that stays
/// within the calendar); its fields stay.
pub proof fn law_demote_with_reading(c: CardModel, s: SessionModel, t: Moment)
    requires
        is_moment(t),
        s.intervals.len() == s.decks.len(),
        c.deck < s.decks.len(),
        forall|k: int| 0 <= k < s.intervals.len() ==> t.secs + 60 * #[trigger] s.intervals[k] <= MAX_TIMESTAMP,
    ensures
        ({
            let to: u8 = if s.returntofirst || c.deck == 0 { 0 } else { (c.deck - 1) as u8 };
            &&& move_goes_ahead(demoted_deck(c.deck, s), s, Some(t))
            &&& moved_with(c, demoted_deck(c.deck, s), s, Some(t)) == (CardModel {
                fields: c.fields,
                deck: to,
                due: Some(Moment { secs: (t.secs + 60 * s.intervals[to as int]) as i64, nanos: t.nanos }),
            })
        }),
{
    let to: u8 = if s.returntofirst || c.deck == 0 { 0 } else { (c.deck - 1) as u8 };
    assert(demoted_deck(c.deck, s) == to);
    assert(t.secs + 60 * s.intervals[to as int] <= MAX_TIMESTAMP);
}

/// A move to a deck with an interval leaves the card as it is only where no
/// moment was read, or the due moment would fall past the calendar; a move
/// to a deck without one always goes ahead.
pub proof fn law_move_stays_only_without_reading(deck: u8, s: SessionModel, reading: Option<Moment>)
    ensures
        !move_goes_ahead(deck, s, reading) <==> ((deck as int) < s.intervals.len() && match reading {
            None => true,
            Some(t) => t.secs + 60 * s.intervals[deck as int] > MAX_TIMESTAMP,
        }),
{
}

// ---------------------------------------------------------------------------
// Choosing cards
// ---------------------------------------------------------------------------

/// The indices of the shown cards are exactly those of the cards shown,
/// each once, in increasing order.
pub proof fn law_presentable_indices(
    cards: Seq<CardModel>,
    at: Moment,
    decks: Option<Seq<u8>>,
    due_only: bool,
    seen_only: bool,
)
    requires
        cards.len() <= usize::MAX,
    ensures
        forall|j: int|
            0 <= j < presentable_indices(cards, at, decks, due_only, seen_only).len() ==> {
                let i = #[trigger] presentable_indices(cards, at, decks, due_only, seen_only)[j];
                &&& (i as int) < cards.len()
                &&& presentable(cards[i as int], at, decks, due_only, seen_only)
            },
        forall|i: int|
            0 <= i < cards.len() && presentable(#[trigger] cards[i], at, decks, due_only, seen_only)
                ==> presentable_indices(cards, at, decks, due_only, seen_only).contains(i as usize),
        forall|j1: int, j2: int|
            0 <= j1 < j2 < presentable_indices(cards, at, decks, due_only, seen_only).len() ==> #[trigger] presentable_indices(
                cards,
                at,
                decks,
                due_only,
                seen_only,
            )[j1] < #[trigger] presentable_indices(cards, at, decks, due_only, seen_only)[j2],
    decreases cards.len(),
{
    if cards.len() > 0 {
        let rest = cards.drop_last();
        law_presentable_indices(rest, at, decks, due_only, seen_only);
        let r = presentable_indices(rest, at, decks, due_only, seen_only);
        let q = presentable_indices(cards, at, decks, due_only, seen_only);
        let last = (cards.len() - 1) as usize;
        assert(last as int == cards.len() - 1);
        assert(cards[last as int] == cards.last());
        if presentable(cards.last(), at, decks, due_only, seen_only) {
            assert(q == r.push(last));
        } else {
            assert(q == r);
        }
        assert forall|j: int| 0 <= j < q.len() implies {
            let i = #[trigger] q[j];
            &&& (i as int) < cards.len()
            &&& presentable(cards[i as int], at, decks, due_only, seen_only)
        } by {
            if j < r.len() {
                assert(q[j] == r[j]);
                assert(rest[r[j] as int] == cards[r[j] as int]);
            } else {
                assert(q[j] == last);
            }
        }
        assert forall|i: int|
            0 <= i < cards.len() && presentable(#[trigger] cards[i], at, decks, due_only, seen_only)
                implies q.contains(i as usize) by {
            if i < cards.len() - 1 {
                assert(rest[i] == cards[i]);
                assert(r.contains(i as usize));
                let j = choose|j: int| 0 <= j < r.len() && r[j] == i as usize;
                assert(q[j] == r[j]);
            } else {
                assert(q[q.len() - 1] == last);
            }
        }
        assert forall|j1: int, j2: int| 0 <= j1 < j2 < q.len() implies #[trigger] q[j1] < #[trigger] q[j2] by {
            assert(q[j1] == r[j1]);
            if j2 < r.len() {
                assert(q[j2] == r[j2]);
            } else {
                assert(q[j2] == last);
                assert((r[j1] as int) < rest.len());
            }
        }
    }
}

/// Looking for the next card from a shown card, that card included, finds
/// it at once.
pub proof fn law_next_from_shown_card(
    cards: Seq<CardModel>,
    index: usize,
    at: Moment,
    decks: Option<Seq<u8>>,
    due_only: bool,
    seen_only: bool,
    r: Option<(usize, usize)>,
)
    requires
        (index as int) < cards.len(),
        presentable(cards[index as int], at, decks, due_only, seen_only),
        walk_finds(cards, index as int, cards.len() as int, at, decks, due_only, seen_only, r),
    ensures
        r == Some((index, 1usize)),
{
    lemma_step_mod(index as int, cards.len() as int);
    assert(ring_index(index as int, 0, cards.len() as int) == index);
    assert(shown_after(cards, index as int, 0, at, decks, due_only, seen_only));
}

/// Looking for the next card without `inclusive` never gives back the card
/// at `index`.
pub proof fn law_next_skips_current(
    cards: Seq<CardModel>,
    index: usize,
    at: Moment,
    decks: Option<Seq<u8>>,
    due_only: bool,
    seen_only: bool,
    r: Option<(usize, usize)>,
)
    requires
        (index as int) < cards.len(),
        walk_finds(
            cards,
            walk_start(index, cards.len() as int, false),
            walk_length(index, cards.len() as int, false),
            at,
            decks,
            due_only,
            seen_only,
            r,
        ),
    ensures
        r matches Some((i, count)) ==> i != index,
{
    let n = cards.len() as int;
    let start = walk_start(index, n, false);
    lemma_step_mod(index + 1, n);
    if let Some((i, count)) = r {
        let k = count - 1;
        assert(0 <= k <= n - 2);
        lemma_step_mod(start + k, n);
        assert(i == ring_index(start, k, n));
    }
}


/// Looking for the next due card from `index`, that card included, finds
/// the card at `index` at once when it is due by the moment `t`.
pub proof fn law_due_card_found_at_once(
    cards: Seq<CardModel>,
    index: usize,
    t: Moment,
    seen_only: bool,
    r: Option<(usize, usize)>,
)
    requires
        (index as int) < cards.len(),
        cards[index as int].due matches Some(d) && not_later(d, t),
        walk_finds(
            cards,
            walk_start(index, cards.len() as int, true),
            walk_length(index, cards.len() as int, true),
            t,
            None,
            true,
            seen_only,
            r,
        ),
    ensures
        r == Some((index, 1usize)),
{
    law_next_from_shown_card(cards, index, t, None, true, seen_only, r);
}

/// What a walk finds is fixed by the cards, where it starts, how far it
/// goes and the moment: two results of the same walk are equal.
pub proof fn law_walk_finds_one(
    cards: Seq<CardModel>,
    start: int,
    len: int,
    at: Moment,
    decks: Option<Seq<u8>>,
    due_only: bool,
    seen_only: bool,
    r1: Option<(usize, usize)>,
    r2: Option<(usize, usize)>,
)
    requires
        walk_finds(cards, start, len, at, decks, due_only, seen_only, r1),
        walk_finds(cards, start, len, at, decks, due_only, seen_only, r2),
    ensures
        r1 == r2,
{
    match (r1, r2) {
        (Some((i1, c1)), Some((i2, c2))) => {
            if c1 < c2 {
                assert(shown_after(cards, start, c1 - 1, at, decks, due_only, seen_only));
            } else if c2 < c1 {
                assert(shown_after(cards, start, c2 - 1, at, decks, due_only, seen_only));
            }
        },
        (Some((i1, c1)), None) => {
            assert(shown_after(cards, start, c1 - 1, at, decks, due_only, seen_only));
        },
        (None, Some((i2, c2))) => {
            assert(shown_after(cards, start, c2 - 1, at, decks, due_only, seen_only));
        },
        (None, None) => {},
    }
}

/// A card drawn among those due by the moment `t` is one of the cards and
/// is due by `t`; the draw gives none exactly when no card is shown at `t`.
pub proof fn law_drawn_card_is_due(
    cards: Seq<CardModel>,
    t: Moment,
    decks: Option<Seq<u8>>,
    seen_only: bool,
    r: Option<(usize, usize)>,
)
    requires
        cards.len() <= usize::MAX,
        draws_from(presentable_indices(cards, t, decks, true, seen_only), r),
    ensures
        r matches Some((i, n)) ==> (i as int) < cards.len() && (cards[i as int].due matches Some(d) && not_later(
            d,
            t,
        )),
        r is None <==> forall|i: int| 0 <= i < cards.len() ==> !presentable(#[trigger] cards[i], t, decks, true, seen_only),
{
    law_presentable_indices(cards, t, decks, true, seen_only);
    let q = presentable_indices(cards, t, decks, true, seen_only);
    if let Some((i, n)) = r {
        let j = choose|j: int| 0 <= j < q.len() && q[j] == i;
        assert(q[j] == i);
    }
    if r is None {
        assert forall|i: int| 0 <= i < cards.len() implies !presentable(#[trigger] cards[i], t, decks, true, seen_only) by {
            if presentable(cards[i], t, decks, true, seen_only) {
                assert(q.contains(i as usize));
            }
        }
    } else {
        let j = choose|j: int| 0 <= j < q.len() && q[j] == r.unwrap().0;
        let i = q[j] as int;
        assert(presentable(cards[i], t, decks, true, seen_only));
    }
}

// ---------------------------------------------------------------------------
// Sessions
// ---------------------------------------------------------------------------

proof fn lemma_split_pieces_free(s: Seq<char>, c: char, cur: Seq<char>)
    requires
        !cur.contains(c),
    ensures
        forall|k: int|
            0 <= k < split_from(s, seq![c], cur).len() ==> !(#[trigger] split_from(s, seq![c], cur)[k]).contains(c),
    decreases s.len(),
{
    let d = seq![c];
    let res = split_from(s, d, cur);
    if s.len() < 1 {
        assert(cur + s =~= cur);
        assert(res == seq![cur + s]);
        assert forall|k: int| 0 <= k < res.len() implies !(#[trigger] res[k]).contains(c) by {
            assert(res[k] == cur);
        }
    } else if s.take(1) == d {
        assert(!Seq::<char>::empty().contains(c));
        lemma_split_pieces_free(s.skip(1), c, seq![]);
        let r = split_from(s.skip(1), d, seq![]);
        assert(res == seq![cur] + r);
        assert forall|k: int| 0 <= k < res.len() implies !(#[trigger] res[k]).contains(c) by {
            if k > 0 {
                assert(res[k] == r[k - 1]);
            } else {
                assert(res[k] == cur);
            }
        }
    } else {
        assert(s[0] != c) by {
            if s[0] == c {
                assert(s.take(1) =~= d);
            }
        }
        let cur2 = cur.push(s[0]);
        assert(!cur2.contains(c)) by {
            if cur2.contains(c) {
                let j = choose|j: int| 0 <= j < cur2.len() && cur2[j] == c;
                if j < cur.len() {
                    assert(cur[j] == c);
                }
            }
        }
        lemma_split_pieces_free(s.drop_first(), c, cur2);
        assert(res == split_from(s.drop_first(), d, cur2));
    }
}

proof fn lemma_trim_start_free(p: Seq<char>, c: char)
    requires
        !p.contains(c),
    ensures
        !trim_start(p).contains(c),
    decreases p.len(),
{
    if p.len() > 0 && is_white_space(p[0]) {
        let q = p.drop_first();
        assert(!q.contains(c)) by {
            if q.contains(c) {
                let j = choose|j: int| 0 <= j < q.len() && q[j] == c;
                assert(p[j + 1] == c);
            }
        }
        lemma_trim_start_free(q, c);
    }
}

proof fn lemma_trim_end_free(p: Seq<char>, c: char)
    requires
        !p.contains(c),
    ensures
        !trim_end(p).contains(c),
    decreases p.len(),
{
    if p.len() > 0 && is_white_space(p.last()) {
        let q = p.drop_last();
        assert(!q.contains(c)) by {
            if q.contains(c) {
                let j = choose|j: int| 0 <= j < q.len() && q[j] == c;
                assert(p[j] == c);
            }
        }
        lemma_trim_end_free(q, c);
    }
}

proof fn lemma_nonempty_trimmed_free(p: Seq<Seq<char>>, c: char)
    requires
        forall|k: int| 0 <= k < p.len() ==> !(#[trigger] p[k]).contains(c),
    ensures
        forall|k: int| 0 <= k < nonempty_trimmed(p).len() ==> !(#[trigger] nonempty_trimmed(p)[k]).contains(c),
    decreases p.len(),
{
    if p.len() > 0 {
        let rest = p.drop_last();
        assert forall|k: int| 0 <= k < rest.len() implies !(#[trigger] rest[k]).contains(c) by {
            assert(rest[k] == p[k]);
        }
        lemma_nonempty_trimmed_free(rest, c);
        assert(!p.last().contains(c)) by {
            assert(p.last() == p[p.len() - 1]);
        }
        lemma_trim_start_free(p.last(), c);
        lemma_trim_end_free(trim_start(p.last()), c);
        let r = nonempty_trimmed(rest);
        let q = nonempty_trimmed(p);
        assert forall|k: int| 0 <= k < q.len() implies !(#[trigger] q[k]).contains(c) by {
            if k < r.len() {
                assert(q[k] == r[k]);
            } else {
                assert(q[k] == trim(p.last()));
            }
        }
    }
}

/// Items of a list as flags give them: not empty, trimmed, holding no comma.
pub open spec fn are_list_items(v: Seq<Seq<char>>) -> bool {
    forall|k: int| 0 <= k < v.len() ==> (#[trigger] v[k]).len() > 0 && trim(v[k]) == v[k] && !v[k].contains(',')
}

/// The items of a comma-separated list are not empty, trimmed, and hold no
/// comma.
pub proof fn law_csv_items_are_list_items(s: Seq<char>)
    ensures
        are_list_items(csv_items(s)),
{
    law_csv_items_trimmed(s);
    lemma_split_pieces_free(s, ',', seq![]);
    lemma_nonempty_trimmed_free(split(s, seq![',']), ',');
}

/// What every session read from flags has: no file, at least one side of
/// shown columns, and columns and decks that are list items.
pub open spec fn is_flag_session(st: SessionModel) -> bool {
    &&& st.filename is None
    &&& st.showcolumns.len() >= 1
    &&& are_list_items(st.columns)
    &&& are_list_items(st.decks)
}

proof fn lemma_read_flags_keeps(args: Seq<Seq<char>>, i: nat, st: SessionModel)
    requires
        is_flag_session(st),
    ensures
        read_flags(args, i, st) matches Ok(st2) ==> is_flag_session(st2),
    decreases args.len() - i,
{
    if i < args.len() {
        let a = args[i as int];
        let has_value = i + 1 < args.len();
        if a == "--columns"@ && has_value {
            law_csv_items_are_list_items(args[i + 1 as int]);
            lemma_read_flags_keeps(args, i + 2, SessionModel { columns: csv_items(args[i + 1 as int]), ..st });
        } else if a == "--decks"@ && has_value {
            law_csv_items_are_list_items(args[i + 1 as int]);
            lemma_read_flags_keeps(args, i + 2, SessionModel { decks: csv_items(args[i + 1 as int]), ..st });
        } else if a == "--intervals"@ && has_value {
            if let Ok(v) = csv_u32(args[i + 1 as int]) {
                lemma_read_flags_keeps(args, i + 2, SessionModel { intervals: v, ..st });
            }
        } else if a == "--showcolumns"@ && has_value {
            if let Ok(v) = showcolumns_spec(args[i + 1 as int]) {
                lemma_read_flags_keeps(args, i + 2, SessionModel { showcolumns: v, ..st });
            }
        } else if a == "--listdelimiter"@ && has_value {
            lemma_read_flags_keeps(args, i + 2, SessionModel { listdelimiter: Some(args[i + 1 as int]), ..st });
        } else if a == "--header"@ {
            lemma_read_flags_keeps(args, i + 1, SessionModel { header: true, ..st });
        } else if a == "--no-header"@ {
            lemma_read_flags_keeps(args, i + 1, SessionModel { header: false, ..st });
        } else if a == "--returntofirst"@ {
            lemma_read_flags_keeps(args, i + 1, SessionModel { returntofirst: true, ..st });
        } else if a == "--no-returntofirst"@ {
            lemma_read_flags_keeps(args, i + 1, SessionModel { returntofirst: false, ..st });
        } else {
            lemma_read_flags_keeps(args, i + 1, st);
        }
    }
}

/// A session read from flags has no file, at least one side of shown
/// columns, columns and decks that are non-empty, trimmed and hold no
/// comma, and never intervals and decks both given in different numbers.
pub proof fn law_flag_session(args: Seq<Seq<char>>)
    ensures
        session_from_flags(args) matches Ok(st) ==> is_flag_session(st) && !lengths_clash(st),
{
    let init = initial_model();
    assert(are_list_items(init.columns));
    assert(are_list_items(init.decks));
    lemma_read_flags_keeps(args, 0, init);
}

/// Applying command-line settings that give nothing leaves a session as it
/// is (and refuses it only where its intervals and decks disagree).
pub proof fn law_no_settings_keep_session(st: SessionModel)
    ensures
        ({
            let none = CommonArgumentsModel {
                columns: None,
                decks: None,
                intervals: None,
                showcolumns: None,
                listdelimiter: None,
                header: false,
                no_header: false,
                returntofirst: false,
                no_returntofirst: false,
            };
            &&& apply_common(st, none).0 == st
            &&& (apply_common(st, none).1 is None <==> !lengths_clash(st))
        }),
{
}

/// Whether the intervals given in `m`, if any, parse.
pub open spec fn intervals_parse(m: CommonArgumentsModel) -> bool {
    match m.intervals {
        Some(t) => csv_u32(t) is Ok,
        None => true,
    }
}

/// Whether the shown columns given in `m`, if any, parse.
pub open spec fn shown_columns_parse(m: CommonArgumentsModel) -> bool {
    match m.showcolumns {
        Some(t) => showcolumns_spec(t) is Ok,
        None => true,
    }
}

proof fn lemma_switches_keep(s: SessionModel, m: CommonArgumentsModel)
    ensures
        ({
            let r = apply_switches(s, m).0;
            &&& r.columns == s.columns
            &&& r.decks == s.decks
            &&& r.intervals == s.intervals
            &&& r.showcolumns == s.showcolumns
            &&& r.filename == s.filename
        }),
{
}

proof fn lemma_showcolumns_keep(s: SessionModel, m: CommonArgumentsModel)
    ensures
        ({
            let r = apply_showcolumns(s, m).0;
            &&& r.columns == s.columns
            &&& r.decks == s.decks
            &&& r.intervals == s.intervals
            &&& r.filename == s.filename
        }),
{
    match m.showcolumns {
        Some(t) => match showcolumns_spec(t) {
            Ok(v) => lemma_switches_keep(SessionModel { showcolumns: v, ..s }, m),
            Err(e) => {},
        },
        None => lemma_switches_keep(s, m),
    }
}

/// Columns and decks given on the command line are set from their lists
/// (they come first, so no refusal undoes them); those not given keep their
/// values, and the file name always stays.
pub proof fn law_given_columns_and_decks_applied(st: SessionModel, m: CommonArgumentsModel)
    ensures
        ({
            let s2 = apply_common(st, m).0;
            &&& s2.filename == st.filename
            &&& (m.columns matches Some(c) ==> s2.columns == csv_items(c))
            &&& (m.columns is None ==> s2.columns == st.columns)
            &&& (m.decks matches Some(d) ==> s2.decks == csv_items(d))
            &&& (m.decks is None ==> s2.decks == st.decks)
        }),
{
    let s1 = match m.columns {
        Some(c) => SessionModel { columns: csv_items(c), ..st },
        None => st,
    };
    let s2 = match m.decks {
        Some(d) => SessionModel { decks: csv_items(d), ..s1 },
        None => s1,
    };
    match m.intervals {
        Some(t) => match csv_u32(t) {
            Ok(v) => lemma_showcolumns_keep(SessionModel { intervals: v, ..s2 }, m),
            Err(e) => {},
        },
        None => lemma_showcolumns_keep(s2, m),
    }
}

/// Intervals given on the command line are set to what they parse to; where
/// they do not parse, that is the refusal, and neither they nor any setting
/// after them is applied. Intervals not given keep their value.
pub proof fn law_given_intervals_applied(st: SessionModel, m: CommonArgumentsModel)
    ensures
        ({
            let s2 = apply_common(st, m).0;
            let err = apply_common(st, m).1;
            &&& (m.intervals matches Some(t) ==> match csv_u32(t) {
                Ok(v) => s2.intervals == v,
                Err(e) => {
                    &&& err == Some(e)
                    &&& s2.intervals == st.intervals
                    &&& s2.showcolumns == st.showcolumns
                    &&& s2.listdelimiter == st.listdelimiter
                    &&& s2.header == st.header
                    &&& s2.returntofirst == st.returntofirst
                },
            })
            &&& (m.intervals is None ==> s2.intervals == st.intervals)
        }),
{
}

/// Shown columns given on the command line (after intervals that parse) are
/// set to what they parse to; where they do not parse, that is the refusal,
/// and no setting after them is applied. Shown columns not given keep their
/// value.
pub proof fn law_given_showcolumns_applied(st: SessionModel, m: CommonArgumentsModel)
    ensures
        ({
            let s2 = apply_common(st, m).0;
            let err = apply_common(st, m).1;
            &&& (intervals_parse(m) ==> (m.showcolumns matches Some(t) ==> match showcolumns_spec(t) {
                Ok(v) => s2.showcolumns == v,
                Err(e) => {
                    &&& err == Some(e)
                    &&& s2.showcolumns == st.showcolumns
                    &&& s2.listdelimiter == st.listdelimiter
                    &&& s2.header == st.header
                    &&& s2.returntofirst == st.returntofirst
                },
            }))
            &&& (m.showcolumns is None ==> s2.showcolumns == st.showcolumns)
        }),
{
    match m.intervals {
        Some(t) => match csv_u32(t) {
            Ok(v) => {},
            Err(e) => {},
        },
        None => {},
    }
}

/// Once intervals and shown columns parse, the list delimiter given is set,
/// and each pair of switches sets its setting (the negative one wins);
/// what is not given keeps its value.
pub proof fn law_given_switches_applied(st: SessionModel, m: CommonArgumentsModel)
    requires
        intervals_parse(m),
        shown_columns_parse(m),
    ensures
        ({
            let s2 = apply_common(st, m).0;
            &&& (m.listdelimiter matches Some(d) ==> s2.listdelimiter == Some(d))
            &&& (m.listdelimiter is None ==> s2.listdelimiter == st.listdelimiter)
            &&& (m.no_header ==> !s2.header)
            &&& (m.header && !m.no_header ==> s2.header)
            &&& (!m.header && !m.no_header ==> s2.header == st.header)
            &&& (m.no_returntofirst ==> !s2.returntofirst)
            &&& (m.returntofirst && !m.no_returntofirst ==> s2.returntofirst)
            &&& (!m.returntofirst && !m.no_returntofirst ==> s2.returntofirst == st.returntofirst)
        }),
{
    match m.intervals {
        Some(t) => match csv_u32(t) {
            Ok(v) => {},
            Err(e) => {},
        },
        None => {},
    }
}

/// The settings are refused exactly when the intervals or the shown columns
/// given do not parse, or intervals and decks end up disagreeing in number;
/// in the last case the refusal names both numbers.
pub proof fn law_settings_refused_when(st: SessionModel, m: CommonArgumentsModel)
    ensures
        ({
            let s2 = apply_common(st, m).0;
            let err = apply_common(st, m).1;
            &&& (err is None <==> intervals_parse(m) && shown_columns_parse(m) && !lengths_clash(s2))
            &&& (intervals_parse(m) && shown_columns_parse(m) && lengths_clash(s2) ==> err == Some(
                SessionErrorModel::LengthMismatch(s2.intervals.len() as usize, s2.decks.len() as usize),
            ))
        }),
{
    match m.intervals {
        Some(t) => match csv_u32(t) {
            Ok(v) => {},
            Err(e) => {},
        },
        None => {},
    }
}

/// After command-line settings are applied without refusal, intervals and
/// decks agree in number (or one of them is not given).
pub proof fn law_applied_settings_consistent(st: SessionModel, m: CommonArgumentsModel)
    ensures
        apply_common(st, m).1 is None ==> !lengths_clash(apply_common(st, m).0),
{
}

// ---------------------------------------------------------------------------
// Writing a data set and reading it back
// ---------------------------------------------------------------------------

/// The text of `lines`, each followed by a line feed.
pub open spec fn text_of_lines(lines: Seq<Seq<char>>) -> Seq<char>
    decreases lines.len(),
{
    if lines.len() == 0 {
        seq![]
    } else {
        text_of_lines(lines.drop_last()) + lines.last() + seq!['\n']
    }
}

/// `texts` numbered from 1.
pub open spec fn numbered(texts: Seq<Seq<char>>) -> Seq<(usize, Seq<char>)> {
    Seq::new(texts.len(), |i: int| ((i + 1) as usize, texts[i]))
}

/// The texts of the comment lines of `d`.
pub open spec fn comment_texts(d: DataModel) -> Seq<Seq<char>> {
    d.comments.map_values(|c: (usize, Seq<char>)| c.1)
}

/// A comment line that reads back as itself: it starts with `#`, and holds
/// no line feed, nor a carriage return at its end.
pub open spec fn is_comment_text(t: Seq<char>) -> bool {
    &&& t.len() > 0
    &&& t[0] == '#'
    &&& !t.contains('\n')
    &&& strip_line_end(t) == t
}

/// A column name that reads back as itself: no tab, no line feed, no
/// whitespace at either end.
pub open spec fn is_column_name(t: Seq<char>) -> bool {
    &&& !t.contains('\t')
    &&& !t.contains('\n')
    &&& trim(t) == t
}

/// A field that reads back as itself: no tab, no line feed, no whitespace
/// at its end.
pub open spec fn is_field_text(t: Seq<char>) -> bool {
    &&& !t.contains('\t')
    &&& !t.contains('\n')
    &&& trim_end(t) == t
}

/// A line that is read as the header or a card: not blank, and not
/// beginning with `#`.
pub open spec fn is_content_start(t: Seq<char>) -> bool {
    &&& trim(t).len() > 0
    &&& t[0] != '#'
}

/// A card whose line, with `w` fields, reads back as a card: its fields
/// read back as themselves, and the line is neither blank nor a comment.
pub open spec fn is_writable_card(c: CardModel, w: nat) -> bool {
    &&& forall|k: int| 0 <= k < c.fields.len() ==> is_field_text(#[trigger] c.fields[k])
    &&& is_content_start(card_line(c, w))
}

/// A data set whose written text reads back: it has a header with at least
/// one column, whose line is neither blank nor a comment; and its comments,
/// column names and cards read back as themselves.
pub open spec fn is_writable(d: DataModel) -> bool {
    &&& d.session.header
    &&& d.session.columns.len() >= 1
    &&& is_content_start(join(d.session.columns, seq!['\t']))
    &&& forall|k: int| 0 <= k < d.session.columns.len() ==> is_column_name(#[trigger] d.session.columns[k])
    &&& forall|k: int| 0 <= k < d.comments.len() ==> is_comment_text(#[trigger] d.comments[k].1)
    &&& forall|k: int| 0 <= k < d.cards.len() ==> is_writable_card(#[trigger] d.cards[k], row_width(d.session.columns))
}

proof fn lemma_trim_shorter(s: Seq<char>)
    ensures
        trim(s).len() <= s.len(),
{
    lemma_trim_start_shape(s);
    lemma_trim_end_shape(trim_start(s));
}

/// A joined line that is not blank and whose parts have no whitespace at
/// their end has no line end to strip.
proof fn lemma_joined_line_end(parts: Seq<Seq<char>>)
    requires
        parts.len() >= 1,
        trim(join(parts, seq!['\t'])).len() > 0,
        forall|k: int| 0 <= k < parts.len() ==> trim_end(#[trigger] parts[k]) == parts[k],
    ensures
        strip_line_end(join(parts, seq!['\t'])) == join(parts, seq!['\t']),
{
    let line = join(parts, seq!['\t']);
    lemma_trim_shorter(line);
    lemma_join_last(parts, '\t');
    assert(parts.last() == parts[parts.len() - 1]);
    if parts.last().len() > 0 {
        lemma_trimmed_ends(parts.last());
    } else if parts.len() < 2 {
        assert(line == parts[0]);
    }
    lemma_no_line_end(line);
}

proof fn lemma_text_of_lines_join(lines: Seq<Seq<char>>)
    requires
        lines.len() >= 1,
    ensures
        text_of_lines(lines) == join(lines, seq!['\n']) + seq!['\n'],
    decreases lines.len(),
{
    if lines.len() == 1 {
        assert(lines.drop_last() =~= Seq::<Seq<char>>::empty());
        assert(text_of_lines(lines.drop_last()) =~= Seq::<char>::empty());
        assert(lines.last() == lines[0]);
        assert(Seq::<char>::empty() + lines[0] =~= lines[0]);
    } else {
        lemma_text_of_lines_join(lines.drop_last());
        lemma_join_push(lines.drop_last(), lines.last(), seq!['\n']);
        assert(lines.drop_last().push(lines.last()) =~= lines);
        assert(join(lines.drop_last(), seq!['\n']) + seq!['\n'] + lines.last() + seq!['\n'] =~= (join(
            lines.drop_last(),
            seq!['\n'],
        ) + seq!['\n'] + lines.last()) + seq!['\n']);
    }
}

/// Reading the lines of a text written line by line gives those lines back.
proof fn lemma_file_lines_text(lines: Seq<Seq<char>>)
    requires
        forall|k: int| 0 <= k < lines.len() ==> !(#[trigger] lines[k]).contains('\n'),
    ensures
        file_lines(text_of_lines(lines)) == lines,
{
    let e = Seq::<char>::empty();
    let parts = lines.push(e);
    assert forall|k: int| 0 <= k < parts.len() implies !(#[trigger] parts[k]).contains('\n') by {
        if k < lines.len() {
            assert(parts[k] == lines[k]);
        } else {
            assert(parts[k] == e);
        }
    }
    lemma_split_join_char(parts, '\n');
    if lines.len() == 0 {
        assert(parts =~= seq![e]);
        assert(join(parts, seq!['\n']) == e);
        assert(text_of_lines(lines) == e);
    } else {
        lemma_text_of_lines_join(lines);
        lemma_join_push(lines, e, seq!['\n']);
        assert(join(lines, seq!['\n']) + seq!['\n'] + e =~= join(lines, seq!['\n']) + seq!['\n']);
    }
    assert(parts.last() == e);
    assert(parts.drop_last() =~= lines);
}

proof fn lemma_join_last(parts: Seq<Seq<char>>, sep: char)
    requires
        parts.len() >= 1,
    ensures
        parts.last().len() > 0 ==> join(parts, seq![sep]).len() > 0 && join(parts, seq![sep]).last()
            == parts.last().last(),
        parts.last().len() == 0 && parts.len() >= 2 ==> join(parts, seq![sep]).len() > 0 && join(
            parts,
            seq![sep],
        ).last() == sep,
{
    if parts.len() >= 2 {
        lemma_join_push(parts.drop_last(), parts.last(), seq![sep]);
        assert(parts.drop_last().push(parts.last()) =~= parts);
        let j = join(parts.drop_last(), seq![sep]) + seq![sep] + parts.last();
        if parts.last().len() == 0 {
            assert(j =~= join(parts.drop_last(), seq![sep]) + seq![sep]);
        } else {
            assert(j.last() == parts.last().last());
        }
    } else {
        assert(parts.last() == parts[0]);
    }
}

proof fn lemma_join_free(parts: Seq<Seq<char>>, sep: char, c: char)
    requires
        c != sep,
        forall|k: int| 0 <= k < parts.len() ==> !(#[trigger] parts[k]).contains(c),
    ensures
        !join(parts, seq![sep]).contains(c),
    decreases parts.len(),
{
    if parts.len() == 0 {
    } else if parts.len() == 1 {
        assert(!parts[0].contains(c));
    } else {
        let rest = parts.drop_first();
        assert forall|k: int| 0 <= k < rest.len() implies !(#[trigger] rest[k]).contains(c) by {
            assert(rest[k] == parts[k + 1]);
        }
        lemma_join_free(rest, sep, c);
        let a = parts[0];
        let b = join(rest, seq![sep]);
        let j = a + seq![sep] + b;
        assert(!a.contains(c));
        if j.contains(c) {
            let i = choose|i: int| 0 <= i < j.len() && j[i] == c;
            if i < a.len() {
                assert(a[i] == c);
            } else if i == a.len() {
                assert(j[i] == sep);
            } else {
                assert(b[i - a.len() - 1] == c);
            }
        }
    }
}

proof fn lemma_trim_end_keeps(s: Seq<char>, i: int)
    requires
        0 <= i < s.len(),
        !is_white_space(s[i]),
    ensures
        trim_end(s).len() > i,
    decreases s.len(),
{
    if is_white_space(s.last()) {
        assert(i < s.len() - 1);
        assert(s.drop_last()[i] == s[i]);
        lemma_trim_end_keeps(s.drop_last(), i);
    }
}

proof fn lemma_trim_nonempty(s: Seq<char>)
    requires
        s.len() > 0,
        !is_white_space(s[0]),
    ensures
        trim(s).len() > 0,
{
    lemma_trim_start_skip(s, 0);
    assert(s.skip(0) =~= s);
    lemma_trim_end_keeps(s, 0);
}

proof fn lemma_trimmed_ends(s: Seq<char>)
    requires
        s.len() > 0,
    ensures
        trim(s) == s ==> !is_white_space(s[0]) && !is_white_space(s.last()),
        trim_end(s) == s ==> !is_white_space(s.last()),
{
    lemma_trim_start_shape(s);
    lemma_trim_end_shape(trim_start(s));
    lemma_trim_end_shape(s);
    if trim(s) == s {
        let a = trim_start(s);
        assert(trim_end(a)[0] == a[0]);
    }
}

proof fn lemma_no_line_end(s: Seq<char>)
    requires
        s.len() > 0,
        s.last() != '\r',
        s.last() != '\n',
    ensures
        strip_line_end(s) == s,
{
    lemma_strip_line_end_take(s, s.len() as int);
    assert(s.take(s.len() as int) =~= s);
}

/// What reading the written lines gathers after `k` of them.
pub open spec fn loaded_after(
    comments: Seq<Seq<char>>,
    columns: Seq<Seq<char>>,
    rows: Seq<Seq<char>>,
    k: int,
) -> LoadModel {
    if k <= comments.len() {
        LoadModel { columns: seq![], cards: seq![], comments: numbered(comments.take(k)) }
    } else {
        LoadModel {
            columns,
            cards: rows.take(k - comments.len() - 1).map_values(|r: Seq<char>| card_of_line(r)),
            comments: numbered(comments),
        }
    }
}

/// A line that is read as the header or as a card.
pub open spec fn is_content_line(t: Seq<char>) -> bool {
    &&& trim(t).len() > 0
    &&& t[0] != '#'
    &&& strip_line_end(t) == t
}

proof fn lemma_load_prefix(
    comments: Seq<Seq<char>>,
    header: Seq<char>,
    rows: Seq<Seq<char>>,
    columns: Seq<Seq<char>>,
    k: int,
)
    requires
        0 <= k <= comments.len() + 1 + rows.len(),
        forall|i: int| 0 <= i < comments.len() ==> is_comment_text(#[trigger] comments[i]),
        is_content_line(header),
        split(header, seq!['\t']).map_values(|p: Seq<char>| trim(p)) == columns,
        columns.len() > 0,
        forall|j: int| 0 <= j < rows.len() ==> is_content_line(#[trigger] rows[j]),
    ensures
        load_lines((comments + seq![header] + rows).take(k)) == loaded_after(comments, columns, rows, k),
    decreases k,
{
    let lines = comments + seq![header] + rows;
    if k == 0 {
        assert(lines.take(0) =~= Seq::<Seq<char>>::empty());
        assert(numbered(comments.take(0)) =~= Seq::<(usize, Seq<char>)>::empty());
    } else {
        lemma_load_prefix(comments, header, rows, columns, k - 1);
        let p = lines.take(k);
        assert(p.drop_last() =~= lines.take(k - 1));
        assert(p.last() == lines[k - 1]);
        assert(p.len() == k);
        if k - 1 < comments.len() {
            assert(lines[k - 1] == comments[k - 1]);
            let t = comments[k - 1];
            assert(is_comment_text(t));
            assert(trim(t).len() > 0) by {
                assert(!is_white_space(t[0]));
                lemma_trim_nonempty(t);
            }
            assert(numbered(comments.take(k)) =~= numbered(comments.take(k - 1)).push((k as usize, t)));
        } else if k - 1 == comments.len() {
            assert(lines[k - 1] == header);
            assert(comments.take(k - 1) =~= comments);
            assert(rows.take(0).map_values(|r: Seq<char>| card_of_line(r)) =~= Seq::<CardModel>::empty());
        } else {
            let j = k - 1 - comments.len() - 1;
            assert(lines[k - 1] == rows[j]);
            assert(is_content_line(rows[j]));
            if k - 1 == comments.len() + 1 {
                assert(comments.take(k - 1 - 1) =~= comments) by {
                    assert(k - 1 - 1 == comments.len());
                }
            }
            assert(rows.take(j + 1).map_values(|r: Seq<char>| card_of_line(r)) =~= rows.take(j).map_values(
                |r: Seq<char>| card_of_line(r),
            ).push(card_of_line(rows[j])));
        }
    }
}

proof fn lemma_card_line_content(c: CardModel, w: nat)
    requires
        w >= 1,
        is_writable_card(c, w),
    ensures
        is_content_line(card_line(c, w)),
        !card_line(c, w).contains('\n'),
{
    let f = fit_columns(c.fields, w);
    assert forall|k: int| 0 <= k < f.len() implies is_field_text(#[trigger] f[k]) by {
        if k < c.fields.len() {
            assert(f[k] == c.fields[k]);
        } else {
            assert(f[k] =~= Seq::<char>::empty());
        }
    }
    lemma_joined_line_end(f);
    assert forall|k: int| 0 <= k < f.len() implies !(#[trigger] f[k]).contains('\n') by {
        assert(is_field_text(f[k]));
    }
    lemma_join_free(f, '\t', '\n');
}

/// A data set written out line by line and read back has the same columns,
/// the same cards, their fields padded or cut to the number of columns (not
/// due, in the first deck: the text does not hold these), and the same
/// comments, numbered from the top; so long as its header, comments and
/// cards are written as lines that read back as themselves.
pub proof fn law_write_then_read(d: DataModel, filename: Seq<char>)
    requires
        is_writable(d),
    ensures
        ({
            let e = data_from_text(filename, text_of_lines(data_lines(d)));
            &&& e.session.columns == d.session.columns
            &&& e.cards == d.cards.map_values(
                |c: CardModel|
                    CardModel { fields: fit_columns(c.fields, row_width(d.session.columns)), due: None, deck: 0 },
            )
            &&& e.comments == numbered(comment_texts(d))
        }),
{
    let cols = d.session.columns;
    let w = row_width(cols);
    let comments = comment_texts(d);
    let header = join(cols, seq!['\t']);
    let rows = d.cards.map_values(|c: CardModel| card_line(c, w));
    let lines = data_lines(d);
    assert(lines =~= comments + seq![header] + rows);
    // the header line
    assert forall|k: int| 0 <= k < cols.len() implies !(#[trigger] cols[k]).contains('\t') && !cols[k].contains('\n') by {
        assert(is_column_name(cols[k]));
    }
    law_header_roundtrip(cols);
    assert forall|k: int| 0 <= k < cols.len() implies trim_end(#[trigger] cols[k]) == cols[k] by {
        assert(is_column_name(cols[k]));
        if cols[k].len() > 0 {
            lemma_trimmed_ends(cols[k]);
            lemma_trim_end_take(cols[k], cols[k].len() as int);
            assert(cols[k].take(cols[k].len() as int) =~= cols[k]);
        }
    }
    lemma_joined_line_end(cols);
    lemma_join_free(cols, '\t', '\n');
    // the card lines
    assert forall|j: int| 0 <= j < rows.len() implies is_content_line(#[trigger] rows[j]) && !rows[j].contains('\n') by {
        assert(is_writable_card(d.cards[j], w));
        lemma_card_line_content(d.cards[j], w);
    }
    assert forall|i: int| 0 <= i < comments.len() implies is_comment_text(#[trigger] comments[i]) by {
        assert(comments[i] == d.comments[i].1);
    }
    // reading the text
    assert forall|k: int| 0 <= k < lines.len() implies !(#[trigger] lines[k]).contains('\n') by {
        if k < comments.len() {
            assert(lines[k] == comments[k]);
        } else if k == comments.len() {
            assert(lines[k] == header);
        } else {
            assert(lines[k] == rows[k - comments.len() - 1]);
        }
    }
    lemma_file_lines_text(lines);
    lemma_load_prefix(comments, header, rows, cols, lines.len() as int);
    assert(lines.take(lines.len() as int) =~= lines);
    assert(rows.take(rows.len() as int) =~= rows);
    assert(comments.take(comments.len() as int) =~= comments);
    let e = data_from_text(filename, text_of_lines(lines));
    assert forall|j: int| 0 <= j < d.cards.len() implies #[trigger] e.cards[j] == (CardModel {
        fields: fit_columns(d.cards[j].fields, w),
        due: None,
        deck: 0,
    }) by {
        let c = d.cards[j];
        assert(is_writable_card(c, w));
        assert forall|k: int| 0 <= k < c.fields.len() implies !(#[trigger] c.fields[k]).contains('\t') by {
            assert(is_field_text(c.fields[k]));
        }
        assert forall|k: int| 0 <= k < c.fields.len() implies trim_end(#[trigger] c.fields[k]) == c.fields[k] by {
            assert(is_field_text(c.fields[k]));
        }
        law_card_line_roundtrip(c, w);
        assert(e.cards[j] == card_of_line(rows[j]));
    }
    assert(e.cards =~= d.cards.map_values(
        |c: CardModel| CardModel { fields: fit_columns(c.fields, w), due: None, deck: 0 },
    ));
}

} // verus!
