//! Character-level text handling: whitespace, trimming, splitting, joining,
//! decimal rendering and unsigned-integer parsing, each with the model it
//! follows.
use vstd::prelude::*;

verus! {

// ---------------------------------------------------------------------------
// Models
// ---------------------------------------------------------------------------

/// Unicode `White_Space`, the property that `char::is_whitespace` tests.
pub open spec fn is_white_space(c: char) -> bool {
    let n = c as u32;
    ||| 0x9 <= n <= 0xd
    ||| n == 0x20
    ||| n == 0x85
    ||| n == 0xa0
    ||| n == 0x1680
    ||| 0x2000 <= n <= 0x200a
    ||| n == 0x2028
    ||| n == 0x2029
    ||| n == 0x202f
    ||| n == 0x205f
    ||| n == 0x3000
}

/// `s` with leading whitespace removed.
pub open spec fn trim_start(s: Seq<char>) -> Seq<char>
    decreases s.len(),
{
    if s.len() > 0 && is_white_space(s[0]) {
        trim_start(s.drop_first())
    } else {
        s
    }
}

/// `s` with trailing whitespace removed.
pub open spec fn trim_end(s: Seq<char>) -> Seq<char>
    decreases s.len(),
{
    if s.len() > 0 && is_white_space(s.last()) {
        trim_end(s.drop_last())
    } else {
        s
    }
}

/// `s` with leading and trailing whitespace removed.
pub open spec fn trim(s: Seq<char>) -> Seq<char> {
    trim_end(trim_start(s))
}

/// `s` with every trailing carriage return and line feed removed.
pub open spec fn strip_line_end(s: Seq<char>) -> Seq<char>
    decreases s.len(),
{
    if s.len() > 0 && (s.last() == '\r' || s.last() == '\n') {
        strip_line_end(s.drop_last())
    } else {
        s
    }
}

/// Splitting `s` at the leftmost, non-overlapping occurrences of `d`,
/// where `cur` is the part of the current piece already read.
pub open spec fn split_from(s: Seq<char>, d: Seq<char>, cur: Seq<char>) -> Seq<Seq<char>>
    decreases s.len(),
{
    if d.len() == 0 || s.len() < d.len() {
        seq![cur + s]
    } else if s.take(d.len() as int) == d {
        seq![cur] + split_from(s.skip(d.len() as int), d, seq![])
    } else {
        split_from(s.drop_first(), d, cur.push(s[0]))
    }
}

/// The pieces of `s` between the occurrences of the delimiter `d`
/// (as `str::split` yields them).
pub open spec fn split(s: Seq<char>, d: Seq<char>) -> Seq<Seq<char>> {
    split_from(s, d, seq![])
}

/// The pieces of `parts` written one after another, `sep` between two of them.
pub open spec fn join(parts: Seq<Seq<char>>, sep: Seq<char>) -> Seq<char>
    decreases parts.len(),
{
    if parts.len() == 0 {
        seq![]
    } else if parts.len() == 1 {
        parts[0]
    } else {
        parts[0] + sep + join(parts.drop_first(), sep)
    }
}

/// The texts that `ranges` bound in `s`.
pub open spec fn range_views(s: Seq<char>, ranges: Seq<(usize, usize)>) -> Seq<Seq<char>> {
    ranges.map_values(|p: (usize, usize)| s.subrange(p.0 as int, p.1 as int))
}

pub open spec fn digit_char(d: nat) -> char {
    if d == 0 { '0' }
    else if d == 1 { '1' }
    else if d == 2 { '2' }
    else if d == 3 { '3' }
    else if d == 4 { '4' }
    else if d == 5 { '5' }
    else if d == 6 { '6' }
    else if d == 7 { '7' }
    else if d == 8 { '8' }
    else { '9' }
}

/// The decimal digits of `n`, most significant first, without leading zeros.
pub open spec fn decimal(n: nat) -> Seq<char>
    decreases n,
{
    if n < 10 {
        seq![digit_char(n)]
    } else {
        decimal(n / 10).push(digit_char(n % 10))
    }
}

pub open spec fn is_digit(c: char) -> bool {
    48 <= c as u32 <= 57
}

pub open spec fn digit_value(c: char) -> nat {
    (c as u32 - 48) as nat
}

/// Why a text is not an unsigned integer (the kinds of `ParseIntError`).
#[derive(Clone, Copy, Debug, PartialEq, Eq, Structural)]
pub enum IntErrorKind {
    Empty,
    InvalidDigit,
    PosOverflow,
}

/// Reading the digits `s` after the value `acc` read so far, with `max` the
/// largest value allowed.
pub open spec fn parse_digits(s: Seq<char>, acc: nat, max: nat) -> Result<nat, IntErrorKind>
    decreases s.len(),
{
    if s.len() == 0 {
        Ok(acc)
    } else if !is_digit(s[0]) {
        Err(IntErrorKind::InvalidDigit)
    } else if acc * 10 + digit_value(s[0]) > max {
        Err(IntErrorKind::PosOverflow)
    } else {
        parse_digits(s.drop_first(), acc * 10 + digit_value(s[0]), max)
    }
}

/// An unsigned integer no larger than `max` written in decimal, with an
/// optional leading `+` (as `str::parse` reads it for unsigned types).
pub open spec fn parse_uint(s: Seq<char>, max: nat) -> Result<nat, IntErrorKind> {
    if s.len() == 0 {
        Err(IntErrorKind::Empty)
    } else if s.len() == 1 && (s[0] == '+' || s[0] == '-') {
        Err(IntErrorKind::InvalidDigit)
    } else if s[0] == '+' {
        parse_digits(s.drop_first(), 0, max)
    } else {
        parse_digits(s, 0, max)
    }
}

// ---------------------------------------------------------------------------
// Lemmas
// ---------------------------------------------------------------------------

pub proof fn lemma_trim_start_skip(s: Seq<char>, k: int)
    requires
        0 <= k <= s.len(),
        forall|i: int| 0 <= i < k ==> is_white_space(#[trigger] s[i]),
        k == s.len() || !is_white_space(s[k]),
    ensures
        trim_start(s) == s.skip(k),
    decreases k,
{
    if k == 0 {
        assert(s.skip(0) =~= s);
    } else {
        assert(is_white_space(s[0]));
        let t = s.drop_first();
        assert forall|i: int| 0 <= i < k - 1 implies is_white_space(#[trigger] t[i]) by {
            assert(t[i] == s[i + 1]);
        }
        lemma_trim_start_skip(t, k - 1);
        assert(t.skip(k - 1) =~= s.skip(k));
    }
}

pub proof fn lemma_trim_end_take(s: Seq<char>, k: int)
    requires
        0 <= k <= s.len(),
        forall|i: int| k <= i < s.len() ==> is_white_space(#[trigger] s[i]),
        k == 0 || !is_white_space(s[k - 1]),
    ensures
        trim_end(s) == s.take(k),
    decreases s.len() - k,
{
    if k == s.len() {
        assert(s.take(k) =~= s);
    } else {
        assert(is_white_space(s.last()));
        let t = s.drop_last();
        assert forall|i: int| k <= i < t.len() implies is_white_space(#[trigger] t[i]) by {
            assert(t[i] == s[i]);
        }
        lemma_trim_end_take(t, k);
        assert(t.take(k) =~= s.take(k));
    }
}

pub proof fn lemma_strip_line_end_take(s: Seq<char>, k: int)
    requires
        0 <= k <= s.len(),
        forall|i: int| k <= i < s.len() ==> (#[trigger] s[i] == '\r' || s[i] == '\n'),
        k == 0 || !(s[k - 1] == '\r' || s[k - 1] == '\n'),
    ensures
        strip_line_end(s) == s.take(k),
    decreases s.len() - k,
{
    if k == s.len() {
        assert(s.take(k) =~= s);
    } else {
        let t = s.drop_last();
        assert(s.last() == s[s.len() - 1]);
        assert forall|i: int| k <= i < t.len() implies (#[trigger] t[i] == '\r' || t[i] == '\n') by {
            assert(t[i] == s[i]);
        }
        lemma_strip_line_end_take(t, k);
        assert(t.take(k) =~= s.take(k));
    }
}

/// A piece free of the delimiter character, the delimiter, then the rest.
pub proof fn lemma_split_from_piece(p: Seq<char>, c: char, rest: Seq<char>, cur: Seq<char>)
    requires
        !p.contains(c),
    ensures
        split_from(p + seq![c] + rest, seq![c], cur) == seq![cur + p] + split(rest, seq![c]),
    decreases p.len(),
{
    let d = seq![c];
    let s = p + d + rest;
    if p.len() == 0 {
        assert(s =~= d + rest);
        assert(s.take(1) =~= d);
        assert(s.skip(1) =~= rest);
        assert(cur + p =~= cur);
    } else {
        assert(s[0] == p[0]);
        assert(p[0] != c);
        assert(s.take(1) != d) by {
            assert(s.take(1)[0] == s[0]);
        }
        let p2 = p.drop_first();
        assert(s.drop_first() =~= p2 + d + rest);
        assert(!p2.contains(c)) by {
            if p2.contains(c) {
                let j = choose|j: int| 0 <= j < p2.len() && p2[j] == c;
                assert(p[j + 1] == c);
            }
        }
        lemma_split_from_piece(p2, c, rest, cur.push(p[0]));
        assert(cur.push(p[0]) + p2 =~= cur + p);
    }
}

/// Text free of the delimiter character is one piece.
pub proof fn lemma_split_from_whole(p: Seq<char>, c: char, cur: Seq<char>)
    requires
        !p.contains(c),
    ensures
        split_from(p, seq![c], cur) == seq![cur + p],
    decreases p.len(),
{
    let d = seq![c];
    if p.len() < 1 {
        assert(cur + p =~= cur);
    } else {
        assert(p.take(1) != d) by {
            assert(p.take(1)[0] == p[0]);
        }
        let p2 = p.drop_first();
        assert(!p2.contains(c)) by {
            if p2.contains(c) {
                let j = choose|j: int| 0 <= j < p2.len() && p2[j] == c;
                assert(p[j + 1] == c);
            }
        }
        lemma_split_from_whole(p2, c, cur.push(p[0]));
        assert(cur.push(p[0]) + p2 =~= cur + p);
    }
}

/// Splitting a joined text at a character that none of the parts holds
/// gives the parts back.
pub proof fn lemma_split_join_char(parts: Seq<Seq<char>>, c: char)
    requires
        parts.len() > 0,
        forall|k: int| 0 <= k < parts.len() ==> !(#[trigger] parts[k]).contains(c),
    ensures
        split(join(parts, seq![c]), seq![c]) == parts,
    decreases parts.len(),
{
    let d = seq![c];
    if parts.len() == 1 {
        lemma_split_from_whole(parts[0], c, seq![]);
        assert(seq![Seq::<char>::empty() + parts[0]] =~= parts);
    } else {
        let rest = parts.drop_first();
        assert forall|k: int| 0 <= k < rest.len() implies !(#[trigger] rest[k]).contains(c) by {
            assert(rest[k] == parts[k + 1]);
        }
        lemma_split_join_char(rest, c);
        assert(!parts[0].contains(c));
        lemma_split_from_piece(parts[0], c, join(rest, d), seq![]);
        assert(seq![Seq::<char>::empty() + parts[0]] + rest =~= parts);
    }
}

// ---------------------------------------------------------------------------
// Executable functions
// ---------------------------------------------------------------------------

/// Appends one character to a string (`String::push`).
#[verifier::external_body]
pub(crate) fn push_char(s: &mut String, c: char)
    ensures
        final(s)@ == old(s)@.push(c),
{
    s.push(c);
}

/// The characters of `s`, in order.
pub fn chars_of(s: &str) -> (v: Vec<char>)
    ensures
        v@ == s@,
{
    let mut v: Vec<char> = Vec::new();
    for c in it: s.chars()
        invariant
            v@ == it.seq().take(it.index() as int),
    {
        v.push(c);
    }
    v
}

/// The string made of `s[from..to]`.
pub fn string_of(s: &Vec<char>, from: usize, to: usize) -> (r: String)
    requires
        from <= to <= s.len(),
    ensures
        r@ == s@.subrange(from as int, to as int),
{
    let mut r = String::new();
    let mut i = from;
    while i < to
        invariant
            from <= i <= to <= s.len(),
            r@ == s@.subrange(from as int, i as int),
        decreases to - i,
    {
        push_char(&mut r, s[i]);
        assert(s@.subrange(from as int, i + 1) =~= s@.subrange(from as int, i as int).push(s@[i as int]));
        i += 1;
    }
    r
}

/// Whether `c` is whitespace, as `char::is_whitespace` decides.
pub fn is_white_space_char(c: char) -> (b: bool)
    ensures
        b == is_white_space(c),
{
    let n = c as u32;
    (0x9 <= n && n <= 0xd) || n == 0x20 || n == 0x85 || n == 0xa0 || n == 0x1680 || (0x2000 <= n
        && n <= 0x200a) || n == 0x2028 || n == 0x2029 || n == 0x202f || n == 0x205f || n == 0x3000
}

/// The bounds of `s[from..to]` with its surrounding whitespace left out.
pub fn trim_range(s: &Vec<char>, from: usize, to: usize) -> (r: (usize, usize))
    requires
        from <= to <= s.len(),
    ensures
        from <= r.0 <= r.1 <= to,
        s@.subrange(r.0 as int, r.1 as int) == trim(s@.subrange(from as int, to as int)),
{
    let ghost t = s@.subrange(from as int, to as int);
    let mut a = from;
    while a < to && is_white_space_char(s[a])
        invariant
            from <= a <= to <= s.len(),
            t == s@.subrange(from as int, to as int),
            forall|i: int| from <= i < a ==> is_white_space(#[trigger] s@[i]),
        decreases to - a,
    {
        a += 1;
    }
    proof {
        assert forall|i: int| 0 <= i < a - from implies is_white_space(#[trigger] t[i]) by {
            assert(t[i] == s@[from + i]);
        }
        if a < to {
            assert(t[a - from] == s@[a as int]);
        }
        lemma_trim_start_skip(t, a - from);
        assert(t.skip(a - from) =~= s@.subrange(a as int, to as int));
    }
    let ghost u = s@.subrange(a as int, to as int);
    let mut b = to;
    while b > a && is_white_space_char(s[b - 1])
        invariant
            from <= a <= b <= to <= s.len(),
            u == s@.subrange(a as int, to as int),
            forall|i: int| b <= i < to ==> is_white_space(#[trigger] s@[i]),
        decreases b - a,
    {
        b -= 1;
    }
    proof {
        assert forall|i: int| b - a <= i < u.len() implies is_white_space(#[trigger] u[i]) by {
            assert(u[i] == s@[a + i]);
        }
        if b > a {
            assert(u[b - a - 1] == s@[b - 1]);
        }
        lemma_trim_end_take(u, b - a);
        assert(u.take(b - a) =~= s@.subrange(a as int, b as int));
    }
    (a, b)
}

/// The bounds of `s[from..to]` with trailing whitespace left out.
pub fn trim_end_range(s: &Vec<char>, from: usize, to: usize) -> (r: usize)
    requires
        from <= to <= s.len(),
    ensures
        from <= r <= to,
        s@.subrange(from as int, r as int) == trim_end(s@.subrange(from as int, to as int)),
{
    let ghost u = s@.subrange(from as int, to as int);
    let mut b = to;
    while b > from && is_white_space_char(s[b - 1])
        invariant
            from <= b <= to <= s.len(),
            u == s@.subrange(from as int, to as int),
            forall|i: int| b <= i < to ==> is_white_space(#[trigger] s@[i]),
        decreases b - from,
    {
        b -= 1;
    }
    proof {
        assert forall|i: int| b - from <= i < u.len() implies is_white_space(#[trigger] u[i]) by {
            assert(u[i] == s@[from + i]);
        }
        if b > from {
            assert(u[b - from - 1] == s@[b - 1]);
        }
        lemma_trim_end_take(u, b - from);
        assert(u.take(b - from) =~= s@.subrange(from as int, b as int));
    }
    b
}

/// Whether `d` occurs in `s` at position `i`.
fn matches_at(s: &Vec<char>, i: usize, d: &Vec<char>) -> (b: bool)
    requires
        i + d.len() <= s.len(),
    ensures
        b == (s@.subrange(i as int, i + d.len()) == d@),
{
    let mut j: usize = 0;
    while j < d.len()
        invariant
            j <= d.len(),
            i + d.len() <= s.len(),
            forall|k: int| 0 <= k < j ==> s@[i + k] == d@[k],
        decreases d.len() - j,
    {
        if s[i + j] != d[j] {
            assert(s@.subrange(i as int, i + d.len())[j as int] != d@[j as int]);
            return false;
        }
        j += 1;
    }
    assert(s@.subrange(i as int, i + d.len()) =~= d@);
    true
}

/// The bounds, in `s`, of the pieces between the occurrences of `d`.
pub fn split_ranges(s: &Vec<char>, d: &Vec<char>) -> (r: Vec<(usize, usize)>)
    requires
        d.len() > 0,
    ensures
        forall|k: int| 0 <= k < r.len() ==> (#[trigger] r[k]).0 <= r[k].1 <= s.len(),
        range_views(s@, r@) == split(s@, d@),
{
    let mut r: Vec<(usize, usize)> = Vec::new();
    let mut start: usize = 0;
    let mut i: usize = 0;
    let n = s.len();
    let m = d.len();
    proof {
        assert(s@.skip(0) =~= s@);
        assert(s@.subrange(0, 0) =~= Seq::<char>::empty());
        assert(range_views(s@, r@) =~= Seq::<Seq<char>>::empty());
        assert(range_views(s@, r@) + split(s@, d@) =~= split(s@, d@));
    }
    while i < n && m <= n - i
        invariant
            n == s.len(),
            m == d.len(),
            m > 0,
            start <= i <= n,
            forall|k: int| 0 <= k < r.len() ==> (#[trigger] r[k]).0 <= r[k].1 <= n,
            split(s@, d@) == range_views(s@, r@) + split_from(
                s@.skip(i as int),
                d@,
                s@.subrange(start as int, i as int),
            ),
        decreases n - i,
    {
        let ghost rest = s@.skip(i as int);
        let ghost cur = s@.subrange(start as int, i as int);
        let ghost old_r = r@;
        if matches_at(s, i, d) {
            proof {
                assert(rest.take(m as int) =~= s@.subrange(i as int, i + m));
                assert(rest.skip(m as int) =~= s@.skip(i + m));
            }
            r.push((start, i));
            proof {
                assert(range_views(s@, r@) =~= range_views(s@, old_r) + seq![cur]);
                assert(s@.subrange((i + m) as int, (i + m) as int) =~= Seq::<char>::empty());
                assert(range_views(s@, old_r) + (seq![cur] + split_from(s@.skip(i + m), d@, seq![]))
                    =~= range_views(s@, r@) + split_from(s@.skip(i + m), d@, seq![]));
            }
            i = i + m;
            start = i;
        } else {
            proof {
                assert(rest.take(m as int) =~= s@.subrange(i as int, i + m));
                assert(rest.drop_first() =~= s@.skip(i + 1));
                assert(cur.push(rest[0]) =~= s@.subrange(start as int, i + 1));
            }
            i = i + 1;
        }
    }
    proof {
        assert(s@.subrange(start as int, i as int) + s@.skip(i as int) =~= s@.subrange(
            start as int,
            n as int,
        ));
    }
    let ghost old_r = r@;
    r.push((start, n));
    proof {
        assert(range_views(s@, r@) =~= range_views(s@, old_r) + seq![s@.subrange(start as int, n as int)]);
    }
    r
}

/// A copy of `s[from..to]`.
pub fn slice_chars(s: &Vec<char>, from: usize, to: usize) -> (v: Vec<char>)
    requires
        from <= to <= s.len(),
    ensures
        v@ == s@.subrange(from as int, to as int),
{
    let mut v: Vec<char> = Vec::new();
    let mut i = from;
    while i < to
        invariant
            from <= i <= to <= s.len(),
            v@ == s@.subrange(from as int, i as int),
        decreases to - i,
    {
        v.push(s[i]);
        assert(s@.subrange(from as int, i + 1) =~= s@.subrange(from as int, i as int).push(s@[i as int]));
        i += 1;
    }
    v
}

/// Whether two texts are equal.
pub fn same_text(a: &str, b: &str) -> (r: bool)
    ensures
        r == (a@ == b@),
{
    let x = String::from_str(a);
    let y = String::from_str(b);
    x == y
}

/// The decimal rendering of `n`.
pub fn decimal_string(n: u64) -> (r: String)
    ensures
        r@ == decimal(n as nat),
    decreases n,
{
    let mut r = if n < 10 {
        String::new()
    } else {
        decimal_string(n / 10)
    };
    let d = n % 10;
    let c = if d == 0 { '0' }
        else if d == 1 { '1' }
        else if d == 2 { '2' }
        else if d == 3 { '3' }
        else if d == 4 { '4' }
        else if d == 5 { '5' }
        else if d == 6 { '6' }
        else if d == 7 { '7' }
        else if d == 8 { '8' }
        else { '9' };
    push_char(&mut r, c);
    proof {
        if n < 10 {
            assert(Seq::<char>::empty().push(c) =~= seq![digit_char(n as nat)]);
        }
    }
    r
}

/// Reading `s[from..to]` as an unsigned integer no larger than `max`.
pub fn parse_uint_range(s: &Vec<char>, from: usize, to: usize, max: u64) -> (r: Result<u64, IntErrorKind>)
    requires
        from <= to <= s.len(),
        max <= u32::MAX,
    ensures
        match r {
            Ok(v) => parse_uint(s@.subrange(from as int, to as int), max as nat) == Ok::<nat, IntErrorKind>(v as nat),
            Err(k) => parse_uint(s@.subrange(from as int, to as int), max as nat) == Err::<nat, IntErrorKind>(k),
        },
{
    let ghost t = s@.subrange(from as int, to as int);
    if from == to {
        return Err(IntErrorKind::Empty);
    }
    if to - from == 1 && (s[from] == '+' || s[from] == '-') {
        return Err(IntErrorKind::InvalidDigit);
    }
    let mut i = from;
    assert(t[0] == s@[from as int]);
    if s[from] == '+' {
        i = from + 1;
        assert(t.drop_first() =~= s@.subrange(i as int, to as int));
    } else {
        assert(t =~= s@.subrange(i as int, to as int));
    }
    let ghost goal = parse_uint(t, max as nat);
    let mut acc: u64 = 0;
    while i < to
        invariant
            from <= i <= to <= s.len(),
            acc <= max <= u32::MAX,
            goal == parse_uint(s@.subrange(from as int, to as int), max as nat),
            goal == parse_digits(s@.subrange(i as int, to as int), acc as nat, max as nat),
        decreases to - i,
    {
        let c = s[i];
        let ghost rest = s@.subrange(i as int, to as int);
        assert(rest[0] == c);
        assert(rest.drop_first() =~= s@.subrange(i + 1, to as int));
        let n = c as u32;
        if n < 48 || n > 57 {
            return Err(IntErrorKind::InvalidDigit);
        }
        let v = acc * 10 + (n - 48) as u64;
        if v > max {
            return Err(IntErrorKind::PosOverflow);
        }
        acc = v;
        i += 1;
    }
    Ok(acc)
}

/// The pieces of `parts` as texts.
pub open spec fn views(parts: Seq<String>) -> Seq<Seq<char>> {
    parts.map_values(|p: String| p@)
}

pub proof fn lemma_join_push(q: Seq<Seq<char>>, x: Seq<char>, sep: Seq<char>)
    requires
        q.len() >= 1,
    ensures
        join(q.push(x), sep) == join(q, sep) + sep + x,
    decreases q.len(),
{
    if q.len() == 1 {
        assert(q.push(x).drop_first() =~= seq![x]);
        assert(join(seq![x], sep) == x);
        assert(q.push(x)[0] == q[0]);
        assert(join(q, sep) == q[0]);
    } else {
        assert(q.push(x).drop_first() =~= q.drop_first().push(x));
        assert(q.push(x)[0] == q[0]);
        lemma_join_push(q.drop_first(), x, sep);
        assert(q[0] + sep + (join(q.drop_first(), sep) + sep + x) =~= (q[0] + sep + join(
            q.drop_first(),
            sep,
        )) + sep + x);
    }
}

/// The pieces of `parts` written one after another, `sep` between two of them.
pub fn join_strings(parts: &Vec<String>, sep: &str) -> (r: String)
    ensures
        r@ == join(views(parts@), sep@),
{
    let mut r = String::new();
    let n = parts.len();
    let mut i: usize = 0;
    while i < n
        invariant
            n == parts.len(),
            i <= n,
            r@ == join(views(parts@).take(i as int), sep@),
        decreases n - i,
    {
        let ghost p = views(parts@);
        proof {
            assert(p.take(i + 1) =~= p.take(i as int).push(p[i as int]));
            if i >= 1 {
                lemma_join_push(p.take(i as int), p[i as int], sep@);
            } else {
                assert(p.take(1) =~= seq![p[0]]);
            }
        }
        if i > 0 {
            r.append(sep);
        }
        r.append(parts[i].as_str());
        proof {
            if i == 0 {
                assert(r@ =~= p[0]);
            }
        }
        i += 1;
    }
    assert(views(parts@).take(n as int) =~= views(parts@));
    r
}

/// The pieces of `p`, trimmed, the empty ones left out.
pub open spec fn nonempty_trimmed(p: Seq<Seq<char>>) -> Seq<Seq<char>>
    decreases p.len(),
{
    if p.len() == 0 {
        seq![]
    } else {
        let r = nonempty_trimmed(p.drop_last());
        let t = trim(p.last());
        if t.len() > 0 {
            r.push(t)
        } else {
            r
        }
    }
}

/// The items of a comma-separated list: its pieces, trimmed, the empty ones
/// left out.
pub open spec fn csv_items(s: Seq<char>) -> Seq<Seq<char>> {
    nonempty_trimmed(split(s, seq![',']))
}

/// The bounds, in `s`, of the items of the comma-separated list `s`.
pub fn csv_item_ranges(s: &Vec<char>) -> (r: Vec<(usize, usize)>)
    ensures
        forall|k: int| 0 <= k < r.len() ==> (#[trigger] r[k]).0 <= r[k].1 <= s.len(),
        range_views(s@, r@) == csv_items(s@),
{
    let comma = vec![','];
    assert(comma@ =~= seq![',']);
    let pieces = split_ranges(s, &comma);
    let ghost pv = range_views(s@, pieces@);
    let mut r: Vec<(usize, usize)> = Vec::new();
    let n = pieces.len();
    let mut k: usize = 0;
    assert(pv.take(0) =~= Seq::<Seq<char>>::empty());
    assert(range_views(s@, r@) =~= Seq::<Seq<char>>::empty());
    while k < n
        invariant
            n == pieces.len(),
            k <= n,
            pv == range_views(s@, pieces@),
            forall|j: int| 0 <= j < pieces.len() ==> (#[trigger] pieces[j]).0 <= pieces[j].1 <= s.len(),
            forall|j: int| 0 <= j < r.len() ==> (#[trigger] r[j]).0 <= r[j].1 <= s.len(),
            range_views(s@, r@) == nonempty_trimmed(pv.take(k as int)),
        decreases n - k,
    {
        let (a0, b0) = pieces[k];
        assert(pieces[k as int] == (a0, b0));
        let (a, b) = trim_range(s, a0, b0);
        let ghost old_r = r@;
        proof {
            assert(pv.take(k + 1).drop_last() =~= pv.take(k as int));
            assert(pv.take(k + 1).last() == pv[k as int]);
            assert(pv[k as int] == s@.subrange(a0 as int, b0 as int));
        }
        if a < b {
            r.push((a, b));
            assert(range_views(s@, r@) =~= range_views(s@, old_r).push(s@.subrange(a as int, b as int)));
        }
        k += 1;
    }
    assert(pv.take(n as int) =~= pv);
    r
}

/// The end of `s[from..to]` with trailing carriage returns and line feeds
/// left out.
pub fn strip_line_end_range(s: &Vec<char>, from: usize, to: usize) -> (r: usize)
    requires
        from <= to <= s.len(),
    ensures
        from <= r <= to,
        s@.subrange(from as int, r as int) == strip_line_end(s@.subrange(from as int, to as int)),
{
    let ghost u = s@.subrange(from as int, to as int);
    let mut b = to;
    while b > from && (s[b - 1] == '\r' || s[b - 1] == '\n')
        invariant
            from <= b <= to <= s.len(),
            u == s@.subrange(from as int, to as int),
            forall|i: int| b <= i < to ==> (#[trigger] s@[i] == '\r' || s@[i] == '\n'),
        decreases b - from,
    {
        b -= 1;
    }
    proof {
        assert forall|i: int| b - from <= i < u.len() implies (#[trigger] u[i] == '\r' || u[i] == '\n') by {
            assert(u[i] == s@[from + i]);
        }
        if b > from {
            assert(u[b - from - 1] == s@[b - 1]);
        }
        lemma_strip_line_end_take(u, b - from);
        assert(u.take(b - from) =~= s@.subrange(from as int, b as int));
    }
    b
}

/// The pieces of `s[from..to]` between the occurrences of `sep`, each
/// trimmed.
pub fn split_trimmed_strings(s: &Vec<char>, from: usize, to: usize, sep: char) -> (v: Vec<String>)
    requires
        from <= to <= s.len(),
    ensures
        views(v@) == split(s@.subrange(from as int, to as int), seq![sep]).map_values(
            |p: Seq<char>| trim(p),
        ),
{
    let line = slice_chars(s, from, to);
    let d = vec![sep];
    assert(d@ =~= seq![sep]);
    let pieces = split_ranges(&line, &d);
    let ghost pv = range_views(line@, pieces@);
    let mut v: Vec<String> = Vec::new();
    let n = pieces.len();
    let mut k: usize = 0;
    while k < n
        invariant
            n == pieces.len(),
            k <= n,
            pv == range_views(line@, pieces@),
            forall|j: int| 0 <= j < pieces.len() ==> (#[trigger] pieces[j]).0 <= pieces[j].1 <= line.len(),
            views(v@) == pv.take(k as int).map_values(|p: Seq<char>| trim(p)),
        decreases n - k,
    {
        let (a0, b0) = pieces[k];
        assert(pieces[k as int] == (a0, b0));
        let (a, b) = trim_range(&line, a0, b0);
        let t = string_of(&line, a, b);
        let ghost old_v = v@;
        v.push(t);
        proof {
            assert(pv[k as int] == line@.subrange(a0 as int, b0 as int));
            assert(views(v@) =~= views(old_v).push(t@));
            assert(pv.take(k + 1).map_values(|p: Seq<char>| trim(p)) =~= pv.take(k as int).map_values(
                |p: Seq<char>| trim(p),
            ).push(trim(pv[k as int])));
        }
        k += 1;
    }
    assert(pv.take(n as int) =~= pv);
    v
}

} // verus!
