//! Session-wide configuration: columns, decks and their intervals, which
//! columns each side of a card shows, and how it is read from flags.
use vstd::prelude::*;

use crate::text::{
    csv_item_ranges, csv_items, decimal, decimal_string, join, parse_uint, parse_uint_range,
    range_views, same_text, slice_chars, split, split_ranges, string_of, views, chars_of,
    IntErrorKind,
};

verus! {

/// Session-wide configuration and state.
#[derive(Clone, Debug)]
pub struct VocaSession {
    pub columns: Vec<String>,
    pub decks: Vec<String>,
    /// interval in minutes per deck index
    pub intervals: Vec<u32>,
    pub returntofirst: bool,
    /// the columns to show for each side of a card (e.g. `[[0], [1, 2]]`)
    pub showcolumns: Vec<Vec<u8>>,
    /// list delimiter that splits multiple values within a single field
    pub listdelimiter: Option<String>,
    /// whether the input has a header row with column names
    pub header: bool,
    /// the file the session was loaded from
    pub filename: Option<String>,
}

/// What a session holds, as plain values.
pub struct SessionModel {
    pub columns: Seq<Seq<char>>,
    pub decks: Seq<Seq<char>>,
    pub intervals: Seq<u32>,
    pub returntofirst: bool,
    pub showcolumns: Seq<Seq<u8>>,
    pub listdelimiter: Option<Seq<char>>,
    pub header: bool,
    pub filename: Option<Seq<char>>,
}

pub open spec fn opt_view(o: Option<String>) -> Option<Seq<char>> {
    match o {
        Some(s) => Some(s@),
        None => None,
    }
}

pub open spec fn byte_lists(v: Seq<Vec<u8>>) -> Seq<Seq<u8>> {
    v.map_values(|x: Vec<u8>| x@)
}

impl View for VocaSession {
    type V = SessionModel;

    open spec fn view(&self) -> SessionModel {
        SessionModel {
            columns: views(self.columns@),
            decks: views(self.decks@),
            intervals: self.intervals@,
            returntofirst: self.returntofirst,
            showcolumns: byte_lists(self.showcolumns@),
            listdelimiter: opt_view(self.listdelimiter),
            header: self.header,
            filename: opt_view(self.filename),
        }
    }
}

/// Why a session configuration was refused.
#[derive(Debug)]
pub enum SessionError {
    /// An interval that is not an integer in `0..=u32::MAX`.
    InvalidInteger { text: String, kind: IntErrorKind },
    /// A column that is not an integer in `0..=255`.
    InvalidColumn { text: String, kind: IntErrorKind },
    /// Intervals and decks were both given, in different numbers.
    LengthMismatch { intervals: usize, decks: usize },
}

/// A refusal, as plain values.
pub enum SessionErrorModel {
    InvalidInteger(Seq<char>, IntErrorKind),
    InvalidColumn(Seq<char>, IntErrorKind),
    LengthMismatch(usize, usize),
}

impl View for SessionError {
    type V = SessionErrorModel;

    open spec fn view(&self) -> SessionErrorModel {
        match self {
            SessionError::InvalidInteger { text, kind } => SessionErrorModel::InvalidInteger(text@, *kind),
            SessionError::InvalidColumn { text, kind } => SessionErrorModel::InvalidColumn(text@, *kind),
            SessionError::LengthMismatch { intervals, decks } => SessionErrorModel::LengthMismatch(*intervals, *decks),
        }
    }
}

/// The text that describes an integer that could not be read.
pub open spec fn int_error_text(k: IntErrorKind) -> Seq<char> {
    match k {
        IntErrorKind::Empty => "cannot parse integer from empty string"@,
        IntErrorKind::InvalidDigit => "invalid digit found in string"@,
        IntErrorKind::PosOverflow => "number too large to fit in target type"@,
    }
}

/// The message that describes a refusal.
pub open spec fn error_message(e: SessionErrorModel) -> Seq<char> {
    match e {
        SessionErrorModel::InvalidInteger(t, k) => "invalid integer '"@ + t + "': "@ + int_error_text(k),
        SessionErrorModel::InvalidColumn(t, k) => "invalid column '"@ + t + "': "@ + int_error_text(k),
        SessionErrorModel::LengthMismatch(i, d) => "intervals length ("@ + decimal(i as nat)
            + ") must match decks length ("@ + decimal(d as nat) + ")"@,
    }
}

fn int_error_string(k: IntErrorKind) -> (r: String)
    ensures
        r@ == int_error_text(k),
{
    match k {
        IntErrorKind::Empty => String::from_str("cannot parse integer from empty string"),
        IntErrorKind::InvalidDigit => String::from_str("invalid digit found in string"),
        IntErrorKind::PosOverflow => String::from_str("number too large to fit in target type"),
    }
}

impl SessionError {
    /// The message that describes this refusal.
    pub fn message(&self) -> (r: String)
        ensures
            r@ == error_message(self@),
    {
        match self {
            SessionError::InvalidInteger { text, kind } => {
                let mut r = String::from_str("invalid integer '");
                r.append(text.as_str());
                r.append("': ");
                let e = int_error_string(*kind);
                r.append(e.as_str());
                r
            },
            SessionError::InvalidColumn { text, kind } => {
                let mut r = String::from_str("invalid column '");
                r.append(text.as_str());
                r.append("': ");
                let e = int_error_string(*kind);
                r.append(e.as_str());
                r
            },
            SessionError::LengthMismatch { intervals, decks } => {
                let mut r = String::from_str("intervals length (");
                let a = decimal_string(*intervals as u64);
                r.append(a.as_str());
                r.append(") must match decks length (");
                let b = decimal_string(*decks as u64);
                r.append(b.as_str());
                r.append(")");
                r
            },
        }
    }
}

// ---------------------------------------------------------------------------
// Models of the list parsers
// ---------------------------------------------------------------------------

/// Reading each item as a `u32`; the first item that is none is the error.
pub open spec fn parse_u32_items(items: Seq<Seq<char>>) -> Result<Seq<u32>, SessionErrorModel>
    decreases items.len(),
{
    if items.len() == 0 {
        Ok(seq![])
    } else {
        match parse_u32_items(items.drop_last()) {
            Err(e) => Err(e),
            Ok(v) => match parse_uint(items.last(), u32::MAX as nat) {
                Ok(x) => Ok(v.push(x as u32)),
                Err(k) => Err(SessionErrorModel::InvalidInteger(items.last(), k)),
            },
        }
    }
}

/// Reading each item as a `u8` column; the first item that is none is the error.
pub open spec fn parse_u8_items(items: Seq<Seq<char>>) -> Result<Seq<u8>, SessionErrorModel>
    decreases items.len(),
{
    if items.len() == 0 {
        Ok(seq![])
    } else {
        match parse_u8_items(items.drop_last()) {
            Err(e) => Err(e),
            Ok(v) => match parse_uint(items.last(), u8::MAX as nat) {
                Ok(x) => Ok(v.push(x as u8)),
                Err(k) => Err(SessionErrorModel::InvalidColumn(items.last(), k)),
            },
        }
    }
}

/// Reading each side as a comma-separated list of columns.
pub open spec fn parse_sides(sides: Seq<Seq<char>>) -> Result<Seq<Seq<u8>>, SessionErrorModel>
    decreases sides.len(),
{
    if sides.len() == 0 {
        Ok(seq![])
    } else {
        match parse_sides(sides.drop_last()) {
            Err(e) => Err(e),
            Ok(v) => match parse_u8_items(csv_items(sides.last())) {
                Ok(x) => Ok(v.push(x)),
                Err(e) => Err(e),
            },
        }
    }
}

/// The columns shown when nothing else is configured: column 0 on the
/// front side, column 1 on the back.
pub open spec fn default_showcolumns() -> Seq<Seq<u8>> {
    seq![seq![0u8], seq![1u8]]
}

/// The model of `parse_csv_u32`.
pub open spec fn csv_u32(s: Seq<char>) -> Result<Seq<u32>, SessionErrorModel> {
    parse_u32_items(csv_items(s))
}

/// The model of `parse_showcolumns`: sides separated by `|`, each a
/// comma-separated list of columns.
pub open spec fn showcolumns_spec(s: Seq<char>) -> Result<Seq<Seq<u8>>, SessionErrorModel> {
    match parse_sides(split(s, seq!['|'])) {
        Err(e) => Err(e),
        Ok(v) => if v.len() == 0 {
            Ok(default_showcolumns())
        } else {
            Ok(v)
        },
    }
}

// ---------------------------------------------------------------------------
// List parsers
// ---------------------------------------------------------------------------

fn strings_of_ranges(s: &Vec<char>, r: &Vec<(usize, usize)>) -> (v: Vec<String>)
    requires
        forall|k: int| 0 <= k < r.len() ==> (#[trigger] r[k]).0 <= r[k].1 <= s.len(),
    ensures
        views(v@) == range_views(s@, r@),
{
    let mut v: Vec<String> = Vec::new();
    let n = r.len();
    let mut k: usize = 0;
    while k < n
        invariant
            n == r.len(),
            k <= n,
            forall|j: int| 0 <= j < r.len() ==> (#[trigger] r[j]).0 <= r[j].1 <= s.len(),
            views(v@) == range_views(s@, r@).take(k as int),
        decreases n - k,
    {
        let (a, b) = r[k];
        assert(r[k as int] == (a, b));
        let t = string_of(s, a, b);
        let ghost old_v = v@;
        v.push(t);
        assert(views(v@) =~= views(old_v).push(t@));
        assert(range_views(s@, r@).take(k + 1) =~= range_views(s@, r@).take(k as int).push(
            range_views(s@, r@)[k as int],
        ));
        k += 1;
    }
    assert(range_views(s@, r@).take(n as int) =~= range_views(s@, r@));
    v
}

/// The items of the comma-separated list `s`, trimmed, the empty ones left out.
pub fn parse_csv_strings(s: &str) -> (v: Vec<String>)
    ensures
        views(v@) == csv_items(s@),
{
    let chars = chars_of(s);
    let r = csv_item_ranges(&chars);
    strings_of_ranges(&chars, &r)
}

fn parse_u32_ranges(s: &Vec<char>, r: &Vec<(usize, usize)>) -> (out: Result<Vec<u32>, SessionError>)
    requires
        forall|k: int| 0 <= k < r.len() ==> (#[trigger] r[k]).0 <= r[k].1 <= s.len(),
    ensures
        match out {
            Ok(v) => parse_u32_items(range_views(s@, r@)) == Ok::<Seq<u32>, SessionErrorModel>(v@),
            Err(e) => parse_u32_items(range_views(s@, r@)) == Err::<Seq<u32>, SessionErrorModel>(e@),
        },
{
    let ghost items = range_views(s@, r@);
    let mut v: Vec<u32> = Vec::new();
    let n = r.len();
    let mut k: usize = 0;
    while k < n
        invariant
            n == r.len(),
            k <= n,
            items == range_views(s@, r@),
            forall|j: int| 0 <= j < r.len() ==> (#[trigger] r[j]).0 <= r[j].1 <= s.len(),
            parse_u32_items(items.take(k as int)) == Ok::<Seq<u32>, SessionErrorModel>(v@),
        decreases n - k,
    {
        let (a, b) = r[k];
        assert(r[k as int] == (a, b));
        proof {
            assert(items.take(k + 1).drop_last() =~= items.take(k as int));
            assert(items.take(k + 1).last() == items[k as int]);
            assert(items[k as int] == s@.subrange(a as int, b as int));
        }
        match parse_uint_range(s, a, b, 0xffff_ffff) {
            Ok(x) => {
                v.push(x as u32);
            },
            Err(kind) => {
                let text = string_of(s, a, b);
                proof {
                    lemma_u32_items_error_stays(items, k as int + 1);
                }
                return Err(SessionError::InvalidInteger { text, kind });
            },
        }
        k += 1;
    }
    assert(items.take(n as int) =~= items);
    Ok(v)
}

/// Once reading the first items fails, reading more fails the same way.
pub proof fn lemma_u32_items_error_stays(items: Seq<Seq<char>>, k: int)
    requires
        0 <= k <= items.len(),
        parse_u32_items(items.take(k)) is Err,
    ensures
        parse_u32_items(items) == parse_u32_items(items.take(k)),
    decreases items.len() - k,
{
    if k == items.len() {
        assert(items.take(k) =~= items);
    } else {
        assert(items.take(k + 1).drop_last() =~= items.take(k));
        lemma_u32_items_error_stays(items, k + 1);
    }
}

/// Once reading the first items fails, reading more fails the same way.
pub proof fn lemma_u8_items_error_stays(items: Seq<Seq<char>>, k: int)
    requires
        0 <= k <= items.len(),
        parse_u8_items(items.take(k)) is Err,
    ensures
        parse_u8_items(items) == parse_u8_items(items.take(k)),
    decreases items.len() - k,
{
    if k == items.len() {
        assert(items.take(k) =~= items);
    } else {
        assert(items.take(k + 1).drop_last() =~= items.take(k));
        lemma_u8_items_error_stays(items, k + 1);
    }
}

/// Once reading the first sides fails, reading more fails the same way.
pub proof fn lemma_sides_error_stays(sides: Seq<Seq<char>>, k: int)
    requires
        0 <= k <= sides.len(),
        parse_sides(sides.take(k)) is Err,
    ensures
        parse_sides(sides) == parse_sides(sides.take(k)),
    decreases sides.len() - k,
{
    if k == sides.len() {
        assert(sides.take(k) =~= sides);
    } else {
        assert(sides.take(k + 1).drop_last() =~= sides.take(k));
        lemma_sides_error_stays(sides, k + 1);
    }
}

/// The comma-separated list `s` of intervals; the first item that is not an
/// integer in `0..=u32::MAX` is refused.
pub fn parse_csv_u32(s: &str) -> (out: Result<Vec<u32>, SessionError>)
    ensures
        match out {
            Ok(v) => csv_u32(s@) == Ok::<Seq<u32>, SessionErrorModel>(v@),
            Err(e) => csv_u32(s@) == Err::<Seq<u32>, SessionErrorModel>(e@),
        },
{
    let chars = chars_of(s);
    let r = csv_item_ranges(&chars);
    parse_u32_ranges(&chars, &r)
}

fn parse_u8_ranges(s: &Vec<char>, r: &Vec<(usize, usize)>) -> (out: Result<Vec<u8>, SessionError>)
    requires
        forall|k: int| 0 <= k < r.len() ==> (#[trigger] r[k]).0 <= r[k].1 <= s.len(),
    ensures
        match out {
            Ok(v) => parse_u8_items(range_views(s@, r@)) == Ok::<Seq<u8>, SessionErrorModel>(v@),
            Err(e) => parse_u8_items(range_views(s@, r@)) == Err::<Seq<u8>, SessionErrorModel>(e@),
        },
{
    let ghost items = range_views(s@, r@);
    let mut v: Vec<u8> = Vec::new();
    let n = r.len();
    let mut k: usize = 0;
    while k < n
        invariant
            n == r.len(),
            k <= n,
            items == range_views(s@, r@),
            forall|j: int| 0 <= j < r.len() ==> (#[trigger] r[j]).0 <= r[j].1 <= s.len(),
            parse_u8_items(items.take(k as int)) == Ok::<Seq<u8>, SessionErrorModel>(v@),
        decreases n - k,
    {
        let (a, b) = r[k];
        assert(r[k as int] == (a, b));
        proof {
            assert(items.take(k + 1).drop_last() =~= items.take(k as int));
            assert(items.take(k + 1).last() == items[k as int]);
            assert(items[k as int] == s@.subrange(a as int, b as int));
        }
        match parse_uint_range(s, a, b, 0xff) {
            Ok(x) => {
                v.push(x as u8);
            },
            Err(kind) => {
                let text = string_of(s, a, b);
                proof {
                    lemma_u8_items_error_stays(items, k as int + 1);
                }
                return Err(SessionError::InvalidColumn { text, kind });
            },
        }
        k += 1;
    }
    assert(items.take(n as int) =~= items);
    Ok(v)
}

/// The columns each side shows, written as `"0|1,2"` (side 0 shows column 0,
/// side 1 shows columns 1 and 2); the first item that is not an integer in
/// `0..=255` is refused.
pub fn parse_showcolumns(s: &str) -> (out: Result<Vec<Vec<u8>>, SessionError>)
    ensures
        match out {
            Ok(v) => showcolumns_spec(s@) == Ok::<Seq<Seq<u8>>, SessionErrorModel>(byte_lists(v@)),
            Err(e) => showcolumns_spec(s@) == Err::<Seq<Seq<u8>>, SessionErrorModel>(e@),
        },
{
    let chars = chars_of(s);
    let bar = vec!['|'];
    assert(bar@ =~= seq!['|']);
    let sides = split_ranges(&chars, &bar);
    let ghost sv = range_views(chars@, sides@);
    let mut out: Vec<Vec<u8>> = Vec::new();
    let n = sides.len();
    let mut k: usize = 0;
    assert(sv.take(0) =~= Seq::<Seq<char>>::empty());
    assert(byte_lists(out@) =~= Seq::<Seq<u8>>::empty());
    while k < n
        invariant
            n == sides.len(),
            k <= n,
            sv == range_views(chars@, sides@),
            sv == split(s@, seq!['|']),
            chars@ == s@,
            forall|j: int| 0 <= j < sides.len() ==> (#[trigger] sides[j]).0 <= sides[j].1 <= chars.len(),
            parse_sides(sv.take(k as int)) == Ok::<Seq<Seq<u8>>, SessionErrorModel>(byte_lists(out@)),
        decreases n - k,
    {
        let (a, b) = sides[k];
        assert(sides[k as int] == (a, b));
        let side = slice_chars(&chars, a, b);
        proof {
            assert(sv.take(k + 1).drop_last() =~= sv.take(k as int));
            assert(sv.take(k + 1).last() == sv[k as int]);
            assert(sv[k as int] == side@);
        }
        let items = csv_item_ranges(&side);
        match parse_u8_ranges(&side, &items) {
            Ok(cols) => {
                let ghost old_out = out@;
                out.push(cols);
                assert(byte_lists(out@) =~= byte_lists(old_out).push(cols@));
            },
            Err(e) => {
                proof {
                    lemma_sides_error_stays(sv, k as int + 1);
                }
                return Err(e);
            },
        }
        k += 1;
    }
    assert(sv.take(n as int) =~= sv);
    if out.len() == 0 {
        let d = vec![vec![0u8], vec![1u8]];
        assert(byte_lists(d@) =~= default_showcolumns()) by {
            assert(d@[0]@ =~= seq![0u8]);
            assert(d@[1]@ =~= seq![1u8]);
        }
        Ok(d)
    } else {
        Ok(out)
    }
}

// ---------------------------------------------------------------------------
// Reading a session from flags
// ---------------------------------------------------------------------------

/// The session before any flag is read.
pub open spec fn initial_model() -> SessionModel {
    SessionModel {
        columns: seq![],
        decks: seq![],
        intervals: seq![],
        returntofirst: true,
        showcolumns: default_showcolumns(),
        listdelimiter: None,
        header: true,
        filename: None,
    }
}

/// The texts of `args`.
pub open spec fn arg_views(args: Seq<&str>) -> Seq<Seq<char>> {
    args.map_values(|a: &str| a@)
}

/// Reading the flags `args[i..]` into the session `st`: each known flag sets
/// its setting (one that takes a value only when a value follows it), any
/// other word is passed over.
pub open spec fn read_flags(args: Seq<Seq<char>>, i: nat, st: SessionModel) -> Result<SessionModel, SessionErrorModel>
    decreases args.len() - i,
{
    if i >= args.len() {
        Ok(st)
    } else {
        let a = args[i as int];
        let has_value = i + 1 < args.len();
        if a == "--columns"@ && has_value {
            read_flags(args, i + 2, SessionModel { columns: csv_items(args[i + 1 as int]), ..st })
        } else if a == "--decks"@ && has_value {
            read_flags(args, i + 2, SessionModel { decks: csv_items(args[i + 1 as int]), ..st })
        } else if a == "--intervals"@ && has_value {
            match csv_u32(args[i + 1 as int]) {
                Err(e) => Err(e),
                Ok(v) => read_flags(args, i + 2, SessionModel { intervals: v, ..st }),
            }
        } else if a == "--showcolumns"@ && has_value {
            match showcolumns_spec(args[i + 1 as int]) {
                Err(e) => Err(e),
                Ok(v) => read_flags(args, i + 2, SessionModel { showcolumns: v, ..st }),
            }
        } else if a == "--listdelimiter"@ && has_value {
            read_flags(args, i + 2, SessionModel { listdelimiter: Some(args[i + 1 as int]), ..st })
        } else if a == "--header"@ {
            read_flags(args, i + 1, SessionModel { header: true, ..st })
        } else if a == "--no-header"@ {
            read_flags(args, i + 1, SessionModel { header: false, ..st })
        } else if a == "--returntofirst"@ {
            read_flags(args, i + 1, SessionModel { returntofirst: true, ..st })
        } else if a == "--no-returntofirst"@ {
            read_flags(args, i + 1, SessionModel { returntofirst: false, ..st })
        } else {
            read_flags(args, i + 1, st)
        }
    }
}

/// Whether intervals and decks were both given, in different numbers.
pub open spec fn lengths_clash(st: SessionModel) -> bool {
    st.intervals.len() > 0 && st.decks.len() > 0 && st.intervals.len() != st.decks.len()
}

/// The model of `from_arguments`.
pub open spec fn session_from_flags(args: Seq<Seq<char>>) -> Result<SessionModel, SessionErrorModel> {
    match read_flags(args, 0, initial_model()) {
        Err(e) => Err(e),
        Ok(st) => if lengths_clash(st) {
            Err(SessionErrorModel::LengthMismatch(st.intervals.len() as usize, st.decks.len() as usize))
        } else {
            Ok(st)
        },
    }
}

impl VocaSession {
    /// The session that the flags `args` configure: `--columns A,B,C`,
    /// `--decks D1,D2`, `--intervals M1,M2`, `--showcolumns 0|1,2`,
    /// `--listdelimiter ;`, `--header` / `--no-header`,
    /// `--returntofirst` / `--no-returntofirst`; other words are passed over.
    pub fn from_arguments(args: Vec<&str>) -> (out: Result<VocaSession, SessionError>)
        ensures
            match out {
                Ok(s) => session_from_flags(arg_views(args@)) == Ok::<SessionModel, SessionErrorModel>(s@),
                Err(e) => session_from_flags(arg_views(args@)) == Err::<SessionModel, SessionErrorModel>(e@),
            },
    {
        let ghost av = arg_views(args@);
        let mut columns: Vec<String> = Vec::new();
        let mut decks: Vec<String> = Vec::new();
        let mut intervals: Vec<u32> = Vec::new();
        let mut showcolumns: Vec<Vec<u8>> = vec![vec![0u8], vec![1u8]];
        let mut listdelimiter: Option<String> = None;
        let mut header = true;
        let mut returntofirst = true;
        proof {
            assert(byte_lists(showcolumns@) =~= default_showcolumns()) by {
                assert(showcolumns@[0]@ =~= seq![0u8]);
                assert(showcolumns@[1]@ =~= seq![1u8]);
            }
            assert(views(columns@) =~= Seq::<Seq<char>>::empty());
            assert(views(decks@) =~= Seq::<Seq<char>>::empty());
        }
        let n = args.len();
        let mut i: usize = 0;
        while i < n
            invariant
                n == args.len(),
                i <= n,
                av == arg_views(args@),
                session_from_flags(av) == (match read_flags(av, i as nat, SessionModel {
                    columns: views(columns@),
                    decks: views(decks@),
                    intervals: intervals@,
                    returntofirst,
                    showcolumns: byte_lists(showcolumns@),
                    listdelimiter: opt_view(listdelimiter),
                    header,
                    filename: None,
                }) {
                    Err(e) => Err(e),
                    Ok(st) => if lengths_clash(st) {
                        Err(SessionErrorModel::LengthMismatch(st.intervals.len() as usize, st.decks.len() as usize))
                    } else {
                        Ok(st)
                    },
                }),
            decreases n - i,
        {
            let a = args[i];
            assert(av[i as int] == a@);
            let has_value = i + 1 < n;
            if has_value {
                assert(av[i + 1] == args@[i + 1]@);
            }
            if has_value && same_text(a, "--columns") {
                columns = parse_csv_strings(args[i + 1]);
                i += 2;
            } else if has_value && same_text(a, "--decks") {
                decks = parse_csv_strings(args[i + 1]);
                i += 2;
            } else if has_value && same_text(a, "--intervals") {
                match parse_csv_u32(args[i + 1]) {
                    Ok(v) => {
                        intervals = v;
                        i += 2;
                    },
                    Err(e) => {
                        return Err(e);
                    },
                }
            } else if has_value && same_text(a, "--showcolumns") {
                match parse_showcolumns(args[i + 1]) {
                    Ok(v) => {
                        showcolumns = v;
                        i += 2;
                    },
                    Err(e) => {
                        return Err(e);
                    },
                }
            } else if has_value && same_text(a, "--listdelimiter") {
                listdelimiter = Some(String::from_str(args[i + 1]));
                i += 2;
            } else if same_text(a, "--header") {
                header = true;
                i += 1;
            } else if same_text(a, "--no-header") {
                header = false;
                i += 1;
            } else if same_text(a, "--returntofirst") {
                returntofirst = true;
                i += 1;
            } else if same_text(a, "--no-returntofirst") {
                returntofirst = false;
                i += 1;
            } else {
                i += 1;
            }
        }
        if intervals.len() > 0 && decks.len() > 0 && intervals.len() != decks.len() {
            return Err(SessionError::LengthMismatch { intervals: intervals.len(), decks: decks.len() });
        }
        let s = VocaSession {
            columns,
            decks,
            intervals,
            returntofirst,
            showcolumns,
            listdelimiter,
            header,
            filename: None,
        };
        assert(s@ == SessionModel {
            columns: views(s.columns@),
            decks: views(s.decks@),
            intervals: s.intervals@,
            returntofirst: s.returntofirst,
            showcolumns: byte_lists(s.showcolumns@),
            listdelimiter: opt_view(s.listdelimiter),
            header: s.header,
            filename: None,
        });
        Ok(s)
    }

    /// The index of the first deck named `name`, as a `u8` (modulo 256).
    pub fn get_deck_by_name(&self, name: &str) -> (r: Option<u8>)
        ensures
            match r {
                Some(v) => exists|i: int|
                    0 <= i < self@.decks.len() && #[trigger] self@.decks[i] == name@ && (forall|j: int|
                        0 <= j < i ==> self@.decks[j] != name@) && v == (i % 256) as u8,
                None => forall|i: int| 0 <= i < self@.decks.len() ==> #[trigger] self@.decks[i] != name@,
            },
    {
        let n = self.decks.len();
        let mut i: usize = 0;
        while i < n
            invariant
                n == self.decks.len(),
                i <= n,
                forall|j: int| 0 <= j < i ==> #[trigger] self@.decks[j] != name@,
            decreases n - i,
        {
            assert(self@.decks[i as int] == self.decks@[i as int]@);
            if same_text(self.decks[i].as_str(), name) {
                return Some((i % 256) as u8);
            }
            i += 1;
        }
        None
    }
}

// ---------------------------------------------------------------------------
// Applying parsed command-line settings
// ---------------------------------------------------------------------------

/// The settings read from the command line: the value of each option that
/// was given, and which of the paired switches were present.
#[derive(Clone, Debug)]
pub struct CommonArguments {
    pub columns: Option<String>,
    pub decks: Option<String>,
    pub intervals: Option<String>,
    pub showcolumns: Option<String>,
    pub listdelimiter: Option<String>,
    pub header: bool,
    pub no_header: bool,
    pub returntofirst: bool,
    pub no_returntofirst: bool,
}

/// The command-line settings, as plain values.
pub struct CommonArgumentsModel {
    pub columns: Option<Seq<char>>,
    pub decks: Option<Seq<char>>,
    pub intervals: Option<Seq<char>>,
    pub showcolumns: Option<Seq<char>>,
    pub listdelimiter: Option<Seq<char>>,
    pub header: bool,
    pub no_header: bool,
    pub returntofirst: bool,
    pub no_returntofirst: bool,
}

impl View for CommonArguments {
    type V = CommonArgumentsModel;

    open spec fn view(&self) -> CommonArgumentsModel {
        CommonArgumentsModel {
            columns: opt_view(self.columns),
            decks: opt_view(self.decks),
            intervals: opt_view(self.intervals),
            showcolumns: opt_view(self.showcolumns),
            listdelimiter: opt_view(self.listdelimiter),
            header: self.header,
            no_header: self.no_header,
            returntofirst: self.returntofirst,
            no_returntofirst: self.no_returntofirst,
        }
    }
}

/// The list delimiter, the paired switches (the negative one wins), then the
/// check that intervals and decks agree in number.
pub open spec fn apply_switches(s: SessionModel, m: CommonArgumentsModel) -> (SessionModel, Option<SessionErrorModel>) {
    let s1 = match m.listdelimiter {
        Some(d) => SessionModel { listdelimiter: Some(d), ..s },
        None => s,
    };
    let s2 = if m.no_header {
        SessionModel { header: false, ..s1 }
    } else if m.header {
        SessionModel { header: true, ..s1 }
    } else {
        s1
    };
    let s3 = if m.no_returntofirst {
        SessionModel { returntofirst: false, ..s2 }
    } else if m.returntofirst {
        SessionModel { returntofirst: true, ..s2 }
    } else {
        s2
    };
    if lengths_clash(s3) {
        (s3, Some(SessionErrorModel::LengthMismatch(s3.intervals.len() as usize, s3.decks.len() as usize)))
    } else {
        (s3, None)
    }
}

/// The shown columns, then the rest.
pub open spec fn apply_showcolumns(s: SessionModel, m: CommonArgumentsModel) -> (SessionModel, Option<SessionErrorModel>) {
    match m.showcolumns {
        Some(t) => match showcolumns_spec(t) {
            Err(e) => (s, Some(e)),
            Ok(v) => apply_switches(SessionModel { showcolumns: v, ..s }, m),
        },
        None => apply_switches(s, m),
    }
}

/// The session after applying the settings `m` to `st` one after another,
/// and the refusal that stopped them, if any: what was applied before a
/// refusal stays applied.
pub open spec fn apply_common(st: SessionModel, m: CommonArgumentsModel) -> (SessionModel, Option<SessionErrorModel>) {
    let s1 = match m.columns {
        Some(c) => SessionModel { columns: csv_items(c), ..st },
        None => st,
    };
    let s2 = match m.decks {
        Some(d) => SessionModel { decks: csv_items(d), ..s1 },
        None => s1,
    };
    match m.intervals {
        Some(t) => match csv_u32(t) {
            Err(e) => (s2, Some(e)),
            Ok(v) => apply_showcolumns(SessionModel { intervals: v, ..s2 }, m),
        },
        None => apply_showcolumns(s2, m),
    }
}

impl VocaSession {
    /// Applies the command-line settings `m` to this session; settings that
    /// were not given keep their values.
    pub fn set_common_arguments(&mut self, m: &CommonArguments) -> (r: Result<(), SessionError>)
        ensures
            final(self)@ == apply_common(old(self)@, m@).0,
            match r {
                Ok(()) => apply_common(old(self)@, m@).1 is None,
                Err(e) => apply_common(old(self)@, m@).1 == Some(e@),
            },
    {
        if let Some(c) = &m.columns {
            self.columns = parse_csv_strings(c.as_str());
        }
        if let Some(d) = &m.decks {
            self.decks = parse_csv_strings(d.as_str());
        }
        if let Some(t) = &m.intervals {
            match parse_csv_u32(t.as_str()) {
                Ok(v) => {
                    self.intervals = v;
                },
                Err(e) => {
                    return Err(e);
                },
            }
        }
        self.apply_showcolumns_of(m)
    }

    fn apply_showcolumns_of(&mut self, m: &CommonArguments) -> (r: Result<(), SessionError>)
        ensures
            final(self)@ == apply_showcolumns(old(self)@, m@).0,
            match r {
                Ok(()) => apply_showcolumns(old(self)@, m@).1 is None,
                Err(e) => apply_showcolumns(old(self)@, m@).1 == Some(e@),
            },
    {
        if let Some(t) = &m.showcolumns {
            match parse_showcolumns(t.as_str()) {
                Ok(v) => {
                    self.showcolumns = v;
                },
                Err(e) => {
                    return Err(e);
                },
            }
        }
        self.apply_switches_of(m)
    }

    fn apply_switches_of(&mut self, m: &CommonArguments) -> (r: Result<(), SessionError>)
        ensures
            final(self)@ == apply_switches(old(self)@, m@).0,
            match r {
                Ok(()) => apply_switches(old(self)@, m@).1 is None,
                Err(e) => apply_switches(old(self)@, m@).1 == Some(e@),
            },
    {
        if let Some(d) = &m.listdelimiter {
            self.listdelimiter = Some(d.clone());
        }
        if m.no_header {
            self.header = false;
        } else if m.header {
            self.header = true;
        }
        if m.no_returntofirst {
            self.returntofirst = false;
        } else if m.returntofirst {
            self.returntofirst = true;
        }
        if self.intervals.len() > 0 && self.decks.len() > 0 && self.intervals.len() != self.decks.len() {
            return Err(SessionError::LengthMismatch { intervals: self.intervals.len(), decks: self.decks.len() });
        }
        Ok(())
    }

    /// The file this session was loaded from, if any.
    pub fn filename(&self) -> (r: Option<&String>)
        ensures
            match r {
                Some(f) => self.filename == Some(*f),
                None => self.filename is None,
            },
    {
        match &self.filename {
            Some(f) => Some(f),
            None => None,
        }
    }
}

} // verus!
