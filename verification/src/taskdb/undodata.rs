//! The journal of changes: its grammar, and the reader that turns its bytes
//! into the changes it records.
//!
//! ```text
//! journal   := entry*                       the whole input
//! entry     := blank* fragment+ dashes
//! fragment  := "time" blank* digit+ blank* newline
//!            | "old" fields newline
//!            | "new" fields newline
//! fields    := blank* "[" (field (" " field)*)? "]"
//! field     := blank* name ":" blank* quoted
//! quoted    := '"' (backslash byte | byte but '"')* '"'
//! dashes    := "-"+ newline
//! name      := (letter | digit | "_")+
//! blank     := " " | tab
//! ```
//!
//! A quoted value ends at its closing quote and not at the end of a line, so
//! a value may run over several lines.

use crate::attrs::AttributeMap;
use crate::text::{all_digits, decimal_value, is_digit, parse_digits};
use crate::value::text_of;
use vstd::prelude::*;
use vstd::slice::*;
use vstd::string::*;
use vstd::utf8::*;

verus! {

/// The kinds of byte of which the grammar takes runs.
#[derive(Clone, Copy, Debug, PartialEq, Eq, Structural)]
pub enum ByteClass {
    /// A space or a tab.
    Blank,
    /// A decimal digit.
    Digit,
    /// A letter, a digit or an underscore.
    Name,
    /// A hyphen.
    Dash,
}

/// Whether the byte `b` is of the kind `class`.
pub open spec fn in_class(class: ByteClass, b: u8) -> bool {
    match class {
        ByteClass::Blank => b == 0x20 || b == 0x09,
        ByteClass::Digit => is_digit(b),
        ByteClass::Name => (0x30 <= b <= 0x39) || (0x41 <= b <= 0x5a) || (0x61 <= b <= 0x7a) || b
            == 0x5f,
        ByteClass::Dash => b == 0x2d,
    }
}

/// The end of the longest run of bytes of the kind `class` that starts at
/// `i`; `i` itself where there is none.
pub open spec fn run_end(s: Seq<u8>, i: int, class: ByteClass) -> int
    decreases s.len() - i,
{
    if 0 <= i < s.len() && in_class(class, s[i]) {
        run_end(s, i + 1, class)
    } else {
        i
    }
}

/// A run ends inside the input, holds bytes of its kind only, and is
/// followed by no further byte of that kind.
pub proof fn lemma_run_end(s: Seq<u8>, i: int, class: ByteClass)
    requires
        0 <= i <= s.len(),
    ensures
        i <= run_end(s, i, class) <= s.len(),
        forall|j: int| i <= j < run_end(s, i, class) ==> in_class(class, #[trigger] s[j]),
        run_end(s, i, class) < s.len() ==> !in_class(class, s[run_end(s, i, class)]),
    decreases s.len() - i,
{
    if i < s.len() && in_class(class, s[i]) {
        lemma_run_end(s, i + 1, class);
    }
}

/// Decides `in_class`.
pub fn is_in(class: ByteClass, b: u8) -> (r: bool)
    ensures
        r == in_class(class, b),
{
    match class {
        ByteClass::Blank => b == 0x20 || b == 0x09,
        ByteClass::Digit => 0x30 <= b && b <= 0x39,
        ByteClass::Name => (0x30 <= b && b <= 0x39) || (0x41 <= b && b <= 0x5a) || (0x61 <= b && b
            <= 0x7a) || b == 0x5f,
        ByteClass::Dash => b == 0x2d,
    }
}

/// Passes over the run of bytes of the kind `class` that starts at `i`.
pub fn skip_run(bytes: &[u8], i: usize, class: ByteClass) -> (end: usize)
    requires
        i <= bytes@.len(),
    ensures
        end == run_end(bytes@, i as int, class),
        i <= end <= bytes@.len(),
{
    let mut j: usize = i;
    while j < bytes.len() && is_in(class, bytes[j])
        invariant
            i <= j <= bytes@.len(),
            run_end(bytes@, i as int, class) == run_end(bytes@, j as int, class),
        decreases bytes@.len() - j,
    {
        j += 1;
    }
    j
}

/// Where the quoted value that was opened just before `i` ends: the place
/// behind its closing quote. A backslash takes the byte behind it along, so
/// a quote behind a backslash does not close the value.
pub open spec fn quote_end(s: Seq<u8>, i: int) -> Option<int>
    decreases s.len() - i,
{
    if i < 0 || i >= s.len() {
        None
    } else if s[i] == 0x22 {
        Some(i + 1)
    } else if s[i] == 0x5c {
        if i + 1 < s.len() {
            quote_end(s, i + 2)
        } else {
            None
        }
    } else {
        quote_end(s, i + 1)
    }
}

/// A quoted value ends behind where it was opened and inside the input, on
/// a quote.
pub proof fn lemma_quote_end(s: Seq<u8>, i: int)
    requires
        0 <= i <= s.len(),
    ensures
        quote_end(s, i) matches Some(e) ==> i < e <= s.len() && s[e - 1] == 0x22,
    decreases s.len() - i,
{
    if i < s.len() && s[i] != 0x22 {
        if s[i] == 0x5c {
            if i + 1 < s.len() {
                lemma_quote_end(s, i + 2);
            }
        } else {
            lemma_quote_end(s, i + 1);
        }
    }
}

/// Finds the end of the quoted value that was opened just before `i`.
pub fn find_quote_end(bytes: &[u8], i: usize) -> (end: Option<usize>)
    requires
        i <= bytes@.len(),
    ensures
        match end {
            Some(e) => quote_end(bytes@, i as int) == Some(e as int),
            None => quote_end(bytes@, i as int) is None,
        },
{
    let mut j: usize = i;
    while j < bytes.len()
        invariant
            i <= j <= bytes@.len(),
            quote_end(bytes@, i as int) == quote_end(bytes@, j as int),
        decreases bytes@.len() - j,
    {
        let b = bytes[j];
        if b == 0x22 {
            return Some(j + 1);
        } else if b == 0x5c {
            if j + 1 < bytes.len() {
                j += 2;
            } else {
                return None;
            }
        } else {
            j += 1;
        }
    }
    None
}

/// The text that a quoted value stands for, quotes included in `quoted`, as
/// JSON reads a string; nothing where `quoted` is no JSON string.
pub uninterp spec fn json_string(quoted: Seq<u8>) -> Option<Seq<char>>;

/// `serde_json::from_slice::<String>` on `quoted`: the string that the bytes
/// spell in JSON, or nothing where it reports an error.
#[verifier::external_body]
fn read_json_string(quoted: &[u8]) -> (text: Option<String>)
    ensures
        text_of(text) == json_string(quoted@),
{
    serde_json::from_slice::<String>(quoted).ok()
}

/// `std::str::from_utf8` on `bytes`: the text of which they are the UTF-8
/// encoding, or nothing where they are no valid UTF-8.
#[verifier::external_body]
fn utf8_text(bytes: &[u8]) -> (text: Option<&str>)
    ensures
        match text {
            Some(t) => t.spec_bytes() == bytes@,
            None => !valid_utf8(bytes@),
        },
{
    std::str::from_utf8(bytes).ok()
}

/// The quoted value that starts at `i`: its text and the place behind it.
pub open spec fn quoted_at(s: Seq<u8>, i: int) -> Option<(Seq<char>, int)> {
    if 0 <= i < s.len() && s[i] == 0x22 {
        match quote_end(s, i + 1) {
            Some(e) => match json_string(s.subrange(i, e)) {
                Some(text) => Some((text, e)),
                None => None,
            },
            None => None,
        }
    } else {
        None
    }
}

/// Reads the quoted value that starts at `i`.
pub fn quoted_string(bytes: &[u8], i: usize) -> (r: Option<(String, usize)>)
    requires
        i <= bytes@.len(),
    ensures
        match r {
            Some((text, e)) => quoted_at(bytes@, i as int) == Some((text@, e as int)) && i < e
                <= bytes@.len(),
            None => quoted_at(bytes@, i as int) is None,
        },
{
    if i < bytes.len() && bytes[i] == 0x22 {
        match find_quote_end(bytes, i + 1) {
            Some(e) => {
                proof {
                    lemma_quote_end(bytes@, i + 1);
                }
                match read_json_string(slice_subrange(bytes, i, e)) {
                    Some(text) => Some((text, e)),
                    None => None,
                }
            },
            None => None,
        }
    } else {
        None
    }
}

/// The name that starts at `i`: its text and the place behind it. A name is
/// a run of one or more letters, digits and underscores.
pub open spec fn name_at(s: Seq<u8>, i: int) -> Option<(Seq<char>, int)> {
    let e = run_end(s, i, ByteClass::Name);
    if 0 <= i < e {
        Some((decode_utf8(s.subrange(i, e)), e))
    } else {
        None
    }
}

/// Bytes of names are ASCII, so a run of them is the UTF-8 encoding of a
/// text.
proof fn lemma_name_is_utf8(s: Seq<u8>)
    requires
        forall|j: int| 0 <= j < s.len() ==> in_class(ByteClass::Name, #[trigger] s[j]),
    ensures
        valid_utf8(s),
{
    assert forall|j: int| 0 <= j < s.len() implies #[trigger] is_leading_byte_width_1(s[j]) by {
        let b = s[j];
        assert(in_class(ByteClass::Name, b));
        assert(b <= 0x7a ==> b & 0x80 == 0) by (bit_vector);
    }
    assert(s.subrange(0, 0) =~= Seq::<u8>::empty());
    assert(partial_valid_utf8(s, 0));
    partial_valid_utf8_extend_ascii_block(s, 0, s.len() as int);
    assert(s.subrange(0, s.len() as int) =~= s);
}

/// Reads the name that starts at `i`.
pub fn identifier(bytes: &[u8], i: usize) -> (r: Option<(String, usize)>)
    requires
        i <= bytes@.len(),
    ensures
        match r {
            Some((name, e)) => name_at(bytes@, i as int) == Some((name@, e as int)) && i < e
                <= bytes@.len(),
            None => name_at(bytes@, i as int) is None,
        },
{
    let e = skip_run(bytes, i, ByteClass::Name);
    if e == i {
        return None;
    }
    let run = slice_subrange(bytes, i, e);
    proof {
        lemma_run_end(bytes@, i as int, ByteClass::Name);
        lemma_name_is_utf8(run@);
    }
    match utf8_text(run) {
        Some(t) => {
            proof {
                encode_utf8_decode_utf8(t@);
            }
            Some((t.to_owned(), e))
        },
        None => None,
    }
}


/// The field that starts at `i`: its name, its value and the place behind
/// it. Blanks may stand before the name and between the colon and the value.
pub open spec fn field_at(s: Seq<u8>, i: int) -> Option<(Seq<char>, Seq<char>, int)> {
    match name_at(s, run_end(s, i, ByteClass::Blank)) {
        Some((name, b)) => if b < s.len() && s[b] == 0x3a {
            match quoted_at(s, run_end(s, b + 1, ByteClass::Blank)) {
                Some((text, e)) => Some((name, text, e)),
                None => None,
            }
        } else {
            None
        },
        None => None,
    }
}

/// Reads the field that starts at `i`.
pub fn field(bytes: &[u8], i: usize) -> (r: Option<(String, String, usize)>)
    requires
        i <= bytes@.len(),
    ensures
        match r {
            Some((name, text, e)) => field_at(bytes@, i as int) == Some((name@, text@, e as int))
                && i < e <= bytes@.len(),
            None => field_at(bytes@, i as int) is None,
        },
{
    let a = skip_run(bytes, i, ByteClass::Blank);
    match identifier(bytes, a) {
        Some((name, b)) => {
            if b < bytes.len() && bytes[b] == 0x3a {
                let c = skip_run(bytes, b + 1, ByteClass::Blank);
                match quoted_string(bytes, c) {
                    Some((text, e)) => Some((name, text, e)),
                    None => None,
                }
            } else {
                None
            }
        },
        None => None,
    }
}

/// The fields that follow those already read into `acc`, each behind one
/// space, and the place behind the last of them. A field read later takes
/// the place of an earlier one of the same name.
pub open spec fn more_fields(s: Seq<u8>, i: int, acc: Map<Seq<char>, Seq<char>>) -> (
    Map<Seq<char>, Seq<char>>,
    int,
)
    decreases s.len() - i,
{
    if 0 <= i < s.len() && s[i] == 0x20 {
        match field_at(s, i + 1) {
            Some((name, text, e)) => if i < e <= s.len() {
                more_fields(s, e, acc.insert(name, text))
            } else {
                (acc, i)
            },
            None => (acc, i),
        }
    } else {
        (acc, i)
    }
}

/// The bracketed list of fields that starts at `i`, blanks before it passed
/// over: the mapping it spells and the place behind the closing bracket.
pub open spec fn fields_at(s: Seq<u8>, i: int) -> Option<(Map<Seq<char>, Seq<char>>, int)> {
    let a = run_end(s, i, ByteClass::Blank);
    if 0 <= a < s.len() && s[a] == 0x5b {
        let (m, e) = match field_at(s, a + 1) {
            Some((name, text, b)) => more_fields(
                s,
                b,
                Map::<Seq<char>, Seq<char>>::empty().insert(name, text),
            ),
            None => (Map::<Seq<char>, Seq<char>>::empty(), a + 1),
        };
        if 0 <= e < s.len() && s[e] == 0x5d {
            Some((m, e + 1))
        } else {
            None
        }
    } else {
        None
    }
}

/// Reads the bracketed list of fields that starts at `i`.
pub fn attributes(bytes: &[u8], i: usize) -> (r: Option<(AttributeMap, usize)>)
    requires
        i <= bytes@.len(),
    ensures
        match r {
            Some((m, e)) => fields_at(bytes@, i as int) == Some((m@, e as int)) && m.wf() && i < e
                <= bytes@.len(),
            None => fields_at(bytes@, i as int) is None,
        },
{
    let a = skip_run(bytes, i, ByteClass::Blank);
    if !(a < bytes.len() && bytes[a] == 0x5b) {
        return None;
    }
    let mut map = AttributeMap::new();
    let mut pos: usize = a + 1;
    match field(bytes, a + 1) {
        Some((name, text, b)) => {
            let ghost first = Map::<Seq<char>, Seq<char>>::empty().insert(name@, text@);
            map.insert(name, text);
            pos = b;
            loop
                invariant_except_break
                    i < pos <= bytes@.len(),
                    map.wf(),
                    more_fields(bytes@, b as int, first) == more_fields(bytes@, pos as int, map@),
                ensures
                    i < pos <= bytes@.len(),
                    map.wf(),
                    more_fields(bytes@, b as int, first) == (map@, pos as int),
                decreases bytes@.len() - pos,
            {
                if !(pos < bytes.len() && bytes[pos] == 0x20) {
                    break ;
                }
                match field(bytes, pos + 1) {
                    Some((name, text, e)) => {
                        map.insert(name, text);
                        pos = e;
                    },
                    None => {
                        break ;
                    },
                }
            }
        },
        None => {},
    }
    if pos < bytes.len() && bytes[pos] == 0x5d {
        Some((map, pos + 1))
    } else {
        None
    }
}

/// One part of an entry as the contracts see it.
pub enum Piece {
    /// The moment of the change, in seconds since the epoch.
    Time(i64),
    /// The fields before the change.
    Old(Map<Seq<char>, Seq<char>>),
    /// The fields after the change.
    New(Map<Seq<char>, Seq<char>>),
}

/// A change as the contracts see it.
pub struct Record {
    /// The moment of the change, in seconds since the epoch.
    pub time: i64,
    /// The fields before the change; none where the change made the task.
    pub old: Option<Map<Seq<char>, Seq<char>>>,
    /// The fields after the change.
    pub new: Map<Seq<char>, Seq<char>>,
}

/// One part of an entry.
#[derive(Clone, Debug, PartialEq, Eq)]
pub enum ChangeFragment {
    /// The moment of the change, in seconds since the epoch.
    Time(i64),
    /// The fields before the change.
    Old(AttributeMap),
    /// The fields after the change.
    New(AttributeMap),
}

impl View for ChangeFragment {
    type V = Piece;

    open spec fn view(&self) -> Piece {
        match self {
            ChangeFragment::Time(t) => Piece::Time(*t),
            ChangeFragment::Old(m) => Piece::Old(m@),
            ChangeFragment::New(m) => Piece::New(m@),
        }
    }
}

impl ChangeFragment {
    /// The fragment's fields, if it has any, are in order.
    pub open spec fn wf(&self) -> bool {
        match self {
            ChangeFragment::Time(_) => true,
            ChangeFragment::Old(m) => m.wf(),
            ChangeFragment::New(m) => m.wf(),
        }
    }
}

/// One change to a task: when it was made, and the task's fields before and
/// after it.
#[derive(Clone, Debug, PartialEq, Eq)]
pub struct Change {
    /// The moment of the change, in seconds since the epoch.
    pub time: i64,
    /// The fields before the change; none where the change made the task.
    pub old: Option<AttributeMap>,
    /// The fields after the change.
    pub new: AttributeMap,
}

impl View for Change {
    type V = Record;

    open spec fn view(&self) -> Record {
        Record {
            time: self.time,
            old: match self.old {
                Some(m) => Some(m@),
                None => None,
            },
            new: self.new@,
        }
    }
}

impl Change {
    /// Both lists of fields are in order.
    pub open spec fn wf(&self) -> bool {
        &&& self.new.wf()
        &&& self.old matches Some(m) ==> m.wf()
    }
}

impl Default for Change {
    /// The change that an entry without parts stands for: made at moment 0,
    /// nothing before it and no field after it.
    fn default() -> (change: Change)
        ensures
            change@ == blank_record(),
            change.wf(),
    {
        Change { time: 0, old: None, new: AttributeMap::new() }
    }
}

/// The change that an entry without parts stands for.
pub open spec fn blank_record() -> Record {
    Record { time: 0, old: None, new: Map::<Seq<char>, Seq<char>>::empty() }
}

/// The record `r` with the part `p` put in the place of what `r` had of
/// that kind.
pub open spec fn with_piece(r: Record, p: Piece) -> Record {
    match p {
        Piece::Time(t) => Record { time: t, old: r.old, new: r.new },
        Piece::Old(m) => Record { time: r.time, old: Some(m), new: r.new },
        Piece::New(m) => Record { time: r.time, old: r.old, new: m },
    }
}

/// The change that the parts `ps` make together: of each kind the last one
/// counts.
pub open spec fn combined(ps: Seq<Piece>) -> Record
    decreases ps.len(),
{
    if ps.len() == 0 {
        blank_record()
    } else {
        with_piece(combined(ps.drop_last()), ps.last())
    }
}

/// The parts as the contracts see them.
pub open spec fn pieces(fragments: Seq<ChangeFragment>) -> Seq<Piece> {
    fragments.map_values(|f: ChangeFragment| f@)
}

/// Makes one change of the parts of an entry. Where a kind of part occurs
/// more than once, the last one counts.
pub fn combine_fragments(fragments: Vec<ChangeFragment>) -> (change: Change)
    requires
        forall|k: int| 0 <= k < fragments.len() ==> (#[trigger] fragments[k]).wf(),
    ensures
        change@ == combined(pieces(fragments@)),
        change.wf(),
{
    let ghost all = fragments@;
    let mut rest = fragments;
    let mut time: Option<i64> = None;
    let mut old: Option<AttributeMap> = None;
    let mut new: Option<AttributeMap> = None;
    while rest.len() > 0
        invariant
            rest.len() <= all.len(),
            rest@ == all.take(rest.len() as int),
            forall|k: int| 0 <= k < all.len() ==> (#[trigger] all[k]).wf(),
            old matches Some(m) ==> m.wf(),
            new matches Some(m) ==> m.wf(),
            combined(pieces(all)) == settled(combined(pieces(rest@)), time, old, new),
        decreases rest.len(),
    {
        let ghost before = rest@;
        let fragment = rest.pop().unwrap();
        proof {
            assert(rest@ == before.drop_last());
            assert(fragment == before.last());
            assert(before.last() == all[before.len() - 1]);
            assert(rest@ =~= all.take(rest.len() as int));
            assert(pieces(before).drop_last() =~= pieces(rest@));
            assert(pieces(before).last() == fragment@);
        }
        match fragment {
            ChangeFragment::Time(t) => {
                if time.is_none() {
                    time = Some(t);
                }
            },
            ChangeFragment::Old(m) => {
                if old.is_none() {
                    old = Some(m);
                }
            },
            ChangeFragment::New(m) => {
                if new.is_none() {
                    new = Some(m);
                }
            },
        }
    }
    assert(pieces(rest@) =~= Seq::<Piece>::empty());
    let time = match time {
        Some(t) => t,
        None => 0,
    };
    let new = match new {
        Some(m) => m,
        None => AttributeMap::new(),
    };
    Change { time, old, new }
}

/// The record `r` with each part that is already settled put in the place
/// of what `r` has of that kind.
pub open spec fn settled(
    r: Record,
    time: Option<i64>,
    old: Option<AttributeMap>,
    new: Option<AttributeMap>,
) -> Record {
    Record {
        time: match time {
            Some(t) => t,
            None => r.time,
        },
        old: match old {
            Some(m) => Some(m@),
            None => r.old,
        },
        new: match new {
            Some(m) => m@,
            None => r.new,
        },
    }
}


/// The bytes of the word `time`.
pub open spec fn time_word() -> Seq<u8> {
    seq![0x74u8, 0x69u8, 0x6du8, 0x65u8]
}

/// The bytes of the word `old`.
pub open spec fn old_word() -> Seq<u8> {
    seq![0x6fu8, 0x6cu8, 0x64u8]
}

/// The bytes of the word `new`.
pub open spec fn new_word() -> Seq<u8> {
    seq![0x6eu8, 0x65u8, 0x77u8]
}

/// The bytes `w` stand at `i`.
pub open spec fn word_at(s: Seq<u8>, i: int, w: Seq<u8>) -> bool {
    0 <= i && i + w.len() <= s.len() && s.subrange(i, i + w.len()) == w
}

/// The moment that is written behind the word `time`, which ends at `i`:
/// digits that spell a number of 64 bits, blanks allowed on both sides, and
/// a newline.
pub open spec fn time_at(s: Seq<u8>, i: int) -> Option<(Piece, int)> {
    let a = run_end(s, i, ByteClass::Blank);
    let b = run_end(s, a, ByteClass::Digit);
    let c = run_end(s, b, ByteClass::Blank);
    if 0 <= a < b && decimal_value(s.subrange(a, b)) <= i64::MAX && 0 <= c < s.len() && s[c]
        == 0x0a {
        Some((Piece::Time(decimal_value(s.subrange(a, b)) as i64), c + 1))
    } else {
        None
    }
}

/// The fields that are written behind the word `old` or `new`, which ends
/// at `i`, and the place behind the newline that follows them.
pub open spec fn listed_at(s: Seq<u8>, i: int) -> Option<(Map<Seq<char>, Seq<char>>, int)> {
    match fields_at(s, i) {
        Some((m, e)) => if 0 <= e < s.len() && s[e] == 0x0a {
            Some((m, e + 1))
        } else {
            None
        },
        None => None,
    }
}

/// The part of an entry that starts at `i`, and the place behind it.
pub open spec fn fragment_at(s: Seq<u8>, i: int) -> Option<(Piece, int)> {
    if word_at(s, i, time_word()) {
        time_at(s, i + 4)
    } else if word_at(s, i, old_word()) {
        match listed_at(s, i + 3) {
            Some((m, e)) => Some((Piece::Old(m), e)),
            None => None,
        }
    } else if word_at(s, i, new_word()) {
        match listed_at(s, i + 3) {
            Some((m, e)) => Some((Piece::New(m), e)),
            None => None,
        }
    } else {
        None
    }
}

/// Reads the digits that start at `i`, blanks before them passed over, as a
/// number of 64 bits.
pub fn integer(bytes: &[u8], i: usize) -> (r: Option<(i64, usize)>)
    requires
        i <= bytes@.len(),
    ensures
        ({
            let a = run_end(bytes@, i as int, ByteClass::Blank);
            let b = run_end(bytes@, a, ByteClass::Digit);
            match r {
                Some((v, e)) => a < b && e == b && v == decimal_value(bytes@.subrange(a, b)) && i
                    < e <= bytes@.len(),
                None => !(a < b && decimal_value(bytes@.subrange(a, b)) <= i64::MAX),
            }
        }),
{
    let a = skip_run(bytes, i, ByteClass::Blank);
    let b = skip_run(bytes, a, ByteClass::Digit);
    if a == b {
        return None;
    }
    let digits = slice_subrange(bytes, a, b);
    proof {
        lemma_run_end(bytes@, a as int, ByteClass::Digit);
        assert(digits@.skip(0) =~= digits@);
        assert(all_digits(digits@));
    }
    match parse_digits(digits, 0, 0x7fff_ffff_ffff_ffff) {
        Some(v) => Some((v as i64, b)),
        None => None,
    }
}

/// Whether the word `time` stands at `i`.
fn at_time(bytes: &[u8], i: usize) -> (r: bool)
    requires
        i <= bytes@.len(),
    ensures
        r == word_at(bytes@, i as int, time_word()),
        r ==> i + 4 <= bytes@.len() <= usize::MAX,
{
    let r = bytes.len() - i >= 4 && bytes[i] == 0x74 && bytes[i + 1] == 0x69 && bytes[i + 2]
        == 0x6d && bytes[i + 3] == 0x65;
    proof {
        if i + 4 <= bytes@.len() {
            let w = bytes@.subrange(i as int, i + 4);
            assert(w[0] == bytes@[i as int] && w[1] == bytes@[i + 1] && w[2] == bytes@[i + 2]
                && w[3] == bytes@[i + 3]);
            if r {
                assert(w =~= time_word());
            }
        }
    }
    r
}

/// Whether the word `old` stands at `i`.
fn at_old(bytes: &[u8], i: usize) -> (r: bool)
    requires
        i <= bytes@.len(),
    ensures
        r == word_at(bytes@, i as int, old_word()),
        r ==> i + 3 <= bytes@.len() <= usize::MAX,
{
    let r = bytes.len() - i >= 3 && bytes[i] == 0x6f && bytes[i + 1] == 0x6c && bytes[i + 2]
        == 0x64;
    proof {
        if i + 3 <= bytes@.len() {
            let w = bytes@.subrange(i as int, i + 3);
            assert(w[0] == bytes@[i as int] && w[1] == bytes@[i + 1] && w[2] == bytes@[i + 2]);
            if r {
                assert(w =~= old_word());
            }
        }
    }
    r
}

/// Whether the word `new` stands at `i`.
fn at_new(bytes: &[u8], i: usize) -> (r: bool)
    requires
        i <= bytes@.len(),
    ensures
        r == word_at(bytes@, i as int, new_word()),
        r ==> i + 3 <= bytes@.len() <= usize::MAX,
{
    let r = bytes.len() - i >= 3 && bytes[i] == 0x6e && bytes[i + 1] == 0x65 && bytes[i + 2]
        == 0x77;
    proof {
        if i + 3 <= bytes@.len() {
            let w = bytes@.subrange(i as int, i + 3);
            assert(w[0] == bytes@[i as int] && w[1] == bytes@[i + 1] && w[2] == bytes@[i + 2]);
            if r {
                assert(w =~= new_word());
            }
        }
    }
    r
}

/// What a reader of one part gives: the part, in order, as the grammar
/// reads it at `i`, and the place behind it; or nothing where the grammar
/// reads none.
pub open spec fn reads_part(
    r: Option<(ChangeFragment, usize)>,
    found: Option<(Piece, int)>,
    s: Seq<u8>,
    i: int,
) -> bool {
    match r {
        Some((fragment, e)) => found == Some((fragment@, e as int)) && fragment.wf() && i < e
            <= s.len(),
        None => found is None,
    }
}

/// Reads the moment of a change, the word `time` before it.
pub fn fragment_time(bytes: &[u8], i: usize) -> (r: Option<(ChangeFragment, usize)>)
    requires
        i <= bytes@.len(),
    ensures
        reads_part(
            r,
            if word_at(bytes@, i as int, time_word()) {
                time_at(bytes@, i + 4)
            } else {
                None
            },
            bytes@,
            i as int,
        ),
{
    if !at_time(bytes, i) {
        return None;
    }
    match integer(bytes, i + 4) {
        Some((v, b)) => {
            let c = skip_run(bytes, b, ByteClass::Blank);
            if c < bytes.len() && bytes[c] == 0x0a {
                Some((ChangeFragment::Time(v), c + 1))
            } else {
                None
            }
        },
        None => None,
    }
}

/// Reads a list of fields and the newline behind it.
fn listed(bytes: &[u8], i: usize) -> (r: Option<(AttributeMap, usize)>)
    requires
        i <= bytes@.len(),
    ensures
        match r {
            Some((m, e)) => listed_at(bytes@, i as int) == Some((m@, e as int)) && m.wf() && i < e
                <= bytes@.len(),
            None => listed_at(bytes@, i as int) is None,
        },
{
    match attributes(bytes, i) {
        Some((m, e)) => {
            if e < bytes.len() && bytes[e] == 0x0a {
                Some((m, e + 1))
            } else {
                None
            }
        },
        None => None,
    }
}

/// Reads the fields before a change, the word `old` before them.
pub fn fragment_old(bytes: &[u8], i: usize) -> (r: Option<(ChangeFragment, usize)>)
    requires
        i <= bytes@.len(),
    ensures
        reads_part(
            r,
            if word_at(bytes@, i as int, old_word()) {
                match listed_at(bytes@, i + 3) {
                    Some((m, e)) => Some((Piece::Old(m), e)),
                    None => None,
                }
            } else {
                None
            },
            bytes@,
            i as int,
        ),
{
    if !at_old(bytes, i) {
        return None;
    }
    match listed(bytes, i + 3) {
        Some((m, e)) => Some((ChangeFragment::Old(m), e)),
        None => None,
    }
}

/// Reads the fields after a change, the word `new` before them.
pub fn fragment_new(bytes: &[u8], i: usize) -> (r: Option<(ChangeFragment, usize)>)
    requires
        i <= bytes@.len(),
    ensures
        reads_part(
            r,
            if word_at(bytes@, i as int, new_word()) {
                match listed_at(bytes@, i + 3) {
                    Some((m, e)) => Some((Piece::New(m), e)),
                    None => None,
                }
            } else {
                None
            },
            bytes@,
            i as int,
        ),
{
    if !at_new(bytes, i) {
        return None;
    }
    match listed(bytes, i + 3) {
        Some((m, e)) => Some((ChangeFragment::New(m), e)),
        None => None,
    }
}

/// Reads the part of an entry that starts at `i`, of whichever kind it is.
pub fn fragment(bytes: &[u8], i: usize) -> (r: Option<(ChangeFragment, usize)>)
    requires
        i <= bytes@.len(),
    ensures
        reads_part(r, fragment_at(bytes@, i as int), bytes@, i as int),
{
    proof {
        lemma_words_differ(bytes@, i as int);
    }
    match fragment_time(bytes, i) {
        Some(found) => Some(found),
        None => match fragment_old(bytes, i) {
            Some(found) => Some(found),
            None => fragment_new(bytes, i),
        },
    }
}

/// At one place stands at most one of the three words.
proof fn lemma_words_differ(s: Seq<u8>, i: int)
    ensures
        !(word_at(s, i, time_word()) && word_at(s, i, old_word())),
        !(word_at(s, i, time_word()) && word_at(s, i, new_word())),
        !(word_at(s, i, old_word()) && word_at(s, i, new_word())),
{
    if word_at(s, i, time_word()) {
        assert(s.subrange(i, i + 4)[0] == 0x74);
    }
    if word_at(s, i, old_word()) {
        assert(s.subrange(i, i + 3)[0] == 0x6f);
    }
    if word_at(s, i, new_word()) {
        assert(s.subrange(i, i + 3)[0] == 0x6e);
    }
}


/// The parts that follow those already read into `acc`, one behind the
/// other, and the place behind the last of them.
pub open spec fn pieces_from(s: Seq<u8>, i: int, acc: Seq<Piece>) -> (Seq<Piece>, int)
    decreases s.len() - i,
{
    match fragment_at(s, i) {
        Some((p, e)) => if i < e <= s.len() {
            pieces_from(s, e, acc.push(p))
        } else {
            (acc, i)
        },
        None => (acc, i),
    }
}

/// The entry that starts at `i`: the change it records and the place behind
/// it. An entry is one or more parts, blanks allowed before the first, and a
/// line of one or more hyphens.
pub open spec fn entry_at(s: Seq<u8>, i: int) -> Option<(Record, int)> {
    let (ps, b) = pieces_from(s, run_end(s, i, ByteClass::Blank), Seq::<Piece>::empty());
    let c = run_end(s, b, ByteClass::Dash);
    if ps.len() > 0 && 0 <= b < c < s.len() && s[c] == 0x0a {
        Some((combined(ps), c + 1))
    } else {
        None
    }
}

/// The entries that follow those already read into `acc`, one behind the
/// other, and the place behind the last of them.
pub open spec fn entries_from(s: Seq<u8>, i: int, acc: Seq<Record>) -> (Seq<Record>, int)
    decreases s.len() - i,
{
    match entry_at(s, i) {
        Some((r, e)) => if i < e <= s.len() {
            entries_from(s, e, acc.push(r))
        } else {
            (acc, i)
        },
        None => (acc, i),
    }
}

/// How far the input reads as entries, one behind the other.
pub open spec fn entries_end(s: Seq<u8>) -> int {
    entries_from(s, 0, Seq::<Record>::empty()).1
}

/// The changes that the journal `s` records, in the order in which it holds
/// them; nothing unless the whole of `s` reads as entries.
pub open spec fn journal_of(s: Seq<u8>) -> Option<Seq<Record>> {
    if entries_end(s) == s.len() {
        Some(entries_from(s, 0, Seq::<Record>::empty()).0)
    } else {
        None
    }
}

/// The changes as the contracts see them.
pub open spec fn records(changes: Seq<Change>) -> Seq<Record> {
    changes.map_values(|c: Change| c@)
}

/// Reads the entry that starts at `i`.
pub fn change_item(bytes: &[u8], i: usize) -> (r: Option<(Change, usize)>)
    requires
        i <= bytes@.len(),
    ensures
        match r {
            Some((change, e)) => entry_at(bytes@, i as int) == Some((change@, e as int))
                && change.wf() && i < e <= bytes@.len(),
            None => entry_at(bytes@, i as int) is None,
        },
{
    let a = skip_run(bytes, i, ByteClass::Blank);
    let mut fragments: Vec<ChangeFragment> = Vec::new();
    let mut pos: usize = a;
    assert(pieces(fragments@) =~= Seq::<Piece>::empty());
    loop
        invariant_except_break
            a <= pos <= bytes@.len(),
            forall|k: int| 0 <= k < fragments.len() ==> (#[trigger] fragments[k]).wf(),
            pieces_from(bytes@, a as int, Seq::<Piece>::empty()) == pieces_from(
                bytes@,
                pos as int,
                pieces(fragments@),
            ),
        ensures
            a <= pos <= bytes@.len(),
            forall|k: int| 0 <= k < fragments.len() ==> (#[trigger] fragments[k]).wf(),
            pieces_from(bytes@, a as int, Seq::<Piece>::empty()) == (
                pieces(fragments@),
                pos as int,
            ),
        decreases bytes@.len() - pos,
    {
        match fragment(bytes, pos) {
            Some((found, e)) => {
                let ghost before = fragments@;
                fragments.push(found);
                assert(pieces(fragments@) =~= pieces(before).push(found@));
                pos = e;
            },
            None => {
                break ;
            },
        }
    }
    if fragments.len() == 0 {
        return None;
    }
    let c = skip_run(bytes, pos, ByteClass::Dash);
    if pos < c && c < bytes.len() && bytes[c] == 0x0a {
        Some((combine_fragments(fragments), c + 1))
    } else {
        None
    }
}

/// Reads entries from the start of the input for as long as there are any.
/// Gives the changes read and the place where reading stopped.
pub fn changes_list(bytes: &[u8]) -> (r: (Vec<Change>, usize))
    ensures
        entries_from(bytes@, 0, Seq::<Record>::empty()) == (records(r.0@), r.1 as int),
        r.1 <= bytes@.len(),
        forall|k: int| 0 <= k < r.0.len() ==> (#[trigger] r.0[k]).wf(),
{
    let mut changes: Vec<Change> = Vec::new();
    let mut pos: usize = 0;
    assert(records(changes@) =~= Seq::<Record>::empty());
    loop
        invariant_except_break
            pos <= bytes@.len(),
            forall|k: int| 0 <= k < changes.len() ==> (#[trigger] changes[k]).wf(),
            entries_from(bytes@, 0, Seq::<Record>::empty()) == entries_from(
                bytes@,
                pos as int,
                records(changes@),
            ),
        ensures
            pos <= bytes@.len(),
            forall|k: int| 0 <= k < changes.len() ==> (#[trigger] changes[k]).wf(),
            entries_from(bytes@, 0, Seq::<Record>::empty()) == (records(changes@), pos as int),
        decreases bytes@.len() - pos,
    {
        match change_item(bytes, pos) {
            Some((change, e)) => {
                let ghost before = changes@;
                changes.push(change);
                assert(records(changes@) =~= records(before).push(change@));
                pos = e;
            },
            None => {
                break ;
            },
        }
    }
    (changes, pos)
}

/// Why a journal could not be read.
#[derive(Clone, Copy, Debug, PartialEq, Eq, Structural)]
pub struct ParseError {
    /// The place in the input at which no further entry could be read.
    pub offset: usize,
}

/// Whether `r` is what reading the journal `s` gives: the changes that the
/// whole of `s` records, each with its fields in order; or, where `s` does
/// not read as entries to its end, the place where reading stopped.
pub open spec fn is_reading_of(r: Result<Vec<Change>, ParseError>, s: Seq<u8>) -> bool {
    match r {
        Ok(changes) => journal_of(s) == Some(records(changes@)) && forall|k: int|
            0 <= k < changes.len() ==> (#[trigger] changes[k]).wf(),
        Err(e) => journal_of(s) is None && e.offset == entries_end(s),
    }
}

/// Reads a journal. The journal is read as a whole or not at all: where
/// anything is left behind the last entry that can be read, no change is
/// given, and the error tells where reading stopped.
pub fn parse(bytes: &[u8]) -> (r: Result<Vec<Change>, ParseError>)
    ensures
        is_reading_of(r, bytes@),
{
    let (changes, end) = changes_list(bytes);
    if end == bytes.len() {
        Ok(changes)
    } else {
        Err(ParseError { offset: end })
    }
}


/// Reading parts stops inside the input, at or behind where it began.
pub proof fn lemma_pieces_from(s: Seq<u8>, i: int, acc: Seq<Piece>)
    requires
        0 <= i <= s.len(),
    ensures
        i <= pieces_from(s, i, acc).1 <= s.len(),
    decreases s.len() - i,
{
    match fragment_at(s, i) {
        Some((p, e)) => {
            if i < e <= s.len() {
                lemma_pieces_from(s, e, acc.push(p));
            }
        },
        None => {},
    }
}

/// An entry ends on a hyphen and a newline.
pub proof fn lemma_entry_end(s: Seq<u8>, i: int)
    requires
        0 <= i <= s.len(),
    ensures
        entry_at(s, i) matches Some((r, e)) ==> i + 2 <= e <= s.len() && s[e - 2] == 0x2d && s[e
            - 1] == 0x0a,
{
    let a = run_end(s, i, ByteClass::Blank);
    lemma_run_end(s, i, ByteClass::Blank);
    lemma_pieces_from(s, a, Seq::<Piece>::empty());
    let b = pieces_from(s, a, Seq::<Piece>::empty()).1;
    lemma_run_end(s, b, ByteClass::Dash);
    let c = run_end(s, b, ByteClass::Dash);
    if b < c {
        assert(in_class(ByteClass::Dash, s[c - 1]));
    }
}

/// Where any entry was read, reading stopped behind a hyphen and a newline.
pub proof fn lemma_entries_end(s: Seq<u8>, i: int, acc: Seq<Record>)
    requires
        0 <= i <= s.len(),
    ensures
        ({
            let e = entries_from(s, i, acc).1;
            &&& i <= e <= s.len()
            &&& i < e ==> e >= 2 && s[e - 2] == 0x2d && s[e - 1] == 0x0a
        }),
    decreases s.len() - i,
{
    lemma_entry_end(s, i);
    match entry_at(s, i) {
        Some((r, e)) => {
            if i < e <= s.len() {
                lemma_entries_end(s, e, acc.push(r));
            }
        },
        None => {},
    }
}

/// A journal that holds anything ends on a hyphen and a newline.
pub proof fn lemma_journal_end(s: Seq<u8>)
    requires
        journal_of(s) is Some,
        s.len() > 0,
    ensures
        s.len() >= 2,
        s[s.len() - 2] == 0x2d,
        s[s.len() - 1] == 0x0a,
{
    lemma_entries_end(s, 0, Seq::<Record>::empty());
}

/// No byte can be put behind a journal: whatever byte follows a journal,
/// the whole is no journal, and reading it gives no change at all.
pub proof fn lemma_no_byte_follows_a_journal(
    s: Seq<u8>,
    b: u8,
    r: Result<Vec<Change>, ParseError>,
)
    requires
        journal_of(s) is Some,
        is_reading_of(r, s.push(b)),
    ensures
        journal_of(s.push(b)) is None,
        r is Err,
{
    let t = s.push(b);
    if journal_of(t) is Some {
        lemma_journal_end(t);
        assert(t[t.len() - 2] == s[s.len() - 1]);
        lemma_journal_end(s);
    }
}

/// Whether two changes tell the same: the same moment, and before and after
/// it the same fields in the same order.
pub open spec fn same_change(a: Change, b: Change) -> bool {
    &&& a.time == b.time
    &&& a.new.pairs() == b.new.pairs()
    &&& match (a.old, b.old) {
        (Some(m), Some(n)) => m.pairs() == n.pairs(),
        (None, None) => true,
        _ => false,
    }
}

/// Reading is a function of the bytes: two readings of the same journal give
/// the same changes in the same order, each with the same fields in the same
/// order, or stop at the same place.
pub proof fn lemma_reading_is_determined(
    s: Seq<u8>,
    r1: Result<Vec<Change>, ParseError>,
    r2: Result<Vec<Change>, ParseError>,
)
    requires
        is_reading_of(r1, s),
        is_reading_of(r2, s),
    ensures
        r1 is Ok <==> r2 is Ok,
        r1 is Ok ==> records(r1->Ok_0@) == records(r2->Ok_0@),
        r1 is Ok ==> r1->Ok_0.len() == r2->Ok_0.len() && forall|k: int|
            0 <= k < r1->Ok_0.len() ==> same_change(#[trigger] r1->Ok_0[k], r2->Ok_0[k]),
        r1 is Err ==> r1->Err_0 == r2->Err_0,
{
    if r1 is Ok {
        let a = r1->Ok_0@;
        let b = r2->Ok_0@;
        assert(records(a).len() == records(b).len());
        assert forall|k: int| 0 <= k < a.len() implies same_change(#[trigger] a[k], b[k]) by {
            assert(records(a)[k] == a[k]@);
            assert(records(b)[k] == b[k]@);
            a[k].new.lemma_same_fields_same_order(b[k].new);
            match (a[k].old, b[k].old) {
                (Some(m), Some(n)) => {
                    m.lemma_same_fields_same_order(n);
                },
                _ => {},
            }
        }
    }
}

} // verus!
