//! The text of a change: how names, values and headers are laid out, and the
//! colours they are given.

use crate::changes::{FieldDiff, Format};
use vstd::prelude::*;
use vstd::string::*;

verus! {

/// The mark that ends a colour or a style.
pub open spec fn reset_mark() -> Seq<char> {
    "\x1b[0m"@
}

/// The mark that starts magenta.
pub open spec fn magenta_mark() -> Seq<char> {
    "\x1b[35m"@
}

/// The mark that starts red.
pub open spec fn red_mark() -> Seq<char> {
    "\x1b[31m"@
}

/// The mark that starts green.
pub open spec fn green_mark() -> Seq<char> {
    "\x1b[32m"@
}

/// The mark that starts bold.
pub open spec fn bold_mark() -> Seq<char> {
    "\x1b[1m"@
}

/// The text holds the escape character, with which marks begin.
pub open spec fn has_escape(text: Seq<char>) -> bool {
    exists|i: int| 0 <= i < text.len() && #[trigger] text[i] == '\x1b'
}

/// Whether `painted` is `plain` in the colour or style that `mark` starts:
/// `plain` itself where colours are off, else `plain` between `mark` and the
/// mark that ends it. Of a text that holds the escape character nothing is
/// said, since marks inside it are written out again.
pub open spec fn is_painted(painted: Seq<char>, plain: Seq<char>, mark: Seq<char>) -> bool {
    has_escape(plain) || painted == plain || painted == mark + plain + reset_mark()
}

/// `text` as `Colorize::magenta` of the crate `colored` writes it out:
/// unchanged or between the marks for magenta, as the environment has
/// colours off or on.
#[verifier::external_body]
pub(crate) fn magenta(text: &str) -> (painted: String)
    ensures
        is_painted(painted@, text@, magenta_mark()),
{
    colored::Colorize::magenta(text).to_string()
}

/// `text` as `Colorize::red` of the crate `colored` writes it out: unchanged
/// or between the marks for red, as the environment has colours off or on.
#[verifier::external_body]
pub(crate) fn red(text: &str) -> (painted: String)
    ensures
        is_painted(painted@, text@, red_mark()),
{
    colored::Colorize::red(text).to_string()
}

/// `text` as `Colorize::green` of the crate `colored` writes it out:
/// unchanged or between the marks for green, as the environment has colours
/// off or on.
#[verifier::external_body]
pub(crate) fn green(text: &str) -> (painted: String)
    ensures
        is_painted(painted@, text@, green_mark()),
{
    colored::Colorize::green(text).to_string()
}

/// `text` as `Colorize::bold` of the crate `colored` writes it out:
/// unchanged or between the marks for bold, as the environment has colours
/// off or on.
#[verifier::external_body]
pub(crate) fn bold(text: &str) -> (painted: String)
    ensures
        is_painted(painted@, text@, bold_mark()),
{
    colored::Colorize::bold(text).to_string()
}

/// The text behind `lead`, or nothing where there is no text.
pub open spec fn led(lead: Seq<char>, text: Option<String>, end: Seq<char>) -> Seq<char> {
    match text {
        Some(t) => lead + t@ + end,
        None => Seq::<char>::empty(),
    }
}

/// One field of a difference as it is laid out. In the short format on one
/// line: `name from old to new`, without `from` or `to` where there is no
/// such value. In the long format the name on a line and each value on a
/// line of its own, the old one behind `-` and the new one behind `+`.
pub open spec fn entry_text(format: Format, d: FieldDiff) -> Seq<char> {
    match format {
        Format::Short => d.name@ + led(" from "@, d.old_value, ""@) + led(
            " to "@,
            d.new_value,
            ""@,
        ) + "\n"@,
        Format::Long => "  "@ + d.name@ + ":\n"@ + led("    - "@, d.old_value, "\n"@) + led(
            "    + "@,
            d.new_value,
            "\n"@,
        ),
    }
}

/// A difference as it is laid out: its fields one behind the other.
pub open spec fn diff_layout(format: Format, ds: Seq<FieldDiff>) -> Seq<char>
    decreases ds.len(),
{
    if ds.len() == 0 {
        Seq::<char>::empty()
    } else {
        diff_layout(format, ds.drop_last()) + entry_text(format, ds.last())
    }
}

/// A list of fields as it is laid out: each on a line of its own, as
/// `  name: value`.
pub open spec fn listing_layout(rows: Seq<(String, String)>) -> Seq<char>
    decreases rows.len(),
{
    if rows.len() == 0 {
        Seq::<char>::empty()
    } else {
        listing_layout(rows.drop_last()) + "  "@ + rows.last().0@ + ": "@ + rows.last().1@ + "\n"@
    }
}

/// Puts the text behind `lead` and `end` behind it onto `out`, where there
/// is a text.
fn push_led(out: &mut String, lead: &str, text: &Option<String>, end: &str)
    ensures
        final(out)@ == old(out)@ + led(lead@, *text, end@),
{
    match text {
        Some(t) => {
            let ghost before = out@;
            out.append(lead);
            out.append(t.as_str());
            out.append(end);
            assert(out@ =~= before + (lead@ + t@ + end@));
        },
        None => {
            assert(out@ =~= out@ + Seq::<char>::empty());
        },
    }
}

/// Lays out a difference.
pub fn diff_text(format: Format, ds: &Vec<FieldDiff>) -> (text: String)
    ensures
        text@ == diff_layout(format, ds@),
{
    let mut out = String::new();
    let mut i: usize = 0;
    assert(ds@.take(0) =~= Seq::<FieldDiff>::empty());
    while i < ds.len()
        invariant
            i <= ds.len(),
            out@ == diff_layout(format, ds@.take(i as int)),
        decreases ds.len() - i,
    {
        let d = &ds[i];
        let ghost before = out@;
        proof {
            assert(ds@.take(i + 1).drop_last() =~= ds@.take(i as int));
            assert(ds@.take(i + 1).last() == *d);
            reveal_strlit("");
        }
        match format {
            Format::Short => {
                out.append(d.name.as_str());
                push_led(&mut out, " from ", &d.old_value, "");
                push_led(&mut out, " to ", &d.new_value, "");
                out.append("\n");
            },
            Format::Long => {
                out.append("  ");
                out.append(d.name.as_str());
                out.append(":\n");
                push_led(&mut out, "    - ", &d.old_value, "\n");
                push_led(&mut out, "    + ", &d.new_value, "\n");
            },
        }
        assert(out@ =~= before + entry_text(format, *d));
        i += 1;
    }
    assert(ds@.take(ds.len() as int) =~= ds@);
    out
}

/// Lays out a list of fields.
pub fn listing_text(rows: &Vec<(String, String)>) -> (text: String)
    ensures
        text@ == listing_layout(rows@),
{
    let mut out = String::new();
    let mut i: usize = 0;
    assert(rows@.take(0) =~= Seq::<(String, String)>::empty());
    while i < rows.len()
        invariant
            i <= rows.len(),
            out@ == listing_layout(rows@.take(i as int)),
        decreases rows.len() - i,
    {
        let row = &rows[i];
        proof {
            assert(rows@.take(i + 1).drop_last() =~= rows@.take(i as int));
            assert(rows@.take(i + 1).last() == *row);
        }
        out.append("  ");
        out.append(row.0.as_str());
        out.append(": ");
        out.append(row.1.as_str());
        out.append("\n");
        i += 1;
    }
    assert(rows@.take(rows.len() as int) =~= rows@);
    out
}


/// What a header says of the task that a change is about.
#[derive(Clone, Debug, PartialEq, Eq)]
pub struct Label {
    /// The task's number, or the first part of its UUID.
    pub ident: String,
    /// What the task is about, where that is known.
    pub title: Option<String>,
}

/// A header as it is laid out: the time of the change, then the task in
/// brackets with its title behind it, where the task is known.
pub open spec fn header_layout(clock: Seq<char>, label: Option<Label>) -> Seq<char> {
    match label {
        Some(l) => clock + " ["@ + l.ident@ + "]"@ + led(" "@, l.title, ""@),
        None => clock,
    }
}

/// Lays out a header.
pub fn header_text(clock: &str, label: &Option<Label>) -> (text: String)
    ensures
        text@ == header_layout(clock@, *label),
{
    let mut out = clock.to_owned();
    match label {
        Some(l) => {
            out.append(" [");
            out.append(l.ident.as_str());
            out.append("]");
            proof {
                reveal_strlit("");
            }
            push_led(&mut out, " ", &l.title, "");
        },
        None => {},
    }
    out
}

/// What a change did, field by field.
#[derive(Clone, Debug, PartialEq, Eq)]
pub enum Body {
    /// The change made the task: all its fields.
    Created(Vec<(String, String)>),
    /// The change altered the task: the fields that differ.
    Modified(Vec<FieldDiff>),
}

/// The fields of a change as they are laid out.
pub open spec fn body_layout(format: Format, body: Body) -> Seq<char> {
    match body {
        Body::Created(rows) => listing_layout(rows@),
        Body::Modified(ds) => diff_layout(format, ds@),
    }
}

/// A change as it is laid out: the header on a line, the fields, and an
/// empty line.
pub open spec fn block_layout(format: Format, clock: Seq<char>, label: Option<Label>, body: Body) -> Seq<
    char,
> {
    header_layout(clock, label) + "\n"@ + body_layout(format, body) + "\n"@
}

/// Lays out a change.
pub fn block_text(format: Format, clock: &str, label: &Option<Label>, body: &Body) -> (text: String)
    ensures
        text@ == block_layout(format, clock@, *label, *body),
{
    let mut out = header_text(clock, label);
    out.append("\n");
    let fields = match body {
        Body::Created(rows) => listing_text(rows),
        Body::Modified(ds) => diff_text(format, ds),
    };
    out.append(fields.as_str());
    out.append("\n");
    out
}

/// Whether `painted` is the value `plain` in the colour that `mark` starts,
/// where there is a value.
pub open spec fn paints_value(painted: Option<String>, plain: Option<String>, mark: Seq<char>) -> bool {
    match (painted, plain) {
        (Some(a), Some(b)) => is_painted(a@, b@, mark),
        (None, None) => true,
        _ => false,
    }
}

/// Whether `painted` is the field `plain` in its colours: the name in
/// magenta, what was in red, what is in green.
pub open spec fn paints_entry(painted: FieldDiff, plain: FieldDiff) -> bool {
    &&& is_painted(painted.name@, plain.name@, magenta_mark())
    &&& paints_value(painted.old_value, plain.old_value, red_mark())
    &&& paints_value(painted.new_value, plain.new_value, green_mark())
}

/// Whether `painted` is the listed field `plain` in its colours: the name in
/// magenta, the value in green.
pub open spec fn paints_row(painted: (String, String), plain: (String, String)) -> bool {
    &&& is_painted(painted.0@, plain.0@, magenta_mark())
    &&& is_painted(painted.1@, plain.1@, green_mark())
}

/// Whether `painted` has the fields of `plain` in their colours, one for
/// one and in the same order.
pub open spec fn paints(painted: Body, plain: Body) -> bool {
    match (painted, plain) {
        (Body::Created(a), Body::Created(b)) => {
            &&& a.len() == b.len()
            &&& forall|i: int| 0 <= i < a.len() ==> paints_row(#[trigger] a[i], b[i])
        },
        (Body::Modified(a), Body::Modified(b)) => {
            &&& a.len() == b.len()
            &&& forall|i: int| 0 <= i < a.len() ==> paints_entry(#[trigger] a[i], b[i])
        },
        _ => false,
    }
}

/// A value in the colour of its side, where there is one.
fn paint_value(value: &Option<String>, old: bool) -> (painted: Option<String>)
    ensures
        paints_value(
            painted,
            *value,
            if old {
                red_mark()
            } else {
                green_mark()
            },
        ),
{
    match value {
        Some(v) => Some(if old { red(v.as_str()) } else { green(v.as_str()) }),
        None => None,
    }
}

/// The fields with their colours: names in magenta, what was in red, what
/// is in green.
pub fn paint(body: &Body) -> (painted: Body)
    ensures
        paints(painted, *body),
{
    match body {
        Body::Created(rows) => {
            let mut out: Vec<(String, String)> = Vec::new();
            let mut i: usize = 0;
            while i < rows.len()
                invariant
                    i <= rows.len(),
                    out.len() == i,
                    forall|k: int| 0 <= k < i ==> paints_row(#[trigger] out[k], rows[k]),
                decreases rows.len() - i,
            {
                out.push((magenta(rows[i].0.as_str()), green(rows[i].1.as_str())));
                i += 1;
            }
            Body::Created(out)
        },
        Body::Modified(ds) => {
            let mut out: Vec<FieldDiff> = Vec::new();
            let mut i: usize = 0;
            while i < ds.len()
                invariant
                    i <= ds.len(),
                    out.len() == i,
                    forall|k: int| 0 <= k < i ==> paints_entry(#[trigger] out[k], ds[k]),
                decreases ds.len() - i,
            {
                let d = &ds[i];
                out.push(
                    FieldDiff {
                        name: magenta(d.name.as_str()),
                        old_value: paint_value(&d.old_value, true),
                        new_value: paint_value(&d.new_value, false),
                    },
                );
                i += 1;
            }
            Body::Modified(out)
        },
    }
}

} // verus!
