//! The differences that a change made, field by field.

use crate::attrs::{
    as_map, ascending, has_name, index_of, lemma_as_map_at, lemma_gap_has_no_name,
    lemma_name_order, lemma_name_transitive, lemma_one_ascending_list, name_before, name_lt,
    same_name, AttributeMap,
};
use crate::render::{
    block_layout, block_text, bold, bold_mark, is_painted, paint, paints, Body, Label,
};
use crate::taskdb::{Change, Task, TaskDb, TaskIndex};
use crate::taskdb::undodata::Record;
use crate::text::{decimal, decimal_text};
use crate::value::{
    clock_places, format_value, is_clock_text, local_time, shows_value, text_of, timestamp_of,
};
use vstd::prelude::*;
use vstd::string::*;

verus! {

/// How much of a change is shown.
#[derive(Clone, Copy, Debug, PartialEq, Eq, Structural)]
pub enum Format {
    /// One line for each field that changed; the field `modified` is left
    /// out.
    Short,
    /// A block for each field, old and new value on lines of their own.
    Long,
}

/// What became of one field in a change.
#[derive(Clone, Debug, PartialEq, Eq)]
pub struct FieldDiff {
    /// The field's name.
    pub name: String,
    /// The value that the field had, as it is shown; none where the change
    /// brought the field.
    pub old_value: Option<String>,
    /// The value that the field has now, as it is shown; none where the
    /// change took the field away.
    pub new_value: Option<String>,
}

/// Whether a change from `old` to `new` lists the field `k`. A field is
/// listed where one of the two has it and they do not both give it the same
/// value; the short format never lists the field `modified`.
pub open spec fn is_listed(
    format: Format,
    old: Map<Seq<char>, Seq<char>>,
    new: Map<Seq<char>, Seq<char>>,
    k: Seq<char>,
) -> bool {
    &&& old.contains_key(k) || new.contains_key(k)
    &&& !(format == Format::Short && k == "modified"@)
    &&& !(old.contains_key(k) && new.contains_key(k) && old[k] == new[k])
}

/// Whether `shown` is what is shown of the value that `m` gives the field
/// `k`: nothing where `m` has no such field.
pub open spec fn shows_field(
    shown: Option<String>,
    format: Format,
    m: Map<Seq<char>, Seq<char>>,
    k: Seq<char>,
    now: int,
) -> bool {
    match shown {
        Some(text) => m.contains_key(k) && shows_value(text@, format, m[k], now),
        None => !m.contains_key(k),
    }
}

/// Whether `d` tells what the change from `old` to `new` did to a field
/// that it lists.
pub open spec fn is_diff_of(
    d: FieldDiff,
    format: Format,
    old: Map<Seq<char>, Seq<char>>,
    new: Map<Seq<char>, Seq<char>>,
    now: int,
) -> bool {
    &&& is_listed(format, old, new, d.name@)
    &&& shows_field(d.old_value, format, old, d.name@, now)
    &&& shows_field(d.new_value, format, new, d.name@, now)
}

/// The names of `ds` are in strictly ascending order.
pub open spec fn names_ascend(ds: Seq<FieldDiff>) -> bool {
    forall|a: int, b: int|
        0 <= a < b < ds.len() ==> name_lt(#[trigger] ds[a].name@, #[trigger] ds[b].name@)
}

/// Some entry of `ds` is about the field `k`.
pub open spec fn tells_of(ds: Seq<FieldDiff>, k: Seq<char>) -> bool {
    exists|a: int| 0 <= a < ds.len() && #[trigger] ds[a].name@ == k
}

/// Every name of `ds` comes before `k`.
pub open spec fn all_before(ds: Seq<FieldDiff>, k: Seq<char>) -> bool {
    forall|a: int| 0 <= a < ds.len() ==> name_lt(#[trigger] ds[a].name@, k)
}

/// Whether `ds` is the difference between `old` and `new`: one entry for
/// each field that the change lists and for no other, in strictly ascending
/// order of the names, each entry with what is shown of the two values.
pub open spec fn is_diff(
    ds: Seq<FieldDiff>,
    format: Format,
    old: Map<Seq<char>, Seq<char>>,
    new: Map<Seq<char>, Seq<char>>,
    now: int,
) -> bool {
    &&& names_ascend(ds)
    &&& forall|k: Seq<char>| tells_of(ds, k) <==> is_listed(format, old, new, k)
    &&& forall|a: int| 0 <= a < ds.len() ==> is_diff_of(#[trigger] ds[a], format, old, new, now)
}

/// Whether `list` lists the fields of `m`: one entry for each field, in
/// strictly ascending order of the names, each with what is shown of the
/// field's value.
pub open spec fn is_listing(
    list: Seq<(String, String)>,
    format: Format,
    m: Map<Seq<char>, Seq<char>>,
    now: int,
) -> bool {
    &&& forall|a: int, b: int|
        0 <= a < b < list.len() ==> name_lt(#[trigger] list[a].0@, #[trigger] list[b].0@)
    &&& forall|k: Seq<char>|
        m.contains_key(k) <==> exists|a: int| 0 <= a < list.len() && #[trigger] list[a].0@ == k
    &&& forall|a: int|
        0 <= a < list.len() ==> m.contains_key(#[trigger] list[a].0@) && shows_value(
            list[a].1@,
            format,
            m[list[a].0@],
            now,
        )
}

/// Whether `name` is the field that the short format leaves out.
fn is_modified(name: &str) -> (r: bool)
    ensures
        r == (name@ == "modified"@),
{
    same_name(name, "modified")
}

/// The fields in which `old` and `new` differ, in ascending order of their
/// names, each with its old and its new value as seen from `now`.
pub fn diff(format: Format, new: &AttributeMap, old: &AttributeMap, now: i64) -> (ds: Vec<
    FieldDiff,
>)
    requires
        new.wf(),
        old.wf(),
    ensures
        is_diff(ds@, format, old@, new@, now as int),
{
    let ghost p = old.pairs();
    let ghost q = new.pairs();
    let m = old.len();
    let n = new.len();
    let mut out: Vec<FieldDiff> = Vec::new();
    let mut i: usize = 0;
    let mut j: usize = 0;
    while i < m || j < n
        invariant
            p == old.pairs(),
            q == new.pairs(),
            ascending(p),
            ascending(q),
            m == p.len(),
            n == q.len(),
            i <= m,
            j <= n,
            names_ascend(out@),
            i < m ==> all_before(out@, p[i as int].0),
            j < n ==> all_before(out@, q[j as int].0),
            i < m ==> forall|y: int| 0 <= y < j ==> name_lt(#[trigger] q[y].0, p[i as int].0),
            j < n ==> forall|x: int| 0 <= x < i ==> name_lt(#[trigger] p[x].0, q[j as int].0),
            forall|a: int|
                0 <= a < out.len() ==> is_diff_of(#[trigger] out[a], format, old@, new@, now as int),
            forall|x: int|
                0 <= x < i && is_listed(format, old@, new@, #[trigger] p[x].0) ==> tells_of(
                    out@,
                    p[x].0,
                ),
            forall|y: int|
                0 <= y < j && is_listed(format, old@, new@, #[trigger] q[y].0) ==> tells_of(
                    out@,
                    q[y].0,
                ),
        decreases (m - i) + (n - j),
    {
        let ghost before = out@;
        let take_old = i < m && (j == n || name_before(old.name_at(i), new.name_at(j)));
        let take_new = !take_old && j < n && (i == m || name_before(
            new.name_at(j),
            old.name_at(i),
        ));
        if take_old {
            let name = old.name_at(i);
            let ghost k = p[i as int].0;
            proof {
                lemma_as_map_at(p, i as int);
                if j < n {
                    lemma_gap_has_no_name(q, j as int, k);
                } else {
                    lemma_gap_has_no_name(q, n as int, k);
                }
            }
            if !(format == Format::Short && is_modified(name.as_str())) {
                let shown = format_value(format, old.value_at(i).as_str(), now);
                out.push(FieldDiff { name: name.clone(), old_value: Some(shown), new_value: None });
                proof {
                    assert(out@.drop_last() =~= before);
                    lemma_pushed(before, out@, k);
                }
            }
            proof {
                if i + 1 < m {
                    lemma_frontier_moves(out@, before, k, p[i + 1].0);
                    assert forall|y: int| 0 <= y < j implies name_lt(
                        #[trigger] q[y].0,
                        p[i + 1].0,
                    ) by {
                        lemma_name_transitive(q[y].0, k, p[i + 1].0);
                    }
                }
                if j < n {
                    lemma_frontier_moves(out@, before, k, q[j as int].0);
                }
                lemma_still_told(before, out@);
            }
            i += 1;
        } else if take_new {
            let name = new.name_at(j);
            let ghost k = q[j as int].0;
            proof {
                lemma_as_map_at(q, j as int);
                if i < m {
                    lemma_gap_has_no_name(p, i as int, k);
                } else {
                    lemma_gap_has_no_name(p, m as int, k);
                }
            }
            if !(format == Format::Short && is_modified(name.as_str())) {
                let shown = format_value(format, new.value_at(j).as_str(), now);
                out.push(FieldDiff { name: name.clone(), old_value: None, new_value: Some(shown) });
                proof {
                    assert(out@.drop_last() =~= before);
                    lemma_pushed(before, out@, k);
                }
            }
            proof {
                if j + 1 < n {
                    lemma_frontier_moves(out@, before, k, q[j + 1].0);
                    assert forall|x: int| 0 <= x < i implies name_lt(
                        #[trigger] p[x].0,
                        q[j + 1].0,
                    ) by {
                        lemma_name_transitive(p[x].0, k, q[j + 1].0);
                    }
                }
                if i < m {
                    lemma_frontier_moves(out@, before, k, p[i as int].0);
                }
                lemma_still_told(before, out@);
            }
            j += 1;
        } else {
            let name = old.name_at(i);
            let ghost k = p[i as int].0;
            proof {
                lemma_name_order(p[i as int].0, q[j as int].0);
                lemma_as_map_at(p, i as int);
                lemma_as_map_at(q, j as int);
            }
            let was = old.value_at(i);
            let is = new.value_at(j);
            if !(format == Format::Short && is_modified(name.as_str())) && !(*was == *is) {
                let shown_old = format_value(format, was.as_str(), now);
                let shown_new = format_value(format, is.as_str(), now);
                out.push(
                    FieldDiff {
                        name: name.clone(),
                        old_value: Some(shown_old),
                        new_value: Some(shown_new),
                    },
                );
                proof {
                    assert(out@.drop_last() =~= before);
                    lemma_pushed(before, out@, k);
                }
            }
            proof {
                if i + 1 < m {
                    lemma_frontier_moves(out@, before, k, p[i + 1].0);
                    assert forall|y: int| 0 <= y < j + 1 implies name_lt(
                        #[trigger] q[y].0,
                        p[i + 1].0,
                    ) by {
                        if y < j {
                            lemma_name_transitive(q[y].0, k, p[i + 1].0);
                        }
                    }
                }
                if j + 1 < n {
                    lemma_frontier_moves(out@, before, k, q[j + 1].0);
                    assert forall|x: int| 0 <= x < i + 1 implies name_lt(
                        #[trigger] p[x].0,
                        q[j + 1].0,
                    ) by {
                        if x < i {
                            lemma_name_transitive(p[x].0, k, q[j + 1].0);
                        }
                    }
                }
                lemma_still_told(before, out@);
            }
            i += 1;
            j += 1;
        }
    }
    proof {
        assert forall|k: Seq<char>| tells_of(out@, k) <==> is_listed(format, old@, new@, k) by {
            if is_listed(format, old@, new@, k) {
                if has_name(p, k) {
                    let x = choose|x: int| 0 <= x < p.len() && #[trigger] p[x].0 == k;
                    assert(tells_of(out@, p[x].0));
                } else {
                    let y = choose|y: int| 0 <= y < q.len() && #[trigger] q[y].0 == k;
                    assert(tells_of(out@, q[y].0));
                }
            }
        }
    }
    out
}

/// Every field of `fields` in ascending order of the names, each with its
/// value as seen from `now`. No field is left out, whatever the format.
pub fn new_fields(format: Format, fields: &AttributeMap, now: i64) -> (list: Vec<(String, String)>)
    requires
        fields.wf(),
    ensures
        is_listing(list@, format, fields@, now as int),
{
    let ghost p = fields.pairs();
    let n = fields.len();
    let mut out: Vec<(String, String)> = Vec::new();
    let mut i: usize = 0;
    while i < n
        invariant
            p == fields.pairs(),
            ascending(p),
            n == p.len(),
            i <= n,
            out.len() == i,
            forall|a: int| 0 <= a < i ==> (#[trigger] out[a]).0@ == p[a].0,
            forall|a: int|
                0 <= a < i ==> shows_value((#[trigger] out[a]).1@, format, p[a].1, now as int),
        decreases n - i,
    {
        let shown = format_value(format, fields.value_at(i).as_str(), now);
        out.push((fields.name_at(i).clone(), shown));
        i += 1;
    }
    proof {
        let list = out@;
        assert forall|a: int, b: int| 0 <= a < b < list.len() implies name_lt(
            #[trigger] list[a].0@,
            #[trigger] list[b].0@,
        ) by {
            assert(name_lt(p[a].0, p[b].0));
        }
        assert forall|k: Seq<char>|
            fields@.contains_key(k) <==> exists|a: int|
                0 <= a < list.len() && #[trigger] list[a].0@ == k by {
            if has_name(p, k) {
                let x = choose|x: int| 0 <= x < p.len() && #[trigger] p[x].0 == k;
                assert(list[x].0@ == k);
            }
            if exists|a: int| 0 <= a < list.len() && #[trigger] list[a].0@ == k {
                let a = choose|a: int| 0 <= a < list.len() && #[trigger] list[a].0@ == k;
                assert(p[a].0 == k);
            }
        }
        assert forall|a: int| 0 <= a < list.len() implies fields@.contains_key(
            #[trigger] list[a].0@,
        ) && shows_value(list[a].1@, format, fields@[list[a].0@], now as int) by {
            lemma_as_map_at(p, a);
        }
    }
    out
}

/// Fields come out in strictly ascending order of their names, so none comes
/// out twice.
pub proof fn lemma_diff_names_ascend(
    ds: Seq<FieldDiff>,
    format: Format,
    old: Map<Seq<char>, Seq<char>>,
    new: Map<Seq<char>, Seq<char>>,
    now: int,
    a: int,
    b: int,
)
    requires
        is_diff(ds, format, old, new, now),
        0 <= a < b < ds.len(),
    ensures
        name_lt(ds[a].name@, ds[b].name@),
        ds[a].name@ != ds[b].name@,
{
    lemma_name_order(ds[a].name@, ds[b].name@);
}

/// A field to which both maps give the same value does not come out.
pub proof fn lemma_equal_values_are_left_out(
    ds: Seq<FieldDiff>,
    format: Format,
    old: Map<Seq<char>, Seq<char>>,
    new: Map<Seq<char>, Seq<char>>,
    now: int,
    k: Seq<char>,
)
    requires
        is_diff(ds, format, old, new, now),
        old.contains_key(k),
        new.contains_key(k),
        old[k] == new[k],
    ensures
        !tells_of(ds, k),
{
}

/// The field `modified` never comes out in the short format, and comes out
/// in the long format whenever the change touched it.
pub proof fn lemma_modified_by_format(
    ds: Seq<FieldDiff>,
    format: Format,
    old: Map<Seq<char>, Seq<char>>,
    new: Map<Seq<char>, Seq<char>>,
    now: int,
)
    requires
        is_diff(ds, format, old, new, now),
    ensures
        format == Format::Short ==> !tells_of(ds, "modified"@),
        format == Format::Long && (old.contains_key("modified"@) || new.contains_key("modified"@))
            && !(old.contains_key("modified"@) && new.contains_key("modified"@)
            && old["modified"@] == new["modified"@]) ==> tells_of(ds, "modified"@),
{
}

/// The names of `ds`, each as a field without a value.
pub open spec fn names_of(ds: Seq<FieldDiff>) -> Seq<(Seq<char>, Seq<char>)> {
    Seq::new(ds.len(), |i: int| (ds[i].name@, Seq::<char>::empty()))
}

/// Two lists with ascending names that tell of the same fields name them in
/// the same order.
pub proof fn lemma_same_fields_same_names(ds: Seq<FieldDiff>, es: Seq<FieldDiff>)
    requires
        names_ascend(ds),
        names_ascend(es),
        forall|k: Seq<char>| tells_of(ds, k) <==> tells_of(es, k),
    ensures
        ds.len() == es.len(),
        forall|i: int| 0 <= i < ds.len() ==> (#[trigger] ds[i]).name@ == es[i].name@,
{
    let ps = names_of(ds);
    let qs = names_of(es);
    assert(ascending(ps)) by {
        assert forall|i: int, j: int| 0 <= i < j < ps.len() implies name_lt(
            #[trigger] ps[i].0,
            #[trigger] ps[j].0,
        ) by {
            assert(name_lt(ds[i].name@, ds[j].name@));
        }
    }
    assert(ascending(qs)) by {
        assert forall|i: int, j: int| 0 <= i < j < qs.len() implies name_lt(
            #[trigger] qs[i].0,
            #[trigger] qs[j].0,
        ) by {
            assert(name_lt(es[i].name@, es[j].name@));
        }
    }
    assert forall|k: Seq<char>| has_name(ps, k) <==> tells_of(ds, k) by {
        if has_name(ps, k) {
            let i = choose|i: int| 0 <= i < ps.len() && #[trigger] ps[i].0 == k;
            assert(ds[i].name@ == k);
        }
        if tells_of(ds, k) {
            let i = choose|i: int| 0 <= i < ds.len() && #[trigger] ds[i].name@ == k;
            assert(ps[i].0 == k);
        }
    }
    assert forall|k: Seq<char>| has_name(qs, k) <==> tells_of(es, k) by {
        if has_name(qs, k) {
            let i = choose|i: int| 0 <= i < qs.len() && #[trigger] qs[i].0 == k;
            assert(es[i].name@ == k);
        }
        if tells_of(es, k) {
            let i = choose|i: int| 0 <= i < es.len() && #[trigger] es[i].name@ == k;
            assert(qs[i].0 == k);
        }
    }
    assert(as_map(ps) =~= as_map(qs)) by {
        assert forall|k: Seq<char>| as_map(ps).contains_key(k) implies as_map(ps)[k] == as_map(
            qs,
        )[k] by {
            let i = index_of(ps, k);
            let j = index_of(qs, k);
            assert(ps[i].1 == qs[j].1);
        }
    }
    lemma_one_ascending_list(ps, qs);
    assert forall|i: int| 0 <= i < ds.len() implies (#[trigger] ds[i]).name@ == es[i].name@ by {
        assert(ps[i] == qs[i]);
    }
}

/// A change read backwards lists the same fields in the same order, with
/// what was and what is in each other's place. A value that is no moment in
/// time is shown alike both ways.
pub proof fn lemma_diff_mirrors(
    ds: Seq<FieldDiff>,
    es: Seq<FieldDiff>,
    format: Format,
    old: Map<Seq<char>, Seq<char>>,
    new: Map<Seq<char>, Seq<char>>,
    now: int,
)
    requires
        is_diff(ds, format, old, new, now),
        is_diff(es, format, new, old, now),
    ensures
        ds.len() == es.len(),
        forall|i: int|
            0 <= i < ds.len() ==> {
                &&& (#[trigger] ds[i]).name@ == es[i].name@
                &&& ds[i].old_value is Some <==> es[i].new_value is Some
                &&& ds[i].new_value is Some <==> es[i].old_value is Some
                &&& (ds[i].old_value is Some && (timestamp_of(old[ds[i].name@], now) is None))
                    ==> es[i].new_value->0@ == ds[i].old_value->0@
                &&& (ds[i].new_value is Some && (timestamp_of(new[ds[i].name@], now) is None))
                    ==> es[i].old_value->0@ == ds[i].new_value->0@
            },
{
    assert forall|k: Seq<char>| tells_of(ds, k) <==> tells_of(es, k) by {
        assert(is_listed(format, old, new, k) <==> is_listed(format, new, old, k));
    }
    lemma_same_fields_same_names(ds, es);
    assert forall|i: int| 0 <= i < ds.len() implies {
        &&& (#[trigger] ds[i]).name@ == es[i].name@
        &&& ds[i].old_value is Some <==> es[i].new_value is Some
        &&& ds[i].new_value is Some <==> es[i].old_value is Some
        &&& (ds[i].old_value is Some && (timestamp_of(old[ds[i].name@], now) is None))
            ==> es[i].new_value->0@ == ds[i].old_value->0@
        &&& (ds[i].new_value is Some && (timestamp_of(new[ds[i].name@], now) is None))
            ==> es[i].old_value->0@ == ds[i].new_value->0@
    } by {
        assert(is_diff_of(ds[i], format, old, new, now));
        assert(is_diff_of(es[i], format, new, old, now));
    }
}

/// An entry put behind a list whose names all come before its own.
proof fn lemma_pushed(before: Seq<FieldDiff>, after: Seq<FieldDiff>, k: Seq<char>)
    requires
        names_ascend(before),
        all_before(before, k),
        after.len() == before.len() + 1,
        after.drop_last() == before,
        after.last().name@ == k,
    ensures
        names_ascend(after),
        tells_of(after, k),
{
    assert forall|a: int, b: int| 0 <= a < b < after.len() implies name_lt(
        #[trigger] after[a].name@,
        #[trigger] after[b].name@,
    ) by {
        assert(before[a] == after[a]);
        if b < before.len() {
            assert(before[b] == after[b]);
            assert(name_lt(before[a].name@, before[b].name@));
        } else {
            assert(after[b] == after.last());
            assert(name_lt(before[a].name@, k));
        }
    }
    assert(after[after.len() - 1].name@ == k);
}

/// Once the field `k` is dealt with, every name of the list comes before a
/// name `next` behind `k`.
proof fn lemma_frontier_moves(
    after: Seq<FieldDiff>,
    before: Seq<FieldDiff>,
    k: Seq<char>,
    next: Seq<char>,
)
    requires
        all_before(before, k),
        name_lt(k, next),
        after == before || (after.len() == before.len() + 1 && after.drop_last() == before
            && after.last().name@ == k),
    ensures
        all_before(after, next),
{
    assert forall|a: int| 0 <= a < after.len() implies name_lt(#[trigger] after[a].name@, next) by {
        if a < before.len() {
            if after != before {
                assert(after.drop_last()[a] == after[a]);
            }
            lemma_name_transitive(before[a].name@, k, next);
        } else {
            assert(after[a] == after.last());
        }
    }
}

/// What a list tells of it still tells of when an entry is put behind it.
proof fn lemma_still_told(before: Seq<FieldDiff>, after: Seq<FieldDiff>)
    requires
        after == before || (after.len() == before.len() + 1 && after.drop_last() == before),
    ensures
        forall|k: Seq<char>| tells_of(before, k) ==> tells_of(after, k),
{
    assert forall|k: Seq<char>| tells_of(before, k) implies tells_of(after, k) by {
        let a = choose|a: int| 0 <= a < before.len() && #[trigger] before[a].name@ == k;
        if after != before {
            assert(after.drop_last()[a] == after[a]);
        }
        assert(after[a].name@ == k);
    }
}


/// The place of the first hyphen of `s` at or behind `i`; the end of `s`
/// where there is none.
pub open spec fn hyphen_at(s: Seq<char>, i: int) -> int
    decreases s.len() - i,
{
    if 0 <= i < s.len() && s[i] != '-' {
        hyphen_at(s, i + 1)
    } else {
        i
    }
}

/// The part of `uuid` before its first hyphen; all of it where it has none.
pub open spec fn first_segment(uuid: Seq<char>) -> Seq<char> {
    uuid.take(hyphen_at(uuid, 0))
}

/// Cuts `uuid` off before its first hyphen.
pub fn segment(uuid: &str) -> (r: String)
    ensures
        r@ == first_segment(uuid@),
{
    let n = uuid.unicode_len();
    let mut k: usize = 0;
    let mut found = false;
    for c in it: uuid.chars()
        invariant
            it.seq() == uuid@,
            n == uuid@.len(),
            k <= it.index(),
            !found ==> k == it.index(),
            found ==> k < n,
            hyphen_at(uuid@, 0) == if found {
                k as int
            } else {
                hyphen_at(uuid@, k as int)
            },
    {
        if !found {
            if c == '-' {
                found = true;
            } else {
                k += 1;
            }
        }
    }
    uuid.substring_char(0, k).to_owned()
}

/// How a header names the task `task`, whose UUID is `uuid`: by its number
/// where it has one that is not 0, else by the first part of its UUID.
pub open spec fn ident_of(task: Task, uuid: Seq<char>) -> Seq<char> {
    match task.id {
        Some(n) => if n != 0 {
            decimal_text(n as int)
        } else {
            first_segment(uuid)
        },
        None => first_segment(uuid),
    }
}

/// What a header says of the task that a change is about: how it names the
/// task and the task's title, where the change gives a UUID under which a
/// task is known; nothing otherwise.
pub open spec fn label_of(new: Map<Seq<char>, Seq<char>>, tasks: Map<Seq<char>, Task>) -> Option<
    (Seq<char>, Option<Seq<char>>),
> {
    if new.contains_key("uuid"@) && tasks.contains_key(new["uuid"@]) {
        let task = tasks[new["uuid"@]];
        Some((ident_of(task, new["uuid"@]), text_of(task.description)))
    } else {
        None
    }
}

/// Finds what a header says of the task that `change` is about.
pub fn label(tasks: &TaskIndex, change: &Change) -> (r: Option<Label>)
    requires
        tasks.wf(),
        change.wf(),
    ensures
        match r {
            Some(l) => label_of(change@.new, tasks@) == Some((l.ident@, text_of(l.title))),
            None => label_of(change@.new, tasks@) is None,
        },
{
    match change.new.get("uuid") {
        Some(uuid) => match tasks.get(uuid.as_str()) {
            Some(task) => {
                let ident = match task.id {
                    Some(n) => if n != 0 {
                        decimal(n as i64)
                    } else {
                        segment(uuid.as_str())
                    },
                    None => segment(uuid.as_str()),
                };
                let title = match &task.description {
                    Some(d) => Some(d.clone()),
                    None => None,
                };
                Some(Label { ident, title })
            },
            None => None,
        },
        None => None,
    }
}

/// Whether `body` tells what the change did: all fields of a change that
/// made a task, which has nothing before it; the difference between before
/// and after for any other, also where nothing but an empty list of fields
/// stands before it.
pub open spec fn is_body(body: Body, format: Format, change: Record, now: int) -> bool {
    match change.old {
        None => body matches Body::Created(rows) && is_listing(rows@, format, change.new, now),
        Some(old) => body matches Body::Modified(ds) && is_diff(
            ds@,
            format,
            old,
            change.new,
            now,
        ),
    }
}

/// Tells what `change` did, field by field.
pub fn body(format: Format, change: &Change, now: i64) -> (r: Body)
    requires
        change.wf(),
    ensures
        is_body(r, format, change@, now as int),
{
    match &change.old {
        None => Body::Created(new_fields(format, &change.new, now)),
        Some(old) => Body::Modified(diff(format, &change.new, old, now)),
    }
}

/// Whether `label` is the plain label `plain` with its title in bold: the
/// same name for the task, and the title in bold where `plain` has one.
pub open spec fn paints_label(
    label: Option<Label>,
    plain: Option<(Seq<char>, Option<Seq<char>>)>,
) -> bool {
    match (label, plain) {
        (Some(l), Some((ident, title))) => l.ident@ == ident && match (l.title, title) {
            (Some(painted), Some(t)) => is_painted(painted@, t, bold_mark()),
            (None, None) => true,
            _ => false,
        },
        (None, None) => true,
        _ => false,
    }
}

/// Whether `clock` is the time of a change as a header gives it: the local
/// time as the clock writes it, or the number of seconds where the clock
/// knows no local time of the moment.
pub open spec fn is_header_clock(clock: Seq<char>, time: i64) -> bool {
    if clock_places(time as int) {
        is_clock_text(clock, false)
    } else {
        clock == decimal_text(time as int)
    }
}

/// Whether `text` shows the change: laid out as a header line, the fields
/// and an empty line. The header gives the time of the change and names the
/// task that the change is about, where it is known. The fields are those
/// that the change lists, one for one, each in its colours.
pub open spec fn is_shown(
    text: Seq<char>,
    format: Format,
    change: Record,
    tasks: Map<Seq<char>, Task>,
    now: int,
) -> bool {
    exists|clock: Seq<char>, label: Option<Label>, painted: Body, plain: Body|
        #![trigger block_layout(format, clock, label, painted), paints(painted, plain)]
        {
            &&& text == block_layout(format, clock, label, painted)
            &&& is_header_clock(clock, change.time)
            &&& paints_label(label, label_of(change.new, tasks))
            &&& paints(painted, plain)
            &&& is_body(plain, format, change, now)
        }
}

/// Shows one change as text: a header with the local time of the change and
/// the task it is about, then the fields, then an empty line. A time of
/// which the clock knows no local time is written as its number of seconds.
pub fn show(format: Format, task_db: &TaskDb, change: &Change, now: i64) -> (text: String)
    requires
        task_db.tasks.wf(),
        change.wf(),
    ensures
        is_shown(text@, format, change@, task_db.tasks@, now as int),
{
    proof {
        reveal_strlit("%F %X");
        reveal_strlit("%F %X %Z");
        assert("%F %X"@.len() != "%F %X %Z"@.len());
    }
    let clock = match local_time(change.time, "%F %X") {
        Some(c) => c,
        None => decimal(change.time),
    };
    let label = match label(&task_db.tasks, change) {
        Some(l) => Some(
            Label {
                ident: l.ident,
                title: match l.title {
                    Some(t) => Some(bold(t.as_str())),
                    None => None,
                },
            },
        ),
        None => None,
    };
    let plain = body(format, change, now);
    let painted = paint(&plain);
    let text = block_text(format, clock.as_str(), &label, &painted);
    proof {
        assert(text@ == block_layout(format, clock@, label, painted));
        assert(paints(painted, plain));
    }
    text
}

} // verus!
