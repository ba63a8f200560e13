//! Attribute maps: the field names of a task, each with its raw value.
//!
//! A map keeps its fields in ascending order of their names, so that every
//! listing made from it comes out in the same order.

use crate::text::{bytes_lt, lemma_lex_total, lemma_lex_transitive, lex_lt};
use vstd::prelude::*;
use vstd::string::*;
use vstd::utf8::*;

verus! {

/// A field as the contracts see it: its name and its raw value.
pub type Pair = (Seq<char>, Seq<char>);

/// The name `a` comes strictly before the name `b`: the bytes of `a` precede
/// those of `b` in lexical order.
pub open spec fn name_lt(a: Seq<char>, b: Seq<char>) -> bool {
    lex_lt(encode_utf8(a), encode_utf8(b))
}

/// Names are totally ordered.
pub proof fn lemma_name_order(a: Seq<char>, b: Seq<char>)
    ensures
        a == b || name_lt(a, b) || name_lt(b, a),
        !(name_lt(a, b) && name_lt(b, a)),
        name_lt(a, b) ==> a != b,
{
    lemma_lex_total(encode_utf8(a), encode_utf8(b));
    encode_utf8_decode_utf8(a);
    encode_utf8_decode_utf8(b);
}

/// The order of names is transitive.
pub proof fn lemma_name_transitive(a: Seq<char>, b: Seq<char>, c: Seq<char>)
    requires
        name_lt(a, b),
        name_lt(b, c),
    ensures
        name_lt(a, c),
{
    lemma_lex_transitive(encode_utf8(a), encode_utf8(b), encode_utf8(c));
}

/// Decides whether the name `a` comes before the name `b`.
pub fn name_before(a: &str, b: &str) -> (r: bool)
    ensures
        r == name_lt(a@, b@),
{
    bytes_lt(a.as_bytes(), b.as_bytes())
}

/// Decides whether `a` and `b` are the same name.
pub fn same_name(a: &str, b: &str) -> (r: bool)
    ensures
        r == (a@ == b@),
{
    proof {
        lemma_name_order(a@, b@);
    }
    !name_before(a, b) && !name_before(b, a)
}

/// The names of `ps` are in strictly ascending order.
pub open spec fn ascending(ps: Seq<Pair>) -> bool {
    forall|i: int, j: int| 0 <= i < j < ps.len() ==> name_lt(#[trigger] ps[i].0, #[trigger] ps[j].0)
}

/// Some field of `ps` is named `k`.
pub open spec fn has_name(ps: Seq<Pair>, k: Seq<char>) -> bool {
    exists|i: int| 0 <= i < ps.len() && #[trigger] ps[i].0 == k
}

/// The place of a field named `k` in `ps`.
pub open spec fn index_of(ps: Seq<Pair>, k: Seq<char>) -> int {
    choose|i: int| 0 <= i < ps.len() && #[trigger] ps[i].0 == k
}

/// The mapping that a list of fields stands for.
pub open spec fn as_map(ps: Seq<Pair>) -> Map<Seq<char>, Seq<char>> {
    Map::new(|k: Seq<char>| has_name(ps, k), |k: Seq<char>| ps[index_of(ps, k)].1)
}

/// In an ascending list a name occurs at one place only, and the mapping
/// gives each name the value that stands beside it.
pub proof fn lemma_as_map_at(ps: Seq<Pair>, i: int)
    requires
        ascending(ps),
        0 <= i < ps.len(),
    ensures
        has_name(ps, ps[i].0),
        index_of(ps, ps[i].0) == i,
        as_map(ps).contains_key(ps[i].0),
        as_map(ps)[ps[i].0] == ps[i].1,
{
    let k = ps[i].0;
    assert(has_name(ps, k));
    let j = index_of(ps, k);
    if j < i {
        lemma_name_order(ps[j].0, ps[i].0);
    }
    if i < j {
        lemma_name_order(ps[i].0, ps[j].0);
    }
}

/// A name that lies strictly between two neighbours of an ascending list, or
/// before its first or behind its last field, does not occur in it.
pub proof fn lemma_gap_has_no_name(ps: Seq<Pair>, at: int, k: Seq<char>)
    requires
        ascending(ps),
        0 <= at <= ps.len(),
        forall|j: int| 0 <= j < at ==> name_lt(#[trigger] ps[j].0, k),
        at < ps.len() ==> name_lt(k, ps[at].0),
    ensures
        !has_name(ps, k),
        !as_map(ps).contains_key(k),
{
    if has_name(ps, k) {
        let j = index_of(ps, k);
        if j < at {
            lemma_name_order(ps[j].0, k);
        } else {
            if at < j {
                lemma_name_transitive(k, ps[at].0, ps[j].0);
            }
            lemma_name_order(k, ps[j].0);
        }
    }
}

/// Putting a new name into its gap keeps the list ascending and adds the
/// field to the mapping.
pub proof fn lemma_insert_at_gap(ps: Seq<Pair>, at: int, k: Seq<char>, v: Seq<char>)
    requires
        ascending(ps),
        0 <= at <= ps.len(),
        forall|j: int| 0 <= j < at ==> name_lt(#[trigger] ps[j].0, k),
        at < ps.len() ==> name_lt(k, ps[at].0),
    ensures
        ascending(ps.insert(at, (k, v))),
        as_map(ps.insert(at, (k, v))) == as_map(ps).insert(k, v),
{
    let qs = ps.insert(at, (k, v));
    assert forall|i: int, j: int| 0 <= i < j < qs.len() implies name_lt(
        #[trigger] qs[i].0,
        #[trigger] qs[j].0,
    ) by {
        if j == at {
            assert(qs[i] == ps[i]);
        } else if i == at {
            assert(qs[j] == ps[j - 1]);
            if at < j - 1 {
                lemma_name_transitive(k, ps[at].0, ps[j - 1].0);
            }
        } else {
            let pi = if i < at { i } else { i - 1 };
            let pj = if j < at { j } else { j - 1 };
            assert(qs[i] == ps[pi]);
            assert(qs[j] == ps[pj]);
        }
    }
    lemma_gap_has_no_name(ps, at, k);
    let lhs = as_map(qs);
    let rhs = as_map(ps).insert(k, v);
    assert forall|n: Seq<char>| lhs.contains_key(n) <==> rhs.contains_key(n) by {
        if has_name(qs, n) {
            let j = index_of(qs, n);
            if j < at {
                assert(ps[j].0 == n);
            } else if j > at {
                assert(ps[j - 1].0 == n);
            }
        }
        if has_name(ps, n) {
            let j = index_of(ps, n);
            let qj = if j < at { j } else { j + 1 };
            assert(qs[qj].0 == n);
        }
        if n == k {
            assert(qs[at].0 == n);
        }
    }
    assert forall|n: Seq<char>| lhs.contains_key(n) implies lhs[n] == rhs[n] by {
        let j = index_of(qs, n);
        lemma_as_map_at(qs, j);
        if j < at {
            assert(qs[j] == ps[j]);
            lemma_as_map_at(ps, j);
        } else if j > at {
            assert(qs[j] == ps[j - 1]);
            lemma_as_map_at(ps, j - 1);
        }
    }
    assert(lhs =~= rhs);
}

/// Giving a field that is there a new value keeps the list ascending and
/// changes that one value in the mapping.
pub proof fn lemma_update_at(ps: Seq<Pair>, at: int, v: Seq<char>)
    requires
        ascending(ps),
        0 <= at < ps.len(),
    ensures
        ascending(ps.update(at, (ps[at].0, v))),
        as_map(ps.update(at, (ps[at].0, v))) == as_map(ps).insert(ps[at].0, v),
{
    let k = ps[at].0;
    let qs = ps.update(at, (k, v));
    assert forall|i: int, j: int| 0 <= i < j < qs.len() implies name_lt(
        #[trigger] qs[i].0,
        #[trigger] qs[j].0,
    ) by {
        assert(qs[i].0 == ps[i].0);
        assert(qs[j].0 == ps[j].0);
    }
    let lhs = as_map(qs);
    let rhs = as_map(ps).insert(k, v);
    assert forall|n: Seq<char>| lhs.contains_key(n) <==> rhs.contains_key(n) by {
        if has_name(qs, n) {
            let j = index_of(qs, n);
            assert(ps[j].0 == n);
        }
        if has_name(ps, n) {
            let j = index_of(ps, n);
            assert(qs[j].0 == n);
        }
        if n == k {
            assert(qs[at].0 == n);
        }
    }
    assert forall|n: Seq<char>| lhs.contains_key(n) implies lhs[n] == rhs[n] by {
        let j = index_of(qs, n);
        lemma_as_map_at(qs, j);
        if j != at {
            assert(qs[j] == ps[j]);
            lemma_as_map_at(ps, j);
        }
    }
    assert(lhs =~= rhs);
}

/// The mapping of an ascending list without its last field is the mapping
/// of the list without that field's name.
pub proof fn lemma_as_map_drop_last(ps: Seq<Pair>)
    requires
        ascending(ps),
        ps.len() > 0,
    ensures
        ascending(ps.drop_last()),
        as_map(ps.drop_last()) == as_map(ps).remove(ps.last().0),
{
    let qs = ps.drop_last();
    let last = ps.len() - 1;
    assert forall|i: int, j: int| 0 <= i < j < qs.len() implies name_lt(
        #[trigger] qs[i].0,
        #[trigger] qs[j].0,
    ) by {
        assert(qs[i] == ps[i]);
        assert(qs[j] == ps[j]);
    }
    let lhs = as_map(qs);
    let rhs = as_map(ps).remove(ps.last().0);
    assert forall|n: Seq<char>| lhs.contains_key(n) <==> rhs.contains_key(n) by {
        if has_name(qs, n) {
            let j = index_of(qs, n);
            assert(qs[j] == ps[j]);
            assert(ps[j].0 == n);
            lemma_name_order(ps[j].0, ps[last].0);
        }
        if has_name(ps, n) && n != ps.last().0 {
            let j = index_of(ps, n);
            assert(qs[j].0 == n);
        }
    }
    assert forall|n: Seq<char>| lhs.contains_key(n) implies lhs[n] == rhs[n] by {
        let j = index_of(qs, n);
        lemma_as_map_at(qs, j);
        assert(qs[j] == ps[j]);
        lemma_as_map_at(ps, j);
    }
    assert(lhs =~= rhs);
}

/// The name of the last field of an ascending list is the last of all its
/// names.
pub proof fn lemma_last_is_greatest(ps: Seq<Pair>, k: Seq<char>)
    requires
        ascending(ps),
        has_name(ps, k),
    ensures
        k == ps.last().0 || name_lt(k, ps.last().0),
{
    let j = index_of(ps, k);
    if j < ps.len() - 1 {
        assert(name_lt(ps[j].0, ps[ps.len() - 1].0));
    }
}

/// A mapping has one ascending list only: two ascending lists that stand
/// for the same mapping hold the same fields in the same order.
pub proof fn lemma_one_ascending_list(ps: Seq<Pair>, qs: Seq<Pair>)
    requires
        ascending(ps),
        ascending(qs),
        as_map(ps) == as_map(qs),
    ensures
        ps == qs,
    decreases ps.len(),
{
    if ps.len() == 0 {
        if qs.len() > 0 {
            lemma_as_map_at(qs, 0);
            assert(as_map(ps).contains_key(qs[0].0));
            assert(has_name(ps, qs[0].0));
        }
        assert(ps =~= qs);
    } else {
        let a = ps.last();
        lemma_as_map_at(ps, ps.len() - 1);
        assert(as_map(qs).contains_key(a.0));
        assert(has_name(qs, a.0));
        let b = qs.last();
        lemma_as_map_at(qs, qs.len() - 1);
        assert(as_map(ps).contains_key(b.0));
        assert(has_name(ps, b.0));
        lemma_last_is_greatest(qs, a.0);
        lemma_last_is_greatest(ps, b.0);
        lemma_name_order(a.0, b.0);
        assert(a.0 == b.0);
        assert(a == b);
        lemma_as_map_drop_last(ps);
        lemma_as_map_drop_last(qs);
        lemma_one_ascending_list(ps.drop_last(), qs.drop_last());
        assert(ps =~= ps.drop_last().push(a));
        assert(qs =~= qs.drop_last().push(b));
    }
}

/// The mapping of an ascending list has as many names as the list has
/// fields.
pub proof fn lemma_as_map_len(ps: Seq<Pair>)
    requires
        ascending(ps),
    ensures
        as_map(ps).dom().finite(),
        as_map(ps).len() == ps.len(),
    decreases ps.len(),
{
    if ps.len() == 0 {
        assert(as_map(ps).dom() =~= Set::<Seq<char>>::empty());
    } else {
        let k = ps.last().0;
        lemma_as_map_drop_last(ps);
        lemma_as_map_len(ps.drop_last());
        lemma_as_map_at(ps, ps.len() - 1);
        let less = as_map(ps.drop_last()).dom();
        assert(as_map(ps).dom() =~= less.insert(k));
        assert(!less.contains(k));
    }
}

/// The fields of a task at one moment: each name once, with its raw value.
#[derive(Clone, Debug, PartialEq, Eq)]
pub struct AttributeMap {
    entries: Vec<(String, String)>,
}

impl View for AttributeMap {
    type V = Map<Seq<char>, Seq<char>>;

    /// The mapping from each field's name to its raw value.
    open spec fn view(&self) -> Map<Seq<char>, Seq<char>> {
        as_map(self.pairs())
    }
}

impl AttributeMap {
    /// The fields in the order in which the map keeps them.
    pub closed spec fn pairs(&self) -> Seq<Pair> {
        Seq::new(self.entries@.len(), |i: int| (self.entries@[i].0@, self.entries@[i].1@))
    }

    /// The fields are kept in strictly ascending order of their names, so no
    /// name occurs twice.
    pub open spec fn wf(&self) -> bool {
        ascending(self.pairs())
    }

    /// Two maps with the same fields keep them in the same order.
    pub proof fn lemma_same_fields_same_order(self, other: AttributeMap)
        requires
            self.wf(),
            other.wf(),
            self@ == other@,
        ensures
            self.pairs() == other.pairs(),
    {
        lemma_one_ascending_list(self.pairs(), other.pairs());
    }

    /// A map without fields.
    pub fn new() -> (m: AttributeMap)
        ensures
            m.wf(),
            m.pairs() == Seq::<Pair>::empty(),
            m@ == Map::<Seq<char>, Seq<char>>::empty(),
    {
        let m = AttributeMap { entries: Vec::new() };
        assert(m.pairs() =~= Seq::<Pair>::empty());
        assert(m@ =~= Map::<Seq<char>, Seq<char>>::empty());
        m
    }

    /// A map has as many fields as its view has names.
    pub proof fn lemma_len(self)
        requires
            self.wf(),
        ensures
            self@.dom().finite(),
            self@.len() == self.pairs().len(),
    {
        lemma_as_map_len(self.pairs());
    }

    /// The number of fields.
    pub fn len(&self) -> (n: usize)
        ensures
            n == self.pairs().len(),
            self.wf() ==> self@.dom().finite() && n == self@.len(),
    {
        proof {
            if self.wf() {
                lemma_as_map_len(self.pairs());
            }
        }
        self.entries.len()
    }

    /// The name of the field at place `i`.
    pub fn name_at(&self, i: usize) -> (name: &String)
        requires
            i < self.pairs().len(),
        ensures
            name@ == self.pairs()[i as int].0,
    {
        &self.entries[i].0
    }

    /// The raw value of the field at place `i`.
    pub fn value_at(&self, i: usize) -> (value: &String)
        requires
            i < self.pairs().len(),
        ensures
            value@ == self.pairs()[i as int].1,
    {
        &self.entries[i].1
    }

    /// The first place whose name does not come before `key`, and whether
    /// the field there is named `key`.
    fn position(&self, key: &str) -> (r: (usize, bool))
        requires
            self.wf(),
        ensures
            r.0 <= self.pairs().len(),
            forall|j: int| 0 <= j < r.0 ==> name_lt(#[trigger] self.pairs()[j].0, key@),
            r.1 ==> r.0 < self.pairs().len() && self.pairs()[r.0 as int].0 == key@,
            !r.1 && r.0 < self.pairs().len() ==> name_lt(key@, self.pairs()[r.0 as int].0),
    {
        let wanted = key.as_bytes();
        let mut i: usize = 0;
        while i < self.entries.len()
            invariant
                i <= self.entries@.len(),
                wanted@ == encode_utf8(key@),
                forall|j: int| 0 <= j < i ==> name_lt(#[trigger] self.pairs()[j].0, key@),
            decreases self.entries@.len() - i,
        {
            let here = self.entries[i].0.as_str().as_bytes();
            if bytes_lt(here, wanted) {
                i += 1;
            } else {
                let found = !bytes_lt(wanted, here);
                proof {
                    lemma_name_order(self.pairs()[i as int].0, key@);
                }
                return (i, found);
            }
        }
        (i, false)
    }

    /// The raw value of the field named `key`, if the map has one.
    pub fn get(&self, key: &str) -> (value: Option<&String>)
        requires
            self.wf(),
        ensures
            match value {
                Some(v) => self@.contains_key(key@) && self@[key@] == v@,
                None => !self@.contains_key(key@),
            },
    {
        let (i, found) = self.position(key);
        if found {
            proof {
                lemma_as_map_at(self.pairs(), i as int);
            }
            Some(&self.entries[i].1)
        } else {
            proof {
                lemma_gap_has_no_name(self.pairs(), i as int, key@);
            }
            None
        }
    }

    /// Gives the field named `key` the value `value`, whether or not the map
    /// had such a field.
    pub fn insert(&mut self, key: String, value: String)
        requires
            old(self).wf(),
        ensures
            final(self).wf(),
            final(self)@ == old(self)@.insert(key@, value@),
    {
        let (i, found) = self.position(key.as_str());
        let ghost before = self.pairs();
        if found {
            proof {
                lemma_update_at(before, i as int, value@);
            }
            self.entries.set(i, (key, value));
            assert(self.pairs() =~= before.update(i as int, (before[i as int].0, value@)));
        } else {
            proof {
                lemma_insert_at_gap(before, i as int, key@, value@);
            }
            self.entries.insert(i, (key, value));
            assert(self.pairs() =~= before.insert(i as int, (key@, value@)));
        }
    }
}

} // verus!
