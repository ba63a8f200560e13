//! What is known of the tasks: where the task manager keeps its data, the
//! journal of their changes, and the tasks as they are now, found by their
//! UUID.

pub mod undodata;

pub use undodata::Change;

use crate::attrs::same_name;
use undodata::{entries_end, journal_of, parse, records, ParseError};
use vstd::prelude::*;
use vstd::slice::*;
use vstd::string::*;
use vstd::utf8::*;

verus! {

/// A task as the task manager exports it.
#[derive(Clone, Debug, PartialEq, Eq)]
pub struct Task {
    /// The task's number in the list of pending tasks; 0 or none for a task
    /// that is not pending.
    pub id: Option<isize>,
    /// The task's UUID.
    pub uuid: Option<String>,
    /// What the task is about.
    pub description: Option<String>,
    /// The project that the task belongs to.
    pub project: Option<String>,
    /// Whether the task is pending, completed, deleted and so on.
    pub status: Option<String>,
}

/// The UUID of `t` as the contracts see it.
pub open spec fn uuid_of(t: Task) -> Option<Seq<char>> {
    match t.uuid {
        Some(u) => Some(u@),
        None => None,
    }
}

/// Every task of `ts` has a UUID, and no two have the same.
pub open spec fn distinct_uuids(ts: Seq<Task>) -> bool {
    &&& forall|i: int| 0 <= i < ts.len() ==> uuid_of(#[trigger] ts[i]) is Some
    &&& forall|i: int, j: int|
        0 <= i < j < ts.len() ==> uuid_of(#[trigger] ts[i]) != uuid_of(#[trigger] ts[j])
}

/// Some task of `ts` has the UUID `k`.
pub open spec fn has_uuid(ts: Seq<Task>, k: Seq<char>) -> bool {
    exists|i: int| 0 <= i < ts.len() && uuid_of(#[trigger] ts[i]) == Some(k)
}

/// The place of a task with the UUID `k` in `ts`.
pub open spec fn place_of(ts: Seq<Task>, k: Seq<char>) -> int {
    choose|i: int| 0 <= i < ts.len() && uuid_of(#[trigger] ts[i]) == Some(k)
}

/// The mapping from UUIDs to tasks that `ts` stands for.
pub open spec fn by_uuid(ts: Seq<Task>) -> Map<Seq<char>, Task> {
    Map::new(|k: Seq<char>| has_uuid(ts, k), |k: Seq<char>| ts[place_of(ts, k)])
}

/// Where no two tasks share a UUID, the mapping gives each UUID the task
/// that has it.
pub proof fn lemma_by_uuid_at(ts: Seq<Task>, i: int)
    requires
        distinct_uuids(ts),
        0 <= i < ts.len(),
    ensures
        by_uuid(ts).contains_key(uuid_of(ts[i])->0),
        by_uuid(ts)[uuid_of(ts[i])->0] == ts[i],
{
    let k = uuid_of(ts[i])->0;
    assert(has_uuid(ts, k));
    let j = place_of(ts, k);
    if j < i {
        assert(uuid_of(ts[j]) != uuid_of(ts[i]));
    }
    if i < j {
        assert(uuid_of(ts[i]) != uuid_of(ts[j]));
    }
}

/// Where no two tasks share a UUID, the mapping has as many UUIDs as there
/// are tasks.
pub proof fn lemma_by_uuid_len(ts: Seq<Task>)
    requires
        distinct_uuids(ts),
    ensures
        by_uuid(ts).dom().finite(),
        by_uuid(ts).len() == ts.len(),
    decreases ts.len(),
{
    if ts.len() == 0 {
        assert(by_uuid(ts).dom() =~= Set::<Seq<char>>::empty());
    } else {
        let rest = ts.drop_last();
        let task = ts.last();
        let k = uuid_of(task)->0;
        assert(uuid_of(ts[ts.len() - 1]) is Some);
        assert forall|i: int| 0 <= i < rest.len() implies uuid_of(#[trigger] rest[i]) is Some by {
            assert(rest[i] == ts[i]);
        }
        assert forall|i: int, j: int| 0 <= i < j < rest.len() implies uuid_of(#[trigger] rest[i])
            != uuid_of(#[trigger] rest[j]) by {
            assert(rest[i] == ts[i]);
            assert(rest[j] == ts[j]);
        }
        if has_uuid(rest, k) {
            let j = place_of(rest, k);
            assert(rest[j] == ts[j]);
            assert(uuid_of(ts[j]) != uuid_of(ts[ts.len() - 1]));
        }
        lemma_task_added(rest, task);
        assert(rest.push(task) =~= ts);
        lemma_by_uuid_len(rest);
        assert(by_uuid(ts).dom() =~= by_uuid(rest).dom().insert(k));
    }
}

/// The tasks that are known, each found by its UUID.
#[derive(Clone, Debug)]
pub struct TaskIndex {
    tasks: Vec<Task>,
}

impl View for TaskIndex {
    type V = Map<Seq<char>, Task>;

    /// The mapping from each UUID to the task that has it.
    open spec fn view(&self) -> Map<Seq<char>, Task> {
        by_uuid(self.listed())
    }
}

impl TaskIndex {
    /// The tasks in the order in which the index keeps them.
    pub closed spec fn listed(&self) -> Seq<Task> {
        self.tasks@
    }

    /// Every task has a UUID, and no two have the same.
    pub open spec fn wf(&self) -> bool {
        distinct_uuids(self.listed())
    }

    /// An index without tasks.
    pub fn new() -> (index: TaskIndex)
        ensures
            index.wf(),
            index.listed() == Seq::<Task>::empty(),
            index@ == Map::<Seq<char>, Task>::empty(),
    {
        let index = TaskIndex { tasks: Vec::new() };
        assert(index.listed() =~= Seq::<Task>::empty());
        assert(index@ =~= Map::<Seq<char>, Task>::empty());
        index
    }

    /// An index has as many tasks as its view has UUIDs.
    pub proof fn lemma_len(self)
        requires
            self.wf(),
        ensures
            self@.dom().finite(),
            self@.len() == self.listed().len(),
    {
        lemma_by_uuid_len(self.listed());
    }

    /// The number of tasks.
    pub fn len(&self) -> (n: usize)
        ensures
            n == self.listed().len(),
            self.wf() ==> self@.dom().finite() && n == self@.len(),
    {
        proof {
            if self.wf() {
                lemma_by_uuid_len(self.listed());
            }
        }
        self.tasks.len()
    }

    /// The place of the task with the UUID `uuid`, if there is one.
    fn place(&self, uuid: &str) -> (r: Option<usize>)
        requires
            self.wf(),
        ensures
            match r {
                Some(i) => i < self.listed().len() && uuid_of(self.listed()[i as int]) == Some(
                    uuid@,
                ),
                None => !has_uuid(self.listed(), uuid@),
            },
    {
        let mut i: usize = 0;
        while i < self.tasks.len()
            invariant
                i <= self.tasks@.len(),
                self.wf(),
                forall|j: int| 0 <= j < i ==> uuid_of(#[trigger] self.listed()[j]) != Some(uuid@),
            decreases self.tasks@.len() - i,
        {
            match &self.tasks[i].uuid {
                Some(u) => {
                    if same_name(u.as_str(), uuid) {
                        return Some(i);
                    }
                },
                None => {},
            }
            i += 1;
        }
        None
    }

    /// The task with the UUID `uuid`, if there is one.
    pub fn get(&self, uuid: &str) -> (task: Option<&Task>)
        requires
            self.wf(),
        ensures
            match task {
                Some(t) => self@.contains_key(uuid@) && self@[uuid@] == *t,
                None => !self@.contains_key(uuid@),
            },
    {
        match self.place(uuid) {
            Some(i) => {
                proof {
                    lemma_by_uuid_at(self.listed(), i as int);
                }
                Some(&self.tasks[i])
            },
            None => None,
        }
    }

    /// Puts `task` into the index, in the place of the task that had its
    /// UUID, if there was one.
    pub fn insert(&mut self, task: Task)
        requires
            old(self).wf(),
            task.uuid is Some,
        ensures
            final(self).wf(),
            final(self)@ == old(self)@.insert(uuid_of(task)->0, task),
    {
        let ghost before = self.listed();
        let ghost k = uuid_of(task)->0;
        let found = match &task.uuid {
            Some(u) => self.place(u.as_str()),
            None => None,
        };
        match found {
            Some(i) => {
                self.tasks.set(i, task);
                proof {
                    lemma_task_replaced(before, i as int, task);
                }
            },
            None => {
                self.tasks.push(task);
                proof {
                    lemma_task_added(before, task);
                }
            },
        }
    }
}

/// A task put in the place of the one that had its UUID.
pub proof fn lemma_task_replaced(ts: Seq<Task>, at: int, task: Task)
    requires
        distinct_uuids(ts),
        0 <= at < ts.len(),
        uuid_of(task) is Some,
        uuid_of(ts[at]) == uuid_of(task),
    ensures
        distinct_uuids(ts.update(at, task)),
        by_uuid(ts.update(at, task)) == by_uuid(ts).insert(uuid_of(task)->0, task),
{
    let us = ts.update(at, task);
    let k = uuid_of(task)->0;
    assert forall|i: int| 0 <= i < us.len() implies uuid_of(#[trigger] us[i]) == uuid_of(
        ts[i],
    ) by {}
    assert forall|i: int, j: int| 0 <= i < j < us.len() implies uuid_of(#[trigger] us[i])
        != uuid_of(#[trigger] us[j]) by {
        assert(uuid_of(ts[i]) != uuid_of(ts[j]));
    }
    let lhs = by_uuid(us);
    let rhs = by_uuid(ts).insert(k, task);
    assert forall|n: Seq<char>| lhs.contains_key(n) <==> rhs.contains_key(n) by {
        if has_uuid(us, n) {
            let j = place_of(us, n);
            assert(uuid_of(ts[j]) == Some(n));
        }
        if has_uuid(ts, n) {
            let j = place_of(ts, n);
            assert(uuid_of(us[j]) == Some(n));
        }
        if n == k {
            assert(uuid_of(us[at]) == Some(n));
        }
    }
    assert forall|n: Seq<char>| lhs.contains_key(n) implies lhs[n] == rhs[n] by {
        let j = place_of(us, n);
        lemma_by_uuid_at(us, j);
        if j != at {
            assert(us[j] == ts[j]);
            lemma_by_uuid_at(ts, j);
        }
    }
    assert(lhs =~= rhs);
}

/// A task with a new UUID put behind the others.
pub proof fn lemma_task_added(ts: Seq<Task>, task: Task)
    requires
        distinct_uuids(ts),
        uuid_of(task) is Some,
        !has_uuid(ts, uuid_of(task)->0),
    ensures
        distinct_uuids(ts.push(task)),
        by_uuid(ts.push(task)) == by_uuid(ts).insert(uuid_of(task)->0, task),
{
    let us = ts.push(task);
    let k = uuid_of(task)->0;
    assert forall|i: int| 0 <= i < us.len() implies uuid_of(#[trigger] us[i]) is Some by {
        if i < ts.len() {
            assert(us[i] == ts[i]);
        }
    }
    assert forall|i: int, j: int| 0 <= i < j < us.len() implies uuid_of(#[trigger] us[i])
        != uuid_of(#[trigger] us[j]) by {
        assert(us[i] == ts[i]);
        if j < ts.len() {
            assert(us[j] == ts[j]);
        } else {
            assert(uuid_of(ts[i]) is Some);
            if uuid_of(ts[i]) == Some(k) {
                assert(has_uuid(ts, k));
            }
        }
    }
    let lhs = by_uuid(us);
    let rhs = by_uuid(ts).insert(k, task);
    assert forall|n: Seq<char>| lhs.contains_key(n) <==> rhs.contains_key(n) by {
        if has_uuid(us, n) {
            let j = place_of(us, n);
            if j < ts.len() {
                assert(uuid_of(ts[j]) == Some(n));
            }
        }
        if has_uuid(ts, n) {
            let j = place_of(ts, n);
            assert(uuid_of(us[j]) == Some(n));
        }
        if n == k {
            assert(uuid_of(us[ts.len() as int]) == Some(n));
        }
    }
    assert forall|n: Seq<char>| lhs.contains_key(n) implies lhs[n] == rhs[n] by {
        let j = place_of(us, n);
        lemma_by_uuid_at(us, j);
        if j < ts.len() {
            assert(us[j] == ts[j]);
            lemma_by_uuid_at(ts, j);
            if n == k {
                assert(has_uuid(ts, k));
            }
        }
    }
    assert(lhs =~= rhs);
}

/// The mapping that a list of exported tasks stands for: a task without a
/// UUID is left out, and of two tasks with the same UUID the later counts.
pub open spec fn indexed(ts: Seq<Task>) -> Map<Seq<char>, Task>
    decreases ts.len(),
{
    if ts.len() == 0 {
        Map::<Seq<char>, Task>::empty()
    } else {
        match uuid_of(ts.last()) {
            Some(k) => indexed(ts.drop_last()).insert(k, ts.last()),
            None => indexed(ts.drop_last()),
        }
    }
}

/// Makes the index of the tasks that the task manager exported.
pub fn get_tasks(tasks: Vec<Task>) -> (index: TaskIndex)
    ensures
        index.wf(),
        index@ == indexed(tasks@),
{
    let ghost all = tasks@;
    let mut index = TaskIndex::new();
    for task in it: tasks
        invariant
            it.seq() == all,
            index.wf(),
            index@ == indexed(all.take(it.index() as int)),
    {
        let ghost n = it.index() as int;
        proof {
            assert(all.take(n + 1).drop_last() =~= all.take(n));
            assert(all.take(n + 1).last() == task);
        }
        if task.uuid.is_some() {
            index.insert(task);
        }
    }
    assert(all.take(all.len() as int) =~= all);
    index
}

/// The journal of changes and the tasks as they are now.
#[derive(Clone, Debug)]
pub struct TaskDb {
    /// The changes, the earliest first.
    pub changes: Vec<Change>,
    /// The tasks as they are now.
    pub tasks: TaskIndex,
}

impl TaskDb {
    /// The changes and the index are in order.
    pub open spec fn wf(&self) -> bool {
        &&& self.tasks.wf()
        &&& forall|k: int| 0 <= k < self.changes.len() ==> (#[trigger] self.changes[k]).wf()
    }

    /// Makes the database of the tasks that the task manager exported and of
    /// the bytes of its journal. A journal that cannot be read as a whole
    /// gives no change at all, and the error is handed back with the
    /// database.
    pub fn new(tasks: Vec<Task>, journal: &[u8]) -> (r: (TaskDb, Option<ParseError>))
        ensures
            r.0.wf(),
            r.0.tasks@ == indexed(tasks@),
            match journal_of(journal@) {
                Some(changes) => records(r.0.changes@) == changes && r.1 is None,
                None => {
                    &&& r.0.changes@.len() == 0
                    &&& r.1 matches Some(e) && e.offset == entries_end(journal@)
                },
            },
    {
        let tasks = get_tasks(tasks);
        match parse(journal) {
            Ok(changes) => (TaskDb { changes, tasks }, None),
            Err(e) => (TaskDb { changes: Vec::new(), tasks }, Some(e)),
        }
    }
}


/// Where the task manager keeps its data.
#[derive(Clone, Debug, PartialEq, Eq)]
pub struct DataLocation {
    /// Whether `path` is meant below the user's home directory.
    pub under_home: bool,
    /// The bytes of the path.
    pub path: Vec<u8>,
}

/// `memchr::memchr`: the first place at which `needle` stands in
/// `haystack`, or nothing where it stands nowhere.
#[verifier::external_body]
fn find_byte(needle: u8, haystack: &[u8]) -> (place: Option<usize>)
    ensures
        match place {
            Some(i) => i < haystack@.len() && haystack@[i as int] == needle && forall|j: int|
                0 <= j < i ==> #[trigger] haystack@[j] != needle,
            None => forall|j: int| 0 <= j < haystack@.len() ==> #[trigger] haystack@[j] != needle,
        },
{
    memchr::memchr(needle, haystack)
}

/// The place of the first newline at or behind `i`; the end of `s` where
/// there is none.
pub open spec fn newline_from(s: Seq<u8>, i: int) -> int
    decreases s.len() - i,
{
    if 0 <= i < s.len() && s[i] != 0x0a {
        newline_from(s, i + 1)
    } else {
        i
    }
}

/// `p` stands at the start of `s`.
pub open spec fn starts_with(s: Seq<u8>, p: Seq<u8>) -> bool {
    p.len() <= s.len() && s.take(p.len() as int) == p
}

/// The bytes with which the line of the setting starts.
pub open spec fn location_key() -> Seq<u8> {
    encode_utf8("data.location="@)
}

/// The bytes with which a path below the home directory starts.
pub open spec fn home_mark() -> Seq<u8> {
    encode_utf8("~/"@)
}

/// The value of the setting in the lines of `s` from `i` on: what follows
/// the key on the first line that starts with it. Only lines that end in a
/// newline count.
pub open spec fn setting_from(s: Seq<u8>, i: int) -> Option<Seq<u8>>
    decreases s.len() - i,
{
    let e = newline_from(s, i);
    if 0 <= i <= e < s.len() {
        if starts_with(s.subrange(i, e), location_key()) {
            Some(s.subrange(i + location_key().len(), e))
        } else {
            setting_from(s, e + 1)
        }
    } else {
        None
    }
}

/// Where the settings `s` say that the data are kept: the value of the
/// setting, taken below the home directory where it starts with `~/`.
pub open spec fn data_location_of(s: Seq<u8>) -> Option<(bool, Seq<u8>)> {
    match setting_from(s, 0) {
        Some(v) => if starts_with(v, home_mark()) {
            Some((true, v.skip(home_mark().len() as int)))
        } else {
            Some((false, v))
        },
        None => None,
    }
}

/// Whether `prefix` stands at the start of `bytes`.
fn has_prefix(bytes: &[u8], prefix: &[u8]) -> (r: bool)
    ensures
        r == starts_with(bytes@, prefix@),
{
    if prefix.len() > bytes.len() {
        return false;
    }
    let mut i: usize = 0;
    while i < prefix.len()
        invariant
            i <= prefix@.len() <= bytes@.len(),
            forall|j: int| 0 <= j < i ==> bytes@[j] == prefix@[j],
        decreases prefix@.len() - i,
    {
        if bytes[i] != prefix[i] {
            assert(bytes@.take(prefix@.len() as int)[i as int] != prefix@[i as int]);
            return false;
        }
        i += 1;
    }
    assert(bytes@.take(prefix@.len() as int) =~= prefix@);
    true
}

/// Finds in the settings that the task manager printed where it keeps its
/// data.
pub fn get_data_location(output: &[u8]) -> (r: Option<DataLocation>)
    ensures
        match r {
            Some(l) => data_location_of(output@) == Some((l.under_home, l.path@)),
            None => data_location_of(output@) is None,
        },
{
    let key = "data.location=".as_bytes();
    let mut last: usize = 0;
    loop
        invariant
            last <= output@.len(),
            key@ == location_key(),
            setting_from(output@, 0) == setting_from(output@, last as int),
        decreases output@.len() - last,
    {
        let rest = slice_subrange(output, last, output.len());
        match find_byte(0x0a, rest) {
            Some(at) => {
                let index = last + at;
                proof {
                    assert forall|j: int| last <= j < index implies output@[j] != 0x0a by {
                        assert(rest@[j - last] == output@[j]);
                    }
                    assert(rest@[at as int] == output@[index as int]);
                    lemma_newline_from(output@, last as int, index as int);
                }
                let line = slice_subrange(output, last, index);
                if has_prefix(line, key) {
                    let value = slice_subrange(output, last + key.len(), index);
                    let home = "~/".as_bytes();
                    return Some(
                        if has_prefix(value, home) {
                            DataLocation {
                                under_home: true,
                                path: slice_to_vec(
                                    slice_subrange(value, home.len(), value.len()),
                                ),
                            }
                        } else {
                            DataLocation { under_home: false, path: slice_to_vec(value) }
                        },
                    );
                }
                last = index + 1;
            },
            None => {
                proof {
                    assert forall|j: int| last <= j < output@.len() implies output@[j]
                        != 0x0a by {
                        assert(rest@[j - last] == output@[j]);
                    }
                    lemma_newline_from(output@, last as int, output@.len() as int);
                }
                return None;
            },
        }
    }
}

/// The first newline at or behind `i` stands at `e`, where no byte from `i`
/// up to `e` is a newline and `e` is one or the end.
pub proof fn lemma_newline_from(s: Seq<u8>, i: int, e: int)
    requires
        0 <= i <= e <= s.len(),
        forall|j: int| i <= j < e ==> s[j] != 0x0a,
        e < s.len() ==> s[e] == 0x0a,
    ensures
        newline_from(s, i) == e,
    decreases e - i,
{
    if i < e {
        lemma_newline_from(s, i + 1, e);
    }
}

} // verus!
