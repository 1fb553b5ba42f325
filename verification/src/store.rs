//! The task store and the identifier allocator.
//!
//! The store is the full set of tasks of one user, loaded from the
//! persisted document, mutated at most once per run, and written back
//! whole. It is a mapping from id to task; entries are held in insertion
//! order, but no caller may rely on the order.

use vstd::prelude::*;

use crate::status::StatusView;
use crate::status::TaskStatus;
use crate::task::Task;
use crate::task::TaskView;
use crate::timestamp::Timestamp;

verus! {

/// The error a mutation reports when the referenced task does not exist.
#[derive(Clone, Copy, PartialEq, Eq, Structural, Debug)]
pub enum TaskError {
    NotFound,
}

/// Entries of a store, as a sequence of id/task pairs.
pub type Entries = Seq<(u64, TaskView)>;

/// No identifier occurs twice.
pub open spec fn ids_unique(m: Entries) -> bool {
    forall|i: int, j: int| 0 <= i < j < m.len() ==> m[i].0 != m[j].0
}

/// Some entry carries the identifier `id`.
pub open spec fn contains_id(m: Entries, id: u64) -> bool {
    exists|i: int| 0 <= i < m.len() && m[i].0 == id
}

/// The position of the entry with identifier `id` (meaningful when
/// `contains_id` holds and ids are unique).
pub open spec fn index_of(m: Entries, id: u64) -> int {
    choose|i: int| 0 <= i < m.len() && m[i].0 == id
}

/// The task stored under `id`.
pub open spec fn task_of(m: Entries, id: u64) -> TaskView {
    m[index_of(m, id)].1
}

/// Every identifier lies in `1 ..= last`: the allocator is never behind
/// the store, so the next issued id is fresh.
pub open spec fn ids_bounded(m: Entries, last: u64) -> bool {
    forall|i: int| 0 <= i < m.len() ==> 1 <= #[trigger] m[i].0 <= last
}

/// Every task of the store was updated no earlier than it was created.
pub open spec fn times_ordered(m: Entries) -> bool {
    forall|i: int| 0 <= i < m.len() ==> (#[trigger] m[i].1).time_ordered()
}

/// Every task of the store satisfies [`TaskView::wf`].
pub open spec fn tasks_wf(m: Entries) -> bool {
    forall|i: int| 0 <= i < m.len() ==> (#[trigger] m[i].1).wf()
}

/// Storing `t` under `id`: replace the entry that carries `id`, or append
/// a new one when none does.
pub open spec fn spec_put(m: Entries, id: u64, t: TaskView) -> Entries {
    if contains_id(m, id) {
        m.update(index_of(m, id), (id, t))
    } else {
        m.push((id, t))
    }
}

/// With unique ids, `index_of` names the one position that carries `id`.
pub proof fn lemma_index_of(m: Entries, id: u64, i: int)
    requires
        ids_unique(m),
        0 <= i < m.len(),
        m[i].0 == id,
    ensures
        index_of(m, id) == i,
        contains_id(m, id),
{
    assert(contains_id(m, id));
    let j = index_of(m, id);
    if i < j {
        assert(m[i].0 != m[j].0);
    } else if j < i {
        assert(m[j].0 != m[i].0);
    }
}

/// The collection of all tasks of one user.
#[derive(Debug)]
pub struct TaskStore {
    pub entries: Vec<(u64, Task)>,
}

impl View for TaskStore {
    type V = Entries;

    open spec fn view(&self) -> Entries {
        self.entries@.map_values(|p: (u64, Task)| (p.0, p.1@))
    }
}

impl TaskStore {
    /// Unique identifiers and well-formed tasks.
    pub open spec fn wf(self) -> bool {
        &&& ids_unique(self@)
        &&& tasks_wf(self@)
    }

    /// The empty store.
    pub fn new() -> (r: TaskStore)
        ensures
            r@ == Seq::<(u64, TaskView)>::empty(),
            r.wf(),
    {
        let r = TaskStore { entries: Vec::new() };
        proof {
            assert(r@ =~= Seq::<(u64, TaskView)>::empty());
        }
        r
    }

    /// How many tasks the store holds.
    pub fn count(&self) -> (r: usize)
        ensures
            r == self@.len(),
    {
        self.entries.len()
    }

    /// The position of the entry with identifier `id`, if any.
    fn find_index(&self, id: u64) -> (r: Option<usize>)
        ensures
            match r {
                Some(i) => i < self@.len() && self@[i as int].0 == id,
                None => !contains_id(self@, id),
            },
    {
        let mut i: usize = 0;
        while i < self.entries.len()
            invariant
                i <= self@.len(),
                self@.len() == self.entries.len(),
                forall|j: int| 0 <= j < i ==> self@[j].0 != id,
            decreases self@.len() - i,
        {
            if self.entries[i].0 == id {
                return Some(i);
            }
            i += 1;
        }
        None
    }

    /// The task stored under `id`, if any.
    pub fn get(&self, id: u64) -> (r: Option<&Task>)
        requires
            self.wf(),
        ensures
            match r {
                Some(t) => contains_id(self@, id) && t@ == task_of(self@, id),
                None => !contains_id(self@, id),
            },
    {
        match self.find_index(id) {
            Some(i) => {
                proof {
                    lemma_index_of(self@, id, i as int);
                }
                Some(&self.entries[i].1)
            },
            None => None,
        }
    }

    /// Store `task` under `id`, replacing any entry that carries `id`.
    fn put(&mut self, id: u64, task: Task)
        requires
            old(self).wf(),
            task@.wf(),
        ensures
            final(self)@ == spec_put(old(self)@, id, task@),
            final(self).wf(),
            contains_id(final(self)@, id),
    {
        let ghost m = self@;
        match self.find_index(id) {
            Some(i) => {
                proof {
                    lemma_index_of(m, id, i as int);
                }
                self.entries[i] = (id, task);
                proof {
                    assert(self@ =~= m.update(i as int, (id, task@)));
                    lemma_index_of(self@, id, i as int);
                }
            },
            None => {
                self.entries.push((id, task));
                proof {
                    assert(self@ =~= m.push((id, task@)));
                    lemma_index_of(self@, id, m.len() as int);
                }
            },
        }
    }

    /// Create a task: allocate the next identifier, insert a new record
    /// with status `Todo` and both timestamps set to `now`, and hand the
    /// identifier back. Always succeeds.
    pub fn add(&mut self, alloc: &mut IdAllocator, description: String, now: Timestamp) -> (id:
        u64)
        requires
            old(self).wf(),
            now.wf(),
            old(alloc).last < u64::MAX,
            ids_bounded(old(self)@, old(alloc).last),
        ensures
            id == old(alloc).last + 1,
            final(alloc).last == id,
            final(self)@ == old(self)@.push(
                (
                    id,
                    TaskView {
                        description: description@,
                        status: StatusView::Todo,
                        created: now,
                        updated: now,
                    },
                ),
            ),
            final(self).wf(),
            ids_bounded(final(self)@, final(alloc).last),
            times_ordered(old(self)@) ==> times_ordered(final(self)@),
    {
        let id = alloc.allocate();
        let task = Task { description, status: TaskStatus::Todo, created: now, updated: now };
        proof {
            assert(!contains_id(self@, id));
            assert(task@.time_ordered());
        }
        let ghost m = self@;
        self.put(id, task);
        proof {
            if times_ordered(m) {
                assert(forall|i: int|
                    0 <= i < m.len() ==> #[trigger] self@[i] == m[i]);
                assert(times_ordered(self@));
            }
        }
        id
    }

    /// Replace the description of task `id`; status and creation time are
    /// preserved, the update time becomes `now`. Fails with `NotFound`,
    /// leaving the store unchanged, exactly when no task carries `id`.
    pub fn update(&mut self, id: u64, description: String, now: Timestamp) -> (r: Result<
        (),
        TaskError,
    >)
        requires
            old(self).wf(),
            now.wf(),
        ensures
            final(self).wf(),
            contains_id(old(self)@, id) ==> {
                &&& r is Ok
                &&& final(self)@ == spec_put(
                    old(self)@,
                    id,
                    TaskView {
                        description: description@,
                        status: task_of(old(self)@, id).status,
                        created: task_of(old(self)@, id).created,
                        updated: now,
                    },
                )
            },
            !contains_id(old(self)@, id) ==> r == Result::<(), TaskError>::Err(
                TaskError::NotFound,
            ) && final(self)@ == old(self)@,
            times_ordered(old(self)@) && (contains_id(old(self)@, id) ==> task_of(
                old(self)@,
                id,
            ).created.le(now)) ==> times_ordered(final(self)@),
    {
        let ghost m = self@;
        match self.find_index(id) {
            Some(i) => {
                proof {
                    lemma_index_of(m, id, i as int);
                }
                let old_task = &self.entries[i].1;
                proof {
                    assert(old_task@ == m[i as int].1);
                    assert(m[i as int].1.wf());
                }
                let task = Task {
                    description,
                    status: old_task.status.clone(),
                    created: old_task.created,
                    updated: now,
                };
                self.put(id, task);
                proof {
                    lemma_times_ordered_put(m, id, i as int, self@, now);
                }
                Ok(())
            },
            None => Err(TaskError::NotFound),
        }
    }

    /// Replace the status of task `id`; description and creation time are
    /// preserved, the update time becomes `now`. Fails with `NotFound`,
    /// leaving the store unchanged, exactly when no task carries `id`.
    pub fn set_status(&mut self, id: u64, status: TaskStatus, now: Timestamp) -> (r: Result<
        (),
        TaskError,
    >)
        requires
            old(self).wf(),
            now.wf(),
        ensures
            final(self).wf(),
            contains_id(old(self)@, id) ==> {
                &&& r is Ok
                &&& final(self)@ == spec_set_status(old(self)@, id, status@, now)
            },
            !contains_id(old(self)@, id) ==> r == Result::<(), TaskError>::Err(
                TaskError::NotFound,
            ) && final(self)@ == old(self)@,
            times_ordered(old(self)@) && (contains_id(old(self)@, id) ==> task_of(
                old(self)@,
                id,
            ).created.le(now)) ==> times_ordered(final(self)@),
    {
        let ghost m = self@;
        match self.find_index(id) {
            Some(i) => {
                proof {
                    lemma_index_of(m, id, i as int);
                }
                let old_task = &self.entries[i].1;
                proof {
                    assert(old_task@ == m[i as int].1);
                    assert(m[i as int].1.wf());
                }
                let task = Task {
                    description: old_task.description.clone(),
                    status,
                    created: old_task.created,
                    updated: now,
                };
                self.put(id, task);
                proof {
                    lemma_times_ordered_put(m, id, i as int, self@, now);
                }
                Ok(())
            },
            None => Err(TaskError::NotFound),
        }
    }

    /// Remove task `id`. Fails with `NotFound`, leaving the store
    /// unchanged, exactly when no task carries `id`.
    pub fn delete(&mut self, id: u64) -> (r: Result<(), TaskError>)
        requires
            old(self).wf(),
        ensures
            final(self).wf(),
            contains_id(old(self)@, id) ==> r is Ok && final(self)@ == old(self)@.remove(
                index_of(old(self)@, id),
            ),
            !contains_id(old(self)@, id) ==> r == Result::<(), TaskError>::Err(
                TaskError::NotFound,
            ) && final(self)@ == old(self)@,
            times_ordered(old(self)@) ==> times_ordered(final(self)@),
    {
        let ghost m = self@;
        match self.find_index(id) {
            Some(i) => {
                proof {
                    lemma_index_of(m, id, i as int);
                }
                self.entries.remove(i);
                proof {
                    assert(self@ =~= m.remove(i as int));
                    if times_ordered(m) {
                        assert(forall|j: int|
                            0 <= j < self@.len() ==> #[trigger] self@[j] == if j < i {
                                m[j]
                            } else {
                                m[j + 1]
                            });
                        assert(times_ordered(self@));
                    }
                }
                Ok(())
            },
            None => Err(TaskError::NotFound),
        }
    }

    /// The tasks a listing shows: every task when `all` is set, otherwise
    /// exactly those whose status equals `filter` — case-sensitive value
    /// equality, also for the free-text variant.
    pub fn list(&self, filter: &TaskStatus, all: bool) -> (r: Vec<(u64, Task)>)
        ensures
            pairs_view(r@) == if all {
                self@
            } else {
                entries_with_status(self@, filter@)
            },
    {
        let mut out: Vec<(u64, Task)> = Vec::new();
        proof {
            assert(pairs_view(out@) =~= Seq::<(u64, TaskView)>::empty());
            assert(self@.take(0) =~= Seq::<(u64, TaskView)>::empty());
        }
        let mut i: usize = 0;
        while i < self.entries.len()
            invariant
                i <= self@.len(),
                self@.len() == self.entries.len(),
                pairs_view(out@) == if all {
                    self@.take(i as int)
                } else {
                    entries_with_status(self@.take(i as int), filter@)
                },
            decreases self@.len() - i,
        {
            let ghost prefix = self@.take(i as int);
            let entry = &self.entries[i];
            proof {
                assert(self@[i as int] == (self.entries@[i as int].0, self.entries@[i as int].1@));
            }
            let matches = all || entry.1.status.status_eq(filter);
            proof {
                assert(entry.1.status@ == self@[i as int].1.status);
                assert(matches == (all || self@[i as int].1.status == filter@));
            }
            if matches {
                let ghost before = pairs_view(out@);
                out.push((entry.0, entry.1.clone()));
                proof {
                    assert(pairs_view(out@) =~= before.push(self@[i as int]));
                }
            }
            proof {
                assert(self@.take(i + 1) =~= prefix.push(self@[i as int]));
                if !all {
                    lemma_entries_with_status_push(prefix, self@[i as int], filter@);
                }
            }
            i += 1;
        }
        proof {
            assert(self@.take(self@.len() as int) =~= self@);
        }
        out
    }
}

/// A store stays time-ordered when one task is replaced by one created
/// no later than its new update time.
proof fn lemma_times_ordered_put(m: Entries, id: u64, i: int, m2: Entries, now: Timestamp)
    requires
        0 <= i < m.len(),
        m[i].0 == id,
        m2.len() == m.len(),
        forall|j: int| 0 <= j < m.len() && j != i ==> #[trigger] m2[j] == m[j],
        m2[i].1.updated == now,
        m2[i].1.created == m[i].1.created,
    ensures
        times_ordered(m) && m[i].1.created.le(now) ==> times_ordered(m2),
{
}

/// The entries whose task's status equals `f` — case-sensitive value
/// equality — kept in their stored order.
pub open spec fn entries_with_status(m: Entries, f: StatusView) -> Entries
    decreases m.len(),
{
    if m.len() == 0 {
        Seq::empty()
    } else {
        let rest = entries_with_status(m.drop_last(), f);
        if m.last().1.status == f {
            rest.push(m.last())
        } else {
            rest
        }
    }
}

/// Appending one entry extends the selection exactly when its status
/// matches.
pub proof fn lemma_entries_with_status_push(m: Entries, e: (u64, TaskView), f: StatusView)
    ensures
        entries_with_status(m.push(e), f) == if e.1.status == f {
            entries_with_status(m, f).push(e)
        } else {
            entries_with_status(m, f)
        },
{
    assert(m.push(e).drop_last() =~= m);
    assert(m.push(e).last() == e);
}

/// The view of a vector of id/task pairs, as [`TaskStore`]'s view takes it.
pub open spec fn pairs_view(v: Seq<(u64, Task)>) -> Entries {
    v.map_values(|p: (u64, Task)| (p.0, p.1@))
}

/// Storing under `id` a task that keeps the stored description and
/// creation time, carries status `st`, and is updated at `now`.
pub open spec fn spec_set_status(m: Entries, id: u64, st: StatusView, now: Timestamp) -> Entries {
    spec_put(m, id, task_of(m, id).with_status(st, now))
}

/// An entry is selected for status `f` exactly when the store holds it
/// and its task's status is `f`: a listing shows exactly the matching
/// tasks, no more and no fewer.
pub proof fn lemma_entries_with_status_contains(m: Entries, f: StatusView, e: (u64, TaskView))
    ensures
        entries_with_status(m, f).contains(e) <==> m.contains(e) && e.1.status == f,
    decreases m.len(),
{
    if m.len() > 0 {
        lemma_entries_with_status_contains(m.drop_last(), f, e);
        let rest = entries_with_status(m.drop_last(), f);
        if m.last().1.status == f {
            assert(entries_with_status(m, f) == rest.push(m.last()));
            if entries_with_status(m, f).contains(e) {
                if e == m.last() {
                    assert(m.contains(e)) by {
                        assert(m[m.len() - 1] == e);
                    }
                } else {
                    assert(rest.contains(e)) by {
                        let k = choose|k: int|
                            0 <= k < rest.push(m.last()).len() && rest.push(m.last())[k] == e;
                        assert(rest[k] == e);
                    }
                }
            }
        }
        if m.contains(e) && e.1.status == f {
            let k = choose|k: int| 0 <= k < m.len() && m[k] == e;
            if k == m.len() - 1 {
                assert(e == m.last());
            } else {
                assert(m.drop_last()[k] == e);
                assert(m.drop_last().contains(e));
            }
            if m.last().1.status == f {
                if rest.contains(e) {
                    let j = choose|j: int| 0 <= j < rest.len() && rest[j] == e;
                    assert(rest.push(m.last())[j] == e);
                } else {
                    assert(rest.push(m.last()).last() == e);
                }
                assert(entries_with_status(m, f).contains(e));
            }
        }
    }
}

/// How a creation changes the model: the new task is appended under the
/// next identifier, and the allocator advances to it.
pub open spec fn spec_add(m: Entries, last: u64, d: Seq<char>, now: Timestamp) -> (Entries, u64) {
    let id = (last + 1) as u64;
    (
        m.push(
            (id, TaskView { description: d, status: StatusView::Todo, created: now, updated: now }),
        ),
        id,
    )
}

/// The store and allocator after the first `n` of a run of creations,
/// starting from the empty store and a fresh allocator, with the given
/// descriptions and times.
pub open spec fn run_adds(ds: Seq<Seq<char>>, ts: Seq<Timestamp>, n: nat) -> (Entries, u64)
    decreases n,
{
    if n == 0 {
        (Seq::empty(), 0u64)
    } else {
        let (m, last) = run_adds(ds, ts, (n - 1) as nat);
        spec_add(m, last, ds[n - 1], ts[n - 1])
    }
}

/// Identifier monotonicity: `n` consecutive creations from the empty
/// store issue exactly the identifiers `1 ..= n`, in issuance order and
/// with no repeats, whatever the descriptions and times are.
pub proof fn lemma_add_ids_consecutive(ds: Seq<Seq<char>>, ts: Seq<Timestamp>, n: nat)
    requires
        n <= u64::MAX,
    ensures
        run_adds(ds, ts, n).1 == n,
        run_adds(ds, ts, n).0.len() == n,
        forall|k: int| 0 <= k < n ==> #[trigger] run_adds(ds, ts, n).0[k].0 == k + 1,
        ids_unique(run_adds(ds, ts, n).0),
        ids_bounded(run_adds(ds, ts, n).0, run_adds(ds, ts, n).1),
    decreases n,
{
    if n > 0 {
        lemma_add_ids_consecutive(ds, ts, (n - 1) as nat);
    }
}

/// Status idempotence: setting the same status twice keeps the task's
/// description and creation time, and the second call changes nothing
/// but the update time — the outcome equals one application at the
/// later time.
pub proof fn lemma_set_status_idempotent(
    m: Entries,
    id: u64,
    st: StatusView,
    t1: Timestamp,
    t2: Timestamp,
)
    requires
        ids_unique(m),
        contains_id(m, id),
    ensures
        ({
            let m1 = spec_set_status(m, id, st, t1);
            let m2 = spec_set_status(m1, id, st, t2);
            &&& task_of(m2, id).description == task_of(m, id).description
            &&& task_of(m2, id).created == task_of(m, id).created
            &&& task_of(m2, id).status == st
            &&& task_of(m2, id).updated == t2
            &&& m2 == spec_set_status(m, id, st, t2)
        }),
{
    let i = index_of(m, id);
    assert(0 <= i < m.len() && m[i].0 == id);
    let m1 = spec_set_status(m, id, st, t1);
    assert(m1 == m.update(i, (id, task_of(m, id).with_status(st, t1))));
    assert(ids_unique(m1)) by {
        assert(forall|j: int| 0 <= j < m1.len() ==> m1[j].0 == m[j].0);
    }
    lemma_index_of(m1, id, i);
    assert(task_of(m1, id) == task_of(m, id).with_status(st, t1));
    let m2 = spec_set_status(m1, id, st, t2);
    assert(m2 == m1.update(i, (id, task_of(m1, id).with_status(st, t2))));
    assert(task_of(m1, id).with_status(st, t2) == task_of(m, id).with_status(st, t2));
    assert(m2 =~= m.update(i, (id, task_of(m, id).with_status(st, t2))));
    lemma_index_of(m2, id, i);
}

/// Issues the strictly increasing task identifiers: it holds the last
/// issued id, persisted between runs by the caller.
#[derive(Clone, Copy, PartialEq, Eq, Structural, Debug)]
pub struct IdAllocator {
    /// The last id issued so far; `0` before the first task is created.
    pub last: u64,
}

impl IdAllocator {
    /// Resume the allocator from its persisted state.
    pub fn new(last: u64) -> (r: IdAllocator)
        ensures
            r.last == last,
    {
        IdAllocator { last }
    }

    /// Issue the next identifier: one more than the last issued one.
    pub fn allocate(&mut self) -> (id: u64)
        requires
            old(self).last < u64::MAX,
        ensures
            id == old(self).last + 1,
            final(self).last == id,
    {
        self.last = self.last + 1;
        self.last
    }
}

} // verus!

