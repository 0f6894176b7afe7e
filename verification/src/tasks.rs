//! Tasks and the collection that owns them.
//!
//! A [`TodoList`] owns an ordered sequence of [`Task`]s (insertion order is
//! the canonical storage order) together with the counter `next_id` that
//! yields fresh identifiers. The abstract value of a list is a [`TodoModel`]:
//! the sequence of task models in storage order plus the counter.

use vstd::prelude::*;

verus! {

/// Importance of a task, ordered `Low < Medium < High`.
/// The order is used only to sort listings, never to identify tasks.
#[derive(Clone, Copy, Debug, PartialEq, Eq, Structural)]
pub enum Priority {
    Low,
    Medium,
    High,
}

/// Lifecycle state of a task. The only transition is
/// `Pending -> Completed`; `Completed` is terminal.
#[derive(Clone, Copy, Debug, PartialEq, Eq, Structural)]
pub enum TaskStatus {
    Pending,
    Completed,
}

/// Rank used for the priority ordering: `Low < Medium < High`.
pub open spec fn rank(p: Priority) -> int {
    match p {
        Priority::Low => 0,
        Priority::Medium => 1,
        Priority::High => 2,
    }
}

/// One to-do item. The id is assigned by the owning collection at creation
/// and never changes; the priority is fixed at creation; the description is
/// mutable only while the task is pending.
#[derive(Debug)]
pub struct Task {
    pub id: usize,
    pub description: String,
    pub importance: Priority,
    pub status: TaskStatus,
}

/// Abstract value of a [`Task`].
#[verifier::ext_equal]
pub struct TaskModel {
    pub id: nat,
    pub description: Seq<char>,
    pub importance: Priority,
    pub status: TaskStatus,
}

impl View for Task {
    type V = TaskModel;

    open spec fn view(&self) -> TaskModel {
        TaskModel {
            id: self.id as nat,
            description: self.description@,
            importance: self.importance,
            status: self.status,
        }
    }
}

impl Task {
    /// A fresh task starts pending, with the given id, description and
    /// priority.
    pub fn new(id: usize, description: String, importance: Priority) -> (t: Task)
        ensures
            t@ == (TaskModel {
                id: id as nat,
                description: description@,
                importance,
                status: TaskStatus::Pending,
            }),
    {
        Task { id, description, importance, status: TaskStatus::Pending }
    }

    /// Marks the task completed. Idempotent: a completed task stays
    /// completed; id, description and priority are untouched.
    pub fn complete(&mut self)
        ensures
            final(self)@ == (TaskModel { status: TaskStatus::Completed, ..old(self)@ }),
    {
        self.status = TaskStatus::Completed;
    }
}

/// An exact copy of a task (same id, description, priority and status).
pub fn clone_task(t: &Task) -> (r: Task)
    ensures
        r@ == t@,
{
    Task {
        id: t.id,
        description: t.description.clone(),
        importance: t.importance,
        status: t.status,
    }
}

/// Abstract value of a [`TodoList`]: the tasks in storage order and the
/// id counter.
#[verifier::ext_equal]
pub struct TodoModel {
    pub tasks: Seq<TaskModel>,
    pub next_id: nat,
}

/// There is a task with this id.
pub open spec fn has_id(ts: Seq<TaskModel>, id: nat) -> bool {
    exists|i: int| 0 <= i < ts.len() && ts[i].id == id
}

/// The index of the task with this id (unique under [`wf_model`]).
pub open spec fn idx_of(ts: Seq<TaskModel>, id: nat) -> int {
    choose|i: int| 0 <= i < ts.len() && ts[i].id == id
}

/// Well-formedness of a collection: the counter starts at 1 and fits the
/// machine word, every stored id was drawn from the counter (so ids are at
/// least 1 and below `next_id`), and ids grow strictly in storage order
/// (so they are unique).
pub open spec fn wf_model(m: TodoModel) -> bool {
    &&& 1 <= m.next_id <= usize::MAX as nat
    &&& forall|i: int| 0 <= i < m.tasks.len() ==> 1 <= (#[trigger] m.tasks[i]).id < m.next_id
    &&& forall|i: int, j: int| 0 <= i < j < m.tasks.len() ==> m.tasks[i].id < m.tasks[j].id
}

/// Outcome reported by a lookup-based operation when no task has the
/// requested id.
#[derive(Clone, Copy, Debug, PartialEq, Eq, Structural)]
pub enum TaskError {
    NotFound,
}

/// Outcome of an edit on a task that does exist: either the description was
/// replaced, or the task is already completed and is immutable.
#[derive(Clone, Copy, Debug, PartialEq, Eq, Structural)]
pub enum EditOutcome {
    Edited,
    RejectedCompleted,
}

/// The collection of tasks plus the id generator.
pub struct TodoList {
    pub tasks: Vec<Task>,
    pub next_id: usize,
}

impl View for TodoList {
    type V = TodoModel;

    open spec fn view(&self) -> TodoModel {
        TodoModel {
            tasks: self.tasks@.map_values(|t: Task| t@),
            next_id: self.next_id as nat,
        }
    }
}

impl TodoList {
    /// Well-formedness of this list; established by the constructors and
    /// preserved by every operation.
    pub open spec fn wf(&self) -> bool {
        wf_model(self@)
    }

    /// An empty collection whose first assigned id will be 1.
    pub fn new() -> (r: TodoList)
        ensures
            r.wf(),
            r@.tasks == Seq::<TaskModel>::empty(),
            r@.next_id == 1,
    {
        let r = TodoList { tasks: Vec::new(), next_id: 1 };
        proof {
            assert(r@.tasks =~= Seq::<TaskModel>::empty());
        }
        r
    }

    /// Appends a fresh pending task with the given description and priority
    /// and returns its id: the current value of the counter, which then
    /// advances by one. Ids are never reused, even after removals.
    pub fn add_task(&mut self, description: String, importance: Priority) -> (id: usize)
        requires
            old(self).wf(),
            old(self)@.next_id < usize::MAX as nat,
        ensures
            final(self).wf(),
            id as nat == old(self)@.next_id,
            final(self)@.next_id == old(self)@.next_id + 1,
            final(self)@.tasks == old(self)@.tasks.push(TaskModel {
                id: old(self)@.next_id,
                description: description@,
                importance,
                status: TaskStatus::Pending,
            }),
    {
        let ghost pre = self@;
        let id = self.next_id;
        let task = Task::new(id, description, importance);
        self.tasks.push(task);
        self.next_id = self.next_id + 1;
        proof {
            assert(self@.tasks =~= pre.tasks.push(TaskModel {
                id: pre.next_id,
                description: description@,
                importance,
                status: TaskStatus::Pending,
            }));
        }
        id
    }

    /// Index of the task with this id, if any. Under [`TodoList::wf`] the
    /// match is unique, so the first match is the only one.
    pub fn find_index(&self, task_id: usize) -> (r: Option<usize>)
        ensures
            match r {
                Some(i) => i < self.tasks.len() && self@.tasks[i as int].id == task_id as nat,
                None => !has_id(self@.tasks, task_id as nat),
            },
    {
        let n = self.tasks.len();
        let mut i: usize = 0;
        while i < n
            invariant
                n == self.tasks.len(),
                i <= n,
                forall|j: int| 0 <= j < i ==> (#[trigger] self@.tasks[j]).id != task_id as nat,
            decreases n - i,
        {
            if self.tasks[i].id == task_id {
                return Some(i);
            }
            i = i + 1;
        }
        None
    }

    /// Marks the task with this id completed; reports `NotFound` (and leaves
    /// the collection unchanged) when no task has the id. The counter and
    /// every other task are untouched.
    pub fn complete_task(&mut self, task_id: usize) -> (r: Result<(), TaskError>)
        requires
            old(self).wf(),
        ensures
            final(self).wf(),
            final(self)@.next_id == old(self)@.next_id,
            has_id(old(self)@.tasks, task_id as nat) ==> {
                &&& r == Ok::<(), TaskError>(())
                &&& final(self)@.tasks == old(self)@.tasks.update(
                    idx_of(old(self)@.tasks, task_id as nat),
                    (TaskModel {
                        status: TaskStatus::Completed,
                        ..old(self)@.tasks[idx_of(old(self)@.tasks, task_id as nat)]
                    }),
                )
            },
            !has_id(old(self)@.tasks, task_id as nat) ==> {
                &&& r == Err::<(), TaskError>(TaskError::NotFound)
                &&& final(self)@ == old(self)@
            },
    {
        match self.find_index(task_id) {
            Some(i) => {
                let updated = {
                    let t = &self.tasks[i];
                    Task {
                        id: t.id,
                        description: t.description.clone(),
                        importance: t.importance,
                        status: TaskStatus::Completed,
                    }
                };
                proof {
                    lemma_idx_of_unique(old(self)@.tasks, task_id as nat, i as int);
                }
                self.tasks[i] = updated;
                proof {
                    let ghost k = idx_of(old(self)@.tasks, task_id as nat);
                    assert(self@.tasks =~= old(self)@.tasks.update(
                        k,
                        (TaskModel { status: TaskStatus::Completed, ..old(self)@.tasks[k] }),
                    ));
                }
                Ok(())
            },
            None => {
                proof {
                    assert(self@ =~= old(self)@);
                }
                Err(TaskError::NotFound)
            },
        }
    }

    /// Replaces the description of the pending task with this id. A task
    /// that does not exist gives `NotFound`; a completed task is immutable,
    /// so the edit is rejected and the stored description stays exactly as
    /// it was. Only a pending task's description changes; nothing else does.
    pub fn edit_task(&mut self, task_id: usize, description: String) -> (r: Result<
        EditOutcome,
        TaskError,
    >)
        requires
            old(self).wf(),
        ensures
            final(self).wf(),
            final(self)@.next_id == old(self)@.next_id,
            !has_id(old(self)@.tasks, task_id as nat) ==> {
                &&& r == Err::<EditOutcome, TaskError>(TaskError::NotFound)
                &&& final(self)@ == old(self)@
            },
            has_id(old(self)@.tasks, task_id as nat) && old(self)@.tasks[idx_of(
                old(self)@.tasks,
                task_id as nat,
            )].status == TaskStatus::Completed ==> {
                &&& r == Ok::<EditOutcome, TaskError>(EditOutcome::RejectedCompleted)
                &&& final(self)@ == old(self)@
            },
            has_id(old(self)@.tasks, task_id as nat) && old(self)@.tasks[idx_of(
                old(self)@.tasks,
                task_id as nat,
            )].status == TaskStatus::Pending ==> {
                &&& r == Ok::<EditOutcome, TaskError>(EditOutcome::Edited)
                &&& final(self)@.tasks == old(self)@.tasks.update(
                    idx_of(old(self)@.tasks, task_id as nat),
                    (TaskModel {
                        description: description@,
                        ..old(self)@.tasks[idx_of(old(self)@.tasks, task_id as nat)]
                    }),
                )
            },
    {
        match self.find_index(task_id) {
            Some(i) => {
                proof {
                    lemma_idx_of_unique(old(self)@.tasks, task_id as nat, i as int);
                }
                if self.tasks[i].status == TaskStatus::Completed {
                    proof {
                        assert(self@ =~= old(self)@);
                    }
                    Ok(EditOutcome::RejectedCompleted)
                } else {
                    let updated = {
                        let t = &self.tasks[i];
                        Task {
                            id: t.id,
                            description,
                            importance: t.importance,
                            status: t.status,
                        }
                    };
                    self.tasks[i] = updated;
                    proof {
                        let ghost k = idx_of(old(self)@.tasks, task_id as nat);
                        assert(self@.tasks =~= old(self)@.tasks.update(
                            k,
                            (TaskModel { description: updated.description@, ..old(self)@.tasks[k] }),
                        ));
                    }
                    Ok(EditOutcome::Edited)
                }
            },
            None => {
                proof {
                    assert(self@ =~= old(self)@);
                }
                Err(TaskError::NotFound)
            },
        }
    }

    /// Removes the task with this id, keeping the relative order of the
    /// remaining tasks; reports `NotFound` (and changes nothing) when no task
    /// has the id. The counter never goes back, so a removed id is never
    /// reassigned.
    pub fn remove_task(&mut self, task_id: usize) -> (r: Result<(), TaskError>)
        requires
            old(self).wf(),
        ensures
            final(self).wf(),
            final(self)@.next_id == old(self)@.next_id,
            has_id(old(self)@.tasks, task_id as nat) ==> {
                &&& r == Ok::<(), TaskError>(())
                &&& final(self)@.tasks == old(self)@.tasks.remove(
                    idx_of(old(self)@.tasks, task_id as nat),
                )
            },
            !has_id(old(self)@.tasks, task_id as nat) ==> {
                &&& r == Err::<(), TaskError>(TaskError::NotFound)
                &&& final(self)@ == old(self)@
            },
    {
        match self.find_index(task_id) {
            Some(i) => {
                proof {
                    lemma_idx_of_unique(old(self)@.tasks, task_id as nat, i as int);
                }
                self.tasks.remove(i);
                proof {
                    let ghost k = idx_of(old(self)@.tasks, task_id as nat);
                    assert(self@.tasks =~= old(self)@.tasks.remove(k));
                }
                Ok(())
            },
            None => {
                proof {
                    assert(self@ =~= old(self)@);
                }
                Err(TaskError::NotFound)
            },
        }
    }
}

/// The tasks of `ts` whose priority is `p`, in unchanged relative order.
pub open spec fn with_priority(ts: Seq<TaskModel>, p: Priority) -> Seq<TaskModel> {
    ts.filter(|t: TaskModel| t.importance == p)
}

/// The tasks of `ts` that are completed, in unchanged relative order.
pub open spec fn completed_of(ts: Seq<TaskModel>) -> Seq<TaskModel> {
    ts.filter(|t: TaskModel| t.status == TaskStatus::Completed)
}

/// The display order of a listing: priority descending, and within one
/// priority the storage (insertion) order — a stable sort of `ts` by
/// priority descending.
pub open spec fn sorted_spec(ts: Seq<TaskModel>) -> Seq<TaskModel> {
    with_priority(ts, Priority::High) + with_priority(ts, Priority::Medium) + with_priority(
        ts,
        Priority::Low,
    )
}

impl TodoList {
    /// Copies of the tasks whose priority is `p`, in storage order.
    pub fn tasks_with_priority(&self, p: Priority) -> (r: Vec<Task>)
        ensures
            r@.map_values(|t: Task| t@) == with_priority(self@.tasks, p),
    {
        let ghost ts = self@.tasks;
        let mut r: Vec<Task> = Vec::new();
        let n = self.tasks.len();
        let mut i: usize = 0;
        proof {
            reveal_with_fuel(Seq::<TaskModel>::filter, 1);
            assert(r@.map_values(|t: Task| t@) =~= with_priority(ts.take(0), p));
        }
        while i < n
            invariant
                n == self.tasks.len(),
                ts == self@.tasks,
                i <= n,
                r@.map_values(|t: Task| t@) == with_priority(ts.take(i as int), p),
            decreases n - i,
        {
            proof {
                reveal_with_fuel(Seq::<TaskModel>::filter, 2);
                assert(ts.take(i + 1).drop_last() =~= ts.take(i as int));
                assert(ts.take(i + 1).last() == ts[i as int]);
            }
            if self.tasks[i].importance == p {
                r.push(clone_task(&self.tasks[i]));
                proof {
                    assert(r@.map_values(|t: Task| t@) =~= with_priority(
                        ts.take(i as int),
                        p,
                    ).push(ts[i as int]));
                }
            }
            i = i + 1;
        }
        proof {
            assert(ts.take(n as int) =~= ts);
        }
        r
    }

    /// Copies of all tasks in display order: priority descending, stable
    /// within one priority (a stable sort of the storage order). The backing
    /// storage is not touched or reordered.
    pub fn sorted_tasks(&self) -> (r: Vec<Task>)
        ensures
            r@.map_values(|t: Task| t@) == sorted_spec(self@.tasks),
    {
        let mut r = self.tasks_with_priority(Priority::High);
        let mut mid = self.tasks_with_priority(Priority::Medium);
        let mut low = self.tasks_with_priority(Priority::Low);
        let ghost hi_part = r@;
        r.append(&mut mid);
        let ghost two_parts = r@;
        r.append(&mut low);
        proof {
            assert(r@.map_values(|t: Task| t@) =~= sorted_spec(self@.tasks));
        }
        r
    }

    /// Copies of the completed tasks, in storage (insertion) order — never
    /// reordered by priority, deliberately unlike [`TodoList::sorted_tasks`].
    pub fn list_completed_tasks(&self) -> (r: Vec<Task>)
        ensures
            r@.map_values(|t: Task| t@) == completed_of(self@.tasks),
    {
        let ghost ts = self@.tasks;
        let mut r: Vec<Task> = Vec::new();
        let n = self.tasks.len();
        let mut i: usize = 0;
        proof {
            reveal_with_fuel(Seq::<TaskModel>::filter, 1);
            assert(r@.map_values(|t: Task| t@) =~= completed_of(ts.take(0)));
        }
        while i < n
            invariant
                n == self.tasks.len(),
                ts == self@.tasks,
                i <= n,
                r@.map_values(|t: Task| t@) == completed_of(ts.take(i as int)),
            decreases n - i,
        {
            proof {
                reveal_with_fuel(Seq::<TaskModel>::filter, 2);
                assert(ts.take(i + 1).drop_last() =~= ts.take(i as int));
                assert(ts.take(i + 1).last() == ts[i as int]);
            }
            if self.tasks[i].status == TaskStatus::Completed {
                r.push(clone_task(&self.tasks[i]));
                proof {
                    assert(r@.map_values(|t: Task| t@) =~= completed_of(ts.take(i as int)).push(
                        ts[i as int],
                    ));
                }
            }
            i = i + 1;
        }
        proof {
            assert(ts.take(n as int) =~= ts);
        }
        r
    }

    /// How many tasks the collection holds.
    pub fn task_count(&self) -> (n: usize)
        ensures
            n == self@.tasks.len(),
    {
        self.tasks.len()
    }
}

/// A sequence is unchanged by filtering with a predicate that every element
/// satisfies.
proof fn lemma_filter_all(s: Seq<TaskModel>, pred: spec_fn(TaskModel) -> bool)
    requires
        forall|i: int| 0 <= i < s.len() ==> pred(#[trigger] s[i]),
    ensures
        s.filter(pred) == s,
    decreases s.len(),
{
    reveal_with_fuel(Seq::<TaskModel>::filter, 2);
    if s.len() == 0 {
        assert(s.filter(pred) =~= s);
    } else {
        lemma_filter_all(s.drop_last(), pred);
        assert(pred(s.last()));
        assert(s.filter(pred) =~= s);
    }
}

/// Filtering with a predicate that no element satisfies leaves nothing.
proof fn lemma_filter_none(s: Seq<TaskModel>, pred: spec_fn(TaskModel) -> bool)
    requires
        forall|i: int| 0 <= i < s.len() ==> !pred(#[trigger] s[i]),
    ensures
        s.filter(pred) == Seq::<TaskModel>::empty(),
    decreases s.len(),
{
    reveal_with_fuel(Seq::<TaskModel>::filter, 2);
    if s.len() == 0 {
        assert(s.filter(pred) =~= Seq::<TaskModel>::empty());
    } else {
        lemma_filter_none(s.drop_last(), pred);
        assert(!pred(s.last()));
        assert(s.filter(pred) =~= Seq::<TaskModel>::empty());
    }
}

/// Every task of [`with_priority`]`(ts, p)` has priority `p`.
proof fn lemma_with_priority_importance(ts: Seq<TaskModel>, p: Priority, k: int)
    requires
        0 <= k < with_priority(ts, p).len(),
    ensures
        with_priority(ts, p)[k].importance == p,
{
    ts.lemma_filter_pred(|t: TaskModel| t.importance == p, k);
}

/// The display order is sorted by priority descending, and it is stable:
/// for every priority, the tasks of that priority appear exactly as they
/// do in storage (insertion) order.
pub proof fn law_sorted_tasks_order(ts: Seq<TaskModel>)
    ensures
        forall|i: int, j: int|
            0 <= i <= j < sorted_spec(ts).len() ==> rank(
                #[trigger] sorted_spec(ts)[i].importance,
            ) >= rank(#[trigger] sorted_spec(ts)[j].importance),
        forall|p: Priority| #[trigger] with_priority(sorted_spec(ts), p) == with_priority(ts, p),
{
    let hi = with_priority(ts, Priority::High);
    let med = with_priority(ts, Priority::Medium);
    let low = with_priority(ts, Priority::Low);
    let s = sorted_spec(ts);
    assert forall|k: int| 0 <= k < s.len() implies rank(#[trigger] s[k].importance) == (
    if k < hi.len() {
        2int
    } else if k < hi.len() + med.len() {
        1int
    } else {
        0int
    }) by {
        if k < hi.len() {
            assert(s[k] == hi[k]);
            lemma_with_priority_importance(ts, Priority::High, k);
        } else if k < hi.len() + med.len() {
            assert(s[k] == med[k - hi.len()]);
            lemma_with_priority_importance(ts, Priority::Medium, k - hi.len());
        } else {
            assert(s[k] == low[k - hi.len() - med.len()]);
            lemma_with_priority_importance(ts, Priority::Low, k - hi.len() - med.len());
        }
    }
    assert forall|p: Priority| #[trigger] with_priority(s, p) == with_priority(ts, p) by {
        let pred = |t: TaskModel| t.importance == p;
        Seq::filter_distributes_over_add(hi + med, low, pred);
        Seq::filter_distributes_over_add(hi, med, pred);
        assert forall|k: int| 0 <= k < hi.len() implies hi[k].importance == Priority::High by {
            lemma_with_priority_importance(ts, Priority::High, k);
        }
        assert forall|k: int| 0 <= k < med.len() implies med[k].importance == Priority::Medium by {
            lemma_with_priority_importance(ts, Priority::Medium, k);
        }
        assert forall|k: int| 0 <= k < low.len() implies low[k].importance == Priority::Low by {
            lemma_with_priority_importance(ts, Priority::Low, k);
        }
        match p {
            Priority::High => {
                lemma_filter_all(hi, pred);
                lemma_filter_none(med, pred);
                lemma_filter_none(low, pred);
            },
            Priority::Medium => {
                lemma_filter_none(hi, pred);
                lemma_filter_all(med, pred);
                lemma_filter_none(low, pred);
            },
            Priority::Low => {
                lemma_filter_none(hi, pred);
                lemma_filter_none(med, pred);
                lemma_filter_all(low, pred);
            },
        }
        assert(with_priority(s, p) =~= with_priority(ts, p));
    }
}

/// Ids are handed out in strictly increasing order starting at 1, with no
/// gaps: a fresh list starts the counter at 1, every `add_task` assigns
/// exactly the counter's value and advances it by one, and no other
/// operation moves the counter. So in any well-formed collection the stored
/// ids grow strictly in storage order and all lie below the counter —
/// whatever removals happened in between, a removed id is never assigned
/// again.
pub proof fn law_ids_strictly_increasing(m: TodoModel)
    requires
        wf_model(m),
    ensures
        forall|i: int, j: int| 0 <= i < j < m.tasks.len() ==> m.tasks[i].id < m.tasks[j].id,
        forall|i: int| 0 <= i < m.tasks.len() ==> 1 <= (#[trigger] m.tasks[i]).id < m.next_id,
{
}

/// A removed id is gone: once the task with `id` is removed, no task with
/// that id remains, so a later `complete_task(id)` or `edit_task(id, ..)`
/// reports `NotFound`.
pub proof fn law_remove_then_not_found(ts: Seq<TaskModel>, id: nat)
    requires
        forall|a: int, b: int| 0 <= a < b < ts.len() ==> ts[a].id < ts[b].id,
        has_id(ts, id),
    ensures
        !has_id(ts.remove(idx_of(ts, id)), id),
{
    let k = idx_of(ts, id);
    assert(0 <= k < ts.len() && ts[k].id == id);
    let rest = ts.remove(k);
    ts.remove_ensures(k);
    assert forall|j: int| 0 <= j < rest.len() implies (#[trigger] rest[j]).id != id by {
        if j < k {
            assert(rest[j] == ts[j]);
            assert(ts[j].id < ts[k].id);
        } else {
            assert(rest[j] == ts[j + 1]);
            assert(ts[k].id < ts[j + 1].id);
        }
    }
}

/// Under strictly increasing ids, an id occurs at one index only, so
/// [`idx_of`] picks exactly the index where it was seen.
pub proof fn lemma_idx_of_unique(ts: Seq<TaskModel>, id: nat, i: int)
    requires
        forall|a: int, b: int| 0 <= a < b < ts.len() ==> ts[a].id < ts[b].id,
        0 <= i < ts.len(),
        ts[i].id == id,
    ensures
        has_id(ts, id),
        idx_of(ts, id) == i,
{
    assert(has_id(ts, id));
    let k = idx_of(ts, id);
    assert(0 <= k < ts.len() && ts[k].id == id);
    if k < i {
        assert(ts[k].id < ts[i].id);
    } else if i < k {
        assert(ts[i].id < ts[k].id);
    }
}

} // verus!
