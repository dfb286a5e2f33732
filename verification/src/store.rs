//! The persistent store, modelled exactly: a sequence of task rows with
//! distinct ids. Every operation of the adapter is specified as a function on
//! that sequence, and the claim protocol's guarantees are proved over those
//! functions.

use vstd::prelude::*;

use crate::error::Error;
use crate::task::Task;
use crate::task::TaskInDb;
use crate::task::TaskStatus;
use crate::task::TaskType;
use crate::task::reachable_status;
use crate::time::Timestamp;
use crate::time::micros_of;
use crate::time::valid_timestamp;

verus! {

/// One persisted task: the immutable identity plus the mutable lifecycle.
#[derive(Clone, Copy, Debug)]
pub struct TaskRow {
    pub id: u128,
    pub created_at: Timestamp,
    pub status: TaskStatus,
    pub execution_time: Timestamp,
    pub task_type: TaskType,
    pub started_executing_at: Option<Timestamp>,
    pub completed_at: Option<Timestamp>,
    pub failed_at: Option<Timestamp>,
    pub deleted_at: Option<Timestamp>,
}

/// What a claim attempt reports: `Claimed` for the single winner, and
/// `AlreadyHandled` for everyone else.
#[derive(Clone, Copy, PartialEq, Eq, Structural, Debug)]
pub enum ClaimOutcome {
    Claimed,
    AlreadyHandled,
}

pub open spec fn distinct_ids(rows: Seq<TaskRow>) -> bool {
    forall|i: int, j: int|
        0 <= i < j < rows.len() ==> (#[trigger] rows[i]).id != (#[trigger] rows[j]).id
}

pub open spec fn has_task(rows: Seq<TaskRow>, id: u128) -> bool {
    exists|i: int| 0 <= i < rows.len() && (#[trigger] rows[i]).id == id
}

pub open spec fn idx_of(rows: Seq<TaskRow>, id: u128) -> int {
    choose|i: int| 0 <= i < rows.len() && (#[trigger] rows[i]).id == id
}

/// The unique row with this id; meaningful only when `has_task` holds.
pub open spec fn row_of(rows: Seq<TaskRow>, id: u128) -> TaskRow {
    rows[idx_of(rows, id)]
}

pub open spec fn status_of(rows: Seq<TaskRow>, id: u128) -> TaskStatus {
    row_of(rows, id).status
}

/// With distinct ids, any index holding `id` is the index `row_of` speaks of.
pub proof fn lemma_row_at_index(rows: Seq<TaskRow>, i: int)
    requires
        distinct_ids(rows),
        0 <= i < rows.len(),
    ensures
        has_task(rows, rows[i].id),
        row_of(rows, rows[i].id) == rows[i],
        idx_of(rows, rows[i].id) == i,
{
    assert(0 <= i < rows.len() && rows[i].id == rows[i].id);
    let j = idx_of(rows, rows[i].id);
    if j != i {
        if j < i {
            assert(rows[j].id != rows[i].id);
        } else {
            assert(rows[i].id != rows[j].id);
        }
    }
}

pub open spec fn row_wf(r: TaskRow) -> bool {
    &&& valid_timestamp(r.created_at)
    &&& valid_timestamp(r.execution_time)
    &&& (r.started_executing_at matches Some(t) ==> valid_timestamp(t))
    &&& (r.completed_at matches Some(t) ==> valid_timestamp(t))
    &&& (r.failed_at matches Some(t) ==> valid_timestamp(t))
    &&& (r.deleted_at matches Some(t) ==> valid_timestamp(t))
}

pub open spec fn rows_wf(rows: Seq<TaskRow>) -> bool {
    &&& distinct_ids(rows)
    &&& forall|i: int| 0 <= i < rows.len() ==> row_wf(#[trigger] rows[i])
}

/// The row a freshly submitted task is persisted as.
pub open spec fn new_row(task: Task, now: Timestamp) -> TaskRow {
    TaskRow {
        id: task.id,
        created_at: now,
        status: TaskStatus::Submitted,
        execution_time: task.execution_time,
        task_type: task.task_type,
        started_executing_at: None,
        completed_at: None,
        failed_at: None,
        deleted_at: None,
    }
}

/// The in-flight projection of a row.
pub open spec fn flight_view(r: TaskRow) -> Task {
    Task { id: r.id, task_type: r.task_type, execution_time: r.execution_time }
}

/// The row as the store reports it to clients.
pub open spec fn db_view(r: TaskRow) -> TaskInDb {
    TaskInDb {
        id: r.id,
        created_at: r.created_at,
        status: r.status,
        execution_time: r.execution_time,
        task_type: r.task_type,
        started_executing_at: r.started_executing_at,
        completed_at: r.completed_at,
        failed_at: r.failed_at,
    }
}

/// A claim attempt on this store would win: the row exists and is still
/// `Submitted`.
pub open spec fn claim_succeeds(rows: Seq<TaskRow>, id: u128) -> bool {
    has_task(rows, id) && status_of(rows, id) == TaskStatus::Submitted
}

/// The conditional update a claim performs: the compare-and-swap
/// `Submitted -> StartedExecuting` on the one row with this id.
pub open spec fn claim_transition(rows: Seq<TaskRow>, id: u128, now: Timestamp) -> Seq<TaskRow> {
    rows.map_values(
        |r: TaskRow|
            if r.id == id && r.status == TaskStatus::Submitted {
                TaskRow { status: TaskStatus::StartedExecuting, started_executing_at: Some(now), ..r }
            } else {
                r
            },
    )
}

pub open spec fn done_transition(rows: Seq<TaskRow>, id: u128, now: Timestamp) -> Seq<TaskRow> {
    rows.map_values(
        |r: TaskRow|
            if r.id == id {
                TaskRow { status: TaskStatus::Done, completed_at: Some(now), ..r }
            } else {
                r
            },
    )
}

pub open spec fn failed_transition(rows: Seq<TaskRow>, id: u128, now: Timestamp) -> Seq<TaskRow> {
    rows.map_values(
        |r: TaskRow|
            if r.id == id {
                TaskRow { status: TaskStatus::Failed, failed_at: Some(now), ..r }
            } else {
                r
            },
    )
}

/// Deletion is permitted only from `Submitted`; any other row is untouched.
pub open spec fn delete_transition(rows: Seq<TaskRow>, id: u128, now: Timestamp) -> Seq<TaskRow> {
    rows.map_values(
        |r: TaskRow|
            if r.id == id && r.status == TaskStatus::Submitted {
                TaskRow { status: TaskStatus::Deleted, deleted_at: Some(now), ..r }
            } else {
                r
            },
    )
}

pub open spec fn create_transition(rows: Seq<TaskRow>, task: Task, now: Timestamp) -> Seq<
    TaskRow,
> {
    if has_task(rows, task.id) {
        rows
    } else {
        rows.push(new_row(task, now))
    }
}

/// The relational store, as the adapter sees it.
pub struct TaskStore {
    pub rows: Vec<TaskRow>,
}

impl View for TaskStore {
    type V = Seq<TaskRow>;

    open spec fn view(&self) -> Seq<TaskRow> {
        self.rows@
    }
}

impl TaskStore {
    pub open spec fn wf(&self) -> bool {
        rows_wf(self@)
    }

    pub fn new() -> (r: TaskStore)
        ensures
            r@ == Seq::<TaskRow>::empty(),
            r.wf(),
    {
        TaskStore { rows: Vec::new() }
    }

    /// Scan for the position of the row with this id.
    fn find(&self, id: u128) -> (r: Option<usize>)
        requires
            self.wf(),
        ensures
            match r {
                Some(i) => i < self@.len() && self@[i as int].id == id && has_task(self@, id)
                    && row_of(self@, id) == self@[i as int],
                None => !has_task(self@, id),
            },
    {
        let mut i: usize = 0;
        while i < self.rows.len()
            invariant
                self.wf(),
                i <= self@.len(),
                forall|k: int| 0 <= k < i ==> (#[trigger] self@[k]).id != id,
            decreases self@.len() - i,
        {
            if self.rows[i].id == id {
                proof {
                    lemma_row_at_index(self@, i as int);
                }
                return Some(i);
            }
            i = i + 1;
        }
        None
    }

    /// Persist a freshly submitted task. Fails exactly when the id is already
    /// present; the store is unchanged then.
    pub fn create_task(&mut self, task: &Task, now: Timestamp) -> (r: Result<(), Error>)
        requires
            old(self).wf(),
            task.wf(),
            valid_timestamp(now),
        ensures
            final(self).wf(),
            final(self)@ == create_transition(old(self)@, *task, now),
            r is Ok <==> !has_task(old(self)@, task.id),
            r is Err ==> r->Err_0 == Error::TaskAlreadyExists(task.id),
            r is Ok ==> has_task(final(self)@, task.id) && row_of(final(self)@, task.id) == new_row(
                *task,
                now,
            ),
    {
        match self.find(task.id) {
            Some(_) => Err(Error::TaskAlreadyExists(task.id)),
            None => {
                let row = TaskRow {
                    id: task.id,
                    created_at: now,
                    status: TaskStatus::Submitted,
                    execution_time: task.execution_time,
                    task_type: task.task_type,
                    started_executing_at: None,
                    completed_at: None,
                    failed_at: None,
                    deleted_at: None,
                };
                self.rows.push(row);
                proof {
                    assert(self@ == old(self)@.push(new_row(*task, now)));
                    assert forall|i: int, j: int| 0 <= i < j < self@.len() implies (
                    #[trigger] self@[i]).id != (#[trigger] self@[j]).id by {
                        if j < self@.len() - 1 {
                            assert(old(self)@[i].id != old(self)@[j].id);
                        } else {
                            assert(self@[j].id == task.id);
                        }
                    }
                    lemma_row_at_index(self@, self@.len() - 1);
                }
                Ok(())
            },
        }
    }

    /// The claim: atomically swap `Submitted` for `StartedExecuting` on the
    /// one row with this id. Exactly the winner sees `Claimed`.
    pub fn acquire_exclusive_lock(&mut self, id: u128, now: Timestamp) -> (r: ClaimOutcome)
        requires
            old(self).wf(),
            valid_timestamp(now),
        ensures
            final(self).wf(),
            final(self)@ == claim_transition(old(self)@, id, now),
            r == ClaimOutcome::Claimed <==> claim_succeeds(old(self)@, id),
            r == ClaimOutcome::Claimed ==> status_of(final(self)@, id) == TaskStatus::StartedExecuting
                && row_of(final(self)@, id).started_executing_at == Some(now),
    {
        let ghost rows0 = self@;
        match self.find(id) {
            Some(i) => {
                let row = self.rows[i];
                if matches!(row.status, TaskStatus::Submitted) {
                    let updated = TaskRow {
                        status: TaskStatus::StartedExecuting,
                        started_executing_at: Some(now),
                        ..row
                    };
                    self.rows.set(i, updated);
                    proof {
                        assert(self@ =~= claim_transition(rows0, id, now)) by {
                            assert forall|k: int| 0 <= k < self@.len() implies self@[k]
                                == claim_transition(rows0, id, now)[k] by {
                                if k != i {
                                    assert(rows0[k].id != id) by {
                                        lemma_row_at_index(rows0, k);
                                        lemma_row_at_index(rows0, i as int);
                                    }
                                }
                            }
                        }
                        lemma_map_preserves_rows(
                            rows0,
                            |r: TaskRow|
                                if r.id == id && r.status == TaskStatus::Submitted {
                                    TaskRow {
                                        status: TaskStatus::StartedExecuting,
                                        started_executing_at: Some(now),
                                        ..r
                                    }
                                } else {
                                    r
                                },
                        );
                        lemma_row_at_index(self@, i as int);
                    }
                    ClaimOutcome::Claimed
                } else {
                    proof {
                        assert(self@ =~= claim_transition(rows0, id, now)) by {
                            assert forall|k: int| 0 <= k < self@.len() implies self@[k]
                                == claim_transition(rows0, id, now)[k] by {
                                if k != i {
                                    assert(rows0[k].id != id) by {
                                        lemma_row_at_index(rows0, k);
                                        lemma_row_at_index(rows0, i as int);
                                    }
                                }
                            }
                        }
                    }
                    ClaimOutcome::AlreadyHandled
                }
            },
            None => {
                proof {
                    assert(self@ =~= claim_transition(rows0, id, now)) by {
                        assert forall|k: int| 0 <= k < self@.len() implies self@[k]
                            == claim_transition(rows0, id, now)[k] by {
                            lemma_row_at_index(rows0, k);
                        }
                    }
                }
                ClaimOutcome::AlreadyHandled
            },
        }
    }

    /// Record a successful run. Only the worker whose claim won calls this, so
    /// the row is in `StartedExecuting`.
    pub fn mark_task_done(&mut self, id: u128, now: Timestamp) -> (r: Result<(), Error>)
        requires
            old(self).wf(),
            valid_timestamp(now),
            has_task(old(self)@, id),
            status_of(old(self)@, id) == TaskStatus::StartedExecuting,
        ensures
            final(self).wf(),
            final(self)@ == done_transition(old(self)@, id, now),
            r is Ok,
            status_of(final(self)@, id) == TaskStatus::Done,
            row_of(final(self)@, id).completed_at == Some(now),
    {
        let ghost rows0 = self@;
        let found = self.find(id);
        proof {
            if found is None {
                assert(false);
            }
        }
        let i = found.unwrap();
        let row = self.rows[i];
        let updated = TaskRow { status: TaskStatus::Done, completed_at: Some(now), ..row };
        self.rows.set(i, updated);
        proof {
            assert(self@ =~= done_transition(rows0, id, now)) by {
                assert forall|k: int| 0 <= k < self@.len() implies self@[k] == done_transition(
                    rows0,
                    id,
                    now,
                )[k] by {
                    if k != i {
                        assert(rows0[k].id != id) by {
                            lemma_row_at_index(rows0, k);
                            lemma_row_at_index(rows0, i as int);
                        }
                    }
                }
            }
            lemma_map_preserves_rows(
                rows0,
                |r: TaskRow|
                    if r.id == id {
                        TaskRow { status: TaskStatus::Done, completed_at: Some(now), ..r }
                    } else {
                        r
                    },
            );
            lemma_row_at_index(self@, i as int);
        }
        Ok(())
    }

    /// Record a failed run; the same discipline as `mark_task_done`.
    pub fn mark_task_failed(&mut self, id: u128, now: Timestamp) -> (r: Result<(), Error>)
        requires
            old(self).wf(),
            valid_timestamp(now),
            has_task(old(self)@, id),
            status_of(old(self)@, id) == TaskStatus::StartedExecuting,
        ensures
            final(self).wf(),
            final(self)@ == failed_transition(old(self)@, id, now),
            r is Ok,
            status_of(final(self)@, id) == TaskStatus::Failed,
            row_of(final(self)@, id).failed_at == Some(now),
    {
        let ghost rows0 = self@;
        let found = self.find(id);
        proof {
            if found is None {
                assert(false);
            }
        }
        let i = found.unwrap();
        let row = self.rows[i];
        let updated = TaskRow { status: TaskStatus::Failed, failed_at: Some(now), ..row };
        self.rows.set(i, updated);
        proof {
            assert(self@ =~= failed_transition(rows0, id, now)) by {
                assert forall|k: int| 0 <= k < self@.len() implies self@[k] == failed_transition(
                    rows0,
                    id,
                    now,
                )[k] by {
                    if k != i {
                        assert(rows0[k].id != id) by {
                            lemma_row_at_index(rows0, k);
                            lemma_row_at_index(rows0, i as int);
                        }
                    }
                }
            }
            lemma_map_preserves_rows(
                rows0,
                |r: TaskRow|
                    if r.id == id {
                        TaskRow { status: TaskStatus::Failed, failed_at: Some(now), ..r }
                    } else {
                        r
                    },
            );
            lemma_row_at_index(self@, i as int);
        }
        Ok(())
    }

    /// Delete a task that has not started: permitted only from `Submitted`,
    /// and each refusal names its reason.
    pub fn mark_task_deleted(&mut self, id: u128, now: Timestamp) -> (r: Result<(), Error>)
        requires
            old(self).wf(),
            valid_timestamp(now),
        ensures
            final(self).wf(),
            !has_task(old(self)@, id) ==> r == Err::<(), Error>(Error::TaskNotFound(id)) && final(self)@
                == old(self)@,
            has_task(old(self)@, id) && status_of(old(self)@, id) != TaskStatus::Submitted ==> r
                == Err::<(), Error>(
                Error::UnableToDeleteTask(id, status_of(old(self)@, id)),
            ) && final(self)@ == old(self)@,
            has_task(old(self)@, id) && status_of(old(self)@, id) == TaskStatus::Submitted ==> r
                is Ok && final(self)@ == delete_transition(old(self)@, id, now) && status_of(final(self)@, id)
                == TaskStatus::Deleted,
    {
        let ghost rows0 = self@;
        match self.find(id) {
            None => Err(Error::TaskNotFound(id)),
            Some(i) => {
                let row = self.rows[i];
                if matches!(row.status, TaskStatus::Submitted) {
                    let updated = TaskRow {
                        status: TaskStatus::Deleted,
                        deleted_at: Some(now),
                        ..row
                    };
                    self.rows.set(i, updated);
                    proof {
                        assert(self@ =~= delete_transition(rows0, id, now)) by {
                            assert forall|k: int| 0 <= k < self@.len() implies self@[k]
                                == delete_transition(rows0, id, now)[k] by {
                                if k != i {
                                    assert(rows0[k].id != id) by {
                                        lemma_row_at_index(rows0, k);
                                        lemma_row_at_index(rows0, i as int);
                                    }
                                }
                            }
                        }
                        lemma_map_preserves_rows(
                            rows0,
                            |r: TaskRow|
                                if r.id == id && r.status == TaskStatus::Submitted {
                                    TaskRow {
                                        status: TaskStatus::Deleted,
                                        deleted_at: Some(now),
                                        ..r
                                    }
                                } else {
                                    r
                                },
                        );
                        lemma_row_at_index(self@, i as int);
                    }
                    Ok(())
                } else {
                    Err(Error::UnableToDeleteTask(id, row.status))
                }
            },
        }
    }

    /// Read one task; rows in `Deleted` are reported as absent.
    pub fn get_task(&self, id: u128) -> (r: Option<TaskInDb>)
        requires
            self.wf(),
        ensures
            r == if has_task(self@, id) && status_of(self@, id) != TaskStatus::Deleted {
                Some(db_view(row_of(self@, id)))
            } else {
                None::<TaskInDb>
            },
    {
        match self.find(id) {
            None => None,
            Some(i) => {
                let row = self.rows[i];
                if matches!(row.status, TaskStatus::Deleted) {
                    None
                } else {
                    Some(
                        TaskInDb {
                            id: row.id,
                            created_at: row.created_at,
                            status: row.status,
                            execution_time: row.execution_time,
                            task_type: row.task_type,
                            started_executing_at: row.started_executing_at,
                            completed_at: row.completed_at,
                            failed_at: row.failed_at,
                        },
                    )
                }
            },
        }
    }

    /// List tasks, optionally narrowed to one status and one kind; rows in
    /// `Deleted` are never reported.
    pub fn list_tasks(&self, status: Option<TaskStatus>, typ: Option<TaskType>) -> (r: Vec<
        TaskInDb,
    >)
        requires
            self.wf(),
        ensures
            r@ == list_view(self@, status, typ),
    {
        let mut out: Vec<TaskInDb> = Vec::new();
        let mut i: usize = 0;
        while i < self.rows.len()
            invariant
                self.wf(),
                i <= self@.len(),
                out@ == list_view(self@.subrange(0, i as int), status, typ),
            decreases self@.len() - i,
        {
            let row = self.rows[i];
            let ghost pre = self@.subrange(0, i as int);
            let ghost post = self@.subrange(0, i as int + 1);
            proof {
                assert(post.drop_last() =~= pre);
                assert(post.last() == self@[i as int]);
            }
            let status_ok = match status {
                Some(st) => row.status == st,
                None => true,
            };
            let typ_ok = match typ {
                Some(tt) => row.task_type == tt,
                None => true,
            };
            if status_ok && typ_ok && !matches!(row.status, TaskStatus::Deleted) {
                out.push(
                    TaskInDb {
                        id: row.id,
                        created_at: row.created_at,
                        status: row.status,
                        execution_time: row.execution_time,
                        task_type: row.task_type,
                        started_executing_at: row.started_executing_at,
                        completed_at: row.completed_at,
                        failed_at: row.failed_at,
                    },
                );
            }
            i = i + 1;
        }
        proof {
            assert(self@.subrange(0, self@.len() as int) =~= self@);
        }
        out
    }

    /// The sweep's read: at most `limit` tasks that are `Submitted` and due
    /// before `now + max_seconds_to_sleep`, in execution-time ascending order.
    /// When every due task fits under the limit, the result is exactly the due
    /// tasks; otherwise it is a sub-collection of them of size `limit`.
    pub fn fetch_task_for_pg_searcher(
        &self,
        limit: usize,
        now: Timestamp,
        max_seconds_to_sleep: i64,
    ) -> (r: Vec<Task>)
        requires
            self.wf(),
            valid_timestamp(now),
            0 <= max_seconds_to_sleep,
            sweep_cutoff(now, max_seconds_to_sleep) <= i64::MAX,
        ensures
            sorted_by_time(r@),
            tasks_wf(r@),
            r@.len() == if due_tasks(self@, sweep_cutoff(now, max_seconds_to_sleep)).len()
                <= limit {
                due_tasks(self@, sweep_cutoff(now, max_seconds_to_sleep)).len() as int
            } else {
                limit as int
            },
            r@.to_multiset().subset_of(
                due_tasks(self@, sweep_cutoff(now, max_seconds_to_sleep)).to_multiset(),
            ),
            due_tasks(self@, sweep_cutoff(now, max_seconds_to_sleep)).len() <= limit ==> r
                @.to_multiset() == due_tasks(
                self@,
                sweep_cutoff(now, max_seconds_to_sleep),
            ).to_multiset(),
    {
        broadcast use vstd::seq_lib::group_to_multiset_ensures;
        broadcast use vstd::multiset::group_multiset_axioms;

        proof {
            crate::time::lemma_micros_of_bounds(now);
        }
        let ghost cutoff_spec = sweep_cutoff(now, max_seconds_to_sleep);
        let cutoff: i64 = now.to_micros() + max_seconds_to_sleep * 1_000_000;
        let mut due: Vec<Task> = Vec::new();
        let mut i: usize = 0;
        while i < self.rows.len()
            invariant
                self.wf(),
                i <= self@.len(),
                cutoff == cutoff_spec,
                due@ == due_tasks(self@.subrange(0, i as int), cutoff_spec),
                tasks_wf(due@),
            decreases self@.len() - i,
        {
            let row = self.rows[i];
            let ghost pre = self@.subrange(0, i as int);
            let ghost post = self@.subrange(0, i as int + 1);
            proof {
                assert(post.drop_last() =~= pre);
                assert(post.last() == self@[i as int]);
            }
            if matches!(row.status, TaskStatus::Submitted) && row.execution_time.to_micros()
                <= cutoff {
                due.push(Task { id: row.id, task_type: row.task_type, execution_time: row.execution_time });
            }
            i = i + 1;
        }
        proof {
            assert(self@.subrange(0, self@.len() as int) =~= self@);
            lemma_due_tasks_wf(self@, cutoff_spec);
        }
        let ghost due_all = due@;
        let mut out: Vec<Task> = Vec::new();
        let mut k: usize = 0;
        while k < due.len()
            invariant
                k <= due@.len(),
                due@ == due_all,
                tasks_wf(due@),
                out@.len() == k,
                sorted_by_time(out@),
                tasks_wf(out@),
                out@.to_multiset() == due@.subrange(0, k as int).to_multiset(),
            decreases due@.len() - k,
        {
            let ghost pre = due@.subrange(0, k as int);
            let ghost post = due@.subrange(0, k as int + 1);
            proof {
                broadcast use vstd::seq_lib::group_to_multiset_ensures;

                assert(post =~= pre.push(due@[k as int]));
                assert(post.to_multiset() == pre.to_multiset().insert(due@[k as int]));
            }
            insert_sorted(&mut out, due[k]);
            k = k + 1;
        }
        proof {
            assert(due@.subrange(0, due@.len() as int) =~= due@);
        }
        let ghost full = out@;
        out.truncate(limit);
        proof {
            if limit < full.len() {
                assert(out@ == full.subrange(0, limit as int));
                lemma_prefix_submultiset(full, limit as int);
                assert forall|p: int, q: int| 0 <= p < q < out@.len() implies task_le(
                    out@[p],
                    out@[q],
                ) by {
                    assert(out@[p] == full[p] && out@[q] == full[q]);
                }
                assert forall|p: int| 0 <= p < out@.len() implies (#[trigger] out@[p]).wf() by {
                    assert(out@[p] == full[p]);
                }
            } else {
                assert(out@ == full);
            }
        }
        out
    }
}

/// The filters of the listing read of the submission surface.
#[derive(Clone, Copy, PartialEq, Eq, Structural, Debug)]
pub struct ListTasksParams {
    pub status: Option<TaskStatus>,
    pub typ: Option<TaskType>,
}

/// Whether a listing with these filters reports this row.
pub open spec fn list_matches(r: TaskRow, status: Option<TaskStatus>, typ: Option<TaskType>) -> bool {
    &&& (status matches Some(st) ==> r.status == st)
    &&& (typ matches Some(tt) ==> r.task_type == tt)
    &&& r.status != TaskStatus::Deleted
}

/// The rows a listing reports, in row order.
pub open spec fn list_view(
    rows: Seq<TaskRow>,
    status: Option<TaskStatus>,
    typ: Option<TaskType>,
) -> Seq<TaskInDb>
    decreases rows.len(),
{
    if rows.len() == 0 {
        Seq::empty()
    } else {
        let prefix = list_view(rows.drop_last(), status, typ);
        if list_matches(rows.last(), status, typ) {
            prefix.push(db_view(rows.last()))
        } else {
            prefix
        }
    }
}

/// Tasks ordered by their place on the timeline.
pub open spec fn task_le(a: Task, b: Task) -> bool {
    micros_of(a.execution_time) <= micros_of(b.execution_time)
}

pub open spec fn sorted_by_time(s: Seq<Task>) -> bool {
    forall|i: int, j: int| 0 <= i < j < s.len() ==> task_le(s[i], s[j])
}

pub open spec fn tasks_wf(s: Seq<Task>) -> bool {
    forall|i: int| 0 <= i < s.len() ==> (#[trigger] s[i]).wf()
}

/// The instant up to which a sweep looks ahead.
pub open spec fn sweep_cutoff(now: Timestamp, max_seconds_to_sleep: i64) -> int {
    micros_of(now) + max_seconds_to_sleep * 1_000_000
}

/// A row a sweep must pick up: still `Submitted` and due before the cutoff.
pub open spec fn row_due(r: TaskRow, cutoff: int) -> bool {
    r.status == TaskStatus::Submitted && micros_of(r.execution_time) <= cutoff
}

/// The in-flight projections of every due row, in row order.
pub open spec fn due_tasks(rows: Seq<TaskRow>, cutoff: int) -> Seq<Task>
    decreases rows.len(),
{
    if rows.len() == 0 {
        Seq::empty()
    } else {
        let prefix = due_tasks(rows.drop_last(), cutoff);
        if row_due(rows.last(), cutoff) {
            prefix.push(flight_view(rows.last()))
        } else {
            prefix
        }
    }
}

proof fn lemma_due_tasks_wf(rows: Seq<TaskRow>, cutoff: int)
    requires
        rows_wf(rows),
    ensures
        tasks_wf(due_tasks(rows, cutoff)),
        due_tasks(rows, cutoff).len() <= rows.len(),
    decreases rows.len(),
{
    if rows.len() > 0 {
        assert(rows_wf(rows.drop_last())) by {
            assert(forall|i: int|
                0 <= i < rows.len() - 1 ==> rows.drop_last()[i] == #[trigger] rows[i]);
        }
        lemma_due_tasks_wf(rows.drop_last(), cutoff);
    }
}

/// Inserting an element anywhere adds exactly it to the multiset of elements.
proof fn lemma_insert_to_multiset(s: Seq<Task>, j: int, t: Task)
    requires
        0 <= j <= s.len(),
    ensures
        s.insert(j, t).to_multiset() =~= s.to_multiset().insert(t),
{
    broadcast use vstd::seq_lib::group_to_multiset_ensures;
    broadcast use vstd::multiset::group_multiset_axioms;

    let a = s.subrange(0, j);
    let b = s.subrange(j, s.len() as int);
    assert(s.insert(j, t) == a.push(t) + b);
    vstd::seq_lib::lemma_multiset_commutative(a.push(t), b);
    vstd::seq_lib::lemma_multiset_commutative(a, b);
    s.lemma_split_at(j);
    assert((a + b).to_multiset() == s.to_multiset());
    assert(a.push(t).to_multiset() == a.to_multiset().insert(t));
}

/// A prefix of a sequence carries a sub-multiset of its elements.
proof fn lemma_prefix_submultiset(s: Seq<Task>, k: int)
    requires
        0 <= k <= s.len(),
    ensures
        s.subrange(0, k).to_multiset().subset_of(s.to_multiset()),
{
    broadcast use vstd::multiset::group_multiset_axioms;

    let a = s.subrange(0, k);
    let b = s.subrange(k, s.len() as int);
    s.lemma_split_at(k);
    vstd::seq_lib::lemma_multiset_commutative(a, b);
    assert((a + b).to_multiset() == s.to_multiset());
}

/// Place one task into a time-sorted vector, keeping it sorted.
fn insert_sorted(v: &mut Vec<Task>, t: Task)
    requires
        sorted_by_time(old(v)@),
        tasks_wf(old(v)@),
        t.wf(),
        old(v)@.len() < usize::MAX,
    ensures
        final(v)@.to_multiset() == old(v)@.to_multiset().insert(t),
        sorted_by_time(final(v)@),
        tasks_wf(final(v)@),
        final(v)@.len() == old(v)@.len() + 1,
{
    let key = t.execution_time.to_micros();
    let mut j: usize = 0;
    while j < v.len() && v[j].execution_time.to_micros() <= key
        invariant
            j <= v@.len(),
            sorted_by_time(v@),
            tasks_wf(v@),
            t.wf(),
            key == micros_of(t.execution_time),
            v == old(v),
            forall|k: int| 0 <= k < j ==> task_le(#[trigger] v@[k], t),
        decreases v@.len() - j,
    {
        j = j + 1;
    }
    let ghost s0 = v@;
    let ghost jj = j as int;
    v.insert(j, t);
    proof {
        s0.insert_ensures(jj, t);
        assert forall|p: int, q: int| 0 <= p < q < v@.len() implies task_le(v@[p], v@[q]) by {
            if q < jj {
                assert(v@[p] == s0[p] && v@[q] == s0[q]);
            } else if q == jj {
                assert(v@[q] == t);
                assert(task_le(s0[p], t));
            } else if p == jj {
                assert(v@[p] == t && v@[q] == s0[q - 1]);
                assert(jj < s0.len());
                assert(!task_le(s0[jj], t));
                if q - 1 > jj {
                    assert(task_le(s0[jj], s0[q - 1]));
                }
            } else if p < jj {
                assert(v@[p] == s0[p] && v@[q] == s0[q - 1]);
                if p < q - 1 {
                    assert(task_le(s0[p], s0[q - 1]));
                }
            } else {
                assert(v@[p] == s0[p - 1] && v@[q] == s0[q - 1]);
                assert(task_le(s0[p - 1], s0[q - 1]));
            }
        }
        lemma_insert_to_multiset(s0, jj, t);
        assert forall|i: int| 0 <= i < v@.len() implies (#[trigger] v@[i]).wf() by {
            if i < jj {
                assert(v@[i] == s0[i]);
            } else if i > jj {
                assert(v@[i] == s0[i - 1]);
            }
        }
    }
}

/// A rewrite of every row that keeps each row's id keeps `distinct_ids`,
/// membership, row lookup, and the length.
pub proof fn lemma_map_preserves_rows(rows: Seq<TaskRow>, f: spec_fn(TaskRow) -> TaskRow)
    requires
        distinct_ids(rows),
        forall|r: TaskRow| (#[trigger] f(r)).id == r.id,
    ensures
        distinct_ids(rows.map_values(f)),
        rows.map_values(f).len() == rows.len(),
        forall|id: u128| has_task(rows.map_values(f), id) == has_task(rows, id),
        forall|id: u128|
            has_task(rows, id) ==> #[trigger] row_of(rows.map_values(f), id) == f(
                row_of(rows, id),
            ),
{
    let mapped = rows.map_values(f);
    assert forall|i: int, j: int| 0 <= i < j < mapped.len() implies (#[trigger] mapped[i]).id != (
    #[trigger] mapped[j]).id by {
        assert(rows[i].id != rows[j].id);
    }
    assert forall|id: u128| has_task(mapped, id) == has_task(rows, id) by {
        if has_task(rows, id) {
            let i = idx_of(rows, id);
            assert(mapped[i].id == id);
        }
        if has_task(mapped, id) {
            let i = choose|i: int| 0 <= i < mapped.len() && (#[trigger] mapped[i]).id == id;
            assert(rows[i].id == id);
        }
    }
    assert forall|id: u128| has_task(rows, id) implies #[trigger] row_of(mapped, id) == f(
        row_of(rows, id),
    ) by {
        let i = idx_of(rows, id);
        assert(rows[i].id == id);
        assert(mapped[i].id == id);
        assert(distinct_ids(mapped));
        lemma_row_at_index(mapped, i);
        lemma_row_at_index(rows, i);
    }
}

/// One store operation, as the adapter's methods perform them. The laws below
/// quantify over arbitrary interleavings of these, which is how concurrent
/// workers appear to the store: row locking serializes their updates.
pub enum StoreOp {
    Create(Task, Timestamp),
    Claim(u128, Timestamp),
    MarkDone(u128, Timestamp),
    MarkFailed(u128, Timestamp),
    Delete(u128, Timestamp),
}

pub open spec fn apply_op(rows: Seq<TaskRow>, op: StoreOp) -> Seq<TaskRow> {
    match op {
        StoreOp::Create(task, now) => create_transition(rows, task, now),
        StoreOp::Claim(id, now) => claim_transition(rows, id, now),
        StoreOp::MarkDone(id, now) => done_transition(rows, id, now),
        StoreOp::MarkFailed(id, now) => failed_transition(rows, id, now),
        StoreOp::Delete(id, now) => delete_transition(rows, id, now),
    }
}

/// The caller discipline the adapter's contracts impose: a terminal status is
/// only ever written by the worker whose claim won, so the row is in
/// `StartedExecuting` then. Every other operation checks its own precondition.
pub open spec fn op_allowed(rows: Seq<TaskRow>, op: StoreOp) -> bool {
    match op {
        StoreOp::MarkDone(id, _) => has_task(rows, id) && status_of(rows, id)
            == TaskStatus::StartedExecuting,
        StoreOp::MarkFailed(id, _) => has_task(rows, id) && status_of(rows, id)
            == TaskStatus::StartedExecuting,
        _ => true,
    }
}

/// Appending a row with a fresh id keeps ids distinct and other rows' lookups.
proof fn lemma_push_fresh(rows: Seq<TaskRow>, row: TaskRow)
    requires
        distinct_ids(rows),
        !has_task(rows, row.id),
    ensures
        distinct_ids(rows.push(row)),
        forall|id: u128| id != row.id ==> has_task(rows.push(row), id) == has_task(rows, id),
        forall|id: u128|
            id != row.id && has_task(rows, id) ==> #[trigger] row_of(rows.push(row), id) == row_of(
                rows,
                id,
            ),
        has_task(rows.push(row), row.id),
        row_of(rows.push(row), row.id) == row,
{
    let pushed = rows.push(row);
    assert forall|i: int, j: int| 0 <= i < j < pushed.len() implies (#[trigger] pushed[i]).id != (
    #[trigger] pushed[j]).id by {
        if j < pushed.len() - 1 {
            assert(rows[i].id != rows[j].id);
        } else {
            assert(pushed[i] == rows[i]);
        }
    }
    assert forall|id: u128| id != row.id implies has_task(pushed, id) == has_task(rows, id) by {
        if has_task(rows, id) {
            let i = idx_of(rows, id);
            assert(pushed[i].id == id);
        }
        if has_task(pushed, id) {
            let i = choose|i: int| 0 <= i < pushed.len() && (#[trigger] pushed[i]).id == id;
            assert(pushed[i] == rows[i]);
        }
    }
    assert forall|id: u128| id != row.id && has_task(rows, id) implies #[trigger] row_of(
        pushed,
        id,
    ) == row_of(rows, id) by {
        let i = idx_of(rows, id);
        assert(rows[i].id == id);
        assert(pushed[i].id == id);
        lemma_row_at_index(pushed, i);
        lemma_row_at_index(rows, i);
    }
    lemma_row_at_index(pushed, pushed.len() - 1);
}

/// Every operation keeps ids distinct and never drops a row.
pub proof fn lemma_apply_op_preserves(rows: Seq<TaskRow>, op: StoreOp, id: u128)
    requires
        distinct_ids(rows),
    ensures
        distinct_ids(apply_op(rows, op)),
        has_task(rows, id) ==> has_task(apply_op(rows, op), id),
{
    match op {
        StoreOp::Create(task, now) => {
            if !has_task(rows, task.id) {
                lemma_push_fresh(rows, new_row(task, now));
            }
        },
        StoreOp::Claim(cid, now) => {
            lemma_map_preserves_rows(
                rows,
                |r: TaskRow|
                    if r.id == cid && r.status == TaskStatus::Submitted {
                        TaskRow {
                            status: TaskStatus::StartedExecuting,
                            started_executing_at: Some(now),
                            ..r
                        }
                    } else {
                        r
                    },
            );
        },
        StoreOp::MarkDone(cid, now) => {
            lemma_map_preserves_rows(
                rows,
                |r: TaskRow|
                    if r.id == cid {
                        TaskRow { status: TaskStatus::Done, completed_at: Some(now), ..r }
                    } else {
                        r
                    },
            );
        },
        StoreOp::MarkFailed(cid, now) => {
            lemma_map_preserves_rows(
                rows,
                |r: TaskRow|
                    if r.id == cid {
                        TaskRow { status: TaskStatus::Failed, failed_at: Some(now), ..r }
                    } else {
                        r
                    },
            );
        },
        StoreOp::Delete(cid, now) => {
            lemma_map_preserves_rows(
                rows,
                |r: TaskRow|
                    if r.id == cid && r.status == TaskStatus::Submitted {
                        TaskRow { status: TaskStatus::Deleted, deleted_at: Some(now), ..r }
                    } else {
                        r
                    },
            );
        },
    }
}

/// Status monotonicity, one step: any allowed operation moves a task's status
/// along the lifecycle's legal edges or not at all.
pub proof fn lemma_status_monotonic(rows: Seq<TaskRow>, op: StoreOp, id: u128)
    requires
        distinct_ids(rows),
        op_allowed(rows, op),
        has_task(rows, id),
    ensures
        has_task(apply_op(rows, op), id),
        reachable_status(status_of(rows, id), status_of(apply_op(rows, op), id)),
{
    lemma_apply_op_preserves(rows, op, id);
    match op {
        StoreOp::Create(task, now) => {
            if !has_task(rows, task.id) {
                lemma_push_fresh(rows, new_row(task, now));
            }
        },
        StoreOp::Claim(cid, now) => {
            lemma_map_preserves_rows(
                rows,
                |r: TaskRow|
                    if r.id == cid && r.status == TaskStatus::Submitted {
                        TaskRow {
                            status: TaskStatus::StartedExecuting,
                            started_executing_at: Some(now),
                            ..r
                        }
                    } else {
                        r
                    },
            );
        },
        StoreOp::MarkDone(cid, now) => {
            lemma_map_preserves_rows(
                rows,
                |r: TaskRow|
                    if r.id == cid {
                        TaskRow { status: TaskStatus::Done, completed_at: Some(now), ..r }
                    } else {
                        r
                    },
            );
        },
        StoreOp::MarkFailed(cid, now) => {
            lemma_map_preserves_rows(
                rows,
                |r: TaskRow|
                    if r.id == cid {
                        TaskRow { status: TaskStatus::Failed, failed_at: Some(now), ..r }
                    } else {
                        r
                    },
            );
        },
        StoreOp::Delete(cid, now) => {
            lemma_map_preserves_rows(
                rows,
                |r: TaskRow|
                    if r.id == cid && r.status == TaskStatus::Submitted {
                        TaskRow { status: TaskStatus::Deleted, deleted_at: Some(now), ..r }
                    } else {
                        r
                    },
            );
        },
    }
}

/// Once a task has left `Submitted`, no allowed operation brings it back.
pub proof fn lemma_submitted_not_restored(rows: Seq<TaskRow>, op: StoreOp, id: u128)
    requires
        distinct_ids(rows),
        op_allowed(rows, op),
        has_task(rows, id),
        status_of(rows, id) != TaskStatus::Submitted,
    ensures
        has_task(apply_op(rows, op), id),
        status_of(apply_op(rows, op), id) != TaskStatus::Submitted,
{
    lemma_status_monotonic(rows, op, id);
}

pub open spec fn apply_ops(rows: Seq<TaskRow>, ops: Seq<StoreOp>) -> Seq<TaskRow>
    decreases ops.len(),
{
    if ops.len() == 0 {
        rows
    } else {
        apply_ops(apply_op(rows, ops[0]), ops.drop_first())
    }
}

pub open spec fn ops_allowed(rows: Seq<TaskRow>, ops: Seq<StoreOp>) -> bool
    decreases ops.len(),
{
    if ops.len() == 0 {
        true
    } else {
        op_allowed(rows, ops[0]) && ops_allowed(apply_op(rows, ops[0]), ops.drop_first())
    }
}

/// How many of these operations are claims of `id` that win.
pub open spec fn successful_claims(rows: Seq<TaskRow>, ops: Seq<StoreOp>, id: u128) -> int
    decreases ops.len(),
{
    if ops.len() == 0 {
        0
    } else {
        (match ops[0] {
            StoreOp::Claim(cid, _) => if cid == id && claim_succeeds(rows, id) {
                1int
            } else {
                0int
            },
            _ => 0int,
        }) + successful_claims(apply_op(rows, ops[0]), ops.drop_first(), id)
    }
}

/// Exactly-once execution: over any allowed sequence of store operations, at
/// most one claim of a given task wins; and none wins once the task exists
/// outside `Submitted`.
pub proof fn lemma_claim_exactly_once(rows: Seq<TaskRow>, ops: Seq<StoreOp>, id: u128)
    requires
        distinct_ids(rows),
        ops_allowed(rows, ops),
    ensures
        0 <= successful_claims(rows, ops, id) <= 1,
        has_task(rows, id) && status_of(rows, id) != TaskStatus::Submitted
            ==> successful_claims(rows, ops, id) == 0,
    decreases ops.len(),
{
    if ops.len() > 0 {
        let rows1 = apply_op(rows, ops[0]);
        lemma_apply_op_preserves(rows, ops[0], id);
        lemma_claim_exactly_once(rows1, ops.drop_first(), id);
        if has_task(rows, id) && status_of(rows, id) != TaskStatus::Submitted {
            lemma_submitted_not_restored(rows, ops[0], id);
        }
        match ops[0] {
            StoreOp::Claim(cid, now) => {
                if cid == id && claim_succeeds(rows, id) {
                    lemma_map_preserves_rows(
                        rows,
                        |r: TaskRow|
                            if r.id == cid && r.status == TaskStatus::Submitted {
                                TaskRow {
                                    status: TaskStatus::StartedExecuting,
                                    started_executing_at: Some(now),
                                    ..r
                                }
                            } else {
                                r
                            },
                    );
                    assert(status_of(rows1, id) == TaskStatus::StartedExecuting);
                }
            },
            _ => {},
        }
    }
}

/// No execution after deletion: once a delete of a still-`Submitted` task has
/// committed, no later claim of it ever wins, so its body never runs.
pub proof fn lemma_no_claim_after_delete(
    rows: Seq<TaskRow>,
    ops: Seq<StoreOp>,
    id: u128,
    now: Timestamp,
)
    requires
        distinct_ids(rows),
        has_task(rows, id),
        status_of(rows, id) == TaskStatus::Submitted,
        ops_allowed(delete_transition(rows, id, now), ops),
    ensures
        status_of(delete_transition(rows, id, now), id) == TaskStatus::Deleted,
        successful_claims(delete_transition(rows, id, now), ops, id) == 0,
{
    lemma_map_preserves_rows(
        rows,
        |r: TaskRow|
            if r.id == id && r.status == TaskStatus::Submitted {
                TaskRow { status: TaskStatus::Deleted, deleted_at: Some(now), ..r }
            } else {
                r
            },
    );
    lemma_apply_op_preserves(rows, StoreOp::Delete(id, now), id);
    lemma_claim_exactly_once(delete_transition(rows, id, now), ops, id);
}

/// Status monotonicity over whole histories: where a task ends up is reachable
/// from where it started along the lifecycle's legal paths.
pub proof fn lemma_status_monotonic_ops(rows: Seq<TaskRow>, ops: Seq<StoreOp>, id: u128)
    requires
        distinct_ids(rows),
        ops_allowed(rows, ops),
        has_task(rows, id),
    ensures
        has_task(apply_ops(rows, ops), id),
        reachable_status(status_of(rows, id), status_of(apply_ops(rows, ops), id)),
    decreases ops.len(),
{
    if ops.len() > 0 {
        let rows1 = apply_op(rows, ops[0]);
        lemma_status_monotonic(rows, ops[0], id);
        lemma_apply_op_preserves(rows, ops[0], id);
        lemma_status_monotonic_ops(rows1, ops.drop_first(), id);
        crate::task::lemma_reachable_is_transitive(
            status_of(rows, id),
            status_of(rows1, id),
            status_of(apply_ops(rows, ops), id),
        );
    }
}

/// Liveness of the sweeper's read, one step: a freshly created task that is
/// due within the cutoff is among the due tasks every later sweep sees, so a
/// live sweeper eventually presents it to a work queue.
pub proof fn lemma_created_task_is_due(rows: Seq<TaskRow>, task: Task, now: Timestamp, cutoff: int)
    requires
        !has_task(rows, task.id),
        micros_of(task.execution_time) <= cutoff,
    ensures
        due_tasks(create_transition(rows, task, now), cutoff) == due_tasks(rows, cutoff).push(
            task,
        ),
{
    let pushed = rows.push(new_row(task, now));
    assert(pushed.drop_last() =~= rows);
    assert(pushed.last() == new_row(task, now));
    assert(row_due(new_row(task, now), cutoff));
    assert(flight_view(new_row(task, now)) == task);
}

/// Inserting then fetching a task returns the same identity, kind and
/// execution time, with the lifecycle freshly `Submitted`.
pub proof fn lemma_create_then_get(rows: Seq<TaskRow>, task: Task, now: Timestamp)
    requires
        distinct_ids(rows),
        !has_task(rows, task.id),
    ensures
        has_task(create_transition(rows, task, now), task.id),
        status_of(create_transition(rows, task, now), task.id) == TaskStatus::Submitted,
        db_view(row_of(create_transition(rows, task, now), task.id)).id == task.id,
        db_view(row_of(create_transition(rows, task, now), task.id)).task_type == task.task_type,
        db_view(row_of(create_transition(rows, task, now), task.id)).execution_time
            == task.execution_time,
        flight_view(row_of(create_transition(rows, task, now), task.id)) == task,
{
    lemma_push_fresh(rows, new_row(task, now));
}

} // verus!
