//! The in-process coordination of one executor: the dedup set shared by the
//! three activities, the bounded channel's capacity discipline, the two
//! permit counters, and every decision the listener, the sweeper and the work
//! queue take. The long-running loops themselves only await, send and sleep;
//! each choice they make is a function here, with its contract.

use vstd::prelude::*;

use crate::codec::DecodeError;
use crate::codec::Notification;
use crate::codec::decode_notification;
use crate::config::ServerConfig;
use crate::error::Error;
use crate::store::TaskStore;
use crate::store::done_transition;
use crate::store::failed_transition;
use crate::store::has_task;
use crate::store::status_of;
use crate::task::Task;
use crate::task::TaskStatus;
use crate::time::Timestamp;
use crate::time::micros_of;
use crate::time::valid_timestamp;

verus! {

/// What travels over the in-process channel from the two ingress paths to the
/// work queue.
#[derive(Clone, Copy, PartialEq, Eq, Structural, Debug)]
pub enum QueueEvent {
    Task(Task),
    Stop,
}

/// The smallest remaining channel capacity at which an ingress path still
/// sends: bursts from the sweeper must not starve notification-driven tasks.
pub const MIN_CAPACITY_TO_SUBMIT: usize = 10;

/// What the listener does with one task announcement.
#[derive(Clone, Copy, PartialEq, Eq, Structural, Debug)]
pub enum IngressDecision {
    /// Send the task to the work queue and start tracking its id.
    Submit,
    /// The id is already tracked here; a duplicate enqueue is suppressed.
    AlreadyQueued,
    /// The task is due beyond `now + max_seconds_to_sleep`; the sweeper will
    /// present it again once it enters the horizon.
    BeyondHorizon,
    /// The channel is nearly full; drop and rely on the sweeper.
    ChannelBusy,
}

/// What the work queue's consumer does with one received event.
#[derive(Clone, Copy, PartialEq, Eq, Structural, Debug)]
pub enum QueueStep {
    /// Spawn the per-task activity.
    Spawn(Task),
    /// No sleep permit is free right now; drop and rely on the sweeper.
    DropNoPermit(u128),
    /// A `Stop` event ends the consumer.
    StopLoop,
}

/// The in-process state one executor shares between its activities: the set
/// of task ids currently tracked, and how many sleep and execution permits
/// are held.
pub struct ExecutorState {
    pub config: ServerConfig,
    pub ids_in_queue: Vec<u128>,
    pub sleeping: usize,
    pub executing: usize,
}

pub open spec fn distinct_u128(s: Seq<u128>) -> bool {
    forall|i: int, j: int| 0 <= i < j < s.len() ==> s[i] != s[j]
}

impl ExecutorState {
    /// Capacity respect: never more sleep permits out than tasks allowed in
    /// memory, never more execution permits out than bodies allowed to run.
    pub open spec fn wf(&self) -> bool {
        &&& self.config.wf()
        &&& distinct_u128(self.ids_in_queue@)
        &&& self.sleeping <= self.config.max_concurrent_tasks_in_memory
        &&& self.executing <= self.config.max_concurrent_executing_tasks
    }

    /// The id is currently tracked by this process's work queue.
    pub open spec fn in_queue(&self, id: u128) -> bool {
        self.ids_in_queue@.contains(id)
    }

    pub fn new(config: ServerConfig) -> (r: ExecutorState)
        requires
            config.wf(),
        ensures
            r.wf(),
            r.config == config,
            r.sleeping == 0,
            r.executing == 0,
            forall|id: u128| !r.in_queue(id),
    {
        let r = ExecutorState { config, ids_in_queue: Vec::new(), sleeping: 0, executing: 0 };
        proof {
            assert(forall|id: u128| !r.ids_in_queue@.contains(id));
        }
        r
    }

    /// Whether this id is tracked; the dedup test both ingress paths use.
    pub fn contains_id(&self, id: u128) -> (r: bool)
        ensures
            r == self.in_queue(id),
    {
        let mut i: usize = 0;
        while i < self.ids_in_queue.len()
            invariant
                i <= self.ids_in_queue@.len(),
                forall|k: int| 0 <= k < i ==> self.ids_in_queue@[k] != id,
            decreases self.ids_in_queue@.len() - i,
        {
            if self.ids_in_queue[i] == id {
                return true;
            }
            i = i + 1;
        }
        false
    }

    /// Start tracking an id, once its task was sent to the work queue.
    pub fn track_id(&mut self, id: u128)
        requires
            old(self).wf(),
        ensures
            final(self).wf(),
            final(self).in_queue(id),
            forall|x: u128| final(self).in_queue(x) == (old(self).in_queue(x) || x == id),
            final(self).config == old(self).config,
            final(self).sleeping == old(self).sleeping,
            final(self).executing == old(self).executing,
    {
        if !self.contains_id(id) {
            let ghost s0 = self.ids_in_queue@;
            self.ids_in_queue.push(id);
            proof {
                assert forall|i: int, j: int|
                    0 <= i < j < self.ids_in_queue@.len() implies self.ids_in_queue@[i]
                    != self.ids_in_queue@[j] by {
                    if j < self.ids_in_queue@.len() - 1 {
                        assert(s0[i] != s0[j]);
                    } else {
                        assert(s0.contains(s0[i]));
                    }
                }
                assert forall|x: u128|
                    final(self).in_queue(x) == (old(self).in_queue(x) || x == id) by {
                    if final(self).in_queue(x) {
                        let i = choose|i: int|
                            0 <= i < self.ids_in_queue@.len() && self.ids_in_queue@[i] == x;
                        if i < self.ids_in_queue@.len() - 1 {
                            assert(s0[i] == x);
                        }
                    }
                    if old(self).in_queue(x) {
                        let i = choose|i: int| 0 <= i < s0.len() && s0[i] == x;
                        assert(self.ids_in_queue@[i] == x);
                    }
                    if x == id {
                        assert(self.ids_in_queue@.last() == id);
                    }
                }
            }
        }
    }

    /// Stop tracking an id, after its task reached a terminal state locally.
    pub fn untrack_id(&mut self, id: u128)
        requires
            old(self).wf(),
        ensures
            final(self).wf(),
            !final(self).in_queue(id),
            forall|x: u128| x != id ==> final(self).in_queue(x) == old(self).in_queue(x),
            final(self).config == old(self).config,
            final(self).sleeping == old(self).sleeping,
            final(self).executing == old(self).executing,
    {
        let mut i: usize = 0;
        while i < self.ids_in_queue.len()
            invariant
                old(self).wf(),
                i <= self.ids_in_queue@.len(),
                self.ids_in_queue@ == old(self).ids_in_queue@,
                self.config == old(self).config,
                self.sleeping == old(self).sleeping,
                self.executing == old(self).executing,
                forall|k: int| 0 <= k < i ==> self.ids_in_queue@[k] != id,
            decreases self.ids_in_queue@.len() - i,
        {
            if self.ids_in_queue[i] == id {
                let ghost s0 = self.ids_in_queue@;
                let ghost ii = i as int;
                self.ids_in_queue.remove(i);
                proof {
                    assert(self.ids_in_queue@ == s0.remove(ii));
                    s0.remove_ensures(ii);
                    assert forall|p: int, q: int|
                        0 <= p < q < self.ids_in_queue@.len() implies self.ids_in_queue@[p]
                        != self.ids_in_queue@[q] by {
                        if q < ii {
                            assert(s0[p] != s0[q]);
                        } else if p >= ii {
                            assert(s0[p + 1] != s0[q + 1]);
                        } else {
                            assert(s0[p] != s0[q + 1]);
                        }
                    }
                    assert forall|x: u128| !(x != id) || final(self).in_queue(x) == old(
                        self,
                    ).in_queue(x) by {
                        if x != id {
                            if self.ids_in_queue@.contains(x) {
                                let k = choose|k: int|
                                    0 <= k < self.ids_in_queue@.len() && self.ids_in_queue@[k]
                                        == x;
                                if k < ii {
                                    assert(s0[k] == x);
                                } else {
                                    assert(s0[k + 1] == x);
                                }
                            }
                            if s0.contains(x) {
                                let k = choose|k: int| 0 <= k < s0.len() && s0[k] == x;
                                if k < ii {
                                    assert(self.ids_in_queue@[k] == x);
                                } else if k > ii {
                                    assert(self.ids_in_queue@[k - 1] == x);
                                }
                            }
                        }
                    }
                    assert(!final(self).in_queue(id)) by {
                        if self.ids_in_queue@.contains(id) {
                            let k = choose|k: int|
                                0 <= k < self.ids_in_queue@.len() && self.ids_in_queue@[k] == id;
                            if k < ii {
                                assert(s0[k] == id && s0[ii] == id);
                            } else {
                                assert(s0[k + 1] == id && s0[ii] == id);
                            }
                        }
                    }
                }
                return ;
            }
            i = i + 1;
        }
    }

    /// The listener's (and the submitter's) horizon test, and the sweeper's
    /// ingress discipline, in one decision: a task announcement is submitted
    /// exactly when its id is not yet tracked, its execution time lies within
    /// `now + max_seconds_to_sleep`, and the channel has comfortable room.
    pub fn ingress_decision(&self, task: &Task, now_micros: i64, remaining_capacity: usize) -> (r:
        IngressDecision)
        requires
            self.wf(),
            task.wf(),
            0 <= now_micros,
            now_micros + self.config.max_seconds_to_sleep * 1_000_000 <= i64::MAX,
        ensures
            r == IngressDecision::Submit <==> !self.in_queue(task.id) && micros_of(
                task.execution_time,
            ) <= now_micros + self.config.max_seconds_to_sleep * 1_000_000 && remaining_capacity
                >= MIN_CAPACITY_TO_SUBMIT,
            r == IngressDecision::AlreadyQueued <==> self.in_queue(task.id),
            r == IngressDecision::BeyondHorizon <==> !self.in_queue(task.id) && micros_of(
                task.execution_time,
            ) > now_micros + self.config.max_seconds_to_sleep * 1_000_000,
    {
        if self.contains_id(task.id) {
            IngressDecision::AlreadyQueued
        } else {
            let horizon = now_micros + self.config.max_seconds_to_sleep * 1_000_000;
            if task.execution_time.to_micros() > horizon {
                IngressDecision::BeyondHorizon
            } else if remaining_capacity >= MIN_CAPACITY_TO_SUBMIT {
                IngressDecision::Submit
            } else {
                IngressDecision::ChannelBusy
            }
        }
    }

    /// The work queue consumer's choice for one event: spawn the per-task
    /// activity only when a sleep permit is free right now.
    pub fn work_queue_step(&self, event: &QueueEvent) -> (r: QueueStep)
        requires
            self.wf(),
        ensures
            match *event {
                QueueEvent::Stop => r == QueueStep::StopLoop,
                QueueEvent::Task(t) => r == if self.sleeping
                    < self.config.max_concurrent_tasks_in_memory {
                    QueueStep::Spawn(t)
                } else {
                    QueueStep::DropNoPermit(t.id)
                },
            },
    {
        match event {
            QueueEvent::Stop => QueueStep::StopLoop,
            QueueEvent::Task(t) => {
                if self.sleeping < self.config.max_concurrent_tasks_in_memory {
                    QueueStep::Spawn(*t)
                } else {
                    QueueStep::DropNoPermit(t.id)
                }
            },
        }
    }

    /// Take one sleep permit. The semaphore never hands out more than
    /// `max_concurrent_tasks_in_memory`, which is what `wf` records.
    pub fn acquire_sleep_permit(&mut self)
        requires
            old(self).wf(),
            old(self).sleeping < old(self).config.max_concurrent_tasks_in_memory,
        ensures
            final(self).wf(),
            final(self).sleeping == old(self).sleeping + 1,
            final(self).executing == old(self).executing,
            final(self).config == old(self).config,
            final(self).ids_in_queue == old(self).ids_in_queue,
    {
        self.sleeping = self.sleeping + 1;
    }

    pub fn release_sleep_permit(&mut self)
        requires
            old(self).wf(),
            old(self).sleeping >= 1,
        ensures
            final(self).wf(),
            final(self).sleeping == old(self).sleeping - 1,
            final(self).executing == old(self).executing,
            final(self).config == old(self).config,
            final(self).ids_in_queue == old(self).ids_in_queue,
    {
        self.sleeping = self.sleeping - 1;
    }

    /// Take one execution permit, held for the task body and the terminal
    /// status write.
    pub fn acquire_exec_permit(&mut self)
        requires
            old(self).wf(),
            old(self).executing < old(self).config.max_concurrent_executing_tasks,
        ensures
            final(self).wf(),
            final(self).executing == old(self).executing + 1,
            final(self).sleeping == old(self).sleeping,
            final(self).config == old(self).config,
            final(self).ids_in_queue == old(self).ids_in_queue,
    {
        self.executing = self.executing + 1;
    }

    pub fn release_exec_permit(&mut self)
        requires
            old(self).wf(),
            old(self).executing >= 1,
        ensures
            final(self).wf(),
            final(self).executing == old(self).executing - 1,
            final(self).sleeping == old(self).sleeping,
            final(self).config == old(self).config,
            final(self).ids_in_queue == old(self).ids_in_queue,
    {
        self.executing = self.executing - 1;
    }
}

/// What the listener does with one raw announcement, after the subscription
/// handed it over: drop payloads for other channels, drop what does not
/// decode, stop on `Stop`, and apply the ingress decision to a new task.
#[derive(Clone, Copy, PartialEq, Eq, Structural, Debug)]
pub enum ListenerAction {
    /// Send the announced task to the work queue and record its id.
    Submit(Task),
    /// End the listener loop; the supervisor shuts the process down.
    StopLoop,
    /// Nothing to do: wrong channel, malformed payload, or a drop.
    Ignore,
}

/// One turn of the listener loop: everything but the
/// awaiting itself.
pub fn listener_step(
    state: &ExecutorState,
    channel_matches: bool,
    payload: &[u8],
    now_micros: i64,
    remaining_capacity: usize,
) -> (r: ListenerAction)
    requires
        state.wf(),
        0 <= now_micros,
        now_micros + state.config.max_seconds_to_sleep * 1_000_000 <= i64::MAX,
    ensures
        !channel_matches ==> r == ListenerAction::Ignore,
        channel_matches && payload@ == crate::codec::encode_spec(Notification::Stop) ==> r
            == ListenerAction::StopLoop,
        (forall|n: Notification|
            crate::codec::valid_notification(n) ==> payload@ != crate::codec::encode_spec(n))
            ==> r == ListenerAction::Ignore,
        channel_matches ==> forall|t: Task|
            t.wf() && payload@ == crate::codec::encode_spec(Notification::NewTask(t)) ==> r == (
            if !state.in_queue(t.id) && micros_of(t.execution_time) <= now_micros
                + state.config.max_seconds_to_sleep * 1_000_000 && remaining_capacity
                >= MIN_CAPACITY_TO_SUBMIT {
                ListenerAction::Submit(t)
            } else {
                ListenerAction::Ignore
            }),
{
    if !channel_matches {
        return ListenerAction::Ignore;
    }
    match decode_notification(payload) {
        Err(DecodeError::Malformed) => ListenerAction::Ignore,
        Ok(Notification::Stop) => ListenerAction::StopLoop,
        Ok(Notification::NewTask(task)) => {
            match state.ingress_decision(&task, now_micros, remaining_capacity) {
                IngressDecision::Submit => ListenerAction::Submit(task),
                _ => ListenerAction::Ignore,
            }
        },
    }
}

/// Record a finished run: `Done` on success, `Failed` on any
/// error of the task body. Only the claim's winner reaches this point.
pub fn record_outcome(
    store: &mut TaskStore,
    id: u128,
    now: Timestamp,
    body_succeeded: bool,
) -> (r: Result<(), Error>)
    requires
        old(store).wf(),
        valid_timestamp(now),
        has_task(old(store)@, id),
        status_of(old(store)@, id) == TaskStatus::StartedExecuting,
    ensures
        final(store).wf(),
        r is Ok,
        body_succeeded ==> final(store)@ == done_transition(old(store)@, id, now) && status_of(
            final(store)@,
            id,
        ) == TaskStatus::Done,
        !body_succeeded ==> final(store)@ == failed_transition(old(store)@, id, now) && status_of(
            final(store)@,
            id,
        ) == TaskStatus::Failed,
{
    if body_succeeded {
        store.mark_task_done(id, now)
    } else {
        store.mark_task_failed(id, now)
    }
}

/// How long a per-task activity sleeps before claiming: until
/// `execution_time`, and not at all once past due — a negative wait is zero.
pub fn sleep_duration_micros(task: &Task, now_micros: i64) -> (r: u64)
    requires
        task.wf(),
        0 <= now_micros,
    ensures
        micros_of(task.execution_time) <= now_micros ==> r == 0,
        micros_of(task.execution_time) > now_micros ==> r == micros_of(task.execution_time)
            - now_micros,
{
    proof {
        crate::time::lemma_micros_of_bounds(task.execution_time);
    }
    let target = task.execution_time.to_micros();
    if target <= now_micros {
        0
    } else {
        (target - now_micros) as u64
    }
}

} // verus!
