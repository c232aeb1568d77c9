//! The dispatch rules of a fixed-size worker pool.
//!
//! `PoolCore` owns the shared FIFO work queue and the state of every worker. The
//! threads themselves live outside: each worker thread asks `take` for its next
//! step under the pool's lock, runs the work it was handed without holding the
//! lock, and reports back with `finish`. Shutdown queues exactly one `Terminate`
//! per worker behind all submitted work.
//!
//! Every submitted work item gets a ticket, counted from zero. The ghost part of
//! the core records the work submitted under each ticket, the tickets handed to
//! workers in the order they were handed out, and the tickets whose work has
//! completed; the laws that follow `PoolCore` are stated over that record.

use std::collections::VecDeque;
use vstd::prelude::*;

verus! {

/// What travels through the work queue.
pub enum Message<J> {
    /// Run this work item; the number is its ticket.
    NewJob(u64, J),
    /// Leave the worker loop.
    Terminate,
}

/// Where a worker stands in its loop.
#[derive(Clone, Copy, Debug, PartialEq, Eq, Structural)]
pub enum WorkerState {
    /// Waiting on the queue.
    Idle,
    /// Executing the work item with this ticket.
    Running(u64),
    /// Out of its loop for good.
    Stopped,
}

/// What a worker is told to do next.
pub enum Step<J> {
    /// Execute this work item (its ticket comes first), then call `finish`.
    Run(u64, J),
    /// Nothing is queued: block until something is submitted, then ask again.
    Wait,
    /// An orderly `Terminate` arrived: leave the loop.
    Stop,
    /// The queue was abandoned without a `Terminate`: leave the loop.
    Closed,
}

/// Why a submission was refused.
#[derive(Clone, Copy, Debug, PartialEq, Eq, Structural)]
pub enum SubmitError {
    /// Shutdown has begun, or the queue was abandoned.
    ShutDown,
    /// Every ticket number has been used.
    Exhausted,
}

/// The mathematical state of a pool.
pub ghost struct PoolModel<J> {
    /// The messages waiting in the queue, front first.
    pub queue: Seq<Message<J>>,
    /// The state of each worker, by id.
    pub workers: Seq<WorkerState>,
    /// Every work item ever accepted; the index is its ticket.
    pub jobs: Seq<J>,
    /// The tickets handed out to workers, in the order they were handed out.
    pub log: Seq<u64>,
    /// The tickets whose work has completed.
    pub done: Set<u64>,
    /// Shutdown has begun.
    pub shutting_down: bool,
    /// The queue was abandoned without an orderly shutdown.
    pub closed: bool,
}

/// The number of stopped workers in `ws`.
pub open spec fn stopped_count(ws: Seq<WorkerState>) -> nat
    decreases ws.len(),
{
    if ws.len() == 0 {
        0
    } else {
        stopped_count(ws.drop_last()) + if ws.last() == WorkerState::Stopped {
            1nat
        } else {
            0nat
        }
    }
}

/// Worker state `w` is running the work with ticket `t`.
pub open spec fn runs(w: WorkerState, t: u64) -> bool {
    w == WorkerState::Running(t)
}

/// `n` copies of `Terminate`.
pub open spec fn terminates<J>(n: nat) -> Seq<Message<J>> {
    Seq::new(n, |i: int| Message::Terminate)
}

/// The tickets `0, 1, ..., m - 1`, in that order.
pub open spec fn tickets_upto(m: nat) -> Seq<u64> {
    Seq::new(m, |i: int| i as u64)
}

impl<J> PoolModel<J> {
    /// A fresh pool of `size` idle workers and an empty queue.
    pub open spec fn initial(size: nat) -> PoolModel<J> {
        PoolModel {
            queue: Seq::empty(),
            workers: Seq::new(size, |i: int| WorkerState::Idle),
            jobs: Seq::empty(),
            log: Seq::empty(),
            done: Set::empty(),
            shutting_down: false,
            closed: false,
        }
    }

    /// The number of submitted work items still in the queue.
    pub open spec fn pending(self) -> int {
        self.jobs.len() - self.log.len()
    }

    /// New work is accepted: neither shut down nor abandoned, and a ticket is left.
    pub open spec fn accepts(self) -> bool {
        !self.shutting_down && !self.closed && self.jobs.len() < u64::MAX
    }

    /// The state after `work` is accepted: it joins the back of the queue under
    /// the next ticket.
    pub open spec fn submitted(self, work: J) -> PoolModel<J> {
        PoolModel {
            queue: self.queue.push(Message::NewJob(self.jobs.len() as u64, work)),
            jobs: self.jobs.push(work),
            ..self
        }
    }

    /// The state after the idle worker `id` asks for its next step, and that step.
    pub open spec fn take_step(self, id: int) -> (PoolModel<J>, Step<J>) {
        if self.queue.len() == 0 {
            if self.closed {
                (
                    PoolModel { workers: self.workers.update(id, WorkerState::Stopped), ..self },
                    Step::Closed,
                )
            } else {
                (self, Step::Wait)
            }
        } else {
            match self.queue[0] {
                Message::NewJob(t, work) => (
                    PoolModel {
                        queue: self.queue.drop_first(),
                        workers: self.workers.update(id, WorkerState::Running(t)),
                        log: self.log.push(t),
                        ..self
                    },
                    Step::Run(t, work),
                ),
                Message::Terminate => (
                    PoolModel {
                        queue: self.queue.drop_first(),
                        workers: self.workers.update(id, WorkerState::Stopped),
                        ..self
                    },
                    Step::Stop,
                ),
            }
        }
    }

    /// The state after the running worker `id`, on ticket `t`, completes its work.
    pub open spec fn finished(self, id: int, t: u64) -> PoolModel<J> {
        PoolModel {
            workers: self.workers.update(id, WorkerState::Idle),
            done: self.done.insert(t),
            ..self
        }
    }

    /// The state after shutdown begins: one `Terminate` per worker behind all
    /// queued work. A second shutdown, or one after abandonment, changes nothing.
    pub open spec fn shut(self) -> PoolModel<J> {
        if self.shutting_down || self.closed {
            self
        } else {
            PoolModel {
                queue: self.queue + terminates(self.workers.len()),
                shutting_down: true,
                ..self
            }
        }
    }

    /// The state after the queue is abandoned without an orderly shutdown.
    pub open spec fn abandoned(self) -> PoolModel<J> {
        if self.shutting_down || self.closed {
            self
        } else {
            PoolModel { closed: true, ..self }
        }
    }

    /// Every worker has left its loop.
    pub open spec fn all_stopped(self) -> bool {
        forall|i: int| 0 <= i < self.workers.len() ==> self.workers[i] == WorkerState::Stopped
    }

    /// The queue holds the pending work in ticket order, then only `Terminate`s.
    pub open spec fn queue_shape(self) -> bool {
        &&& 0 <= self.pending() <= self.queue.len()
        &&& forall|i: int|
            0 <= i < self.queue.len() ==> #[trigger] self.queue[i] == if i < self.pending() {
                Message::NewJob(
                    (self.log.len() + i) as u64,
                    self.jobs[self.log.len() + i],
                )
            } else {
                Message::Terminate
            }
    }

    /// Every handed-out ticket is either running on exactly one worker or done.
    pub open spec fn tickets_accounted(self) -> bool {
        &&& forall|k: int| 0 <= k < self.log.len() ==> #[trigger] self.log[k] == k as u64
        &&& forall|t: u64| #[trigger] self.done.contains(t) ==> t < self.log.len()
        &&& forall|i: int, t: u64|
            0 <= i < self.workers.len() && #[trigger] runs(self.workers[i], t) ==> t
                < self.log.len() && !self.done.contains(t)
        &&& forall|i: int, j: int, t: u64|
            0 <= i < self.workers.len() && 0 <= j < self.workers.len()
                && #[trigger] runs(self.workers[i], t) && #[trigger] runs(self.workers[j], t)
                ==> i == j
        &&& forall|t: u64|
            t < self.log.len() ==> #[trigger] self.done.contains(t) || exists|i: int|
                0 <= i < self.workers.len() && #[trigger] runs(self.workers[i], t)
    }

    /// The invariant of every pool state reachable through `PoolCore`.
    pub open spec fn inv(self) -> bool {
        &&& self.workers.len() > 0
        &&& self.jobs.len() <= u64::MAX
        &&& self.queue_shape()
        &&& self.tickets_accounted()
        &&& !self.shutting_down ==> self.queue.len() == self.pending()
        &&& self.closed ==> !self.shutting_down
        &&& self.shutting_down ==> self.queue.len() - self.pending() + stopped_count(
            self.workers,
        ) == self.workers.len()
        &&& stopped_count(self.workers) > 0 ==> self.pending() == 0 && (self.shutting_down
            || self.closed)
    }
}

/// The shared queue and worker table of a pool of fixed size.
pub struct PoolCore<J> {
    queue: VecDeque<Message<J>>,
    workers: Vec<WorkerState>,
    next_ticket: u64,
    taken: u64,
    shutting_down: bool,
    closed: bool,
    jobs: Ghost<Seq<J>>,
    log: Ghost<Seq<u64>>,
    done: Ghost<Set<u64>>,
}

impl<J> View for PoolCore<J> {
    type V = PoolModel<J>;

    closed spec fn view(&self) -> PoolModel<J> {
        PoolModel {
            queue: self.queue@,
            workers: self.workers@,
            jobs: self.jobs@,
            log: self.log@,
            done: self.done@,
            shutting_down: self.shutting_down,
            closed: self.closed,
        }
    }
}

impl<J> PoolCore<J> {
    /// The core is well formed: its model meets the invariant and its counters
    /// agree with the model.
    pub closed spec fn wf(&self) -> bool {
        &&& self@.inv()
        &&& self.next_ticket == self.jobs@.len()
        &&& self.taken == self.log@.len()
    }

    /// A pool of `size` idle workers with an empty queue. A pool of no workers
    /// cannot be made.
    pub fn new(size: usize) -> (r: PoolCore<J>)
        requires
            size > 0,
        ensures
            r.wf(),
            r@ == PoolModel::<J>::initial(size as nat),
    {
        let mut workers: Vec<WorkerState> = Vec::with_capacity(size);
        let mut i: usize = 0;
        while i < size
            invariant
                i <= size,
                workers@ == Seq::new(i as nat, |k: int| WorkerState::Idle),
            decreases size - i,
        {
            workers.push(WorkerState::Idle);
            i = i + 1;
        }
        let r = PoolCore {
            queue: VecDeque::new(),
            workers,
            next_ticket: 0,
            taken: 0,
            shutting_down: false,
            closed: false,
            jobs: Ghost(Seq::empty()),
            log: Ghost(Seq::empty()),
            done: Ghost(Set::empty()),
        };
        proof {
            assert(r@ =~= PoolModel::<J>::initial(size as nat));
            lemma_stopped_count_none(r@.workers);
        }
        r
    }

    /// The number of workers.
    pub fn size(&self) -> (r: usize)
        requires
            self.wf(),
        ensures
            r == self@.workers.len(),
    {
        self.workers.len()
    }

    /// The state of worker `id`.
    pub fn worker_state(&self, id: usize) -> (r: WorkerState)
        requires
            self.wf(),
            id < self@.workers.len(),
        ensures
            r == self@.workers[id as int],
    {
        self.workers[id]
    }

    /// How many work items have been accepted.
    pub fn submitted_count(&self) -> (r: u64)
        requires
            self.wf(),
        ensures
            r == self@.jobs.len(),
    {
        self.next_ticket
    }

    /// How many work items have been handed out to workers.
    pub fn dispatched_count(&self) -> (r: u64)
        requires
            self.wf(),
        ensures
            r == self@.log.len(),
    {
        self.taken
    }

    /// How many accepted work items still wait in the queue.
    pub fn pending_count(&self) -> (r: u64)
        requires
            self.wf(),
        ensures
            r == self@.pending(),
    {
        self.next_ticket - self.taken
    }

    /// Whether shutdown has begun.
    pub fn is_shutting_down(&self) -> (r: bool)
        requires
            self.wf(),
        ensures
            r == self@.shutting_down,
    {
        self.shutting_down
    }

    /// Queues `work` behind everything submitted before it and returns its ticket.
    /// Refused once shutdown has begun or the queue was abandoned, and when no
    /// ticket is left.
    pub fn submit(&mut self, work: J) -> (r: Result<u64, SubmitError>)
        requires
            old(self).wf(),
        ensures
            final(self).wf(),
            old(self)@.accepts() ==> r == Ok::<u64, SubmitError>(old(self)@.jobs.len() as u64)
                && final(self)@ == old(self)@.submitted(work),
            (old(self)@.shutting_down || old(self)@.closed) ==> r == Err::<u64, SubmitError>(
                SubmitError::ShutDown,
            ) && final(self)@ == old(self)@,
            (!old(self)@.shutting_down && !old(self)@.closed && !old(self)@.accepts()) ==> r
                == Err::<u64, SubmitError>(SubmitError::Exhausted) && final(self)@ == old(self)@,
    {
        if self.shutting_down || self.closed {
            return Err(SubmitError::ShutDown);
        }
        if self.next_ticket == u64::MAX {
            return Err(SubmitError::Exhausted);
        }
        let t = self.next_ticket;
        let ghost before = self@;
        self.queue.push_back(Message::NewJob(t, work));
        self.next_ticket = t + 1;
        self.jobs = Ghost(self.jobs@.push(work));
        proof {
            assert(self@ =~= before.submitted(work));
            lemma_submitted_inv(before, work);
        }
        Ok(t)
    }

    /// The next step of the idle worker `id`: the oldest queued message decides.
    /// Work makes the worker running on its ticket; `Terminate` stops it; an empty
    /// queue makes it wait, or stops it if the queue was abandoned.
    pub fn take(&mut self, id: usize) -> (r: Step<J>)
        requires
            old(self).wf(),
            id < old(self)@.workers.len(),
            old(self)@.workers[id as int] == WorkerState::Idle,
        ensures
            final(self).wf(),
            (final(self)@, r) == old(self)@.take_step(id as int),
    {
        let ghost before = self@;
        proof {
            lemma_stopped_count_update(before.workers, id as int, WorkerState::Stopped);
            lemma_stopped_count_le(before.workers);
        }
        match self.queue.pop_front() {
            None => {
                if self.closed {
                    self.workers.set(id, WorkerState::Stopped);
                    proof {
                        assert(self@ =~= before.take_step(id as int).0);
                        assert forall|i: int, t: u64|
                            0 <= i < self@.workers.len() && #[trigger] runs(
                                self@.workers[i],
                                t,
                            ) implies t < self@.log.len() && !self@.done.contains(t) by {
                            assert(runs(before.workers[i], t));
                        }
                        assert forall|t: u64| t < self@.log.len() implies #[trigger] self@.done.contains(
                            t,
                        ) || exists|i: int|
                            0 <= i < self@.workers.len() && #[trigger] runs(
                                self@.workers[i],
                                t,
                            ) by {
                            if !self@.done.contains(t) {
                                let i = choose|i: int|
                                    0 <= i < before.workers.len() && #[trigger] runs(
                                        before.workers[i],
                                        t,
                                    );
                                assert(runs(self@.workers[i], t));
                            }
                        }
                    }
                    Step::Closed
                } else {
                    Step::Wait
                }
            },
            Some(Message::NewJob(t, work)) => {
                self.workers.set(id, WorkerState::Running(t));
                self.taken = self.taken + 1;
                self.log = Ghost(self.log@.push(t));
                proof {
                    assert(before.queue[0] == Message::NewJob(t, work));
                    assert(self@ =~= before.take_step(id as int).0);
                    lemma_stopped_count_update(before.workers, id as int, WorkerState::Running(t));
                    assert forall|i: int| 0 <= i < self@.queue.len() implies #[trigger] self@.queue[i]
                        == if i < self@.pending() {
                        Message::NewJob(
                            (self@.log.len() + i) as u64,
                            self@.jobs[self@.log.len() + i],
                        )
                    } else {
                        Message::Terminate
                    } by {
                        assert(self@.queue[i] == before.queue[i + 1]);
                    }
                    assert forall|k: int| 0 <= k < self@.log.len() implies #[trigger] self@.log[k]
                        == k as u64 by {
                        if k < before.log.len() {
                            assert(self@.log[k] == before.log[k]);
                        }
                    }
                    assert forall|i: int, u: u64|
                        0 <= i < self@.workers.len() && #[trigger] runs(
                            self@.workers[i],
                            u,
                        ) implies u < self@.log.len() && !self@.done.contains(u) by {
                        if i != id {
                            assert(runs(before.workers[i], u));
                        }
                    }
                    assert forall|i: int, j: int, u: u64|
                        0 <= i < self@.workers.len() && 0 <= j < self@.workers.len() && #[trigger] runs(
                            self@.workers[i],
                            u,
                        ) && #[trigger] runs(self@.workers[j], u) implies i == j by {
                        if i != id {
                            assert(runs(before.workers[i], u));
                        }
                        if j != id {
                            assert(runs(before.workers[j], u));
                        }
                    }
                    assert forall|u: u64| u < self@.log.len() implies #[trigger] self@.done.contains(
                        u,
                    ) || exists|i: int|
                        0 <= i < self@.workers.len() && #[trigger] runs(self@.workers[i], u) by {
                        if u == t {
                            assert(runs(self@.workers[id as int], u));
                        } else if !self@.done.contains(u) {
                            let i = choose|i: int|
                                0 <= i < before.workers.len() && #[trigger] runs(
                                    before.workers[i],
                                    u,
                                );
                            assert(runs(self@.workers[i], u));
                        }
                    }
                }
                Step::Run(t, work)
            },
            Some(Message::Terminate) => {
                self.workers.set(id, WorkerState::Stopped);
                proof {
                    assert(before.queue[0] == Message::<J>::Terminate);
                    assert(self@ =~= before.take_step(id as int).0);
                    assert forall|i: int| 0 <= i < self@.queue.len() implies #[trigger] self@.queue[i]
                        == if i < self@.pending() {
                        Message::NewJob(
                            (self@.log.len() + i) as u64,
                            self@.jobs[self@.log.len() + i],
                        )
                    } else {
                        Message::Terminate
                    } by {
                        assert(self@.queue[i] == before.queue[i + 1]);
                    }
                    assert forall|i: int, u: u64|
                        0 <= i < self@.workers.len() && #[trigger] runs(
                            self@.workers[i],
                            u,
                        ) implies u < self@.log.len() && !self@.done.contains(u) by {
                        assert(runs(before.workers[i], u));
                    }
                    assert forall|u: u64| u < self@.log.len() implies #[trigger] self@.done.contains(
                        u,
                    ) || exists|i: int|
                        0 <= i < self@.workers.len() && #[trigger] runs(self@.workers[i], u) by {
                        if !self@.done.contains(u) {
                            let i = choose|i: int|
                                0 <= i < before.workers.len() && #[trigger] runs(
                                    before.workers[i],
                                    u,
                                );
                            assert(runs(self@.workers[i], u));
                        }
                    }
                }
                Step::Stop
            },
        }
    }

    /// Records that worker `id` has completed the work it was running, and
    /// returns that work's ticket. The worker becomes idle.
    pub fn finish(&mut self, id: usize) -> (r: u64)
        requires
            old(self).wf(),
            id < old(self)@.workers.len(),
            old(self)@.workers[id as int] is Running,
        ensures
            final(self).wf(),
            old(self)@.workers[id as int] == WorkerState::Running(r),
            final(self)@ == old(self)@.finished(id as int, r),
    {
        let t = match self.workers[id] {
            WorkerState::Running(t) => t,
            _ => 0,
        };
        let ghost before = self@;
        proof {
            lemma_stopped_count_update(before.workers, id as int, WorkerState::Idle);
            assert(runs(before.workers[id as int], t));
        }
        self.workers.set(id, WorkerState::Idle);
        self.done = Ghost(self.done@.insert(t));
        proof {
            assert(self@ =~= before.finished(id as int, t));
            assert forall|i: int, u: u64|
                0 <= i < self@.workers.len() && #[trigger] runs(self@.workers[i], u) implies u
                < self@.log.len() && !self@.done.contains(u) by {
                assert(runs(before.workers[i], u));
            }
            assert forall|u: u64| u < self@.log.len() implies #[trigger] self@.done.contains(u)
                || exists|i: int| 0 <= i < self@.workers.len() && #[trigger] runs(self@.workers[i], u) by {
                if !self@.done.contains(u) {
                    let i = choose|i: int|
                        0 <= i < before.workers.len() && #[trigger] runs(before.workers[i], u);
                    assert(runs(self@.workers[i], u));
                }
            }
        }
        t
    }

    /// Begins shutdown: queues one `Terminate` per worker behind all queued work
    /// and returns how many were queued. Once shutdown has begun, or after the
    /// queue was abandoned, it queues nothing and returns zero.
    pub fn begin_shutdown(&mut self) -> (r: usize)
        requires
            old(self).wf(),
        ensures
            final(self).wf(),
            final(self)@ == old(self)@.shut(),
            r == if old(self)@.shutting_down || old(self)@.closed {
                0
            } else {
                old(self)@.workers.len()
            },
    {
        if self.shutting_down || self.closed {
            return 0;
        }
        let ghost before = self@;
        let n = self.workers.len();
        let mut k: usize = 0;
        while k < n
            invariant
                k <= n,
                n == before.workers.len(),
                self@ == (PoolModel { queue: before.queue + terminates(k as nat), ..before }),
                self.next_ticket == before.jobs.len(),
                self.taken == before.log.len(),
            decreases n - k,
        {
            self.queue.push_back(Message::Terminate);
            k = k + 1;
            proof {
                assert(self@.queue =~= before.queue + terminates(k as nat));
            }
        }
        self.shutting_down = true;
        proof {
            assert(self@ =~= before.shut());
            assert forall|i: int| 0 <= i < self@.queue.len() implies #[trigger] self@.queue[i]
                == if i < self@.pending() {
                Message::NewJob((self@.log.len() + i) as u64, self@.jobs[self@.log.len() + i])
            } else {
                Message::Terminate
            } by {
                if i < before.queue.len() {
                    assert(self@.queue[i] == before.queue[i]);
                }
            }
        }
        n
    }

    /// Marks the queue as abandoned without an orderly shutdown: nothing more is
    /// accepted, and idle workers that find the queue empty stop with `Closed`.
    /// Once shutdown has begun it changes nothing.
    pub fn abandon(&mut self)
        requires
            old(self).wf(),
        ensures
            final(self).wf(),
            final(self)@ == old(self)@.abandoned(),
    {
        if !self.shutting_down {
            self.closed = true;
        }
        proof {
            assert(self@ =~= old(self)@.abandoned());
        }
    }

    /// Whether every worker has left its loop.
    pub fn all_stopped(&self) -> (r: bool)
        requires
            self.wf(),
        ensures
            r == self@.all_stopped(),
    {
        let mut i: usize = 0;
        while i < self.workers.len()
            invariant
                i <= self.workers@.len(),
                forall|k: int| 0 <= k < i ==> self.workers@[k] == WorkerState::Stopped,
            decreases self.workers@.len() - i,
        {
            if self.workers[i] != WorkerState::Stopped {
                return false;
            }
            i = i + 1;
        }
        true
    }
}

/// The state after the idle workers `0, 1, ..., k - 1` each ask for one step,
/// in that order, starting from `m`.
pub open spec fn take_in_order<J>(m: PoolModel<J>, k: nat) -> PoolModel<J>
    decreases k,
{
    if k == 0 {
        m
    } else {
        take_in_order(m, (k - 1) as nat).take_step(k - 1).0
    }
}

/// Shutting down a fresh pool of `n` workers that was given no work queues
/// exactly `n` `Terminate`s; when each worker then asks for its next step, every
/// one of them is told to stop, and afterwards all `n` have stopped and the
/// queue is empty.
pub proof fn lemma_idle_shutdown_stops_every_worker<J>(n: nat)
    requires
        n > 0,
    ensures
        PoolModel::<J>::initial(n).shut().queue == terminates::<J>(n),
        forall|k: nat|
            k < n ==> #[trigger] take_in_order(PoolModel::<J>::initial(n).shut(), k).take_step(
                k as int,
            ).1 is Stop,
        take_in_order(PoolModel::<J>::initial(n).shut(), n).all_stopped(),
        take_in_order(PoolModel::<J>::initial(n).shut(), n).queue.len() == 0,
{
    let s = PoolModel::<J>::initial(n).shut();
    assert(s.queue =~= terminates::<J>(n));
    assert forall|k: nat| k <= n implies #[trigger] take_in_order(s, k).queue =~= terminates::<J>(
        (n - k) as nat,
    ) && take_in_order(s, k).workers =~= Seq::new(
        n,
        |i: int|
            if i < k {
                WorkerState::Stopped
            } else {
                WorkerState::Idle
            },
    ) by {
        lemma_take_in_order_idle::<J>(n, k);
    }
    assert forall|k: nat| k < n implies #[trigger] take_in_order(s, k).take_step(k as int).1 is Stop by {
        assert(take_in_order(s, k).queue =~= terminates::<J>((n - k) as nat));
        assert(take_in_order(s, k).queue[0] == Message::<J>::Terminate);
    }
    assert(take_in_order(s, n).queue =~= terminates::<J>(0));
}

/// Each step of the idle shutdown stops the next worker and consumes one
/// `Terminate`.
proof fn lemma_take_in_order_idle<J>(n: nat, k: nat)
    requires
        0 < n,
        k <= n,
    ensures
        take_in_order(PoolModel::<J>::initial(n).shut(), k).queue =~= terminates::<J>(
            (n - k) as nat,
        ),
        take_in_order(PoolModel::<J>::initial(n).shut(), k).workers =~= Seq::new(
            n,
            |i: int|
                if i < k {
                    WorkerState::Stopped
                } else {
                    WorkerState::Idle
                },
        ),
        !take_in_order(PoolModel::<J>::initial(n).shut(), k).closed,
    decreases k,
{
    let s = PoolModel::<J>::initial(n).shut();
    if k == 0 {
        assert(s.queue =~= terminates::<J>(n));
    } else {
        lemma_take_in_order_idle::<J>(n, (k - 1) as nat);
        let prev = take_in_order(s, (k - 1) as nat);
        assert(prev.queue[0] == Message::<J>::Terminate);
        assert(prev.queue.drop_first() =~= terminates::<J>((n - k) as nat));
    }
}

/// Once every worker of a pool has stopped, every accepted work item was handed
/// to a worker exactly once: the tickets went out as `0, 1, ..., m - 1`, in
/// submission order, with no ticket twice and none left in the queue.
pub proof fn lemma_stopped_pool_dispatched_each_once<J>(m: PoolModel<J>)
    requires
        m.inv(),
        m.all_stopped(),
    ensures
        m.pending() == 0,
        m.log == tickets_upto(m.jobs.len()),
        m.log.no_duplicates(),
        m.shutting_down ==> m.queue.len() == 0,
{
    lemma_stopped_count_all(m.workers);
    assert(m.log =~= tickets_upto(m.jobs.len()));
}

/// Once every worker of a pool has stopped, the work of every accepted item has
/// completed and no worker is still running any.
pub proof fn lemma_stopped_pool_completed_all<J>(m: PoolModel<J>)
    requires
        m.inv(),
        m.all_stopped(),
    ensures
        m.done == Set::new(|t: u64| t < m.jobs.len()),
        forall|i: int| 0 <= i < m.workers.len() ==> !(m.workers[i] is Running),
{
    lemma_stopped_count_all(m.workers);
    assert forall|t: u64| t < m.jobs.len() implies m.done.contains(t) by {
        if !m.done.contains(t) {
            let i = choose|i: int| 0 <= i < m.workers.len() && #[trigger] runs(m.workers[i], t);
            assert(m.workers[i] == WorkerState::Stopped);
        }
    }
    assert(m.done =~= Set::new(|t: u64| t < m.jobs.len()));
}

/// A sequence of stopped workers counts all of them.
proof fn lemma_stopped_count_all(ws: Seq<WorkerState>)
    requires
        forall|i: int| 0 <= i < ws.len() ==> ws[i] == WorkerState::Stopped,
    ensures
        stopped_count(ws) == ws.len(),
    decreases ws.len(),
{
    if ws.len() > 0 {
        lemma_stopped_count_all(ws.drop_last());
    }
}

/// Accepting work keeps the invariant.
proof fn lemma_submitted_inv<J>(m: PoolModel<J>, work: J)
    requires
        m.inv(),
        m.accepts(),
    ensures
        m.submitted(work).inv(),
{
    let r = m.submitted(work);
    lemma_stopped_count_zero(m.workers);
    assert forall|i: int| 0 <= i < r.queue.len() implies #[trigger] r.queue[i] == if i
        < r.pending() {
        Message::NewJob((r.log.len() + i) as u64, r.jobs[r.log.len() + i])
    } else {
        Message::Terminate
    } by {
        if i < m.queue.len() {
            assert(r.queue[i] == m.queue[i]);
        }
    }
    assert(r.workers == m.workers && r.log == m.log && r.done == m.done);
    assert(r.tickets_accounted() == m.tickets_accounted());
}

/// The state after the items of `ws` are submitted in that order, each accepted.
pub open spec fn submit_all<J>(m: PoolModel<J>, ws: Seq<J>) -> PoolModel<J>
    decreases ws.len(),
{
    if ws.len() == 0 {
        m
    } else {
        submit_all(m, ws.drop_last()).submitted(ws.last())
    }
}

/// However submissions from many callers interleave, they reach the pool one at
/// a time, as some sequence `ws`. Each item of that sequence is queued exactly
/// once, behind what was queued before, under its own ticket: the tickets are
/// consecutive in arrival order, so no item is lost and none is queued twice.
pub proof fn lemma_submissions_queued_once<J>(m: PoolModel<J>, ws: Seq<J>)
    requires
        m.inv(),
        m.accepts(),
        m.jobs.len() + ws.len() <= u64::MAX,
    ensures
        submit_all(m, ws).inv(),
        submit_all(m, ws).jobs == m.jobs + ws,
        submit_all(m, ws).queue == m.queue + Seq::new(
            ws.len(),
            |i: int| Message::NewJob((m.jobs.len() + i) as u64, ws[i]),
        ),
        submit_all(m, ws).workers == m.workers,
        submit_all(m, ws).log == m.log,
    decreases ws.len(),
{
    if ws.len() > 0 {
        let front = ws.drop_last();
        lemma_submissions_queued_once(m, front);
        let r = submit_all(m, front);
        assert(r.jobs.len() == m.jobs.len() + front.len());
        assert(!r.shutting_down && !r.closed) by {
            assert(r.shutting_down == m.shutting_down && r.closed == m.closed) by {
                lemma_submit_all_flags(m, front);
            }
        }
        lemma_submitted_inv(r, ws.last());
        assert(submit_all(m, ws).jobs =~= m.jobs + ws);
        assert(submit_all(m, ws).queue =~= m.queue + Seq::new(
            ws.len(),
            |i: int| Message::NewJob((m.jobs.len() + i) as u64, ws[i]),
        ));
    } else {
        assert(m.jobs + ws =~= m.jobs);
        assert(m.queue + Seq::new(
            ws.len(),
            |i: int| Message::NewJob((m.jobs.len() + i) as u64, ws[i]),
        ) =~= m.queue);
    }
}

/// Submitting leaves the shutdown and abandonment flags alone.
proof fn lemma_submit_all_flags<J>(m: PoolModel<J>, ws: Seq<J>)
    ensures
        submit_all(m, ws).shutting_down == m.shutting_down,
        submit_all(m, ws).closed == m.closed,
    decreases ws.len(),
{
    if ws.len() > 0 {
        lemma_submit_all_flags(m, ws.drop_last());
    }
}

/// A sequence with no stopped worker counts zero.
proof fn lemma_stopped_count_none(ws: Seq<WorkerState>)
    requires
        forall|i: int| 0 <= i < ws.len() ==> ws[i] != WorkerState::Stopped,
    ensures
        stopped_count(ws) == 0,
    decreases ws.len(),
{
    if ws.len() > 0 {
        lemma_stopped_count_none(ws.drop_last());
    }
}

/// A sequence that counts zero stopped workers has none.
proof fn lemma_stopped_count_zero(ws: Seq<WorkerState>)
    requires
        stopped_count(ws) == 0,
    ensures
        forall|i: int| 0 <= i < ws.len() ==> ws[i] != WorkerState::Stopped,
    decreases ws.len(),
{
    if ws.len() > 0 {
        lemma_stopped_count_zero(ws.drop_last());
        assert forall|i: int| 0 <= i < ws.len() implies ws[i] != WorkerState::Stopped by {
            if i < ws.len() - 1 {
                assert(ws[i] == ws.drop_last()[i]);
            }
        }
    }
}

/// At most every worker is stopped.
proof fn lemma_stopped_count_le(ws: Seq<WorkerState>)
    ensures
        stopped_count(ws) <= ws.len(),
    decreases ws.len(),
{
    if ws.len() > 0 {
        lemma_stopped_count_le(ws.drop_last());
    }
}

/// Replacing one worker's state changes the count by that worker alone.
proof fn lemma_stopped_count_update(ws: Seq<WorkerState>, i: int, w: WorkerState)
    requires
        0 <= i < ws.len(),
    ensures
        stopped_count(ws.update(i, w)) + (if ws[i] == WorkerState::Stopped {
            1int
        } else {
            0int
        }) == stopped_count(ws) + (if w == WorkerState::Stopped {
            1int
        } else {
            0int
        }),
    decreases ws.len(),
{
    let u = ws.update(i, w);
    if i == ws.len() - 1 {
        assert(u.drop_last() =~= ws.drop_last());
    } else {
        assert(u.drop_last() =~= ws.drop_last().update(i, w));
        lemma_stopped_count_update(ws.drop_last(), i, w);
    }
}

} // verus!
