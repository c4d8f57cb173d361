//! The bookkeeping of a pool of workers that drain one shared queue.
//!
//! The pool holds the queue and knows what each worker is doing. It runs
//! nothing itself: whoever owns the threads asks it, under one lock, which
//! message a worker takes next, and tells it when a job is done.

use vstd::prelude::*;
use std::collections::VecDeque;

verus! {

/// What travels through the queue: a job, or the order to stop.
pub enum Message<J> {
    NewJob(J),
    Terminate,
}

/// What a worker is doing.
#[derive(PartialEq, Eq, Clone, Copy, Debug, Structural)]
pub enum WorkerState {
    /// Waiting for a message.
    Idle,
    /// Running a job.
    Busy,
    /// Told to stop; it takes no further message.
    Stopped,
}

/// A pool as a mathematical value: the messages that wait, oldest first,
/// and the state of each worker.
pub struct PoolView<J> {
    pub queue: Seq<Message<J>>,
    pub workers: Seq<WorkerState>,
}

/// What can happen to a pool.
pub enum PoolEvent<J> {
    /// A job is submitted.
    Execute(J),
    /// The pool is shut down.
    Shutdown,
    /// The worker with this number asks for its next message.
    Claim(int),
    /// The worker with this number has run its job to the end.
    Finish(int),
}

/// A pool of `size` idle workers with an empty queue.
pub open spec fn initial<J>(size: nat) -> PoolView<J> {
    PoolView {
        queue: Seq::<Message<J>>::empty(),
        workers: Seq::new(size, |i: int| WorkerState::Idle),
    }
}

/// One order to stop for each of `count` workers.
pub open spec fn sentinels<J>(count: nat) -> Seq<Message<J>> {
    Seq::new(count, |i: int| Message::<J>::Terminate)
}

/// Whether the worker gets a message when it asks: it is a worker of the
/// pool, it is idle, and a message waits.
pub open spec fn can_claim<J>(pool: PoolView<J>, worker: int) -> bool {
    &&& 0 <= worker < pool.workers.len()
    &&& pool.workers[worker] == WorkerState::Idle
    &&& pool.queue.len() > 0
}

/// Whether the worker is running a job of the pool.
pub open spec fn is_busy<J>(pool: PoolView<J>, worker: int) -> bool {
    &&& 0 <= worker < pool.workers.len()
    &&& pool.workers[worker] == WorkerState::Busy
}

/// What a worker does after it was handed the message.
pub open spec fn state_after<J>(message: Message<J>) -> WorkerState {
    match message {
        Message::NewJob(_) => WorkerState::Busy,
        Message::Terminate => WorkerState::Stopped,
    }
}

/// The pool after an event.
///
/// A submitted job goes to the back of the queue. A shutdown puts one order
/// to stop for every worker behind whatever waits. A worker that can claim
/// takes the oldest message and becomes busy or stopped by it; any other
/// claim changes nothing. A busy worker that finishes becomes idle; any
/// other finish changes nothing.
pub open spec fn step<J>(pool: PoolView<J>, event: PoolEvent<J>) -> PoolView<J> {
    match event {
        PoolEvent::Execute(job) => PoolView {
            queue: pool.queue.push(Message::NewJob(job)),
            workers: pool.workers,
        },
        PoolEvent::Shutdown => PoolView {
            queue: pool.queue + sentinels(pool.workers.len()),
            workers: pool.workers,
        },
        PoolEvent::Claim(worker) => if can_claim(pool, worker) {
            PoolView {
                queue: pool.queue.drop_first(),
                workers: pool.workers.update(worker, state_after(pool.queue[0])),
            }
        } else {
            pool
        },
        PoolEvent::Finish(worker) => if is_busy(pool, worker) {
            PoolView { queue: pool.queue, workers: pool.workers.update(worker, WorkerState::Idle) }
        } else {
            pool
        },
    }
}

/// What a claim hands to the worker: the oldest message where the worker
/// can claim, and nothing where it cannot.
pub open spec fn handed<J>(pool: PoolView<J>, worker: int) -> Option<Message<J>> {
    if can_claim(pool, worker) {
        Some(pool.queue[0])
    } else {
        None
    }
}

/// The pool's queue and its workers. Workers are numbered from 0.
pub struct ThreadPool<J> {
    queue: VecDeque<Message<J>>,
    workers: Vec<WorkerState>,
}

impl<J> View for ThreadPool<J> {
    type V = PoolView<J>;

    closed spec fn view(&self) -> PoolView<J> {
        PoolView { queue: self.queue@, workers: self.workers@ }
    }
}

impl<J> ThreadPool<J> {
    /// A pool of `size` idle workers and an empty queue.
    pub fn new(size: usize) -> (pool: ThreadPool<J>)
        requires
            size > 0,
        ensures
            pool@ == initial::<J>(size as nat),
    {
        let mut workers: Vec<WorkerState> = Vec::new();
        let mut id: usize = 0;
        while id < size
            invariant
                id <= size,
                workers@.len() == id,
                forall|i: int| 0 <= i < id ==> workers@[i] == WorkerState::Idle,
            decreases size - id,
        {
            workers.push(WorkerState::Idle);
            id = id + 1;
        }
        let pool = ThreadPool { queue: VecDeque::new(), workers };
        assert(pool@.workers =~= initial::<J>(size as nat).workers);
        assert(pool@.queue =~= initial::<J>(size as nat).queue);
        pool
    }

    /// The number of workers.
    pub fn size(&self) -> (size: usize)
        ensures
            size == self@.workers.len(),
    {
        self.workers.len()
    }

    /// The number of messages that wait.
    pub fn pending(&self) -> (pending: usize)
        ensures
            pending == self@.queue.len(),
    {
        self.queue.len()
    }

    /// What the worker with the given number is doing, if there is such a
    /// worker.
    pub fn worker_state(&self, worker: usize) -> (state: Option<WorkerState>)
        ensures
            state == if worker < self@.workers.len() {
                Some(self@.workers[worker as int])
            } else {
                None
            },
    {
        if worker < self.workers.len() {
            Some(self.workers[worker])
        } else {
            None
        }
    }

    /// Whether every worker has stopped.
    pub fn is_stopped(&self) -> (stopped: bool)
        ensures
            stopped == all_stopped(self@.workers),
    {
        let mut k: usize = 0;
        while k < self.workers.len()
            invariant
                k <= self.workers.len(),
                forall|i: int| 0 <= i < k ==> self@.workers[i] == WorkerState::Stopped,
            decreases self.workers.len() - k,
        {
            if self.workers[k] != WorkerState::Stopped {
                assert(self@.workers[k as int] != WorkerState::Stopped);
                return false;
            }
            k = k + 1;
        }
        true
    }

    /// Puts a job at the back of the queue. The job waits there until a
    /// worker claims it; nothing is run here.
    pub fn execute(&mut self, job: J)
        ensures
            final(self)@ == step(old(self)@, PoolEvent::Execute(job)),
    {
        self.queue.push_back(Message::NewJob(job));
        assert(self@.workers =~= old(self)@.workers);
    }

    /// Puts one order to stop for every worker at the back of the queue,
    /// behind the jobs that wait.
    pub fn shutdown(&mut self)
        ensures
            final(self)@ == step(old(self)@, PoolEvent::<J>::Shutdown),
    {
        let mut sent: usize = 0;
        while sent < self.workers.len()
            invariant
                sent <= self.workers.len(),
                self.workers == old(self).workers,
                self.queue@ == old(self).queue@ + sentinels::<J>(sent as nat),
            decreases self.workers.len() - sent,
        {
            self.queue.push_back(Message::Terminate);
            assert(sentinels::<J>(sent as nat).push(Message::Terminate) =~= sentinels::<J>(
                (sent + 1) as nat,
            ));
            sent = sent + 1;
        }
        assert(self@.workers =~= old(self)@.workers);
    }

    /// Hands the oldest message to an idle worker, which is busy or stopped
    /// from then on. A worker that is not idle, or not of this pool, gets
    /// nothing, and so does every worker while the queue is empty.
    pub fn claim(&mut self, worker: usize) -> (message: Option<Message<J>>)
        ensures
            message == handed(old(self)@, worker as int),
            final(self)@ == step(old(self)@, PoolEvent::<J>::Claim(worker as int)),
    {
        if worker >= self.workers.len() {
            return None;
        }
        if self.workers[worker] != WorkerState::Idle {
            return None;
        }
        match self.queue.pop_front() {
            None => None,
            Some(message) => {
                let state = match &message {
                    Message::NewJob(_) => WorkerState::Busy,
                    Message::Terminate => WorkerState::Stopped,
                };
                self.workers.set(worker, state);
                proof {
                    let next = step(old(self)@, PoolEvent::<J>::Claim(worker as int));
                    assert(self@.queue =~= next.queue);
                    assert(self@.workers =~= next.workers);
                }
                Some(message)
            },
        }
    }

    /// Records that a busy worker has run its job to the end: it is idle
    /// again. For any other worker nothing changes.
    pub fn finish(&mut self, worker: usize)
        ensures
            final(self)@ == step(old(self)@, PoolEvent::<J>::Finish(worker as int)),
    {
        if worker < self.workers.len() && self.workers[worker] == WorkerState::Busy {
            self.workers.set(worker, WorkerState::Idle);
            proof {
                let next = step(old(self)@, PoolEvent::<J>::Finish(worker as int));
                assert(self@.workers =~= next.workers);
            }
        }
    }
}

/// Whether every worker has stopped.
pub open spec fn all_stopped(workers: Seq<WorkerState>) -> bool {
    forall|i: int| 0 <= i < workers.len() ==> workers[i] == WorkerState::Stopped
}

/// The pool that `size` idle workers and an empty queue become when the
/// events happen in the given order.
pub open spec fn run<J>(size: nat, events: Seq<PoolEvent<J>>) -> PoolView<J>
    decreases events.len(),
{
    if events.len() == 0 {
        initial(size)
    } else {
        step(run(size, events.drop_last()), events.last())
    }
}

/// The jobs among the messages, in order.
pub open spec fn jobs_of<J>(messages: Seq<Message<J>>) -> Seq<J>
    decreases messages.len(),
{
    if messages.len() == 0 {
        Seq::<J>::empty()
    } else {
        match messages.last() {
            Message::NewJob(job) => jobs_of(messages.drop_last()).push(job),
            Message::Terminate => jobs_of(messages.drop_last()),
        }
    }
}

/// The jobs that the events submit, in order of submission.
pub open spec fn submitted<J>(events: Seq<PoolEvent<J>>) -> Seq<J>
    decreases events.len(),
{
    if events.len() == 0 {
        Seq::<J>::empty()
    } else {
        match events.last() {
            PoolEvent::Execute(job) => submitted(events.drop_last()).push(job),
            _ => submitted(events.drop_last()),
        }
    }
}

/// The messages that the claims among the events hand to workers, in the
/// order in which they are handed out.
pub open spec fn claimed<J>(size: nat, events: Seq<PoolEvent<J>>) -> Seq<Message<J>>
    decreases events.len(),
{
    if events.len() == 0 {
        Seq::<Message<J>>::empty()
    } else {
        let earlier = claimed(size, events.drop_last());
        match events.last() {
            PoolEvent::Claim(worker) => match handed(run(size, events.drop_last()), worker) {
                Some(message) => earlier.push(message),
                None => earlier,
            },
            _ => earlier,
        }
    }
}

/// The jobs that workers have started, in the order in which they started.
pub open spec fn started<J>(size: nat, events: Seq<PoolEvent<J>>) -> Seq<J> {
    jobs_of(claimed(size, events))
}

/// The number of jobs that workers have run to the end.
pub open spec fn finished<J>(size: nat, events: Seq<PoolEvent<J>>) -> nat
    decreases events.len(),
{
    if events.len() == 0 {
        0
    } else {
        let earlier = finished(size, events.drop_last());
        match events.last() {
            PoolEvent::Finish(worker) => if is_busy(run(size, events.drop_last()), worker) {
                earlier + 1
            } else {
                earlier
            },
            _ => earlier,
        }
    }
}

/// Whether no shutdown is among the events.
pub open spec fn without_shutdown<J>(events: Seq<PoolEvent<J>>) -> bool {
    forall|i: int| 0 <= i < events.len() ==> !(#[trigger] events[i] is Shutdown)
}

/// Every message that the events put into the queue, in order.
spec fn enqueued<J>(size: nat, events: Seq<PoolEvent<J>>) -> Seq<Message<J>>
    decreases events.len(),
{
    if events.len() == 0 {
        Seq::<Message<J>>::empty()
    } else {
        let earlier = enqueued(size, events.drop_last());
        match events.last() {
            PoolEvent::Execute(job) => earlier.push(Message::NewJob(job)),
            PoolEvent::Shutdown => earlier + sentinels(size),
            _ => earlier,
        }
    }
}

/// The number of orders to stop among the messages.
spec fn count_sentinels<J>(messages: Seq<Message<J>>) -> nat
    decreases messages.len(),
{
    if messages.len() == 0 {
        0
    } else {
        count_sentinels(messages.drop_last()) + if messages.last() is Terminate {
            1nat
        } else {
            0nat
        }
    }
}

/// The number of workers in the given state.
spec fn count_state(workers: Seq<WorkerState>, state: WorkerState) -> nat
    decreases workers.len(),
{
    if workers.len() == 0 {
        0
    } else {
        count_state(workers.drop_last(), state) + if workers.last() == state {
            1nat
        } else {
            0nat
        }
    }
}

proof fn lemma_count_state_update(
    workers: Seq<WorkerState>,
    i: int,
    value: WorkerState,
    state: WorkerState,
)
    requires
        0 <= i < workers.len(),
    ensures
        count_state(workers.update(i, value), state) + (if workers[i] == state {
            1nat
        } else {
            0nat
        }) == count_state(workers, state) + (if value == state {
            1nat
        } else {
            0nat
        }),
    decreases workers.len(),
{
    let updated = workers.update(i, value);
    if i == workers.len() - 1 {
        assert(updated.drop_last() =~= workers.drop_last());
    } else {
        assert(updated.drop_last() =~= workers.drop_last().update(i, value));
        lemma_count_state_update(workers.drop_last(), i, value, state);
    }
}

proof fn lemma_count_state_bounds(workers: Seq<WorkerState>, state: WorkerState)
    ensures
        count_state(workers, state) <= workers.len(),
        count_state(workers, state) == workers.len() <==> (forall|i: int|
            0 <= i < workers.len() ==> workers[i] == state),
        count_state(workers, state) == 0 <==> (forall|i: int|
            0 <= i < workers.len() ==> workers[i] != state),
    decreases workers.len(),
{
    if workers.len() > 0 {
        let front = workers.drop_last();
        lemma_count_state_bounds(front, state);
        assert(forall|i: int| 0 <= i < front.len() ==> front[i] == workers[i]);
        if count_state(workers, state) == workers.len() {
            assert forall|i: int| 0 <= i < workers.len() implies workers[i] == state by {
                if i < front.len() {
                    assert(front[i] == workers[i]);
                }
            }
        }
        if count_state(workers, state) == 0 {
            assert forall|i: int| 0 <= i < workers.len() implies workers[i] != state by {
                if i < front.len() {
                    assert(front[i] == workers[i]);
                }
            }
        }
    }
}

proof fn lemma_count_sentinels_concat<J>(a: Seq<Message<J>>, b: Seq<Message<J>>)
    ensures
        count_sentinels(a + b) == count_sentinels(a) + count_sentinels(b),
    decreases b.len(),
{
    if b.len() == 0 {
        assert(a + b =~= a);
    } else {
        lemma_count_sentinels_concat(a, b.drop_last());
        assert((a + b).drop_last() =~= a + b.drop_last());
    }
}

proof fn lemma_count_sentinels_of_sentinels<J>(count: nat)
    ensures
        count_sentinels(sentinels::<J>(count)) == count,
        jobs_of(sentinels::<J>(count)) == Seq::<J>::empty(),
    decreases count,
{
    if count > 0 {
        lemma_count_sentinels_of_sentinels::<J>((count - 1) as nat);
        assert(sentinels::<J>(count).drop_last() =~= sentinels::<J>((count - 1) as nat));
    }
}

proof fn lemma_jobs_of_concat<J>(a: Seq<Message<J>>, b: Seq<Message<J>>)
    ensures
        jobs_of(a + b) == jobs_of(a) + jobs_of(b),
    decreases b.len(),
{
    if b.len() == 0 {
        assert(a + b =~= a);
        assert(jobs_of(a) + jobs_of(b) =~= jobs_of(a));
    } else {
        lemma_jobs_of_concat(a, b.drop_last());
        assert((a + b).drop_last() =~= a + b.drop_last());
        assert(jobs_of(a + b) =~= jobs_of(a) + jobs_of(b));
    }
}

/// The messages put into the queue hold the submitted jobs, in order; and
/// without a shutdown they hold nothing else.
proof fn lemma_enqueued_jobs<J>(size: nat, events: Seq<PoolEvent<J>>)
    ensures
        jobs_of(enqueued(size, events)) == submitted(events),
        without_shutdown(events) ==> count_sentinels(enqueued(size, events)) == 0,
        without_shutdown(events) ==> enqueued(size, events).len() == submitted(events).len(),
    decreases events.len(),
{
    if events.len() > 0 {
        let front = events.drop_last();
        lemma_enqueued_jobs(size, front);
        if without_shutdown(events) {
            assert forall|i: int| 0 <= i < front.len() implies !(#[trigger] front[i] is Shutdown) by {
                assert(front[i] == events[i]);
            }
            assert(!(events[events.len() - 1] is Shutdown));
        }
        match events.last() {
            PoolEvent::Execute(job) => {
                assert(enqueued(size, events).drop_last() =~= enqueued(size, front));
            },
            PoolEvent::Shutdown => {
                lemma_jobs_of_concat(enqueued(size, front), sentinels::<J>(size));
                lemma_count_sentinels_of_sentinels::<J>(size);
                assert(submitted(front) + Seq::<J>::empty() =~= submitted(front));
            },
            _ => {},
        }
    }
}

/// More events put more messages into the queue, behind those that were
/// put there before.
proof fn lemma_enqueued_grows<J>(size: nat, first: Seq<PoolEvent<J>>, then: Seq<PoolEvent<J>>)
    ensures
        enqueued(size, first + then).len() >= enqueued(size, first).len(),
        enqueued(size, first + then).take(enqueued(size, first).len() as int) == enqueued(
            size,
            first,
        ),
    decreases then.len(),
{
    let a = enqueued(size, first);
    if then.len() == 0 {
        assert(first + then =~= first);
        assert(a.take(a.len() as int) =~= a);
    } else {
        lemma_enqueued_grows(size, first, then.drop_last());
        assert((first + then).drop_last() =~= first + then.drop_last());
        let earlier = enqueued(size, first + then.drop_last());
        let now = enqueued(size, first + then);
        assert(now.len() >= earlier.len());
        assert(now.take(earlier.len() as int) =~= earlier);
        assert(now.take(a.len() as int) =~= earlier.take(a.len() as int));
    }
}

/// What holds of a pool after any events: it keeps its workers; every
/// message put into the queue was handed out or still waits, in order; a
/// worker has stopped for every order to stop that was handed out, and is
/// busy for every job that was handed out and not finished; and no message
/// was handed out after the last worker had stopped.
proof fn lemma_run_invariant<J>(size: nat, events: Seq<PoolEvent<J>>)
    ensures
        run(size, events).workers.len() == size,
        enqueued(size, events) == claimed(size, events) + run(size, events).queue,
        count_state(run(size, events).workers, WorkerState::Stopped) == count_sentinels(
            claimed(size, events),
        ),
        count_state(run(size, events).workers, WorkerState::Busy) + finished(size, events)
            == started(size, events).len(),
        claimed(size, events).len() > 0 ==> count_sentinels(claimed(size, events).drop_last())
            < size,
    decreases events.len(),
{
    let pool = run(size, events);
    if events.len() == 0 {
        assert(enqueued(size, events) =~= claimed(size, events) + pool.queue);
        lemma_count_state_bounds(pool.workers, WorkerState::Stopped);
        lemma_count_state_bounds(pool.workers, WorkerState::Busy);
    } else {
        let front = events.drop_last();
        let before = run(size, front);
        lemma_run_invariant(size, front);
        match events.last() {
            PoolEvent::Execute(job) => {
                assert(enqueued(size, events) =~= claimed(size, events) + pool.queue);
            },
            PoolEvent::Shutdown => {
                assert(enqueued(size, events) =~= claimed(size, events) + pool.queue);
            },
            PoolEvent::Claim(worker) => {
                if can_claim(before, worker) {
                    let message = before.queue[0];
                    let earlier = claimed(size, front);
                    assert(claimed(size, events) == earlier.push(message));
                    assert(enqueued(size, events) =~= claimed(size, events) + pool.queue);
                    assert(claimed(size, events).drop_last() =~= earlier);
                    lemma_count_state_update(
                        before.workers,
                        worker,
                        state_after(message),
                        WorkerState::Stopped,
                    );
                    lemma_count_state_update(
                        before.workers,
                        worker,
                        state_after(message),
                        WorkerState::Busy,
                    );
                    lemma_count_state_bounds(before.workers, WorkerState::Stopped);
                }
            },
            PoolEvent::Finish(worker) => {
                if is_busy(before, worker) {
                    lemma_count_state_update(
                        before.workers,
                        worker,
                        WorkerState::Idle,
                        WorkerState::Stopped,
                    );
                    lemma_count_state_update(
                        before.workers,
                        worker,
                        WorkerState::Idle,
                        WorkerState::Busy,
                    );
                }
            },
        }
    }
}

/// Whatever happens to a pool, every job submitted to it has either been
/// started or still waits in the queue, and in the order of submission: no
/// job is lost, none is started twice, none overtakes another.
pub proof fn lemma_jobs_start_once_in_order<J>(size: nat, events: Seq<PoolEvent<J>>)
    ensures
        submitted(events) == started(size, events) + jobs_of(run(size, events).queue),
        finished(size, events) <= started(size, events).len(),
{
    lemma_run_invariant(size, events);
    lemma_enqueued_jobs(size, events);
    lemma_jobs_of_concat(claimed(size, events), run(size, events).queue);
}

/// Once every worker of a pool has stopped after a shutdown, the jobs that
/// were started are exactly the jobs submitted before the shutdown, each
/// once and in the order of submission, and every one of them has been run
/// to the end. This holds for any number of workers and of jobs, whatever
/// happened before the shutdown and after it; a job submitted after the
/// shutdown is never started.
pub proof fn lemma_shutdown_completes<J>(
    size: nat,
    before: Seq<PoolEvent<J>>,
    after: Seq<PoolEvent<J>>,
)
    requires
        size > 0,
        without_shutdown(before),
        all_stopped(run(size, before.push(PoolEvent::Shutdown) + after).workers),
    ensures
        started(size, before.push(PoolEvent::Shutdown) + after) == submitted(before),
        finished(size, before.push(PoolEvent::Shutdown) + after) == submitted(before).len(),
{
    let closing = before.push(PoolEvent::<J>::Shutdown);
    let events = closing + after;
    let pool = run(size, events);
    let all = enqueued(size, events);
    let taken = claimed(size, events);
    let jobs = enqueued(size, before);
    let marks = sentinels::<J>(size);
    lemma_run_invariant(size, events);
    lemma_enqueued_jobs(size, before);
    lemma_enqueued_grows(size, closing, after);
    lemma_count_state_bounds(pool.workers, WorkerState::Stopped);
    lemma_count_state_bounds(pool.workers, WorkerState::Busy);
    lemma_count_sentinels_of_sentinels::<J>(size);
    assert(closing.drop_last() =~= before);
    assert(enqueued(size, closing) == jobs + marks);
    let head = jobs + marks;
    assert(all.take(head.len() as int) == head);
    assert(count_sentinels(taken) == size);
    assert(taken =~= all.take(taken.len() as int));
    lemma_count_sentinels_concat(jobs, marks);
    if taken.len() < head.len() {
        assert(taken =~= head.take(taken.len() as int));
        if taken.len() <= jobs.len() {
            assert(jobs =~= taken + jobs.skip(taken.len() as int));
            lemma_count_sentinels_concat(taken, jobs.skip(taken.len() as int));
        } else {
            let part: nat = (taken.len() - jobs.len()) as nat;
            assert(taken =~= jobs + sentinels::<J>(part));
            lemma_count_sentinels_concat(jobs, sentinels::<J>(part));
            lemma_count_sentinels_of_sentinels::<J>(part);
        }
        assert(false);
    }
    if taken.len() > head.len() {
        let shorter = taken.drop_last();
        assert(shorter =~= all.take(taken.len() - 1));
        assert(shorter =~= head + shorter.skip(head.len() as int));
        lemma_count_sentinels_concat(head, shorter.skip(head.len() as int));
        assert(false);
    }
    assert(taken =~= head);
    lemma_jobs_of_concat(jobs, marks);
    assert(jobs_of(jobs) + Seq::<J>::empty() =~= jobs_of(jobs));
}

} // verus!
