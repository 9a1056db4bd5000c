//! The rules of the work-stealing pool: its central queue, how many workers it
//! has, and when one of them runs a task, waits or leaves.

use vstd::prelude::*;

verus! {

/// The most workers that a pool has.
pub const MAX_WORKERS: usize = 256;

/// The injector queue of the `crossbeam-deque` crate.
#[verifier::external_type_specification]
#[verifier::external_body]
#[verifier::reject_recursive_types(T)]
pub struct ExInjector<T>(crossbeam_deque::Injector<T>);

/// What an attempt to steal a task gave.
#[derive(Debug)]
pub enum Stolen<T> {
    Task(T),
    /// The queue was empty.
    Nothing,
    /// Another worker got in the way.
    Contended,
}

/// What a worker does next.
#[derive(Debug)]
pub enum Turn<T> {
    /// Run the stolen task.
    Run(T),
    /// Leave the pool.
    Exit,
    /// Let others run, and try again.
    Yield,
}

/// Calls `crossbeam_deque::Injector::new`, which makes an empty queue. That it
/// is empty is left unsaid: `push` and `steal` change the queue through a shared
/// reference, and a proof takes what is behind such a reference for unchanged,
/// so that the queue would still count as empty after a task was pushed.
#[verifier::external_body]
fn new_injector<T>() -> (queue: crossbeam_deque::Injector<T>) {
    crossbeam_deque::Injector::new()
}

/// Calls `push` of `crossbeam_deque::Injector`. The queue is shared, so nothing
/// is said of what it holds afterwards.
#[verifier::external_body]
fn push_task<T>(queue: &crossbeam_deque::Injector<T>, task: T) {
    queue.push(task)
}

/// Calls `steal` of `crossbeam_deque::Injector`. What it gives depends on what
/// other threads do, so nothing is said of it.
#[verifier::external_body]
fn steal_task<T>(queue: &crossbeam_deque::Injector<T>) -> (stolen: Stolen<T>) {
    match queue.steal() {
        crossbeam_deque::Steal::Success(task) => Stolen::Task(task),
        crossbeam_deque::Steal::Empty => Stolen::Nothing,
        crossbeam_deque::Steal::Retry => Stolen::Contended,
    }
}

/// What a worker does after an attempt to steal a task. It leaves when there is
/// nothing to do and the pool has been shut down.
pub open spec fn next_turn<T>(stolen: Stolen<T>, running: bool) -> Turn<T> {
    match stolen {
        Stolen::Task(task) => Turn::Run(task),
        Stolen::Nothing => if running {
            Turn::Yield
        } else {
            Turn::Exit
        },
        Stolen::Contended => Turn::Yield,
    }
}

/// What a worker does after an attempt to steal a task.
pub fn worker_turn<T>(stolen: Stolen<T>, running: bool) -> (turn: Turn<T>)
    ensures
        turn == next_turn(stolen, running),
        match stolen {
            Stolen::Task(task) => turn == Turn::Run(task),
            Stolen::Nothing => if running {
                turn is Yield
            } else {
                turn is Exit
            },
            Stolen::Contended => turn is Yield,
        },
{
    match stolen {
        Stolen::Task(task) => Turn::Run(task),
        Stolen::Nothing => if running {
            Turn::Yield
        } else {
            Turn::Exit
        },
        Stolen::Contended => Turn::Yield,
    }
}

/// The central queue of a pool, which its workers share.
#[verifier::reject_recursive_types(T)]
pub struct TaskQueue<T> {
    pub injector: crossbeam_deque::Injector<T>,
}

impl<T> TaskQueue<T> {
    /// An empty queue for the workers of a pool. That it is empty is left
    /// unsaid, as what it holds changes through shared references.
    pub fn new() -> Self {
        TaskQueue { injector: new_injector() }
    }

    /// Submit a task. Nothing is said of the queue, which others change too.
    pub fn submit(&self, task: T) {
        push_task(&self.injector, task)
    }

    /// Try to steal a task, and say what the worker does next, whatever the
    /// attempt gave.
    pub fn turn(&self, running: bool) -> (turn: Turn<T>)
        ensures
            exists|stolen: Stolen<T>| turn == #[trigger] next_turn(stolen, running),
    {
        let stolen = steal_task(&self.injector);
        let ghost found = stolen;
        let turn = worker_turn(stolen, running);
        assert(turn == next_turn(found, running));
        turn
    }
}

/// How many workers a pool gets when `threads` are asked for.
pub open spec fn clamped(threads: usize) -> usize {
    if threads < 1 {
        1
    } else if threads > MAX_WORKERS {
        MAX_WORKERS
    } else {
        threads
    }
}

/// How many workers a work-stealing pool has, and whether it is to go on. The
/// worker threads and their queue belong to whoever runs the pool.
#[derive(Debug)]
pub struct WorkStealingPool {
    pub workers: usize,
    pub running: bool,
}

impl WorkStealingPool {
    /// A pool that runs has workers, but not too many. One that was shut down
    /// has none.
    pub open spec fn wf(&self) -> bool {
        if self.running {
            1 <= self.workers <= MAX_WORKERS
        } else {
            self.workers == 0
        }
    }

    /// The state of a new pool for which `num_threads` workers are asked.
    ///
    /// Thread counts are clamped to a sensible range; `0` becomes `1` and
    /// unreasonably large values are capped to avoid allocation failures.
    pub fn new(num_threads: usize) -> (pool: Self)
        ensures
            pool.wf(),
            pool.running,
            pool.workers == clamped(num_threads),
            num_threads == 0 ==> pool.workers == 1,
            1 <= num_threads <= 256 ==> pool.workers == num_threads,
            num_threads > 256 ==> pool.workers == 256,
    {
        let workers: usize = if num_threads < 1 {
            1
        } else if num_threads > MAX_WORKERS {
            MAX_WORKERS
        } else {
            num_threads
        };
        WorkStealingPool { workers, running: true }
    }

    /// The state of a new pool sized to the machine's parallelism, if that is
    /// known.
    pub fn default_threads(available: Option<usize>) -> (pool: Self)
        ensures
            pool.wf(),
            pool.running,
            pool.workers == match available {
                Some(threads) => clamped(threads),
                None => 1,
            },
            available matches Some(threads) && 1 <= threads <= 256 ==> pool.workers == available->0,
            available matches Some(threads) && threads > 256 ==> pool.workers == 256,
            available matches Some(threads) && threads == 0 ==> pool.workers == 1,
            available is None ==> pool.workers == 1,
    {
        match available {
            Some(threads) => Self::new(threads),
            None => Self::new(1),
        }
    }

    /// How many worker threads the pool has.
    pub fn thread_count(&self) -> (count: usize)
        ensures
            count == self.workers,
    {
        self.workers
    }

    /// Take down that the workers have been told to finish and have left.
    pub fn shutdown(&mut self)
        ensures
            final(self).wf(),
            !final(self).running,
            final(self).workers == 0,
    {
        self.running = false;
        self.workers = 0;
    }
}

/// A pool at work: the tasks that wait and those that were started, both in
/// order, and the workers that are there.
pub struct PoolModel {
    pub pending: Seq<int>,
    pub started: Seq<int>,
    pub running: bool,
    pub workers: Set<int>,
}

/// What happens to a pool.
pub enum PoolEvent {
    Submit(int),
    Shutdown,
    /// A worker tries to steal a task.
    Attempt(int, Stolen<int>),
}

impl PoolModel {
    /// Whether an event can happen: a worker that is there gets the task that
    /// has waited longest, and finds the queue empty only if it is.
    pub open spec fn allows(self, event: PoolEvent) -> bool {
        match event {
            PoolEvent::Submit(_) => true,
            PoolEvent::Shutdown => true,
            PoolEvent::Attempt(worker, stolen) => self.workers.contains(worker) && match stolen {
                Stolen::Task(task) => self.pending.len() > 0 && task == self.pending[0],
                Stolen::Nothing => self.pending.len() == 0,
                Stolen::Contended => true,
            },
        }
    }

    /// The pool after an event.
    pub open spec fn after(self, event: PoolEvent) -> PoolModel {
        match event {
            PoolEvent::Submit(task) => PoolModel { pending: self.pending.push(task), ..self },
            PoolEvent::Shutdown => PoolModel { running: false, ..self },
            PoolEvent::Attempt(worker, stolen) => match next_turn(stolen, self.running) {
                Turn::Run(task) => PoolModel {
                    pending: self.pending.drop_first(),
                    started: self.started.push(task),
                    ..self
                },
                Turn::Exit => PoolModel { workers: self.workers.remove(worker), ..self },
                Turn::Yield => self,
            },
        }
    }
}

/// The pool after a series of events.
pub open spec fn pool_after(pool: PoolModel, events: Seq<PoolEvent>) -> PoolModel
    decreases events.len(),
{
    if events.len() == 0 {
        pool
    } else {
        pool_after(pool, events.drop_last()).after(events.last())
    }
}

/// The events can happen one after the other.
pub open spec fn can_happen(pool: PoolModel, events: Seq<PoolEvent>) -> bool
    decreases events.len(),
{
    events.len() > 0 ==> {
        &&& can_happen(pool, events.drop_last())
        &&& pool_after(pool, events.drop_last()).allows(events.last())
    }
}

/// No task is submitted after the pool was shut down.
pub open spec fn is_punctual(pool: PoolModel, events: Seq<PoolEvent>) -> bool
    decreases events.len(),
{
    events.len() > 0 ==> {
        &&& is_punctual(pool, events.drop_last())
        &&& events.last() is Submit ==> pool_after(pool, events.drop_last()).running
    }
}

/// The tasks that are submitted, in order.
pub open spec fn submitted(events: Seq<PoolEvent>) -> Seq<int>
    decreases events.len(),
{
    if events.len() == 0 {
        Seq::empty()
    } else {
        match events.last() {
            PoolEvent::Submit(task) => submitted(events.drop_last()).push(task),
            _ => submitted(events.drop_last()),
        }
    }
}

/// Tasks are started in the order in which they were submitted, none twice and
/// none that was not submitted.
pub proof fn law_tasks_start_in_order(pool: PoolModel, events: Seq<PoolEvent>)
    requires
        can_happen(pool, events),
    ensures
        ({
            let after = pool_after(pool, events);
            after.started + after.pending == pool.started + pool.pending + submitted(events)
        }),
    decreases events.len(),
{
    let after = pool_after(pool, events);
    if events.len() == 0 {
        assert(after.started + after.pending =~= pool.started + pool.pending + submitted(events));
    } else {
        let before = pool_after(pool, events.drop_last());
        law_tasks_start_in_order(pool, events.drop_last());
        let known = pool.started + pool.pending + submitted(events.drop_last());
        match events.last() {
            PoolEvent::Submit(task) => {
                assert(after.started + after.pending =~= (before.started + before.pending).push(
                    task,
                ));
                assert(pool.started + pool.pending + submitted(events) =~= known.push(task));
            },
            PoolEvent::Shutdown => {},
            PoolEvent::Attempt(worker, stolen) => {
                assert(after.started + after.pending =~= before.started + before.pending);
            },
        }
    }
}

/// A pool that runs keeps its workers. Once a worker has left, no task waits
/// any more: everything that was submitted before the shutdown is started.
pub proof fn law_shutdown_drains_the_queue(pool: PoolModel, events: Seq<PoolEvent>)
    requires
        pool.running,
        can_happen(pool, events),
        is_punctual(pool, events),
    ensures
        pool_after(pool, events).workers != pool.workers ==> {
            &&& !pool_after(pool, events).running
            &&& pool_after(pool, events).pending.len() == 0
            &&& pool_after(pool, events).started == pool.started + pool.pending + submitted(events)
        },
    decreases events.len(),
{
    let after = pool_after(pool, events);
    if events.len() > 0 {
        law_shutdown_drains_the_queue(pool, events.drop_last());
    }
    law_tasks_start_in_order(pool, events);
    if after.workers != pool.workers {
        assert(after.pending.len() == 0);
        assert(after.started + after.pending =~= after.started);
    }
}

/// Tasks that are submitted when all workers have left are not started.
pub proof fn law_late_tasks_are_dropped(pool: PoolModel, events: Seq<PoolEvent>)
    requires
        pool.workers == Set::<int>::empty(),
        can_happen(pool, events),
    ensures
        pool_after(pool, events).workers == Set::<int>::empty(),
        pool_after(pool, events).started == pool.started,
    decreases events.len(),
{
    if events.len() > 0 {
        law_late_tasks_are_dropped(pool, events.drop_last());
    }
}

/// A pool has as many workers as were asked for, from one up to two hundred and
/// fifty-six. More are given to who asks for more, up to that.
pub proof fn law_worker_count(threads: usize, more: usize)
    requires
        threads <= more,
    ensures
        1 <= clamped(threads) <= clamped(more) <= 256,
        1 <= threads <= 256 ==> clamped(threads) == threads,
        threads < 1 ==> clamped(threads) == 1,
        threads > 256 ==> clamped(threads) == 256,
{
}

/// A worker that got a task runs that task, whether or not the pool was shut
/// down. It leaves exactly if the queue was empty and the pool was shut down,
/// and tries again otherwise.
pub proof fn law_worker_turns<T>(stolen: Stolen<T>, running: bool)
    ensures
        stolen matches Stolen::Task(task) ==> next_turn(stolen, running) == Turn::Run(task),
        next_turn(stolen, running) is Run <==> stolen is Task,
        next_turn(stolen, running) is Exit <==> stolen is Nothing && !running,
{
}

} // verus!
