//! The executor's bookkeeping: which task is resumed next.
//!
//! Task bodies are opaque to this module. A driver owns them, asks
//! [`Executor::run`] which task to resume, resumes it, and reports whether it
//! suspended or completed with the next call. Spawning and waking only ever
//! append to the ready queue, so a wake that happens while a task is being
//! resumed is routed through the queue and never resumes anything directly.
use crate::ready_queue::ReadyQueue;
use crate::ready_queue::TaskId;
use crate::ready_queue::MAX_CAPACITY;
use vstd::prelude::*;

verus! {

/// The number of tasks that the ready queue of a default executor holds.
pub const MAX_QUEUED_TASKS: usize = 10_000;

/// What a task reported when it was last resumed.
#[derive(Clone, Copy, Debug, PartialEq, Eq, Structural)]
pub enum Progress {
    /// The task suspended again and waits for a wake.
    Suspended,
    /// The task ran to its end and is dropped.
    Completed,
}

/// What the driver of an executor has to do next.
#[derive(Clone, Copy, Debug, PartialEq, Eq, Structural)]
pub enum Turn {
    /// Resume the task once, then report its progress.
    Resume(Task),
    /// The ready queue is empty: suspend until some task is spawned or woken.
    Idle,
}

/// A spawn or a wake found the ready queue at its capacity.
#[derive(Clone, Copy, Debug, PartialEq, Eq, Structural)]
pub struct QueueOverflow;

/// The wake handle of one task. Every party that may have to wake the task
/// holds a copy; all copies name the same task.
#[derive(Clone, Copy, Debug, PartialEq, Eq, Structural)]
pub struct Task {
    /// The task that this handle wakes.
    pub id: TaskId,
}

/// The handle through which new tasks enter an executor.
#[derive(Clone, Copy, Debug)]
pub struct Spawner {
    token: (),
}

/// The run loop's state: the ready queue, which tasks have completed, and the
/// task that is being resumed right now.
pub struct Executor {
    ready_queue: ReadyQueue,
    finished: Vec<bool>,
    running: Option<TaskId>,
}

/// The mathematical state of an executor.
pub struct ExecutorView {
    /// The ready queue, the task to resume next first.
    pub queue: Seq<TaskId>,
    /// The largest number of entries that the ready queue holds.
    pub capacity: nat,
    /// For each task ever spawned, whether it has completed.
    pub finished: Seq<bool>,
    /// The task that was handed out for resumption and has not reported yet.
    pub running: Option<TaskId>,
}

impl ExecutorView {
    /// An executor without tasks whose queue holds at most `capacity` entries.
    pub open spec fn new(capacity: nat) -> ExecutorView {
        ExecutorView { queue: Seq::empty(), capacity, finished: Seq::empty(), running: None }
    }

    /// The queue respects its capacity, and a running task is a live task.
    pub open spec fn wf(self) -> bool {
        &&& 0 < self.capacity
        &&& self.queue.len() <= self.capacity
        &&& self.running matches Some(task) ==> self.is_live(task)
    }

    /// `task` has been spawned and has not completed.
    pub open spec fn is_live(self, task: TaskId) -> bool {
        task < self.finished.len() && !self.finished[task as int]
    }

    /// The ready queue can take one more entry.
    pub open spec fn has_room(self) -> bool {
        self.queue.len() < self.capacity
    }

    /// The state after a new task was spawned: it gets the next free
    /// identifier and joins the end of the queue.
    pub open spec fn spawn(self) -> ExecutorView {
        ExecutorView {
            queue: self.queue.push(self.finished.len() as TaskId),
            finished: self.finished.push(false),
            ..self
        }
    }

    /// The state after `task` was woken: one more entry at the end of the queue.
    pub open spec fn wake(self, task: TaskId) -> ExecutorView {
        ExecutorView { queue: self.queue.push(task), ..self }
    }

    /// The state after the woken tasks `tasks` joined the queue, in their order.
    pub open spec fn wake_all(self, tasks: Seq<TaskId>) -> ExecutorView {
        ExecutorView { queue: self.queue + tasks, ..self }
    }

    /// The state after the running task, if there is one, reported `progress`.
    /// A task that completed is marked finished; in every other case the task
    /// simply stops running.
    pub open spec fn settle(self, progress: Option<Progress>) -> ExecutorView {
        match self.running {
            Some(task) => ExecutorView {
                finished: if progress == Some(Progress::Completed) {
                    self.finished.update(task as int, true)
                } else {
                    self.finished
                },
                running: None,
                ..self
            },
            None => self,
        }
    }

    /// Takes entries off the front of the queue until one names a live task,
    /// which becomes the running task, or until the queue is empty.
    pub open spec fn next_turn(self) -> (ExecutorView, Turn)
        decreases self.queue.len(),
    {
        if self.queue.len() == 0 {
            (self, Turn::Idle)
        } else {
            let task = self.queue.first();
            let rest = ExecutorView { queue: self.queue.drop_first(), ..self };
            if self.is_live(task) {
                (ExecutorView { running: Some(task), ..rest }, Turn::Resume(Task { id: task }))
            } else {
                rest.next_turn()
            }
        }
    }

    /// One step of the run loop: settle the running task, then pick the next.
    pub open spec fn run(self, progress: Option<Progress>) -> (ExecutorView, Turn) {
        self.settle(progress).next_turn()
    }
}

impl Task {
    /// Re-enqueues the task on the ready queue of `executor`.
    ///
    /// The queue must have room: a wake that cannot be queued would lose the
    /// task for good.
    pub fn wake_by_ref(&self, executor: &mut Executor)
        requires
            old(executor)@.wf(),
            old(executor)@.has_room(),
        ensures
            final(executor)@ == old(executor)@.wake(self.id),
            final(executor)@.wf(),
    {
        let pushed = executor.ready_queue.try_push(self.id);
        assert(pushed);
    }

    /// Re-enqueues the task if the ready queue has room, and reports an
    /// overflow, with the executor unchanged, if it has none.
    pub fn try_wake(&self, executor: &mut Executor) -> (woken: Result<(), QueueOverflow>)
        requires
            old(executor)@.wf(),
        ensures
            final(executor)@.wf(),
            woken is Ok <==> old(executor)@.has_room(),
            woken is Ok ==> final(executor)@ == old(executor)@.wake(self.id),
            woken is Err ==> final(executor)@ == old(executor)@,
    {
        if executor.has_room() {
            self.wake_by_ref(executor);
            Ok(())
        } else {
            Err(QueueOverflow)
        }
    }
}

impl View for Executor {
    type V = ExecutorView;

    closed spec fn view(&self) -> ExecutorView {
        ExecutorView {
            queue: self.ready_queue@,
            capacity: self.ready_queue.spec_capacity(),
            finished: self.finished@,
            running: self.running,
        }
    }
}

impl Executor {
    /// An executor without tasks whose ready queue holds at most `capacity` entries.
    fn with_capacity(capacity: usize) -> (executor: Executor)
        requires
            0 < capacity <= MAX_CAPACITY,
        ensures
            executor@.wf(),
            executor@ == ExecutorView::new(capacity as nat),
    {
        Executor { ready_queue: ReadyQueue::new(capacity), finished: Vec::new(), running: None }
    }

    /// Whether the ready queue can take one more entry.
    pub fn has_room(&self) -> (room: bool)
        requires
            self@.wf(),
        ensures
            room == self@.has_room(),
    {
        self.ready_queue.len() < self.ready_queue.capacity()
    }

    /// The number of entries in the ready queue.
    pub fn queued(&self) -> (len: usize)
        ensures
            len == self@.queue.len(),
    {
        self.ready_queue.len()
    }

    /// The largest number of entries that the ready queue holds.
    pub fn capacity(&self) -> (capacity: usize)
        ensures
            capacity == self@.capacity,
    {
        self.ready_queue.capacity()
    }

    /// The number of tasks spawned so far.
    pub fn task_count(&self) -> (count: usize)
        ensures
            count == self@.finished.len(),
    {
        self.finished.len()
    }

    /// Whether `task` was spawned here and has not completed.
    pub fn is_live(&self, task: Task) -> (live: bool)
        ensures
            live == self@.is_live(task.id),
    {
        task.id < self.finished.len() && !self.finished[task.id]
    }

    /// The task that was handed out for resumption and has not reported yet.
    pub fn running(&self) -> (running: Option<Task>)
        ensures
            running is Some == self@.running is Some,
            running matches Some(task) ==> self@.running == Some(task.id),
    {
        match self.running {
            Some(id) => Some(Task { id }),
            None => None,
        }
    }

    /// One step of the run loop.
    ///
    /// `progress` is what the task handed out by the previous step reported.
    /// That task is settled first: a completed task is dropped and will never
    /// be resumed again, a suspended one waits for a wake. Then ready entries
    /// are taken in arrival order until one names a task that is still alive.
    /// That task is handed out as [`Turn::Resume`]; with nothing left in the
    /// queue the step ends in [`Turn::Idle`].
    pub fn run(&mut self, progress: Option<Progress>) -> (turn: Turn)
        requires
            old(self)@.wf(),
        ensures
            final(self)@.wf(),
            (final(self)@, turn) == old(self)@.run(progress),
    {
        self.settle(progress);
        let ghost settled = self@;
        loop
            invariant
                self@.wf(),
                self@.running is None,
                self@.next_turn() == settled.next_turn(),
                settled == old(self)@.settle(progress),
            decreases self@.queue.len(),
        {
            let ghost before = self@;
            match self.ready_queue.pop() {
                None => {
                    assert(self@ == before);
                    return Turn::Idle;
                },
                Some(id) => {
                    let ghost rest = ExecutorView { queue: before.queue.drop_first(), ..before };
                    assert(self@ == rest);
                    if id < self.finished.len() && !self.finished[id] {
                        self.running = Some(id);
                        assert(self@ == (ExecutorView { running: Some(id), ..rest }));
                        return Turn::Resume(Task { id });
                    }
                },
            }
        }
    }

    /// Records what the running task reported.
    fn settle(&mut self, progress: Option<Progress>)
        requires
            old(self)@.wf(),
        ensures
            final(self)@.wf(),
            final(self)@ == old(self)@.settle(progress),
            final(self)@.running is None,
    {
        if let Some(task) = self.running {
            if progress == Some(Progress::Completed) {
                self.finished[task] = true;
            }
            self.running = None;
        }
    }
}

impl Spawner {
    /// Spawns a new task and queues it for its first resumption.
    ///
    /// The ready queue must have room: running out of it means that tasks are
    /// being created without bound.
    pub fn spawn(&self, executor: &mut Executor) -> (task: Task)
        requires
            old(executor)@.wf(),
            old(executor)@.has_room(),
        ensures
            final(executor)@.wf(),
            final(executor)@ == old(executor)@.spawn(),
            task.id == old(executor)@.finished.len(),
    {
        let id = executor.finished.len();
        executor.finished.push(false);
        let pushed = executor.ready_queue.try_push(id);
        assert(pushed);
        Task { id }
    }

    /// Spawns a new task if the ready queue has room, and reports an overflow,
    /// with the executor unchanged, if it has none.
    pub fn try_spawn(&self, executor: &mut Executor) -> (spawned: Result<Task, QueueOverflow>)
        requires
            old(executor)@.wf(),
        ensures
            final(executor)@.wf(),
            spawned is Ok <==> old(executor)@.has_room(),
            spawned matches Ok(task) ==> final(executor)@ == old(executor)@.spawn()
                && task.id == old(executor)@.finished.len(),
            spawned is Err ==> final(executor)@ == old(executor)@,
    {
        if executor.has_room() {
            Ok(self.spawn(executor))
        } else {
            Err(QueueOverflow)
        }
    }
}

/// An executor whose ready queue holds at most `capacity` entries, and the
/// spawner that feeds it.
pub fn bounded_executor_and_spawner(capacity: usize) -> (pair: (Executor, Spawner))
    requires
        0 < capacity <= MAX_CAPACITY,
    ensures
        pair.0@.wf(),
        pair.0@ == ExecutorView::new(capacity as nat),
{
    (Executor::with_capacity(capacity), Spawner { token: () })
}

/// An executor with the default queue capacity, and the spawner that feeds it.
pub fn new_executor_and_spawner() -> (pair: (Executor, Spawner))
    ensures
        pair.0@.wf(),
        pair.0@ == ExecutorView::new(MAX_QUEUED_TASKS as nat),
{
    bounded_executor_and_spawner(MAX_QUEUED_TASKS)
}

} // verus!
