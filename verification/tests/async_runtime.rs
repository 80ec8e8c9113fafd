use std::cell::Cell;
use std::cell::RefCell;
use std::future::Future;
use std::pin::Pin;
use std::rc::Rc;
use std::sync::Arc;
use std::sync::Mutex;
use std::task::Context;
use std::task::Poll;

use futures::task::waker;
use futures::task::ArcWake;
use ghg::executor::bounded_executor_and_spawner;
use ghg::executor::Executor;
use ghg::executor::Progress;
use ghg::executor::Spawner;
use ghg::executor::Task;
use ghg::executor::Turn;
use ghg::frame_sequencer::FrameGate;
use ghg::frame_sequencer::FrameMarker;
use ghg::frame_sequencer::FrameSequencer;

type TaskFuture = Pin<Box<dyn Future<Output = ()>>>;

/// Wakes one task through the ready queue.
struct TaskWaker {
    task: Task,
    scheduler: Arc<Mutex<Executor>>,
}

impl ArcWake for TaskWaker {
    fn wake_by_ref(arc_self: &Arc<Self>) {
        let mut scheduler = arc_self.scheduler.lock().unwrap();
        arc_self.task.try_wake(&mut scheduler).expect("too many tasks queued");
    }
}

/// A small runtime: the library decides, this polls the futures.
struct Runtime {
    scheduler: Arc<Mutex<Executor>>,
    spawner: Spawner,
    sequencer: Rc<RefCell<FrameSequencer<u32>>>,
    marker: FrameMarker,
    current: Rc<Cell<Option<Task>>>,
    futures: Vec<Option<TaskFuture>>,
    polls: usize,
}

/// One await of a gate.
struct NextFrame {
    gate: Rc<FrameGate>,
    sequencer: Rc<RefCell<FrameSequencer<u32>>>,
    current: Rc<Cell<Option<Task>>>,
}

impl Future for NextFrame {
    type Output = u32;

    fn poll(self: Pin<&mut Self>, _context: &mut Context<'_>) -> Poll<u32> {
        let task = self.current.get().expect("polled by the runtime");
        match self.gate.poll(&mut self.sequencer.borrow_mut(), task) {
            Some(snapshot) => Poll::Ready(snapshot),
            None => Poll::Pending,
        }
    }
}

/// Suspends once, after asking to be woken right away.
struct YieldNow {
    yielded: bool,
}

impl Future for YieldNow {
    type Output = ();

    fn poll(mut self: Pin<&mut Self>, context: &mut Context<'_>) -> Poll<()> {
        if self.yielded {
            Poll::Ready(())
        } else {
            self.yielded = true;
            context.waker().wake_by_ref();
            Poll::Pending
        }
    }
}

impl Runtime {
    fn new(capacity: usize) -> Runtime {
        let (executor, spawner) = bounded_executor_and_spawner(capacity);
        let mut sequencer = FrameSequencer::new();
        let marker = FrameMarker::new(&mut sequencer).unwrap();
        Runtime {
            scheduler: Arc::new(Mutex::new(executor)),
            spawner,
            sequencer: Rc::new(RefCell::new(sequencer)),
            marker,
            current: Rc::new(Cell::new(None)),
            futures: Vec::new(),
            polls: 0,
        }
    }

    fn gate(&self, name: &str) -> Rc<FrameGate> {
        Rc::new(FrameGate::new(&mut self.sequencer.borrow_mut(), name.to_owned()))
    }

    fn next_frame(&self, gate: &Rc<FrameGate>) -> NextFrame {
        NextFrame {
            gate: gate.clone(),
            sequencer: self.sequencer.clone(),
            current: self.current.clone(),
        }
    }

    fn spawn(&mut self, future: impl Future<Output = ()> + 'static) -> Task {
        let task = self
            .spawner
            .try_spawn(&mut self.scheduler.lock().unwrap())
            .expect("too many tasks queued");
        assert_eq!(task.id, self.futures.len());
        self.futures.push(Some(Box::pin(future)));
        task
    }

    fn frame(&mut self, snapshot: u32) {
        self.marker
            .try_frame(
                &mut self.sequencer.borrow_mut(),
                &mut self.scheduler.lock().unwrap(),
                snapshot,
            )
            .expect("too many tasks queued");
    }

    fn run(&mut self) {
        let mut progress = None;
        loop {
            let turn = self.scheduler.lock().unwrap().run(progress.take());
            let Turn::Resume(task) = turn else {
                return;
            };
            let mut future = self.futures[task.id].take().expect("a live task has a future");
            let waker = waker(Arc::new(TaskWaker { task, scheduler: self.scheduler.clone() }));
            self.current.set(Some(task));
            self.polls += 1;
            let pending = future.as_mut().poll(&mut Context::from_waker(&waker)).is_pending();
            self.current.set(None);
            progress = Some(if pending {
                self.futures[task.id] = Some(future);
                Progress::Suspended
            } else {
                Progress::Completed
            });
        }
    }
}

fn looping_task(
    next_frame: impl Fn() -> NextFrame + 'static,
    label: &'static str,
    log: Rc<RefCell<Vec<(&'static str, u32)>>>,
) -> impl Future<Output = ()> + 'static {
    async move {
        loop {
            let snapshot = next_frame().await;
            log.borrow_mut().push((label, snapshot));
        }
    }
}

#[test]
fn test_futures_run_once_per_frame_in_registration_order() {
    let mut runtime = Runtime::new(2);
    let log = Rc::new(RefCell::new(Vec::new()));
    for label in ["x", "y"] {
        let gate = runtime.gate(label);
        let sequencer = runtime.sequencer.clone();
        let current = runtime.current.clone();
        let next_frame = move || NextFrame {
            gate: gate.clone(),
            sequencer: sequencer.clone(),
            current: current.clone(),
        };
        runtime.spawn(looping_task(next_frame, label, log.clone()));
    }

    runtime.run();
    assert!(log.borrow().is_empty());
    assert_eq!(runtime.polls, 2);

    runtime.frame(1);
    runtime.run();
    assert_eq!(*log.borrow(), vec![("x", 1), ("y", 1)]);
    assert_eq!(runtime.polls, 4);

    runtime.frame(2);
    runtime.run();
    assert_eq!(*log.borrow(), vec![("x", 1), ("y", 1), ("x", 2), ("y", 2)]);
    assert_eq!(runtime.polls, 6);

    // Without a frame nothing is ready.
    runtime.run();
    assert_eq!(runtime.polls, 6);
}

#[test]
fn test_future_that_returns_is_dropped() {
    let mut runtime = Runtime::new(2);
    let log = Rc::new(RefCell::new(Vec::new()));
    let gate = runtime.gate("once");
    let next_frame = runtime.next_frame(&gate);
    let seen = log.clone();
    let task = runtime.spawn(async move {
        let snapshot = next_frame.await;
        seen.borrow_mut().push(snapshot);
    });

    runtime.run();
    runtime.frame(5);
    runtime.run();
    assert_eq!(*log.borrow(), vec![5]);
    assert!(runtime.futures[task.id].is_none());
    assert!(!runtime.scheduler.lock().unwrap().is_live(task));

    runtime.frame(6);
    runtime.run();
    assert_eq!(*log.borrow(), vec![5]);
    assert_eq!(runtime.polls, 2);
}

#[test]
fn test_wake_from_inside_a_poll_requeues_behind_the_others() {
    let mut runtime = Runtime::new(4);
    let log = Rc::new(RefCell::new(Vec::new()));
    let first = log.clone();
    runtime.spawn(async move {
        first.borrow_mut().push("a1");
        YieldNow { yielded: false }.await;
        first.borrow_mut().push("a2");
    });
    let second = log.clone();
    runtime.spawn(async move {
        second.borrow_mut().push("b");
    });

    runtime.run();
    assert_eq!(*log.borrow(), vec!["a1", "b", "a2"]);
    assert_eq!(runtime.polls, 3);
}

#[test]
fn test_slow_future_sees_only_the_latest_snapshot() {
    let mut runtime = Runtime::new(2);
    let log = Rc::new(RefCell::new(Vec::new()));
    let gate = runtime.gate("slow");
    let sequencer = runtime.sequencer.clone();
    let current = runtime.current.clone();
    let next_frame =
        move || NextFrame { gate: gate.clone(), sequencer: sequencer.clone(), current: current.clone() };
    runtime.spawn(looping_task(next_frame, "slow", log.clone()));
    runtime.run();

    runtime.frame(1);
    runtime.frame(2);
    runtime.frame(3);
    runtime.run();
    assert_eq!(*log.borrow(), vec![("slow", 3)]);
}
