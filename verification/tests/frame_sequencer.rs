use ghg::executor::bounded_executor_and_spawner;
use ghg::executor::Progress;
use ghg::executor::Task;
use ghg::executor::Turn;
use ghg::frame_sequencer::FrameError;
use ghg::frame_sequencer::FrameGate;
use ghg::frame_sequencer::FrameMarker;
use ghg::frame_sequencer::FrameSequencer;

#[test]
fn test_new_sequencer_has_no_gates_and_no_snapshot() {
    let sequencer = FrameSequencer::<u32>::new();
    assert_eq!(sequencer.gate_count(), 0);
    assert_eq!(sequencer.generation(), 0);
    assert_eq!(sequencer.snapshot(), None);
    assert_eq!(sequencer.pending_wakes(), 0);
}

#[test]
fn test_gates_are_numbered_in_registration_order() {
    let mut sequencer = FrameSequencer::<u32>::new();
    let a = FrameGate::new(&mut sequencer, "A".to_owned());
    let b = sequencer.register("B".to_owned());
    let c = FrameGate::new(&mut sequencer, "C".to_owned());
    assert_eq!((a.index(), b.index(), c.index()), (0, 1, 2));
    assert_eq!((a.name().as_str(), b.name().as_str(), c.name().as_str()), ("A", "B", "C"));
    assert_eq!(sequencer.gate_count(), 3);
}

#[test]
fn test_gates_of_one_name_are_distinct_subscribers() {
    let (mut executor, spawner) = bounded_executor_and_spawner(4);
    let mut sequencer = FrameSequencer::<u32>::new();
    let marker = FrameMarker::new(&mut sequencer).unwrap();
    let first = FrameGate::new(&mut sequencer, "Draw".to_owned());
    let second = FrameGate::new(&mut sequencer, "Draw".to_owned());
    assert_eq!(first.name(), second.name());
    assert_ne!(first.index(), second.index());
    let task = spawner.spawn(&mut executor);
    marker.frame(&mut sequencer, &mut executor, 1);
    assert_eq!(first.poll(&mut sequencer, task), Some(1));
    // The other gate of that name still has its own snapshot to hand out.
    assert_eq!(second.poll(&mut sequencer, task), Some(1));
    assert_eq!(first.poll(&mut sequencer, task), None);
    assert_eq!(second.poll(&mut sequencer, task), None);
}

#[test]
fn test_marker_is_issued_once() {
    let mut sequencer = FrameSequencer::<u32>::new();
    assert!(FrameMarker::new(&mut sequencer).is_some());
    assert!(FrameMarker::new(&mut sequencer).is_none());
    assert!(FrameMarker::new(&mut sequencer).is_none());
}

#[test]
fn test_gate_is_pending_before_the_first_frame() {
    let mut sequencer = FrameSequencer::<u32>::new();
    let gate = FrameGate::new(&mut sequencer, "early".to_owned());
    assert_eq!(gate.poll(&mut sequencer, Task { id: 0 }), None);
    assert_eq!(sequencer.pending_wakes(), 1);
}

#[test]
fn test_frame_wakes_in_registration_order() {
    let (mut executor, spawner) = bounded_executor_and_spawner(8);
    let mut sequencer = FrameSequencer::<u32>::new();
    let marker = FrameMarker::new(&mut sequencer).unwrap();
    let a = FrameGate::new(&mut sequencer, "A".to_owned());
    let b = FrameGate::new(&mut sequencer, "B".to_owned());
    let c = FrameGate::new(&mut sequencer, "C".to_owned());
    let task_c = spawner.spawn(&mut executor);
    let task_a = spawner.spawn(&mut executor);
    let task_b = spawner.spawn(&mut executor);
    // The tasks are resumed in spawn order, which is not the order of their gates.
    assert_eq!(executor.run(None), Turn::Resume(task_c));
    assert_eq!(c.poll(&mut sequencer, task_c), None);
    assert_eq!(executor.run(Some(Progress::Suspended)), Turn::Resume(task_a));
    assert_eq!(a.poll(&mut sequencer, task_a), None);
    assert_eq!(executor.run(Some(Progress::Suspended)), Turn::Resume(task_b));
    assert_eq!(b.poll(&mut sequencer, task_b), None);
    assert_eq!(executor.run(Some(Progress::Suspended)), Turn::Idle);
    assert_eq!(sequencer.pending_wakes(), 3);

    marker.frame(&mut sequencer, &mut executor, 10);

    assert_eq!(sequencer.pending_wakes(), 0);
    assert_eq!(executor.queued(), 3);
    assert_eq!(executor.run(None), Turn::Resume(task_a));
    assert_eq!(executor.run(Some(Progress::Suspended)), Turn::Resume(task_b));
    assert_eq!(executor.run(Some(Progress::Suspended)), Turn::Resume(task_c));
    assert_eq!(executor.run(Some(Progress::Suspended)), Turn::Idle);
}

#[test]
fn test_frame_publishes_snapshot_and_advances_generation() {
    let (mut executor, _spawner) = bounded_executor_and_spawner(2);
    let mut sequencer = FrameSequencer::<u32>::new();
    let marker = FrameMarker::new(&mut sequencer).unwrap();
    marker.frame(&mut sequencer, &mut executor, 41);
    assert_eq!(sequencer.generation(), 1);
    assert_eq!(sequencer.snapshot(), Some(41));
    marker.frame(&mut sequencer, &mut executor, 42);
    assert_eq!(sequencer.generation(), 2);
    assert_eq!(sequencer.snapshot(), Some(42));
    assert_eq!(executor.queued(), 0);
}

#[test]
fn test_gate_yields_each_snapshot_once() {
    let (mut executor, spawner) = bounded_executor_and_spawner(2);
    let mut sequencer = FrameSequencer::<u32>::new();
    let marker = FrameMarker::new(&mut sequencer).unwrap();
    let gate = FrameGate::new(&mut sequencer, "gate".to_owned());
    let task = spawner.spawn(&mut executor);
    marker.frame(&mut sequencer, &mut executor, 3);
    assert_eq!(gate.poll(&mut sequencer, task), Some(3));
    assert_eq!(gate.poll(&mut sequencer, task), None);
    assert_eq!(gate.poll(&mut sequencer, task), None);
    marker.frame(&mut sequencer, &mut executor, 4);
    assert_eq!(gate.poll(&mut sequencer, task), Some(4));
    assert_eq!(gate.poll(&mut sequencer, task), None);
}

#[test]
fn test_missed_generation_is_not_replayed() {
    let (mut executor, spawner) = bounded_executor_and_spawner(4);
    let mut sequencer = FrameSequencer::<u32>::new();
    let marker = FrameMarker::new(&mut sequencer).unwrap();
    let gate = FrameGate::new(&mut sequencer, "slow".to_owned());
    let task = spawner.spawn(&mut executor);
    assert_eq!(executor.run(None), Turn::Resume(task));
    assert_eq!(gate.poll(&mut sequencer, task), None);
    assert_eq!(executor.run(Some(Progress::Suspended)), Turn::Idle);

    marker.frame(&mut sequencer, &mut executor, 1);
    marker.frame(&mut sequencer, &mut executor, 2);

    // One wake for the two frames, and only the second snapshot.
    assert_eq!(executor.queued(), 1);
    assert_eq!(executor.run(None), Turn::Resume(task));
    assert_eq!(gate.poll(&mut sequencer, task), Some(2));
    assert_eq!(gate.poll(&mut sequencer, task), None);
    assert_eq!(executor.run(Some(Progress::Suspended)), Turn::Idle);
    assert_eq!(sequencer.generation(), 2);
}

#[test]
fn test_awaiting_without_a_new_frame_stays_pending() {
    let (mut executor, spawner) = bounded_executor_and_spawner(2);
    let mut sequencer = FrameSequencer::<u32>::new();
    let marker = FrameMarker::new(&mut sequencer).unwrap();
    let gate = FrameGate::new(&mut sequencer, "idle".to_owned());
    let task = spawner.spawn(&mut executor);
    marker.frame(&mut sequencer, &mut executor, 9);
    assert_eq!(gate.poll(&mut sequencer, task), Some(9));
    for _ in 0..100 {
        assert_eq!(gate.poll(&mut sequencer, task), None);
        assert_eq!(sequencer.pending_wakes(), 1);
    }
}

#[test]
fn test_latest_waker_of_a_gate_is_the_one_woken() {
    let (mut executor, spawner) = bounded_executor_and_spawner(4);
    let mut sequencer = FrameSequencer::<u32>::new();
    let marker = FrameMarker::new(&mut sequencer).unwrap();
    let gate = FrameGate::new(&mut sequencer, "shared".to_owned());
    let first = spawner.spawn(&mut executor);
    let second = spawner.spawn(&mut executor);
    assert_eq!(executor.run(None), Turn::Resume(first));
    assert_eq!(gate.poll(&mut sequencer, first), None);
    assert_eq!(executor.run(Some(Progress::Suspended)), Turn::Resume(second));
    assert_eq!(gate.poll(&mut sequencer, second), None);
    assert_eq!(executor.run(Some(Progress::Suspended)), Turn::Idle);
    marker.frame(&mut sequencer, &mut executor, 5);
    assert_eq!(executor.run(None), Turn::Resume(second));
    assert_eq!(executor.run(Some(Progress::Suspended)), Turn::Idle);
}

#[test]
fn test_gate_of_another_sequencer_is_pending() {
    let mut large = FrameSequencer::<u32>::new();
    let _first = FrameGate::new(&mut large, "first".to_owned());
    let stranger = FrameGate::new(&mut large, "second".to_owned());
    let mut small = FrameSequencer::<u32>::new();
    assert_eq!(stranger.poll(&mut small, Task { id: 0 }), None);
    assert_eq!(small.pending_wakes(), 0);
    assert_eq!(small.gate_count(), 0);
}

#[test]
fn test_try_frame_reports_queue_overflow_and_changes_nothing() {
    let (mut executor, spawner) = bounded_executor_and_spawner(2);
    let mut sequencer = FrameSequencer::<u32>::new();
    let marker = FrameMarker::new(&mut sequencer).unwrap();
    let a = FrameGate::new(&mut sequencer, "A".to_owned());
    let b = FrameGate::new(&mut sequencer, "B".to_owned());
    let task_a = spawner.spawn(&mut executor);
    let task_b = spawner.spawn(&mut executor);
    assert_eq!(executor.run(None), Turn::Resume(task_a));
    assert_eq!(a.poll(&mut sequencer, task_a), None);
    assert_eq!(executor.run(Some(Progress::Suspended)), Turn::Resume(task_b));
    assert_eq!(b.poll(&mut sequencer, task_b), None);
    assert_eq!(executor.run(Some(Progress::Suspended)), Turn::Idle);
    // One stray wake leaves room for only one of the two tasks at the gates.
    task_a.wake_by_ref(&mut executor);

    assert_eq!(marker.try_frame(&mut sequencer, &mut executor, 1), Err(FrameError::QueueOverflow));

    assert_eq!(sequencer.generation(), 0);
    assert_eq!(sequencer.snapshot(), None);
    assert_eq!(sequencer.pending_wakes(), 2);
    assert_eq!(executor.queued(), 1);
    assert_eq!(a.poll(&mut sequencer, task_a), None);

    assert_eq!(executor.run(None), Turn::Resume(task_a));
    assert_eq!(executor.run(Some(Progress::Suspended)), Turn::Idle);
    assert_eq!(marker.try_frame(&mut sequencer, &mut executor, 1), Ok(()));
    assert_eq!(sequencer.generation(), 1);
    assert_eq!(executor.queued(), 2);
    assert_eq!(a.poll(&mut sequencer, task_a), Some(1));
}

#[test]
fn test_try_frame_fills_the_queue_to_its_capacity() {
    let (mut executor, spawner) = bounded_executor_and_spawner(1);
    let mut sequencer = FrameSequencer::<u32>::new();
    let marker = FrameMarker::new(&mut sequencer).unwrap();
    let gate = FrameGate::new(&mut sequencer, "only".to_owned());
    let task = spawner.spawn(&mut executor);
    assert_eq!(executor.run(None), Turn::Resume(task));
    assert_eq!(gate.poll(&mut sequencer, task), None);
    assert_eq!(executor.run(Some(Progress::Suspended)), Turn::Idle);
    assert_eq!(marker.try_frame(&mut sequencer, &mut executor, 8), Ok(()));
    assert_eq!(executor.queued(), 1);
    assert!(!executor.has_room());
}
