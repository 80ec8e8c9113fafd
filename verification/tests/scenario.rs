use ghg::executor::bounded_executor_and_spawner;
use ghg::executor::Executor;
use ghg::executor::Progress;
use ghg::executor::Turn;
use ghg::frame_sequencer::FrameGate;
use ghg::frame_sequencer::FrameMarker;
use ghg::frame_sequencer::FrameSequencer;

/// A task that loops on "await a gate, append its label": one resumption.
fn resume(
    gate: &FrameGate,
    sequencer: &mut FrameSequencer<u32>,
    task: ghg::executor::Task,
    log: &mut Vec<(String, u32)>,
) -> Progress {
    if let Some(snapshot) = gate.poll(sequencer, task) {
        log.push((gate.name().clone(), snapshot));
        assert_eq!(gate.poll(sequencer, task), None);
    }
    Progress::Suspended
}

/// Runs the executor until it is idle; task `n` awaits `gates[n]`.
fn run(
    executor: &mut Executor,
    sequencer: &mut FrameSequencer<u32>,
    gates: &[FrameGate],
    log: &mut Vec<(String, u32)>,
) {
    let mut progress = None;
    while let Turn::Resume(task) = executor.run(progress) {
        progress = Some(resume(&gates[task.id], sequencer, task, log));
    }
}

fn labels(log: &[(String, u32)]) -> Vec<&str> {
    log.iter().map(|entry| entry.0.as_str()).collect()
}

#[test]
fn test_two_tasks_run_once_per_frame_in_registration_order() {
    let (mut executor, spawner) = bounded_executor_and_spawner(2);
    let mut sequencer = FrameSequencer::<u32>::new();
    let marker = FrameMarker::new(&mut sequencer).unwrap();
    let gates = vec![
        FrameGate::new(&mut sequencer, "x".to_owned()),
        FrameGate::new(&mut sequencer, "y".to_owned()),
    ];
    let mut log = Vec::new();
    spawner.spawn(&mut executor);
    spawner.spawn(&mut executor);

    run(&mut executor, &mut sequencer, &gates, &mut log);
    assert!(log.is_empty());

    marker.frame(&mut sequencer, &mut executor, 1);
    run(&mut executor, &mut sequencer, &gates, &mut log);
    assert_eq!(labels(&log), vec!["x", "y"]);

    marker.frame(&mut sequencer, &mut executor, 2);
    run(&mut executor, &mut sequencer, &gates, &mut log);
    assert_eq!(labels(&log), vec!["x", "y", "x", "y"]);
    assert_eq!(
        log,
        vec![
            ("x".to_owned(), 1),
            ("y".to_owned(), 1),
            ("x".to_owned(), 2),
            ("y".to_owned(), 2)
        ]
    );
}

#[test]
fn test_every_task_runs_once_per_snapshot_in_snapshot_order() {
    let tasks = 5;
    let frames = 7;
    let (mut executor, spawner) = bounded_executor_and_spawner(tasks);
    let mut sequencer = FrameSequencer::<u32>::new();
    let marker = FrameMarker::new(&mut sequencer).unwrap();
    let mut gates = Vec::new();
    for n in 0..tasks {
        gates.push(FrameGate::new(&mut sequencer, format!("task {n}")));
        assert_eq!(spawner.spawn(&mut executor).id, n);
    }
    let mut log = Vec::new();
    run(&mut executor, &mut sequencer, &gates, &mut log);
    for frame in 0..frames {
        marker.frame(&mut sequencer, &mut executor, 100 + frame);
        run(&mut executor, &mut sequencer, &gates, &mut log);
    }
    assert_eq!(log.len(), tasks * frames as usize);
    for frame in 0..frames as usize {
        for n in 0..tasks {
            assert_eq!(log[frame * tasks + n], (format!("task {n}"), 100 + frame as u32));
        }
    }
    assert_eq!(sequencer.generation(), frames as u64);
}

#[test]
fn test_task_spawned_by_a_task_runs_behind_the_queued_ones() {
    let (mut executor, spawner) = bounded_executor_and_spawner(3);
    let first = spawner.spawn(&mut executor);
    let second = spawner.spawn(&mut executor);
    assert_eq!(executor.run(None), Turn::Resume(first));
    // While `first` is being resumed it spawns a helper.
    let helper = spawner.spawn(&mut executor);
    assert_eq!(executor.run(Some(Progress::Suspended)), Turn::Resume(second));
    assert_eq!(executor.run(Some(Progress::Suspended)), Turn::Resume(helper));
    assert_eq!(executor.run(Some(Progress::Completed)), Turn::Idle);
    assert!(!executor.is_live(helper));
}

#[test]
fn test_tasks_run_in_the_order_of_their_gates() {
    // Five gates; the three tasks await gates 3, 0 and 2, and nobody awaits gates 1 and 4.
    let gate_of = [3, 0, 2];
    let (mut executor, spawner) = bounded_executor_and_spawner(3);
    let mut sequencer = FrameSequencer::<u32>::new();
    let marker = FrameMarker::new(&mut sequencer).unwrap();
    let gates: Vec<FrameGate> = ["g0", "g1", "g2", "g3", "g4"]
        .iter()
        .map(|name| FrameGate::new(&mut sequencer, name.to_string()))
        .collect();
    for _ in gate_of {
        spawner.spawn(&mut executor);
    }
    let mut log = Vec::new();
    let mut drain = |executor: &mut Executor, sequencer: &mut FrameSequencer<u32>| {
        let mut progress = None;
        while let Turn::Resume(task) = executor.run(progress) {
            progress = Some(resume(&gates[gate_of[task.id]], sequencer, task, &mut log));
        }
    };

    drain(&mut executor, &mut sequencer);
    for frame in 1..=3 {
        marker.frame(&mut sequencer, &mut executor, frame);
        drain(&mut executor, &mut sequencer);
    }

    let expected: Vec<(String, u32)> = (1..=3)
        .flat_map(|frame| ["g0", "g2", "g3"].map(|name| (name.to_owned(), frame)))
        .collect();
    assert_eq!(log, expected);
    assert_eq!(sequencer.pending_wakes(), 3);
}
