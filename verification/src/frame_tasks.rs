//! Tasks that do one piece of work per frame.
//!
//! The usual task of an animation loops on "await my gate, do one frame of
//! work". This module describes a whole session of such tasks, with an
//! executor and a frame sequencer, and proves that every task runs its frame
//! body exactly once for every frame that is published.
use crate::executor::ExecutorView;
use crate::executor::Progress;
use crate::executor::Task;
use crate::executor::Turn;
use crate::frame_sequencer::frame_outcome;
use crate::frame_sequencer::wake_list;
use crate::frame_sequencer::GateState;
use crate::frame_sequencer::SequencerView;
use crate::ready_queue::TaskId;
use crate::rendezvous::lemma_spawns_fill_queue;
use crate::rendezvous::lemma_turn_consumes;
use crate::rendezvous::lemma_wake_slot;
use crate::rendezvous::lemma_wakes_follow_registration;
use crate::rendezvous::spawn_many;
use crate::rendezvous::wake_position;
use vstd::prelude::*;

verus! {

/// An executor, a sequencer, and the record of the frame bodies that ran:
/// one entry per execution, naming the task and the snapshot it worked on.
pub struct Session<S> {
    /// The executor's state.
    pub executor: ExecutorView,
    /// The sequencer's state.
    pub sequencer: SequencerView<S>,
    /// The frame bodies executed so far, in execution order.
    pub log: Seq<(TaskId, S)>,
}

/// One resumption of a task that loops on "await my gate, do one frame of
/// work", where its gate is gate number `gate`. If that gate yields a
/// snapshot the body runs once, which the log records, and the task awaits
/// its gate again; either way it ends up suspended at its gate.
pub open spec fn resume_frame_task<S>(session: Session<S>, task: Task, gate: int) -> Session<S> {
    let (polled, snapshot) = session.sequencer.poll(gate, task);
    match snapshot {
        Some(seen) => Session {
            sequencer: polled.poll(gate, task).0,
            log: session.log.push((task.id, seen)),
            ..session
        },
        None => Session { sequencer: polled, ..session },
    }
}

/// A resumption without a new frame runs no frame body.
///
/// When a frame task is resumed although its gate still waits, as after a
/// wake that no frame caused, the log stays as it is and the task suspends
/// at its gate as before.
pub proof fn lemma_spurious_resume_runs_no_body<S>(session: Session<S>, task: Task, gate: int)
    requires
        0 <= gate < session.sequencer.gates.len(),
        session.sequencer.gates[gate] is Waiting,
    ensures
        resume_frame_task(session, task, gate).log == session.log,
        resume_frame_task(session, task, gate).sequencer.gates == session.sequencer.gates.update(
            gate,
            GateState::Waiting(Some(task)),
        ),
{
}

/// Runs the executor until it is idle, resuming every task it hands out as
/// [`resume_frame_task`] describes; task `t` awaits gate number `gate_of[t]`.
/// `progress` is what the task handed out before, if any, reported.
pub open spec fn drain<S>(
    session: Session<S>,
    progress: Option<Progress>,
    gate_of: Seq<int>,
) -> Session<S>
    decreases session.executor.queue.len(),
{
    let (executor, turn) = session.executor.run(progress);
    match turn {
        Turn::Resume(task) => {
            proof {
                lemma_turn_consumes(session.executor.settle(progress));
            }
            drain(
                resume_frame_task(Session { executor, ..session }, task, gate_of[task.id as int]),
                Some(Progress::Suspended),
                gate_of,
            )
        },
        Turn::Idle => Session { executor, ..session },
    }
}

/// One tick: the frame is published if it can be, and the executor runs
/// until it is idle again.
pub open spec fn tick<S>(session: Session<S>, snapshot: S, gate_of: Seq<int>) -> Session<S> {
    if frame_outcome(session.sequencer, session.executor) is Ok {
        drain(
            Session {
                executor: session.executor.wake_all(session.sequencer.wakes()),
                sequencer: session.sequencer.advance(snapshot),
                ..session
            },
            None,
            gate_of,
        )
    } else {
        session
    }
}

/// The ticks for `snapshots`, one after another.
pub open spec fn run_frames<S>(
    session: Session<S>,
    snapshots: Seq<S>,
    gate_of: Seq<int>,
) -> Session<S>
    decreases snapshots.len(),
{
    if snapshots.len() == 0 {
        session
    } else {
        tick(run_frames(session, snapshots.drop_last(), gate_of), snapshots.last(), gate_of)
    }
}

/// The state after `count` gates were registered one after another.
pub open spec fn register_many<S>(sequencer: SequencerView<S>, count: nat) -> SequencerView<S>
    decreases count,
{
    if count == 0 {
        sequencer
    } else {
        register_many(sequencer, (count - 1) as nat).register()
    }
}

/// A fresh session in which `gate_count` gates were registered and one frame
/// task was spawned for every entry of `gate_of`, and in which the executor
/// then ran until idle.
pub open spec fn started<S>(gate_of: Seq<int>, gate_count: nat, capacity: nat) -> Session<S> {
    drain(
        Session {
            executor: spawn_many(ExecutorView::new(capacity), gate_of.len()),
            sequencer: register_many(SequencerView::new(), gate_count),
            log: Seq::empty(),
        },
        None,
        gate_of,
    )
}

/// Every task has a gate of its own among the `gate_count` gates.
pub open spec fn assigned(gate_of: Seq<int>, gate_count: nat) -> bool {
    &&& gate_of.len() <= usize::MAX
    &&& forall|task: int| 0 <= task < gate_of.len() ==> 0 <= #[trigger] gate_of[task] < gate_count
    &&& forall|one: int, other: int|
        0 <= one < other < gate_of.len() ==> gate_of[one] != gate_of[other]
}

/// The task that awaits gate number `gate`, if there is one.
pub open spec fn owner(gate_of: Seq<int>, gate: int) -> Option<TaskId> {
    if exists|task: int| 0 <= task < gate_of.len() && gate_of[task] == gate {
        Some((choose|task: int| 0 <= task < gate_of.len() && gate_of[task] == gate) as TaskId)
    } else {
        None
    }
}

/// The gates while all tasks are suspended: every gate that a task awaits
/// holds that task's wake handle, every other gate is in the state `idle`.
pub open spec fn resting_gates(gate_of: Seq<int>, gate_count: nat, idle: GateState) -> Seq<
    GateState,
> {
    Seq::new(
        gate_count,
        |gate: int|
            match owner(gate_of, gate) {
                Some(task) => GateState::Waiting(Some(Task { id: task })),
                None => idle,
            },
    )
}

/// The tasks in the order of their gates: the order in which a frame wakes them.
pub open spec fn wake_order(gate_of: Seq<int>, gate_count: nat) -> Seq<TaskId> {
    wake_list(resting_gates(gate_of, gate_count, GateState::Waiting(None)))
}

/// The snapshots on which the frame body of `task` ran, in the order of the runs.
pub open spec fn executions_of<S>(log: Seq<(TaskId, S)>, task: TaskId) -> Seq<S>
    decreases log.len(),
{
    if log.len() == 0 {
        Seq::empty()
    } else {
        let earlier = executions_of(log.drop_last(), task);
        if log.last().0 == task {
            earlier.push(log.last().1)
        } else {
            earlier
        }
    }
}

/// `task` is one of `tasks`.
spec fn takes_part(tasks: Seq<TaskId>, task: TaskId) -> bool {
    exists|place: int| 0 <= place < tasks.len() && #[trigger] tasks[place] == task
}

/// One execution of the frame body on `snapshot` by each of `tasks`, in order.
pub open spec fn frame_record<S>(tasks: Seq<TaskId>, snapshot: S) -> Seq<(TaskId, S)> {
    Seq::new(tasks.len(), |place: int| (tasks[place], snapshot))
}

/// The executor is idle with live tasks only, one for every entry of
/// `gate_of`, and each task is suspended at its gate.
pub open spec fn at_rest<S>(
    session: Session<S>,
    gate_of: Seq<int>,
    gate_count: nat,
    capacity: nat,
    idle: GateState,
) -> bool {
    &&& session.executor == ExecutorView {
        queue: Seq::empty(),
        capacity,
        finished: Seq::new(gate_of.len(), |task: int| false),
        running: None,
    }
    &&& session.sequencer.gates == resting_gates(gate_of, gate_count, idle)
}

/// The gates after a queue of tasks was drained: each task in the queue has
/// left its wake handle at its gate.
spec fn gates_after(queue: Seq<TaskId>, gates: Seq<GateState>, gate_of: Seq<int>) -> Seq<
    GateState,
>
    decreases queue.len(),
{
    if queue.len() == 0 {
        gates
    } else {
        let task = queue.first();
        gates_after(
            queue.drop_first(),
            if 0 <= gate_of[task as int] < gates.len() {
                gates.update(gate_of[task as int], GateState::Waiting(Some(Task { id: task })))
            } else {
                gates
            },
            gate_of,
        )
    }
}

/// The frame bodies that run while a queue of tasks is drained: one for
/// every task in the queue whose gate is ready when its turn comes.
spec fn bodies_run<S>(
    queue: Seq<TaskId>,
    gates: Seq<GateState>,
    gate_of: Seq<int>,
    snapshot: S,
) -> Seq<(TaskId, S)>
    decreases queue.len(),
{
    if queue.len() == 0 {
        Seq::empty()
    } else {
        let task = queue.first();
        let gate = gate_of[task as int];
        let ready = 0 <= gate < gates.len() && gates[gate] is Ready;
        let later = bodies_run(
            queue.drop_first(),
            if 0 <= gate < gates.len() {
                gates.update(gate, GateState::Waiting(Some(Task { id: task })))
            } else {
                gates
            },
            gate_of,
            snapshot,
        );
        if ready {
            seq![(task, snapshot)] + later
        } else {
            later
        }
    }
}

/// Draining a queue of live tasks leaves the executor idle, the wake handle
/// of every task in the queue at its gate, and in the log one execution for
/// every task that found its gate ready.
proof fn lemma_drain<S>(session: Session<S>, progress: Option<Progress>, gate_of: Seq<int>)
    requires
        session.executor.settle(progress).running is None,
        forall|task: int|
            0 <= task < session.executor.settle(progress).finished.len()
                ==> !#[trigger] session.executor.settle(progress).finished[task],
        forall|place: int|
            0 <= place < session.executor.queue.len() ==> (#[trigger] session.executor.queue[place])
                < session.executor.settle(progress).finished.len(),
        forall|gate: int|
            0 <= gate < session.sequencer.gates.len() && session.sequencer.gates[gate] is Ready
                ==> session.sequencer.snapshot is Some,
    ensures
        drain(session, progress, gate_of).executor == (ExecutorView {
            queue: Seq::empty(),
            ..session.executor.settle(progress)
        }),
        drain(session, progress, gate_of).sequencer == (SequencerView {
            gates: gates_after(session.executor.queue, session.sequencer.gates, gate_of),
            ..session.sequencer
        }),
        drain(session, progress, gate_of).log == session.log + bodies_run(
            session.executor.queue,
            session.sequencer.gates,
            gate_of,
            session.sequencer.snapshot->0,
        ),
    decreases session.executor.queue.len(),
{
    let settled = session.executor.settle(progress);
    let queue = session.executor.queue;
    assert(settled.queue == queue);
    if queue.len() == 0 {
        assert(settled.queue =~= Seq::empty());
        assert(session.log + Seq::<(TaskId, S)>::empty() =~= session.log);
    } else {
        let id = queue.first();
        let task = Task { id };
        let gate = gate_of[id as int];
        assert(queue[0] < settled.finished.len());
        assert(settled.is_live(id));
        let handed = ExecutorView { queue: queue.drop_first(), running: Some(id), ..settled };
        assert(settled.next_turn() == (handed, Turn::Resume(task)));
        let resumed = resume_frame_task(Session { executor: handed, ..session }, task, gate);
        assert(drain(session, progress, gate_of) == drain(
            resumed,
            Some(Progress::Suspended),
            gate_of,
        ));
        let after = handed.settle(Some(Progress::Suspended));
        assert(after == ExecutorView { running: None, ..handed });
        assert forall|place: int| 0 <= place < resumed.executor.queue.len() implies (
        #[trigger] resumed.executor.queue[place]) < after.finished.len() by {
            assert(resumed.executor.queue[place] == queue[place + 1]);
        }
        lemma_drain(resumed, Some(Progress::Suspended), gate_of);
        let seen = session.sequencer.snapshot->0;
        let moved = if 0 <= gate < session.sequencer.gates.len() {
            session.sequencer.gates.update(gate, GateState::Waiting(Some(task)))
        } else {
            session.sequencer.gates
        };
        assert(resumed.sequencer.gates =~= moved);
        let later = bodies_run(queue.drop_first(), moved, gate_of, seen);
        if 0 <= gate < session.sequencer.gates.len() && session.sequencer.gates[gate] is Ready {
            assert(session.log.push((id, seen)) + later =~= session.log + (seq![(id, seen)]
                + later));
        }
    }
}

/// A task is the owner of its gate, and of no other gate.
proof fn lemma_owner(gate_of: Seq<int>, gate_count: nat, task: int)
    requires
        assigned(gate_of, gate_count),
        0 <= task < gate_of.len(),
    ensures
        owner(gate_of, gate_of[task]) == Some(task as TaskId),
{
    let gate = gate_of[task];
    let chosen = choose|other: int| 0 <= other < gate_of.len() && gate_of[other] == gate;
    if chosen < task {
        assert(gate_of[chosen] != gate_of[task]);
    } else if task < chosen {
        assert(gate_of[task] != gate_of[chosen]);
    }
}

/// The owner of a gate is a task that awaits that gate.
proof fn lemma_owned(gate_of: Seq<int>, gate_count: nat, gate: int, task: TaskId)
    requires
        assigned(gate_of, gate_count),
        owner(gate_of, gate) == Some(task),
    ensures
        task < gate_of.len(),
        gate_of[task as int] == gate,
{
}

/// After a queue of different tasks was drained, each of them has left its
/// wake handle at its gate, and the gates of the other tasks are untouched.
proof fn lemma_gates_after(
    queue: Seq<TaskId>,
    gates: Seq<GateState>,
    gate_of: Seq<int>,
    gate_count: nat,
)
    requires
        assigned(gate_of, gate_count),
        gates.len() == gate_count,
        forall|place: int| 0 <= place < queue.len() ==> (#[trigger] queue[place]) < gate_of.len(),
        forall|one: int, other: int| 0 <= one < other < queue.len() ==> queue[one] != queue[other],
    ensures
        gates_after(queue, gates, gate_of).len() == gate_count,
        forall|place: int|
            0 <= place < queue.len() ==> gates_after(queue, gates, gate_of)[gate_of[(
            #[trigger] queue[place]) as int]] == GateState::Waiting(
                Some(Task { id: queue[place] }),
            ),
        forall|gate: int|
            0 <= gate < gate_count && (forall|place: int|
                0 <= place < queue.len() ==> gate_of[(#[trigger] queue[place]) as int] != gate)
                ==> #[trigger] gates_after(queue, gates, gate_of)[gate] == gates[gate],
    decreases queue.len(),
{
    if queue.len() > 0 {
        let first = queue.first();
        let gate = gate_of[first as int];
        assert(queue[0] < gate_of.len());
        let moved = gates.update(gate, GateState::Waiting(Some(Task { id: first })));
        let rest = queue.drop_first();
        assert forall|place: int| 0 <= place < rest.len() implies (#[trigger] rest[place])
            < gate_of.len() by {
            assert(rest[place] == queue[place + 1]);
        }
        assert forall|one: int, other: int| 0 <= one < other < rest.len() implies rest[one]
            != rest[other] by {
            assert(queue[one + 1] != queue[other + 1]);
        }
        lemma_gates_after(rest, moved, gate_of, gate_count);
        let end = gates_after(queue, gates, gate_of);
        assert(end == gates_after(rest, moved, gate_of));
        assert forall|place: int| 0 <= place < rest.len() implies gate_of[(
        #[trigger] rest[place]) as int] != gate by {
            assert(rest[place] == queue[place + 1]);
            assert(queue[0] != queue[place + 1]);
            let later = rest[place] as int;
            if later < first {
                assert(gate_of[later] != gate_of[first as int]);
            } else {
                assert(gate_of[first as int] != gate_of[later]);
            }
        }
        assert(end[gate] == moved[gate]);
        assert forall|place: int| 0 <= place < queue.len() implies end[gate_of[(
        #[trigger] queue[place]) as int]] == GateState::Waiting(
            Some(Task { id: queue[place] }),
        ) by {
            if place > 0 {
                assert(rest[place - 1] == queue[place]);
            }
        }
        assert forall|other: int|
            0 <= other < gate_count && (forall|place: int|
                0 <= place < queue.len() ==> gate_of[(#[trigger] queue[place]) as int] != other)
            implies #[trigger] end[other] == gates[other] by {
            assert(gate_of[queue[0] as int] != other);
            assert forall|place: int| 0 <= place < rest.len() implies gate_of[(
            #[trigger] rest[place]) as int] != other by {
                assert(rest[place] == queue[place + 1]);
            }
            assert(end[other] == moved[other]);
        }
    }
}

/// While a queue of different tasks is drained, every task whose gate is
/// ready runs its body once, and a queue of tasks whose gates wait runs none.
proof fn lemma_bodies_run<S>(
    queue: Seq<TaskId>,
    gates: Seq<GateState>,
    gate_of: Seq<int>,
    gate_count: nat,
    snapshot: S,
)
    requires
        assigned(gate_of, gate_count),
        gates.len() == gate_count,
        forall|place: int| 0 <= place < queue.len() ==> (#[trigger] queue[place]) < gate_of.len(),
        forall|one: int, other: int| 0 <= one < other < queue.len() ==> queue[one] != queue[other],
    ensures
        (forall|place: int|
            0 <= place < queue.len() ==> gates[gate_of[(#[trigger] queue[place]) as int]] is Ready)
            ==> bodies_run(queue, gates, gate_of, snapshot) == frame_record(queue, snapshot),
        (forall|place: int|
            0 <= place < queue.len() ==> gates[gate_of[(
            #[trigger] queue[place]) as int]] is Waiting) ==> bodies_run(
            queue,
            gates,
            gate_of,
            snapshot,
        ) == Seq::<(TaskId, S)>::empty(),
    decreases queue.len(),
{
    if queue.len() == 0 {
        assert(frame_record(queue, snapshot) =~= Seq::<(TaskId, S)>::empty());
    } else {
        let first = queue.first();
        let gate = gate_of[first as int];
        assert(queue[0] < gate_of.len());
        let moved = gates.update(gate, GateState::Waiting(Some(Task { id: first })));
        let rest = queue.drop_first();
        assert forall|place: int| 0 <= place < rest.len() implies (#[trigger] rest[place])
            < gate_of.len() by {
            assert(rest[place] == queue[place + 1]);
        }
        assert forall|one: int, other: int| 0 <= one < other < rest.len() implies rest[one]
            != rest[other] by {
            assert(queue[one + 1] != queue[other + 1]);
        }
        lemma_bodies_run(rest, moved, gate_of, gate_count, snapshot);
        assert forall|place: int| 0 <= place < rest.len() implies moved[gate_of[(
        #[trigger] rest[place]) as int]] == gates[gate_of[rest[place] as int]] by {
            assert(rest[place] == queue[place + 1]);
            assert(queue[0] != queue[place + 1]);
            let later = rest[place] as int;
            if later < first {
                assert(gate_of[later] != gate_of[first as int]);
            } else {
                assert(gate_of[first as int] != gate_of[later]);
            }
        }
        if forall|place: int|
            0 <= place < queue.len() ==> gates[gate_of[(#[trigger] queue[place]) as int]] is Ready {
            assert forall|place: int| 0 <= place < rest.len() implies moved[gate_of[(
            #[trigger] rest[place]) as int]] is Ready by {
                assert(rest[place] == queue[place + 1]);
            }
            assert(seq![(first, snapshot)] + frame_record(rest, snapshot) =~= frame_record(
                queue,
                snapshot,
            ));
        }
        if forall|place: int|
            0 <= place < queue.len() ==> gates[gate_of[(
            #[trigger] queue[place]) as int]] is Waiting {
            assert forall|place: int| 0 <= place < rest.len() implies moved[gate_of[(
            #[trigger] rest[place]) as int]] is Waiting by {
                assert(rest[place] == queue[place + 1]);
            }
        }
    }
}

/// Every entry of a wake list comes from a gate at which that task waits,
/// and stands at the wake position of that gate.
proof fn lemma_wake_source(gates: Seq<GateState>, place: int) -> (gate: int)
    requires
        0 <= place < wake_list(gates).len(),
    ensures
        0 <= gate < gates.len(),
        gates[gate] == GateState::Waiting(Some(Task { id: wake_list(gates)[place] })),
        wake_position(gates, gate) == place,
    decreases gates.len(),
{
    let earlier = gates.drop_last();
    if place < wake_list(earlier).len() {
        let gate = lemma_wake_source(earlier, place);
        assert(gates.take(gate) =~= earlier.take(gate));
        gate
    } else {
        assert(gates.take(gates.len() - 1) =~= earlier);
        gates.len() - 1
    }
}

/// A sequence of different numbers below `bound` has at most `bound` entries.
proof fn lemma_pigeonhole(values: Seq<int>, bound: nat)
    requires
        forall|place: int| 0 <= place < values.len() ==> 0 <= #[trigger] values[place] < bound,
        forall|one: int, other: int|
            0 <= one < other < values.len() ==> values[one] != values[other],
    ensures
        values.len() <= bound,
    decreases bound,
{
    if values.len() > 0 {
        assert(0 <= values[0] < bound);
        let top = bound - 1;
        if exists|place: int| 0 <= place < values.len() && values[place] == top {
            let hit = choose|place: int| 0 <= place < values.len() && values[place] == top;
            let others = values.remove(hit);
            assert forall|place: int| 0 <= place < others.len() implies 0
                <= #[trigger] others[place] < top by {
                if place < hit {
                    assert(values[place] != values[hit]);
                } else {
                    assert(values[hit] != values[place + 1]);
                    assert(0 <= values[place + 1] < bound);
                }
            }
            assert forall|one: int, other: int| 0 <= one < other < others.len() implies others[one]
                != others[other] by {
                let first = if one < hit {
                    one
                } else {
                    one + 1
                };
                let second = if other < hit {
                    other
                } else {
                    other + 1
                };
                assert(values[first] != values[second]);
            }
            lemma_pigeonhole(others, top as nat);
        } else {
            assert forall|place: int| 0 <= place < values.len() implies 0
                <= #[trigger] values[place] < top by {
                assert(0 <= values[place] < bound);
            }
            lemma_pigeonhole(values, top as nat);
        }
    }
}

/// The gates that no task awaits, waiting or ready, wake nobody: the wake
/// list of the resting gates does not depend on them.
proof fn lemma_idle_gates_wake_nobody(gate_of: Seq<int>, gate_count: nat)
    ensures
        wake_list(resting_gates(gate_of, gate_count, GateState::Ready)) == wake_order(
            gate_of,
            gate_count,
        ),
    decreases gate_count,
{
    if gate_count > 0 {
        let fewer = (gate_count - 1) as nat;
        lemma_idle_gates_wake_nobody(gate_of, fewer);
        assert(resting_gates(gate_of, gate_count, GateState::Ready).drop_last() =~= resting_gates(
            gate_of,
            fewer,
            GateState::Ready,
        ));
        assert(resting_gates(gate_of, gate_count, GateState::Waiting(None)).drop_last()
            =~= resting_gates(gate_of, fewer, GateState::Waiting(None)));
    }
}

/// The wake order names every task exactly once.
pub proof fn lemma_wake_order(gate_of: Seq<int>, gate_count: nat)
    requires
        assigned(gate_of, gate_count),
    ensures
        wake_order(gate_of, gate_count).len() == gate_of.len(),
        forall|place: int|
            0 <= place < gate_of.len() ==> (#[trigger] wake_order(gate_of, gate_count)[place])
                < gate_of.len(),
        forall|one: int, other: int|
            0 <= one < other < gate_of.len() ==> wake_order(gate_of, gate_count)[one]
                != wake_order(gate_of, gate_count)[other],
        forall|task: int|
            0 <= task < gate_of.len() ==> {
                let place = wake_position(
                    resting_gates(gate_of, gate_count, GateState::Waiting(None)),
                    #[trigger] gate_of[task],
                );
                0 <= place < gate_of.len() && wake_order(gate_of, gate_count)[place] == task
            },
{
    let gates = resting_gates(gate_of, gate_count, GateState::Waiting(None));
    let order = wake_order(gate_of, gate_count);
    assert forall|place: int| 0 <= place < order.len() implies (#[trigger] order[place])
        < gate_of.len() && wake_position(gates, gate_of[order[place] as int]) == place by {
        let gate = lemma_wake_source(gates, place);
        assert(owner(gate_of, gate) == Some(order[place]));
        lemma_owned(gate_of, gate_count, gate, order[place]);
    }
    assert forall|one: int, other: int| 0 <= one < other < order.len() implies order[one]
        != order[other] by {
        assert(wake_position(gates, gate_of[order[one] as int]) == one);
        assert(wake_position(gates, gate_of[order[other] as int]) == other);
    }
    assert forall|task: int| 0 <= task < gate_of.len() implies {
        let place = wake_position(gates, #[trigger] gate_of[task]);
        0 <= place < order.len() && order[place] == task
    } by {
        lemma_owner(gate_of, gate_count, task);
        lemma_wake_slot(gates, gate_of[task], Task { id: task as TaskId });
    }
    let names = Seq::new(order.len(), |place: int| order[place] as int);
    assert forall|one: int, other: int| 0 <= one < other < names.len() implies names[one]
        != names[other] by {
        assert(order[one] != order[other]);
    }
    assert forall|place: int| 0 <= place < names.len() implies 0 <= #[trigger] names[place]
        < gate_of.len() by {
        assert(order[place] < gate_of.len());
    }
    lemma_pigeonhole(names, gate_of.len());
    let places = Seq::new(gate_of.len(), |task: int| wake_position(gates, gate_of[task]));
    assert forall|task: int| 0 <= task < places.len() implies 0 <= #[trigger] places[task]
        < order.len() by {
        assert(0 <= gate_of[task] < gate_count);
    }
    assert forall|one: int, other: int| 0 <= one < other < places.len() implies places[one]
        != places[other] by {
        lemma_owner(gate_of, gate_count, one);
        lemma_owner(gate_of, gate_count, other);
        assert(gate_of[one] != gate_of[other]);
        if gate_of[one] < gate_of[other] {
            lemma_wakes_follow_registration(
                gates,
                gate_of[one],
                gate_of[other],
                Task { id: one as TaskId },
                Task { id: other as TaskId },
            );
        } else {
            lemma_wakes_follow_registration(
                gates,
                gate_of[other],
                gate_of[one],
                Task { id: other as TaskId },
                Task { id: one as TaskId },
            );
        }
    }
    lemma_pigeonhole(places, order.len());
}

proof fn lemma_register_many<S>(count: nat)
    ensures
        register_many(SequencerView::<S>::new(), count) == (SequencerView::<S> {
            gates: Seq::new(count, |gate: int| GateState::Waiting(None)),
            ..SequencerView::new()
        }),
    decreases count,
{
    let target = Seq::new(count, |gate: int| GateState::Waiting(None));
    if count == 0 {
        assert(SequencerView::<S>::new().gates =~= target);
    } else {
        lemma_register_many::<S>((count - 1) as nat);
        assert(register_many(SequencerView::<S>::new(), count).gates =~= target);
    }
}

/// Draining a queue that names every task once, from gates that are all in
/// one state, leaves the gates at rest.
proof fn lemma_drained_gates_rest(
    queue: Seq<TaskId>,
    gate_of: Seq<int>,
    gate_count: nat,
    idle: GateState,
)
    requires
        assigned(gate_of, gate_count),
        idle == GateState::Ready || idle == GateState::Waiting(None),
        queue.len() == gate_of.len(),
        forall|place: int| 0 <= place < queue.len() ==> (#[trigger] queue[place]) < gate_of.len(),
        forall|one: int, other: int| 0 <= one < other < queue.len() ==> queue[one] != queue[other],
        forall|task: TaskId| task < gate_of.len() ==> #[trigger] takes_part(queue, task),
    ensures
        gates_after(queue, Seq::new(gate_count, |gate: int| idle), gate_of) == resting_gates(
            gate_of,
            gate_count,
            idle,
        ),
{
    let before = Seq::new(gate_count, |gate: int| idle);
    let after = gates_after(queue, before, gate_of);
    lemma_gates_after(queue, before, gate_of, gate_count);
    assert forall|gate: int| 0 <= gate < gate_count implies after[gate] == resting_gates(
        gate_of,
        gate_count,
        idle,
    )[gate] by {
        match owner(gate_of, gate) {
            Some(task) => {
                lemma_owned(gate_of, gate_count, gate, task);
                assert(takes_part(queue, task));
                let place = choose|place: int|
                    0 <= place < queue.len() && #[trigger] queue[place] == task;
                assert(after[gate_of[queue[place] as int]] == GateState::Waiting(
                    Some(Task { id: queue[place] }),
                ));
            },
            None => {
                assert forall|place: int| 0 <= place < queue.len() implies gate_of[(
                #[trigger] queue[place]) as int] != gate by {
                    assert(queue[place] < gate_of.len());
                }
                assert(after[gate] == before[gate]);
            },
        }
    }
    assert(after =~= resting_gates(gate_of, gate_count, idle));
}

/// Once started, every task is suspended at its gate, nothing is queued and
/// no frame body has run.
pub proof fn lemma_started_at_rest<S>(gate_of: Seq<int>, gate_count: nat, capacity: nat)
    requires
        assigned(gate_of, gate_count),
        0 < capacity,
        gate_of.len() <= capacity,
    ensures
        at_rest(
            started::<S>(gate_of, gate_count, capacity),
            gate_of,
            gate_count,
            capacity,
            GateState::Waiting(None),
        ),
        started::<S>(gate_of, gate_count, capacity).log == Seq::<(TaskId, S)>::empty(),
        started::<S>(gate_of, gate_count, capacity).sequencer.generation == 0,
{
    let tasks = gate_of.len();
    let spawned = spawn_many(ExecutorView::new(capacity), tasks);
    let registered = register_many(SequencerView::<S>::new(), gate_count);
    lemma_spawns_fill_queue(ExecutorView::new(capacity), tasks);
    lemma_register_many::<S>(gate_count);
    let session = Session { executor: spawned, sequencer: registered, log: Seq::empty() };
    let queue = spawned.queue;
    assert(spawned.finished =~= Seq::new(tasks, |task: int| false));
    assert forall|task: TaskId| task < tasks implies #[trigger] takes_part(queue, task) by {
        assert(queue[task as int] == task);
    }
    lemma_drain(session, None, gate_of);
    lemma_bodies_run(queue, registered.gates, gate_of, gate_count, registered.snapshot->0);
    lemma_drained_gates_rest(queue, gate_of, gate_count, GateState::Waiting(None));
    assert forall|place: int| 0 <= place < queue.len() implies registered.gates[gate_of[(
    #[trigger] queue[place]) as int]] is Waiting by {
        assert(0 <= gate_of[queue[place] as int] < gate_count);
    }
    assert(session.log + Seq::<(TaskId, S)>::empty() =~= session.log);
}

/// One tick from rest: every task's frame body runs exactly once, on the
/// snapshot of that tick, in wake order, and all tasks are at rest again.
pub proof fn lemma_tick_runs_each_body_once<S>(
    session: Session<S>,
    gate_of: Seq<int>,
    gate_count: nat,
    capacity: nat,
    idle: GateState,
    snapshot: S,
)
    requires
        assigned(gate_of, gate_count),
        gate_of.len() <= capacity,
        idle == GateState::Ready || idle == GateState::Waiting(None),
        at_rest(session, gate_of, gate_count, capacity, idle),
        session.sequencer.generation < u64::MAX,
    ensures
        at_rest(tick(session, snapshot, gate_of), gate_of, gate_count, capacity, GateState::Ready),
        tick(session, snapshot, gate_of).log == session.log + frame_record(
            wake_order(gate_of, gate_count),
            snapshot,
        ),
        tick(session, snapshot, gate_of).sequencer.generation == session.sequencer.generation + 1,
        tick(session, snapshot, gate_of).sequencer.snapshot == Some(snapshot),
{
    let order = wake_order(gate_of, gate_count);
    lemma_wake_order(gate_of, gate_count);
    lemma_idle_gates_wake_nobody(gate_of, gate_count);
    assert(session.sequencer.wakes() == order);
    let published = Session {
        executor: session.executor.wake_all(session.sequencer.wakes()),
        sequencer: session.sequencer.advance(snapshot),
        ..session
    };
    assert(published.executor.queue =~= order);
    let ready = Seq::new(gate_count, |gate: int| GateState::Ready);
    assert(published.sequencer.gates =~= ready);
    assert forall|task: TaskId| task < gate_of.len() implies #[trigger] takes_part(
        order,
        task,
    ) by {
        let place = wake_position(
            resting_gates(gate_of, gate_count, GateState::Waiting(None)),
            gate_of[task as int],
        );
        assert(order[place] == task);
    }
    lemma_drain(published, None, gate_of);
    lemma_bodies_run(order, ready, gate_of, gate_count, snapshot);
    lemma_drained_gates_rest(order, gate_of, gate_count, GateState::Ready);
    assert forall|place: int| 0 <= place < order.len() implies ready[gate_of[(
    #[trigger] order[place]) as int]] is Ready by {
        assert(0 <= gate_of[order[place] as int] < gate_count);
    }
}

proof fn lemma_executions_of_concat<S>(
    earlier: Seq<(TaskId, S)>,
    later: Seq<(TaskId, S)>,
    task: TaskId,
)
    ensures
        executions_of(earlier + later, task) == executions_of(earlier, task) + executions_of(
            later,
            task,
        ),
    decreases later.len(),
{
    if later.len() == 0 {
        assert(earlier + later =~= earlier);
        assert(executions_of(earlier, task) + executions_of(later, task) =~= executions_of(
            earlier,
            task,
        ));
    } else {
        lemma_executions_of_concat(earlier, later.drop_last(), task);
        assert((earlier + later).drop_last() =~= earlier + later.drop_last());
        assert(executions_of(earlier, task) + executions_of(later, task) =~= executions_of(
            earlier + later,
            task,
        ));
    }
}

/// Among the executions of one frame by different tasks, a task that takes
/// part has exactly one.
proof fn lemma_executions_in_one_frame<S>(tasks: Seq<TaskId>, snapshot: S, task: TaskId)
    requires
        forall|one: int, other: int| 0 <= one < other < tasks.len() ==> tasks[one] != tasks[other],
    ensures
        executions_of(frame_record(tasks, snapshot), task) == if takes_part(tasks, task) {
            seq![snapshot]
        } else {
            Seq::empty()
        },
    decreases tasks.len(),
{
    if tasks.len() > 0 {
        let earlier = tasks.drop_last();
        lemma_executions_in_one_frame(earlier, snapshot, task);
        assert(frame_record(tasks, snapshot).drop_last() =~= frame_record(earlier, snapshot));
        if tasks.last() == task {
            if takes_part(earlier, task) {
                let place = choose|place: int|
                    0 <= place < earlier.len() && #[trigger] earlier[place] == task;
                assert(tasks[place] != tasks[tasks.len() - 1]);
            }
            assert(tasks[tasks.len() - 1] == task);
            assert(Seq::<S>::empty().push(snapshot) =~= seq![snapshot]);
        } else {
            if takes_part(tasks, task) {
                let place = choose|place: int|
                    0 <= place < tasks.len() && #[trigger] tasks[place] == task;
                assert(earlier[place] == task);
            }
            if takes_part(earlier, task) {
                let place = choose|place: int|
                    0 <= place < earlier.len() && #[trigger] earlier[place] == task;
                assert(tasks[place] == task);
            }
        }
    }
}

/// The state in which the gates that no task awaits are after `frames` frames.
pub open spec fn idle_after(frames: nat) -> GateState {
    if frames == 0 {
        GateState::Waiting(None)
    } else {
        GateState::Ready
    }
}

/// Every task runs its frame body once per frame, in frame order.
///
/// Register `gate_count` gates and spawn one frame task for every entry of
/// `gate_of`, each awaiting a gate of its own, on an executor whose queue
/// has room for them; let the executor run until idle, and then publish the
/// frames `snapshots`, letting the executor run after each. Then the log
/// holds, frame after frame, one execution by every task on that frame's
/// snapshot, the tasks in the order of their gates; and the snapshots on
/// which any one task ran its body are the published snapshots, each once,
/// in the order in which they were published.
pub proof fn theorem_one_body_per_frame<S>(
    gate_of: Seq<int>,
    gate_count: nat,
    capacity: nat,
    snapshots: Seq<S>,
)
    requires
        assigned(gate_of, gate_count),
        0 < capacity,
        gate_of.len() <= capacity,
        snapshots.len() < u64::MAX,
    ensures
        ({
            let end = run_frames(started::<S>(gate_of, gate_count, capacity), snapshots, gate_of);
            let order = wake_order(gate_of, gate_count);
            let tasks = gate_of.len();
            &&& at_rest(end, gate_of, gate_count, capacity, idle_after(snapshots.len()))
            &&& end.sequencer.generation == snapshots.len()
            &&& end.log.len() == snapshots.len() * tasks
            &&& forall|frame: int, place: int|
                0 <= frame < snapshots.len() && 0 <= place < tasks ==> #[trigger] end.log[frame
                    * tasks + place] == (order[place], snapshots[frame])
            &&& forall|task: TaskId|
                task < tasks ==> #[trigger] executions_of(end.log, task) == snapshots
        }),
    decreases snapshots.len(),
{
    let tasks = gate_of.len();
    let order = wake_order(gate_of, gate_count);
    let begin = started::<S>(gate_of, gate_count, capacity);
    lemma_started_at_rest::<S>(gate_of, gate_count, capacity);
    lemma_wake_order(gate_of, gate_count);
    if snapshots.len() > 0 {
        let earlier = snapshots.drop_last();
        let before = run_frames(begin, earlier, gate_of);
        theorem_one_body_per_frame(gate_of, gate_count, capacity, earlier);
        lemma_tick_runs_each_body_once(
            before,
            gate_of,
            gate_count,
            capacity,
            idle_after(earlier.len()),
            snapshots.last(),
        );
        let end = run_frames(begin, snapshots, gate_of);
        let record = frame_record(order, snapshots.last());
        assert(end == tick(before, snapshots.last(), gate_of));
        assert(end.log.len() == snapshots.len() * tasks) by (nonlinear_arith)
            requires
                end.log.len() == before.log.len() + tasks,
                before.log.len() == (snapshots.len() - 1) * tasks,
        ;
        assert forall|frame: int, place: int|
            0 <= frame < snapshots.len() && 0 <= place < tasks implies #[trigger] end.log[frame
            * tasks + place] == (order[place], snapshots[frame]) by {
            if frame < snapshots.len() - 1 {
                assert(frame * tasks + place < (snapshots.len() - 1) * tasks) by (nonlinear_arith)
                    requires
                        0 <= frame < snapshots.len() - 1,
                        0 <= place < tasks,
                ;
                assert(0 <= frame * tasks + place) by (nonlinear_arith)
                    requires
                        0 <= frame,
                        0 <= place,
                        0 <= tasks,
                ;
                assert(before.log[frame * tasks + place] == (order[place], earlier[frame]));
            } else {
                assert(frame * tasks + place == before.log.len() + place);
                assert(record[place] == (order[place], snapshots.last()));
            }
        }
        assert forall|task: TaskId| task < tasks implies #[trigger] executions_of(end.log, task)
            == snapshots by {
            lemma_executions_of_concat(before.log, record, task);
            lemma_executions_in_one_frame(order, snapshots.last(), task);
            let place = wake_position(
                resting_gates(gate_of, gate_count, GateState::Waiting(None)),
                gate_of[task as int],
            );
            assert(order[place] == task);
            assert(earlier.push(snapshots.last()) =~= snapshots);
            assert(executions_of(before.log, task) + seq![snapshots.last()] =~= earlier.push(
                snapshots.last(),
            ));
        }
    } else {
        assert(run_frames(begin, snapshots, gate_of) == begin);
        assert(snapshots.len() * tasks == 0) by (nonlinear_arith)
            requires
                snapshots.len() == 0,
        ;
        assert(snapshots =~= Seq::<S>::empty());
    }
}

} // verus!
