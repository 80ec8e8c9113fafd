//! What the executor and the frame sequencer guarantee.
//!
//! The theorems here are stated over the mathematical states of the two
//! components, the same states that the contracts of their functions use.
use crate::executor::ExecutorView;
use crate::executor::Progress;
use crate::executor::Task;
use crate::executor::Turn;
use crate::frame_sequencer::lemma_wake_list_prefix;
use crate::frame_sequencer::lemma_wake_list_step;
use crate::frame_sequencer::wake_list;
use crate::frame_sequencer::GateState;
use crate::frame_sequencer::SequencerView;
use crate::ready_queue::TaskId;
use vstd::prelude::*;

verus! {

/// The position in the wake order of the task that waits at gate `gate`:
/// the number of tasks that wait at earlier gates.
pub open spec fn wake_position(gates: Seq<GateState>, gate: int) -> int {
    wake_list(gates.take(gate)).len() as int
}

/// Wake order is registration order.
///
/// A task that waits at a gate is woken by the next frame, at the position
/// given by the number of waiting tasks at earlier gates; so of two tasks
/// that wait at different gates, the one whose gate was registered first is
/// woken first.
pub proof fn lemma_wakes_follow_registration(
    gates: Seq<GateState>,
    earlier: int,
    later: int,
    first: Task,
    second: Task,
)
    requires
        0 <= earlier < later < gates.len(),
        gates[earlier] == GateState::Waiting(Some(first)),
        gates[later] == GateState::Waiting(Some(second)),
    ensures
        0 <= wake_position(gates, earlier) < wake_position(gates, later) < wake_list(gates).len(),
        wake_list(gates)[wake_position(gates, earlier)] == first.id,
        wake_list(gates)[wake_position(gates, later)] == second.id,
{
    lemma_wake_slot(gates, earlier, first);
    lemma_wake_slot(gates, later, second);
    lemma_wake_list_step(gates, earlier);
    lemma_wake_list_prefix(gates.take(later), earlier + 1);
    assert(gates.take(later).take(earlier + 1) =~= gates.take(earlier + 1));
}

/// The task that waits at gate `gate` stands in the wake list at its wake position.
pub proof fn lemma_wake_slot(gates: Seq<GateState>, gate: int, task: Task)
    requires
        0 <= gate < gates.len(),
        gates[gate] == GateState::Waiting(Some(task)),
    ensures
        0 <= wake_position(gates, gate) < wake_list(gates).len(),
        wake_list(gates)[wake_position(gates, gate)] == task.id,
{
    lemma_wake_list_step(gates, gate);
    lemma_wake_list_prefix(gates, gate + 1);
    let through = wake_list(gates.take(gate + 1));
    assert(through[wake_position(gates, gate)] == task.id);
    assert(through == wake_list(gates).take(through.len() as int));
}

/// Within one generation every gate is woken at most once: right after a
/// frame no task waits at any gate, so a second frame wakes nobody.
pub proof fn lemma_frame_leaves_nobody_waiting<S>(sequencer: SequencerView<S>, snapshot: S)
    ensures
        sequencer.advance(snapshot).wakes() == Seq::<TaskId>::empty(),
{
    lemma_ready_gates_wake_nobody(sequencer.gates.len());
    assert(sequencer.advance(snapshot).gates =~= all_ready(sequencer.gates.len()));
}

/// `count` gates that are all ready.
pub open spec fn all_ready(count: nat) -> Seq<GateState> {
    Seq::new(count, |gate: int| GateState::Ready)
}

proof fn lemma_ready_gates_wake_nobody(count: nat)
    ensures
        wake_list(all_ready(count)) == Seq::<TaskId>::empty(),
    decreases count,
{
    if count > 0 {
        lemma_ready_gates_wake_nobody((count - 1) as nat);
        assert(all_ready(count).drop_last() =~= all_ready((count - 1) as nat));
    }
}

/// Only a frame makes a snapshot visible, and it advances the generation by one.
///
/// Registering a gate, polling a gate and handing out the marker leave the
/// snapshot and the generation as they are, and every operation keeps a
/// well-formed sequencer well-formed.
pub proof fn lemma_only_frames_publish<S>(
    sequencer: SequencerView<S>,
    gate: int,
    waker: Task,
    snapshot: S,
)
    requires
        sequencer.wf(),
    ensures
        sequencer.advance(snapshot).generation == sequencer.generation + 1,
        sequencer.advance(snapshot).snapshot == Some(snapshot),
        sequencer.register().generation == sequencer.generation,
        sequencer.register().snapshot == sequencer.snapshot,
        sequencer.poll(gate, waker).0.generation == sequencer.generation,
        sequencer.poll(gate, waker).0.snapshot == sequencer.snapshot,
        sequencer.issue_marker().generation == sequencer.generation,
        sequencer.issue_marker().snapshot == sequencer.snapshot,
        sequencer.advance(snapshot).wf(),
        sequencer.register().wf(),
        sequencer.poll(gate, waker).0.wf(),
        sequencer.issue_marker().wf(),
{
}

/// Snapshots are not buffered: the latest one wins.
///
/// When two frames are published before a gate is polled, the poll yields
/// the second snapshot, the next poll of that gate yields nothing, and the
/// first snapshot is never seen.
pub proof fn lemma_latest_snapshot_wins<S>(
    sequencer: SequencerView<S>,
    gate: int,
    waker: Task,
    first: S,
    second: S,
)
    requires
        0 <= gate < sequencer.gates.len(),
    ensures
        ({
            let published = sequencer.advance(first).advance(second);
            let (polled, snapshot) = published.poll(gate, waker);
            &&& snapshot == Some(second)
            &&& polled.poll(gate, waker).1 is None
            &&& published.generation == sequencer.generation + 2
        }),
{
}

/// A ready gate yields the snapshot of the current generation.
///
/// In a well-formed sequencer a gate is ready only after a frame, so the
/// poll of a ready gate yields a snapshot, the one published last.
pub proof fn lemma_ready_gate_yields_current_snapshot<S>(
    sequencer: SequencerView<S>,
    gate: int,
    waker: Task,
)
    requires
        sequencer.wf(),
        0 <= gate < sequencer.gates.len(),
        sequencer.gates[gate] is Ready,
    ensures
        sequencer.poll(gate, waker).1 is Some,
        sequencer.poll(gate, waker).1 == sequencer.snapshot,
        sequencer.poll(gate, waker).0.wf(),
{
}

/// A gate yields each snapshot once: after a poll that yielded a snapshot,
/// that gate waits, whatever it was before.
pub proof fn lemma_snapshot_yielded_once<S>(sequencer: SequencerView<S>, gate: int, waker: Task)
    ensures
        ({
            let (polled, snapshot) = sequencer.poll(gate, waker);
            polled.poll(gate, waker).1 is None
        }),
{
}

/// The state after a gate was polled `times` times in a row for one task.
pub open spec fn poll_repeatedly<S>(
    sequencer: SequencerView<S>,
    gate: int,
    waker: Task,
    times: nat,
) -> SequencerView<S>
    decreases times,
{
    if times == 0 {
        sequencer
    } else {
        poll_repeatedly(sequencer, gate, waker, (times - 1) as nat).poll(gate, waker).0
    }
}

/// Awaiting a gate again and again without a new frame never resolves.
///
/// However often a waiting gate has been polled, the next poll yields
/// nothing, and after the first poll the state no longer changes.
pub proof fn lemma_waiting_gate_stays_pending<S>(
    sequencer: SequencerView<S>,
    gate: int,
    waker: Task,
    times: nat,
)
    requires
        0 <= gate < sequencer.gates.len(),
        sequencer.gates[gate] is Waiting,
    ensures
        poll_repeatedly(sequencer, gate, waker, times).poll(gate, waker).1 is None,
        times > 0 ==> poll_repeatedly(sequencer, gate, waker, times) == sequencer.poll(
            gate,
            waker,
        ).0,
    decreases times,
{
    if times > 0 {
        lemma_waiting_gate_stays_pending(sequencer, gate, waker, (times - 1) as nat);
        let once = sequencer.poll(gate, waker).0;
        assert(once.poll(gate, waker).0.gates =~= once.gates);
    }
}

/// The state after `count` tasks were spawned one after another.
pub open spec fn spawn_many(executor: ExecutorView, count: nat) -> ExecutorView
    decreases count,
{
    if count == 0 {
        executor
    } else {
        spawn_many(executor, (count - 1) as nat).spawn()
    }
}

/// The ready queue takes exactly as many spawns as it has capacity.
///
/// On an executor with an empty queue, while none of the spawned tasks is
/// resumed, each of the first `capacity` spawns finds room and queues its
/// task behind the earlier ones; the spawn after them finds the queue full.
pub proof fn lemma_spawns_fill_queue(executor: ExecutorView, count: nat)
    requires
        executor.wf(),
        executor.queue.len() == 0,
        count <= executor.capacity,
    ensures
        spawn_many(executor, count).wf(),
        spawn_many(executor, count).queue == Seq::new(
            count,
            |k: int| (executor.finished.len() + k) as TaskId,
        ),
        spawn_many(executor, count).finished == executor.finished + Seq::new(
            count,
            |k: int| false,
        ),
        spawn_many(executor, count).capacity == executor.capacity,
        spawn_many(executor, count).running == executor.running,
        spawn_many(executor, count).has_room() <==> count < executor.capacity,
    decreases count,
{
    if count == 0 {
        assert(executor.queue =~= Seq::new(0, |k: int| (executor.finished.len() + k) as TaskId));
        assert(executor.finished =~= executor.finished + Seq::new(0, |k: int| false));
    } else {
        let before = spawn_many(executor, (count - 1) as nat);
        lemma_spawns_fill_queue(executor, (count - 1) as nat);
        assert(before.spawn().queue =~= Seq::new(
            count,
            |k: int| (executor.finished.len() + k) as TaskId,
        ));
        assert(before.spawn().finished =~= executor.finished + Seq::new(count, |k: int| false));
    }
}

/// The outcome of step number `step` of the run loop, counted from 0, when
/// every task that is handed out suspends again.
pub open spec fn suspending_step(executor: ExecutorView, step: nat) -> (ExecutorView, Turn)
    decreases step,
{
    if step == 0 {
        executor.run(None)
    } else {
        suspending_step(executor, (step - 1) as nat).0.run(Some(Progress::Suspended))
    }
}

/// Tasks are resumed in the order in which they arrived in the ready queue.
///
/// While the queued tasks are alive and suspend when resumed, step `step`
/// of the run loop hands out the entry at position `step` of the queue and
/// leaves the entries behind it, in their order; after the last entry the
/// executor is idle.
pub proof fn lemma_first_come_first_resumed(executor: ExecutorView, step: nat)
    requires
        executor.running is None,
        forall|entry: int|
            0 <= entry < executor.queue.len() ==> executor.is_live(
                #[trigger] executor.queue[entry],
            ),
        step <= executor.queue.len(),
    ensures
        step < executor.queue.len() ==> suspending_step(executor, step) == (
            ExecutorView {
                queue: executor.queue.skip(step as int + 1),
                running: Some(executor.queue[step as int]),
                ..executor
            },
            Turn::Resume(Task { id: executor.queue[step as int] }),
        ),
        step == executor.queue.len() ==> suspending_step(executor, step) == (
            ExecutorView { queue: Seq::empty(), ..executor },
            Turn::Idle,
        ),
    decreases step,
{
    let settled = if step == 0 {
        executor
    } else {
        lemma_first_come_first_resumed(executor, (step - 1) as nat);
        suspending_step(executor, (step - 1) as nat).0.settle(Some(Progress::Suspended))
    };
    assert(settled == ExecutorView { queue: executor.queue.skip(step as int), ..executor }) by {
        if step == 0 {
            assert(executor.queue.skip(0) =~= executor.queue);
        }
    }
    if step < executor.queue.len() {
        assert(settled.queue.first() == executor.queue[step as int]);
        assert(settled.queue.drop_first() =~= executor.queue.skip(step as int + 1));
    } else {
        assert(settled.queue =~= Seq::empty());
    }
}

/// One task runs at a time, and only a live one.
///
/// After every step of the run loop the running task is the one that the
/// step handed out, if it handed one out, and that task is alive; the task
/// that ran before has been settled. So no task is resumed while it, or any
/// other task, is still being resumed.
pub proof fn lemma_one_task_runs_at_a_time(executor: ExecutorView, progress: Option<Progress>)
    requires
        executor.wf(),
    ensures
        executor.run(progress).0.wf(),
        executor.run(progress).0.running == match executor.run(progress).1 {
            Turn::Resume(task) => Some(task.id),
            Turn::Idle => None,
        },
        executor.run(progress).1 matches Turn::Resume(task) ==> executor.settle(progress).is_live(
            task.id,
        ),
{
    lemma_next_turn_hands_out_live_task(executor.settle(progress));
}

proof fn lemma_next_turn_hands_out_live_task(executor: ExecutorView)
    requires
        executor.wf(),
        executor.running is None,
    ensures
        executor.next_turn().0.wf(),
        executor.next_turn().0.running == match executor.next_turn().1 {
            Turn::Resume(task) => Some(task.id),
            Turn::Idle => None,
        },
        executor.next_turn().1 matches Turn::Resume(task) ==> executor.is_live(task.id),
    decreases executor.queue.len(),
{
    if executor.queue.len() > 0 && !executor.is_live(executor.queue.first()) {
        lemma_next_turn_hands_out_live_task(
            ExecutorView { queue: executor.queue.drop_first(), ..executor },
        );
    }
}

/// Picking the next task never lengthens the queue and leaves everything but
/// the queue and the running task alone; handing a task out shortens the queue.
pub proof fn lemma_turn_consumes(executor: ExecutorView)
    ensures
        executor.next_turn().0.queue.len() <= executor.queue.len(),
        executor.next_turn().1 is Resume ==> executor.next_turn().0.queue.len()
            < executor.queue.len(),
        executor.next_turn().0.capacity == executor.capacity,
        executor.next_turn().0.finished == executor.finished,
    decreases executor.queue.len(),
{
    if executor.queue.len() > 0 && !executor.is_live(executor.queue.first()) {
        lemma_turn_consumes(ExecutorView { queue: executor.queue.drop_first(), ..executor });
    }
}

} // verus!
