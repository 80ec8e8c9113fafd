//! The frame sequencer: one rendezvous per external tick.
//!
//! A sequencer keeps the gates in the order in which they were registered,
//! the snapshot of the current frame and a generation counter. The frame
//! marker publishes a snapshot once per tick; that makes every gate ready and
//! wakes, in registration order, each task that waits at one. A gate that is
//! polled while ready hands out the current snapshot once and waits again.
use crate::executor::Executor;
use crate::executor::ExecutorView;
use crate::executor::Task;
use crate::ready_queue::TaskId;
use vstd::prelude::*;

verus! {

/// Where one gate stands between two frames.
#[derive(Clone, Copy, Debug, PartialEq, Eq, Structural)]
pub enum GateState {
    /// No snapshot is due. The task that polled last, if any, is woken by the
    /// next frame.
    Waiting(Option<Task>),
    /// A snapshot was published and this gate has not handed it out yet.
    Ready,
}

/// Why a frame could not be published.
#[derive(Clone, Copy, Debug, PartialEq, Eq, Structural)]
pub enum FrameError {
    /// The generation counter has reached its largest value.
    GenerationExhausted,
    /// The ready queue has no room for all the tasks that the frame wakes.
    QueueOverflow,
}

/// The registry of gates, the current snapshot and the generation counter.
pub struct FrameSequencer<S> {
    gates: Vec<GateState>,
    snapshot: Option<S>,
    generation: u64,
    marker_issued: bool,
}

/// One subscriber's handle to the rendezvous.
#[derive(Debug)]
pub struct FrameGate {
    name: String,
    index: usize,
}

/// The authority that publishes frames. A sequencer issues it once.
#[derive(Debug)]
pub struct FrameMarker {
    token: (),
}

/// The mathematical state of a frame sequencer.
pub struct SequencerView<S> {
    /// The gates, in registration order.
    pub gates: Seq<GateState>,
    /// The snapshot of the current generation; none before the first frame.
    pub snapshot: Option<S>,
    /// The number of frames published so far.
    pub generation: nat,
    /// Whether the frame marker has been handed out.
    pub marker_issued: bool,
}

/// The tasks that the next frame wakes, in the order of their gates.
pub open spec fn wake_list(gates: Seq<GateState>) -> Seq<TaskId>
    decreases gates.len(),
{
    if gates.len() == 0 {
        Seq::empty()
    } else {
        let earlier = wake_list(gates.drop_last());
        match gates.last() {
            GateState::Waiting(Some(task)) => earlier.push(task.id),
            _ => earlier,
        }
    }
}

impl<S> SequencerView<S> {
    /// A sequencer without gates, before its first frame.
    pub open spec fn new() -> SequencerView<S> {
        SequencerView { gates: Seq::empty(), snapshot: None, generation: 0, marker_issued: false }
    }

    /// A snapshot exists exactly from the first frame on, and no gate is
    /// ready before it.
    pub open spec fn wf(self) -> bool {
        &&& self.snapshot is Some <==> self.generation > 0
        &&& forall|gate: int|
            0 <= gate < self.gates.len() && self.gates[gate] is Ready ==> self.generation > 0
    }

    /// The state after one more gate was registered: it comes last and waits.
    pub open spec fn register(self) -> SequencerView<S> {
        SequencerView { gates: self.gates.push(GateState::Waiting(None)), ..self }
    }

    /// The state after the frame marker was handed out.
    pub open spec fn issue_marker(self) -> SequencerView<S> {
        SequencerView { marker_issued: true, ..self }
    }

    /// The tasks that the next frame wakes, in wake order.
    pub open spec fn wakes(self) -> Seq<TaskId> {
        wake_list(self.gates)
    }

    /// The state after `snapshot` was published: it replaces the snapshot
    /// before it, the generation advances by one, and every gate is ready.
    pub open spec fn advance(self, snapshot: S) -> SequencerView<S> {
        SequencerView {
            gates: Seq::new(self.gates.len(), |gate: int| GateState::Ready),
            snapshot: Some(snapshot),
            generation: self.generation + 1,
            ..self
        }
    }

    /// What polling gate number `gate` on behalf of `waker` yields,
    /// and the state after it. A ready gate yields the current snapshot and
    /// waits again; a waiting gate yields nothing and remembers `waker`.
    pub open spec fn poll(self, gate: int, waker: Task) -> (SequencerView<S>, Option<S>) {
        if 0 <= gate < self.gates.len() {
            if self.gates[gate] is Ready {
                (
                    SequencerView {
                        gates: self.gates.update(gate, GateState::Waiting(None)),
                        ..self
                    },
                    self.snapshot,
                )
            } else {
                (
                    SequencerView {
                        gates: self.gates.update(gate, GateState::Waiting(Some(waker))),
                        ..self
                    },
                    None,
                )
            }
        } else {
            (self, None)
        }
    }
}

/// A frame wakes the tasks of the first `gate + 1` gates by waking those of
/// the first `gate` gates and then, if a task waits there, that of gate `gate`.
pub proof fn lemma_wake_list_step(gates: Seq<GateState>, gate: int)
    requires
        0 <= gate < gates.len(),
    ensures
        wake_list(gates.take(gate + 1)) == match gates[gate] {
            GateState::Waiting(Some(task)) => wake_list(gates.take(gate)).push(task.id),
            _ => wake_list(gates.take(gate)),
        },
{
    assert(gates.take(gate + 1).drop_last() =~= gates.take(gate));
    assert(gates.take(gate + 1).last() == gates[gate]);
}

/// The wakes due to a prefix of the gates are a prefix of all wakes.
pub proof fn lemma_wake_list_prefix(gates: Seq<GateState>, gate: int)
    requires
        0 <= gate <= gates.len(),
    ensures
        wake_list(gates.take(gate)).len() <= wake_list(gates).len(),
        wake_list(gates.take(gate)) == wake_list(gates).take(
            wake_list(gates.take(gate)).len() as int,
        ),
    decreases gates.len() - gate,
{
    if gate == gates.len() {
        assert(gates.take(gate) =~= gates);
        assert(wake_list(gates).take(wake_list(gates).len() as int) =~= wake_list(gates));
    } else {
        lemma_wake_list_step(gates, gate);
        lemma_wake_list_prefix(gates, gate + 1);
        let shorter = wake_list(gates.take(gate));
        let longer = wake_list(gates.take(gate + 1));
        assert(shorter =~= longer.take(shorter.len() as int));
        assert(shorter =~= wake_list(gates).take(shorter.len() as int));
    }
}

impl<S> View for FrameSequencer<S> {
    type V = SequencerView<S>;

    closed spec fn view(&self) -> SequencerView<S> {
        SequencerView {
            gates: self.gates@,
            snapshot: self.snapshot,
            generation: self.generation as nat,
            marker_issued: self.marker_issued,
        }
    }
}

impl<S: Copy> FrameSequencer<S> {
    /// A sequencer without gates, before its first frame.
    pub fn new() -> (sequencer: FrameSequencer<S>)
        ensures
            sequencer@.wf(),
            sequencer@ == SequencerView::<S>::new(),
    {
        FrameSequencer { gates: Vec::new(), snapshot: None, generation: 0, marker_issued: false }
    }

    /// Registers one more gate, named `name`, behind those registered before.
    /// Names are labels: two gates of one name are two subscribers.
    pub fn register(&mut self, name: String) -> (gate: FrameGate)
        requires
            old(self)@.wf(),
        ensures
            final(self)@.wf(),
            final(self)@ == old(self)@.register(),
            gate.spec_index() == old(self)@.gates.len(),
            gate.spec_name() == name@,
    {
        let index = self.gates.len();
        self.gates.push(GateState::Waiting(None));
        FrameGate { name, index }
    }

    /// The number of gates registered so far.
    pub fn gate_count(&self) -> (count: usize)
        ensures
            count == self@.gates.len(),
    {
        self.gates.len()
    }

    /// The number of frames published so far.
    pub fn generation(&self) -> (generation: u64)
        ensures
            generation == self@.generation,
    {
        self.generation
    }

    /// The snapshot of the current generation.
    pub fn snapshot(&self) -> (snapshot: Option<S>)
        ensures
            snapshot == self@.snapshot,
    {
        self.snapshot
    }

    /// The number of tasks that the next frame wakes.
    pub fn pending_wakes(&self) -> (count: usize)
        ensures
            count == self@.wakes().len(),
    {
        let mut count: usize = 0;
        let mut gate: usize = 0;
        while gate < self.gates.len()
            invariant
                gate <= self.gates.len(),
                count == wake_list(self.gates@.take(gate as int)).len(),
                count <= gate,
            decreases self.gates.len() - gate,
        {
            proof {
                lemma_wake_list_step(self.gates@, gate as int);
            }
            match self.gates[gate] {
                GateState::Waiting(Some(_)) => {
                    count = count + 1;
                },
                _ => {},
            }
            gate = gate + 1;
        }
        assert(self.gates@.take(gate as int) =~= self.gates@);
        count
    }

    /// Publishes `snapshot`: every gate becomes ready, and the tasks that
    /// wait at the gates are woken in registration order.
    fn advance(&mut self, snapshot: S, executor: &mut Executor)
        requires
            old(self)@.wf(),
            old(executor)@.wf(),
            old(self)@.generation < u64::MAX,
            old(executor)@.queue.len() + old(self)@.wakes().len() <= old(executor)@.capacity,
        ensures
            final(self)@.wf(),
            final(executor)@.wf(),
            final(self)@ == old(self)@.advance(snapshot),
            final(executor)@ == old(executor)@.wake_all(old(self)@.wakes()),
    {
        let count = self.gates.len();
        let mut gate: usize = 0;
        while gate < count
            invariant
                gate <= count,
                count == self.gates@.len(),
                count == old(self).gates@.len(),
                forall|g: int| 0 <= g < gate ==> self.gates@[g] is Ready,
                forall|g: int| gate <= g < count ==> self.gates@[g] == old(self).gates@[g],
                self.snapshot == old(self).snapshot,
                self.generation == old(self).generation,
                self.marker_issued == old(self).marker_issued,
                executor@.wf(),
                executor@ == old(executor)@.wake_all(
                    wake_list(old(self).gates@.take(gate as int)),
                ),
                old(executor)@.queue.len() + wake_list(old(self).gates@).len() <= old(
                    executor,
                )@.capacity,
            decreases count - gate,
        {
            proof {
                lemma_wake_list_step(old(self).gates@, gate as int);
                lemma_wake_list_prefix(old(self).gates@, gate as int + 1);
            }
            match self.gates[gate] {
                GateState::Waiting(Some(task)) => {
                    task.wake_by_ref(executor);
                    assert(executor@.queue =~= old(executor)@.queue + wake_list(
                        old(self).gates@.take(gate as int + 1),
                    ));
                },
                _ => {},
            }
            self.gates[gate] = GateState::Ready;
            gate = gate + 1;
        }
        assert(old(self).gates@.take(count as int) =~= old(self).gates@);
        self.snapshot = Some(snapshot);
        self.generation = self.generation + 1;
        assert(self.gates@ =~= Seq::new(old(self).gates@.len(), |g: int| GateState::Ready));
    }
}

impl FrameGate {
    /// The position of this gate in its sequencer's registration order.
    pub closed spec fn spec_index(&self) -> int {
        self.index as int
    }

    /// The label that this gate was registered under.
    pub closed spec fn spec_name(&self) -> Seq<char> {
        self.name@
    }

    /// Registers a gate named `name` with `sequencer`.
    pub fn new<S: Copy>(sequencer: &mut FrameSequencer<S>, name: String) -> (gate: FrameGate)
        requires
            old(sequencer)@.wf(),
        ensures
            final(sequencer)@.wf(),
            final(sequencer)@ == old(sequencer)@.register(),
            gate.spec_index() == old(sequencer)@.gates.len(),
            gate.spec_name() == name@,
    {
        sequencer.register(name)
    }

    /// The position of this gate in its sequencer's registration order.
    pub fn index(&self) -> (index: usize)
        ensures
            index == self.spec_index(),
    {
        self.index
    }

    /// The label that this gate was registered under.
    pub fn name(&self) -> (name: &String)
        ensures
            name@ == self.spec_name(),
    {
        &self.name
    }

    /// Polls this gate on behalf of the task behind `waker`.
    ///
    /// A ready gate yields the current snapshot and waits again, so that one
    /// snapshot is never yielded twice. A waiting gate yields nothing and
    /// keeps `waker` for the next frame; polling it again changes nothing.
    pub fn poll<S: Copy>(&self, sequencer: &mut FrameSequencer<S>, waker: Task) -> (snapshot:
        Option<S>)
        requires
            old(sequencer)@.wf(),
        ensures
            final(sequencer)@.wf(),
            (final(sequencer)@, snapshot) == old(sequencer)@.poll(self.spec_index(), waker),
    {
        if self.index < sequencer.gates.len() {
            match sequencer.gates[self.index] {
                GateState::Ready => {
                    sequencer.gates[self.index] = GateState::Waiting(None);
                    sequencer.snapshot
                },
                GateState::Waiting(_) => {
                    sequencer.gates[self.index] = GateState::Waiting(Some(waker));
                    None
                },
            }
        } else {
            None
        }
    }
}

impl FrameMarker {
    /// Hands out the frame marker of `sequencer`, the first time it is asked for.
    pub fn new<S: Copy>(sequencer: &mut FrameSequencer<S>) -> (marker: Option<FrameMarker>)
        ensures
            marker is Some <==> !old(sequencer)@.marker_issued,
            final(sequencer)@ == old(sequencer)@.issue_marker(),
    {
        if sequencer.marker_issued {
            None
        } else {
            sequencer.marker_issued = true;
            Some(FrameMarker { token: () })
        }
    }

    /// Publishes the snapshot of one tick.
    ///
    /// The snapshot becomes the current one, the generation advances, every
    /// gate becomes ready, and the tasks waiting at the gates join the ready
    /// queue of `executor` in registration order. The queue must have room
    /// for all of them.
    pub fn frame<S: Copy>(
        &self,
        sequencer: &mut FrameSequencer<S>,
        executor: &mut Executor,
        snapshot: S,
    )
        requires
            old(sequencer)@.wf(),
            old(executor)@.wf(),
            old(sequencer)@.generation < u64::MAX,
            old(executor)@.queue.len() + old(sequencer)@.wakes().len() <= old(executor)@.capacity,
        ensures
            final(sequencer)@.wf(),
            final(executor)@.wf(),
            final(sequencer)@ == old(sequencer)@.advance(snapshot),
            final(executor)@ == old(executor)@.wake_all(old(sequencer)@.wakes()),
    {
        sequencer.advance(snapshot, executor);
    }

    /// Publishes the snapshot of one tick if the generation counter can still
    /// advance and the ready queue has room for every task that the frame
    /// wakes. Otherwise nothing changes and the error says which limit was hit.
    pub fn try_frame<S: Copy>(
        &self,
        sequencer: &mut FrameSequencer<S>,
        executor: &mut Executor,
        snapshot: S,
    ) -> (published: Result<(), FrameError>)
        requires
            old(sequencer)@.wf(),
            old(executor)@.wf(),
        ensures
            final(sequencer)@.wf(),
            final(executor)@.wf(),
            published == frame_outcome(old(sequencer)@, old(executor)@),
            published is Ok ==> final(sequencer)@ == old(sequencer)@.advance(snapshot)
                && final(executor)@ == old(executor)@.wake_all(old(sequencer)@.wakes()),
            published is Err ==> final(sequencer)@ == old(sequencer)@ && final(executor)@ == old(
                executor,
            )@,
    {
        if sequencer.generation == u64::MAX {
            return Err(FrameError::GenerationExhausted);
        }
        let wakes = sequencer.pending_wakes();
        if wakes > executor.capacity() - executor.queued() {
            return Err(FrameError::QueueOverflow);
        }
        sequencer.advance(snapshot, executor);
        Ok(())
    }
}

/// Whether a frame can be published in the given state, and if not, why.
pub open spec fn frame_outcome<S>(sequencer: SequencerView<S>, executor: ExecutorView) -> Result<
    (),
    FrameError,
> {
    if sequencer.generation >= u64::MAX {
        Err(FrameError::GenerationExhausted)
    } else if executor.queue.len() + sequencer.wakes().len() > executor.capacity {
        Err(FrameError::QueueOverflow)
    } else {
        Ok(())
    }
}

} // verus!
