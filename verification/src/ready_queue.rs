//! The ready queue: a bounded first-in, first-out conduit of runnable tasks.
//!
//! The queue is a bounded `async_channel` channel whose two ends are owned
//! together, so that every send and every receive goes through one value.
use vstd::prelude::*;

verus! {

/// Identifies one spawned task: its position in the executor's task table.
pub type TaskId = usize;

/// The largest capacity that a ready queue can be created with. The channel
/// allocates one slot per message up front; up to this many, their size stays
/// within what one allocation may have, on 32-bit machines too.
pub const MAX_CAPACITY: usize = 0x0fff_ffff;

/// `async_channel::Sender`, the sending end of a channel, as an opaque type.
#[verifier::external_type_specification]
#[verifier::external_body]
#[verifier::reject_recursive_types(T)]
pub struct ExSender<T>(async_channel::Sender<T>);

/// `async_channel::Receiver`, the receiving end of a channel, as an opaque type.
#[verifier::external_type_specification]
#[verifier::external_body]
#[verifier::reject_recursive_types(T)]
pub struct ExReceiver<T>(async_channel::Receiver<T>);

/// The messages that wait in the channel behind `receiver`, oldest first.
pub uninterp spec fn channel_items(receiver: &async_channel::Receiver<usize>) -> Seq<usize>;

/// The number of messages that the channel behind `receiver` was created to hold.
pub uninterp spec fn channel_bound(receiver: &async_channel::Receiver<usize>) -> nat;

/// A bounded FIFO of task identifiers.
pub struct ReadyQueue {
    sender: async_channel::Sender<usize>,
    receiver: async_channel::Receiver<usize>,
}

impl View for ReadyQueue {
    type V = Seq<TaskId>;

    /// The queued tasks, the next one to run first.
    closed spec fn view(&self) -> Seq<TaskId> {
        channel_items(&self.receiver)
    }
}

/// Calls `async_channel::bounded`: the new channel is empty and holds at most
/// `capacity` messages. The outside function panics on a capacity of zero,
/// and on one whose slots would not fit into one allocation.
#[verifier::external_body]
fn channel_open(capacity: usize) -> (queue: ReadyQueue)
    requires
        0 < capacity <= MAX_CAPACITY,
    ensures
        channel_items(&queue.receiver) == Seq::<usize>::empty(),
        channel_bound(&queue.receiver) == capacity,
{
    let (sender, receiver) = async_channel::bounded(capacity);
    ReadyQueue { sender, receiver }
}

/// Calls `Sender::try_send`: the message is appended when the channel holds
/// fewer messages than its bound, and refused, with the channel unchanged,
/// when it is full. Both ends are alive in `queue`, so the channel is open.
#[verifier::external_body]
fn channel_try_send(queue: &mut ReadyQueue, task: usize) -> (sent: bool)
    ensures
        sent == (channel_items(&old(queue).receiver).len() < channel_bound(&old(queue).receiver)),
        channel_items(&final(queue).receiver) == if sent {
            channel_items(&old(queue).receiver).push(task)
        } else {
            channel_items(&old(queue).receiver)
        },
        channel_bound(&final(queue).receiver) == channel_bound(&old(queue).receiver),
{
    queue.sender.try_send(task).is_ok()
}

/// Calls `Receiver::try_recv`: the oldest message leaves the channel and is
/// returned; an empty channel gives nothing and stays as it is.
#[verifier::external_body]
fn channel_try_recv(queue: &mut ReadyQueue) -> (next: Option<usize>)
    ensures
        next is Some == (channel_items(&old(queue).receiver).len() > 0),
        next matches Some(task) ==> task == channel_items(&old(queue).receiver).first(),
        channel_items(&final(queue).receiver) == if next is Some {
            channel_items(&old(queue).receiver).drop_first()
        } else {
            channel_items(&old(queue).receiver)
        },
        channel_bound(&final(queue).receiver) == channel_bound(&old(queue).receiver),
{
    queue.receiver.try_recv().ok()
}

/// Calls `Receiver::len`: the number of messages in the channel.
#[verifier::external_body]
fn channel_len(queue: &ReadyQueue) -> (len: usize)
    ensures
        len == channel_items(&queue.receiver).len(),
{
    queue.receiver.len()
}

/// Calls `Receiver::capacity`: the bound that the channel was created with.
#[verifier::external_body]
fn channel_capacity(queue: &ReadyQueue) -> (capacity: Option<usize>)
    ensures
        capacity is Some,
        capacity->0 == channel_bound(&queue.receiver),
{
    queue.receiver.capacity()
}

impl ReadyQueue {
    /// The largest number of tasks that the queue holds at a time.
    pub closed spec fn spec_capacity(&self) -> nat {
        channel_bound(&self.receiver)
    }

    /// A queue never holds more than its capacity, and the capacity is positive.
    pub open spec fn wf(&self) -> bool {
        &&& 0 < self.spec_capacity()
        &&& self@.len() <= self.spec_capacity()
    }

    /// An empty queue for at most `capacity` tasks.
    pub fn new(capacity: usize) -> (queue: ReadyQueue)
        requires
            0 < capacity <= MAX_CAPACITY,
        ensures
            queue.wf(),
            queue@ == Seq::<TaskId>::empty(),
            queue.spec_capacity() == capacity,
    {
        channel_open(capacity)
    }

    /// Appends `task` if the queue has room for it.
    pub fn try_push(&mut self, task: TaskId) -> (pushed: bool)
        requires
            old(self).wf(),
        ensures
            final(self).wf(),
            pushed == (old(self)@.len() < old(self).spec_capacity()),
            pushed ==> final(self)@ == old(self)@.push(task),
            !pushed ==> final(self)@ == old(self)@,
            final(self).spec_capacity() == old(self).spec_capacity(),
    {
        channel_try_send(self, task)
    }

    /// Removes and returns the task that has waited longest.
    pub fn pop(&mut self) -> (next: Option<TaskId>)
        requires
            old(self).wf(),
        ensures
            final(self).wf(),
            old(self)@.len() == 0 ==> next is None && final(self)@ == old(self)@,
            old(self)@.len() > 0 ==> next == Some(old(self)@.first()) && final(self)@ == old(
                self,
            )@.drop_first(),
            final(self).spec_capacity() == old(self).spec_capacity(),
    {
        channel_try_recv(self)
    }

    /// The number of queued tasks.
    pub fn len(&self) -> (len: usize)
        ensures
            len == self@.len(),
    {
        channel_len(self)
    }

    /// The largest number of tasks that the queue holds at a time.
    pub fn capacity(&self) -> (capacity: usize)
        ensures
            capacity == self.spec_capacity(),
    {
        match channel_capacity(self) {
            Some(bound) => bound,
            None => 0,
        }
    }
}

} // verus!
