//! The ready queue: an unbounded FIFO channel of task identifiers.
//!
//! Producers push the identifiers of tasks that are ready to be resumed; the
//! run loop pops them one at a time. The queue is backed by a channel so that
//! in the full system notification handles and background waiters can enqueue
//! from other threads; here both endpoints are owned by the executor, which
//! hands out identifiers instead of endpoint clones.

use vstd::prelude::*;

verus! {

/// A FIFO queue of task identifiers, backed by a crossbeam unbounded channel.
#[verifier::external_body]
pub struct ReadyQueue {
    sender: crossbeam::channel::Sender<u64>,
    receiver: crossbeam::channel::Receiver<u64>,
}

/// The identifiers a ready queue holds, front of the queue first.
pub uninterp spec fn queue_entries(q: ReadyQueue) -> Seq<u64>;

impl ReadyQueue {
    /// Relies on crossbeam_channel::unbounded: a fresh channel holds no
    /// messages.
    #[verifier::external_body]
    pub(crate) fn new() -> (q: ReadyQueue)
        ensures
            queue_entries(q) == Seq::<u64>::empty(),
    {
        let (sender, receiver) = crossbeam::channel::unbounded();
        ReadyQueue { sender, receiver }
    }

    /// Relies on crossbeam_channel::Sender::send: on an unbounded channel it
    /// appends the message at the back without blocking, and fails only when
    /// every receiver is gone, which cannot happen here because the queue
    /// owns its receiver.
    #[verifier::external_body]
    pub(crate) fn push(&mut self, id: u64)
        ensures
            queue_entries(*final(self)) == queue_entries(*old(self)).push(id),
    {
        let _ = self.sender.send(id);
    }

    /// Relies on crossbeam_channel::Receiver::try_recv: it pops the message
    /// at the front of the channel, or reports the channel empty.
    #[verifier::external_body]
    pub(crate) fn pop(&mut self) -> (r: Option<u64>)
        ensures
            match r {
                Some(id) => {
                    &&& queue_entries(*old(self)).len() > 0
                    &&& id == queue_entries(*old(self))[0]
                    &&& queue_entries(*final(self)) == queue_entries(*old(self)).drop_first()
                },
                None => {
                    &&& queue_entries(*old(self)).len() == 0
                    &&& *final(self) == *old(self)
                },
            },
    {
        match self.receiver.try_recv() {
            Ok(id) => Some(id),
            Err(_) => None,
        }
    }
}

} // verus!
