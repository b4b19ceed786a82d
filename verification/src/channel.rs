//! The queue between the polling side and the interactive side.

use crate::screenshot::ListenerError;
use std::collections::VecDeque;
use vstd::prelude::*;

verus! {

/// Why nothing was received.
#[derive(Clone, Copy, Debug, PartialEq, Eq, Structural)]
pub enum TryReceiveError {
    /// Nothing is pending right now.
    Empty,
    /// Nothing is pending and nothing will come: an end of the channel is gone.
    Disconnected,
}

/// A one-way queue of events, first in, first out.
///
/// The channel has a sending end and a receiving end. Either can be let go
/// of once; what was sent before stays pending until it is received or the
/// receiving end is let go of.
pub struct EventChannel<T> {
    queue: VecDeque<T>,
    sender: bool,
    receiver: bool,
}

impl<T> View for EventChannel<T> {
    type V = Seq<T>;

    /// The events that were sent and not yet received, oldest first.
    closed spec fn view(&self) -> Seq<T> {
        self.queue@
    }
}

impl<T> EventChannel<T> {
    /// Whether the sending end is still held.
    pub closed spec fn has_sender(&self) -> bool {
        self.sender
    }

    /// Whether the receiving end is still held.
    pub closed spec fn has_receiver(&self) -> bool {
        self.receiver
    }

    /// Whether an event can still travel: both ends are held.
    pub open spec fn is_open(&self) -> bool {
        self.has_sender() && self.has_receiver()
    }

    /// A channel with both ends held and nothing pending.
    pub fn new() -> (channel: EventChannel<T>)
        ensures
            channel@ == Seq::<T>::empty(),
            channel.has_sender(),
            channel.has_receiver(),
    {
        EventChannel { queue: VecDeque::new(), sender: true, receiver: true }
    }

    /// Queues `value` behind what is pending. Never waits. On a channel that
    /// is not open the value comes back in the error and nothing changes.
    pub fn send(&mut self, value: T) -> (sent: Result<(), ListenerError<T>>)
        ensures
            final(self).has_sender() == old(self).has_sender(),
            final(self).has_receiver() == old(self).has_receiver(),
            old(self).is_open() ==> sent == Ok::<(), ListenerError<T>>(()) && final(self)@ == old(
                self,
            )@.push(value),
            !old(self).is_open() ==> sent == Err::<(), ListenerError<T>>(
                ListenerError::Sender(value),
            ) && final(self)@ == old(self)@,
    {
        if self.sender && self.receiver {
            self.queue.push_back(value);
            Ok(())
        } else {
            Err(ListenerError::Sender(value))
        }
    }

    /// Takes the oldest pending event, if there is one. Never waits: with
    /// nothing pending it answers at once, `Empty` while the channel is open
    /// and `Disconnected` once it is not.
    pub fn try_receive(&mut self) -> (received: Result<T, TryReceiveError>)
        ensures
            final(self).has_sender() == old(self).has_sender(),
            final(self).has_receiver() == old(self).has_receiver(),
            old(self)@.len() > 0 ==> received == Ok::<T, TryReceiveError>(old(self)@[0])
                && final(self)@ == old(self)@.skip(1),
            old(self)@.len() == 0 ==> final(self)@ == old(self)@ && received == Err::<
                T,
                TryReceiveError,
            >(
                if old(self).is_open() {
                    TryReceiveError::Empty
                } else {
                    TryReceiveError::Disconnected
                },
            ),
    {
        match self.queue.pop_front() {
            Some(value) => {
                assert(self@ =~= old(self)@.skip(1));
                Ok(value)
            },
            None => {
                if self.sender && self.receiver {
                    Err(TryReceiveError::Empty)
                } else {
                    Err(TryReceiveError::Disconnected)
                }
            },
        }
    }

    /// The number of pending events.
    pub fn len(&self) -> (n: usize)
        ensures
            n == self@.len(),
    {
        self.queue.len()
    }

    /// Lets go of the sending end. What is pending can still be received.
    pub fn drop_sender(&mut self)
        ensures
            !final(self).has_sender(),
            final(self).has_receiver() == old(self).has_receiver(),
            final(self)@ == old(self)@,
    {
        self.sender = false;
    }

    /// Lets go of the receiving end. What is pending is dropped with it.
    pub fn drop_receiver(&mut self)
        ensures
            !final(self).has_receiver(),
            final(self).has_sender() == old(self).has_sender(),
            final(self)@ == Seq::<T>::empty(),
    {
        self.receiver = false;
        self.queue.clear();
    }
}

} // verus!
