//! Live parameters: a mailbox in which the latest value wins.

use std::sync::mpsc::Receiver;
use std::sync::mpsc::Sender;
use vstd::prelude::*;

verus! {

/// The receiving end of a channel of `std::sync::mpsc`. Nothing is known
/// of what it holds.
#[verifier::external_type_specification]
#[verifier::external_body]
#[verifier::reject_recursive_types(T)]
pub struct ExReceiver<T>(Receiver<T>);

/// The sending end of a channel of `std::sync::mpsc`.
#[verifier::external_type_specification]
#[verifier::external_body]
#[verifier::reject_recursive_types(T)]
pub struct ExSender<T>(Sender<T>);

/// `std::sync::mpsc::channel` makes a new channel and returns its two
/// ends. Nothing is claimed of them.
pub assume_specification<T>[ std::sync::mpsc::channel::<T> ]() -> (ends: (Sender<T>, Receiver<T>))
;

/// Takes out of the channel what has been sent and not yet received,
/// oldest first, with `Receiver::try_iter`, gathers it in a vector and
/// does not wait for more. What comes back depends on what the senders
/// did, so nothing is claimed of it.
#[verifier::external_body]
fn take_pending<T>(recv: &Receiver<T>) -> (received: Vec<T>) {
    recv.try_iter().collect()
}

/// How a parameter is laid out on its slider.
#[derive(Clone, Copy, Debug, PartialEq, Eq, Structural)]
pub enum Scale {
    Linear,
    Logarithmic,
}

impl Default for Scale {
    fn default() -> (scale: Scale)
        ensures
            scale == Scale::Linear,
    {
        Scale::Linear
    }
}

/// The value that a reader holds after `received` has come in, oldest
/// first: the most recent one, or `current` if nothing came.
pub open spec fn latest<T>(current: T, received: Seq<T>) -> T {
    if received.len() == 0 {
        current
    } else {
        received.last()
    }
}

/// The reading end of a live parameter. It holds the value that was last
/// seen; values that were sent since wait in the channel.
#[verifier::reject_recursive_types(T)]
pub struct Param<T> {
    value: T,
    recv: Receiver<T>,
}

impl<T: Copy> Param<T> {
    /// The value that was last seen.
    pub closed spec fn current(&self) -> T {
        self.value
    }

    /// A parameter that starts at `value`, with the end of the channel
    /// through which new values are sent to it.
    pub fn new(value: T) -> (ends: (Sender<T>, Self))
        ensures
            ends.1.current() == value,
    {
        let (send, recv) = std::sync::mpsc::channel();
        (send, Param { recv, value })
    }

    /// The most recent value: takes in all that was sent since the last
    /// call and keeps the last of it. Never waits.
    pub fn get(&mut self) -> (value: T)
        ensures
            value == final(self).current(),
    {
        let received = take_pending(&self.recv);
        self.observe(&received)
    }

    /// Takes `received` in, oldest first, and returns the value that is
    /// then current: the last of `received`, or the value held before if
    /// `received` is empty.
    pub fn observe(&mut self, received: &Vec<T>) -> (value: T)
        ensures
            value == latest(old(self).current(), received@),
            final(self).current() == value,
    {
        let count: usize = received.len();
        if count > 0 {
            self.value = received[count - 1];
        }
        self.value
    }
}

/// Taking values in as they come, in two goes, leaves the reader with
/// the same value as taking them in all at once: only the latest counts.
pub proof fn lemma_latest_wins<T>(current: T, earlier: Seq<T>, later: Seq<T>)
    ensures
        latest(latest(current, earlier), later) == latest(current, earlier + later),
{
    if later.len() == 0 {
        assert(earlier + later =~= earlier);
    } else {
        assert((earlier + later).last() == later.last());
    }
}

} // verus!
