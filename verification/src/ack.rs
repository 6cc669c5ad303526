//! How a blocked producer learns that its message was consumed.
//!
//! Each blocking send leaves one end of a one-shot signal with its message
//! and waits on the other end, for a bounded time.

use std::sync::mpsc::RecvTimeoutError;
use std::time::Duration;
use vstd::prelude::*;

verus! {

/// `std::sync::mpsc::Sender`, the end of a signal that raises it. The type is
/// carried through as it is; nothing is known of what a value holds.
#[verifier::external_type_specification]
#[verifier::external_body]
#[verifier::reject_recursive_types(T)]
pub struct ExSender<T>(std::sync::mpsc::Sender<T>);

/// `std::sync::mpsc::Receiver`, the end of a signal that waits for it. The
/// type is carried through as it is; nothing is known of what a value holds.
#[verifier::external_type_specification]
#[verifier::external_body]
#[verifier::reject_recursive_types(T)]
pub struct ExReceiver<T>(std::sync::mpsc::Receiver<T>);

/// How a wait for the consumer ended.
#[derive(Debug, Clone, Copy, PartialEq, Eq, Structural)]
pub enum Waited {
    /// The consumer took the message in time.
    Consumed,
    /// The time ran out first.
    TimedOut,
    /// The message was discarded without being delivered.
    Abandoned,
}

/// `std::sync::mpsc::channel`: a fresh signal, as its sending and its
/// receiving end. Nothing is claimed of the two ends.
#[verifier::external_body]
pub(crate) fn ack_pair() -> (ends: (std::sync::mpsc::Sender<()>, std::sync::mpsc::Receiver<()>)) {
    std::sync::mpsc::channel()
}

/// `Sender::send`: raises the signal. The call does not block; that nobody
/// waits any more is not an error here.
#[verifier::external_body]
pub(crate) fn acknowledge(tx: &std::sync::mpsc::Sender<()>) {
    let _ = tx.send(());
}

/// The longest wait that `await_ack` takes, in seconds: some 136 years, a
/// deadline that every clock of the standard library can still represent.
pub const MAX_WAIT_SECS: u64 = 0x1_0000_0000;

/// `Receiver::recv_timeout`, on a span of `secs` whole seconds made with
/// `Duration::from_secs`: waits until the signal is raised, for `secs`
/// seconds at most. Which of the three outcomes comes back depends on what
/// other threads do in the meantime, so nothing is claimed of it.
#[verifier::external_body]
pub(crate) fn await_ack(rx: &std::sync::mpsc::Receiver<()>, secs: u64) -> (waited: Waited)
    requires
        secs <= MAX_WAIT_SECS,
{
    match rx.recv_timeout(Duration::from_secs(secs)) {
        Ok(()) => Waited::Consumed,
        Err(RecvTimeoutError::Timeout) => Waited::TimedOut,
        Err(RecvTimeoutError::Disconnected) => Waited::Abandoned,
    }
}

} // verus!
