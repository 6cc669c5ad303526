//! Handles for producers that wait until the consumer has taken the message.

use crate::Channel;
use crate::HyperKey;
use crate::Msg;
use crate::RecvError;
use crate::SendError;
use vstd::prelude::*;

verus! {

/// The producer side of a channel. Any number of clones may send.
pub struct Sender<'a, K: HyperKey + Clone, V> {
    pub chan: &'a Channel<K, V>,
}

/// The consumer side of a channel.
pub struct Receiver<'a, K: HyperKey + Clone, V> {
    pub chan: &'a Channel<K, V>,
}

impl<K: HyperKey + Clone, V> Receiver<'_, K, V> {
    /// Delivers the oldest queued message that no held key blocks.
    pub fn recv(&self) -> (r: Result<Msg<K, V>, RecvError>)
        ensures
            r matches Ok(msg) ==> msg.filter() == self.chan.filter(),
    {
        self.chan.recv_sync()
    }
}

impl<K: HyperKey + Clone, V> Sender<'_, K, V> {
    /// Queues `val` under `keys` and waits until the consumer has taken it,
    /// for `SEND_TIMEOUT_SECS` at most. Fails when the wait ends without
    /// that; the message stays queued then.
    pub fn send(&self, keys: Vec<K>, val: V) -> (r: Result<(), SendError>) {
        self.chan.send_sync(keys, val)
    }

    /// `send`, with a wait of `secs` seconds at most.
    pub fn send_within(&self, keys: Vec<K>, val: V, secs: u64) -> (r: Result<(), SendError>)
        requires
            secs <= crate::ack::MAX_WAIT_SECS,
    {
        self.chan.send_sync_within(keys, val, secs)
    }
}

impl<K: HyperKey + Clone, V> Clone for Sender<'_, K, V> {
    fn clone(&self) -> (copy: Self)
        ensures
            copy == *self,
    {
        Sender { chan: self.chan }
    }
}

} // verus!
