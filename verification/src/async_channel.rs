//! Handles for producers that do not wait for the consumer.

use crate::Channel;
use crate::HyperKey;
use crate::Msg;
use crate::RecvError;
use vstd::prelude::*;

verus! {

/// The producer side of a channel. Any number of clones may send.
pub struct Sender<'a, K: HyperKey + Clone, V> {
    pub chan: &'a Channel<K, V>,
}

/// The consumer side of a channel.
pub struct Receiver<'a, K: HyperKey + Clone, V> {
    pub chan: &'a Channel<K, V>,
}

impl<K: HyperKey + Clone, V> Sender<'_, K, V> {
    /// Queues `val` under `keys` and returns at once.
    pub fn send(&self, keys: Vec<K>, val: V) {
        self.chan.send(keys, val);
    }
}

impl<K: HyperKey + Clone, V> Receiver<'_, K, V> {
    /// Delivers the oldest queued message that no held key blocks.
    pub fn recv(&self) -> (r: Result<Msg<K, V>, RecvError>)
        ensures
            r matches Ok(msg) ==> msg.filter() == self.chan.filter(),
    {
        self.chan.recv()
    }
}

impl<K: HyperKey + Clone, V> Clone for Sender<'_, K, V> {
    fn clone(&self) -> (copy: Self)
        ensures
            copy == *self,
    {
        Sender { chan: self.chan }
    }
}

} // verus!
