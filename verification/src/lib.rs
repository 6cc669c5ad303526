//! A keyed multi-producer, single-consumer message channel.
//!
//! Every message carries one or more keys. The consumer never holds two
//! messages whose keys conflict: a message that conflicts with a held key is
//! skipped, not dropped, and becomes deliverable once the conflicting message
//! has been released.
//!
//! The rules of the channel are those of [`chain::Chain`], the queue, and
//! [`key_filter::HeldKeys`], the keys that delivered messages hold. Both own
//! their data, and their contracts state exactly what each step does;
//! [`laws`] proves from these contracts what holds of every run. [`Channel`]
//! puts one chain and one set of held keys behind locks, so that producers
//! and the consumer can share them. Every call on a shared channel is one
//! step of the chain or of the key set, taken under the lock; since other
//! threads may take steps before and after it, its own contract can only say
//! what holds whatever they did.
//!
//! A delivered message holds its keys until [`Msg::release`] gives them back.

pub mod ack;
pub mod async_channel;
pub mod chain;
pub mod key_filter;
pub mod laws;
pub mod sync_channel;

use crate::ack::Waited;
use crate::chain::Chain;
use crate::chain::Parcel;
use crate::key_filter::releasable;
use crate::key_filter::Filter;
use vstd::prelude::*;
use vstd::rwlock::RwLock;
use vstd::rwlock::RwLockPredicate;

verus! {

/// What every key type supplies: a test that tells whether two keys conflict.
///
/// `conflicts` states the relation and `collision_detect` decides it; an
/// implementation gives both, and they must agree. The channel calls only
/// `collision_detect`. The relation need not be symmetric, reflexive or
/// transitive.
pub trait HyperKey<OtherKey = Self> {
    /// Whether `self` conflicts with `other`.
    spec fn conflicts(&self, other: &OtherKey) -> bool;

    /// Decides `conflicts`.
    fn collision_detect(&self, other: &OtherKey) -> (hit: bool)
        ensures
            hit == self.conflicts(other),
    ;
}

/// Cloning a key never changes which keys it conflicts with, on either side
/// of the relation.
pub open spec fn clone_faithful<K: HyperKey + Clone>() -> bool {
    &&& forall|a: K, b: K, o: K|
        #![trigger cloned(a, b), a.conflicts(&o)]
        #![trigger cloned(a, b), b.conflicts(&o)]
        cloned(a, b) ==> b.conflicts(&o) == a.conflicts(&o)
    &&& forall|a: K, b: K, o: K|
        #![trigger cloned(a, b), o.conflicts(&a)]
        #![trigger cloned(a, b), o.conflicts(&b)]
        cloned(a, b) ==> o.conflicts(&b) == o.conflicts(&a)
}

/// A blocking send gave up waiting. The message stays queued and may still
/// be delivered later.
#[derive(Debug, Clone, Copy)]
pub struct SendError;

/// No message can be delivered right now: the queue is empty or every queued
/// message conflicts with a held key.
#[derive(Debug, Clone, Copy)]
pub struct RecvError;

/// Marker for types that decide conflicts between keys.
pub trait Detector {

}

/// How long a blocking send waits for the consumer, in seconds.
pub const SEND_TIMEOUT_SECS: u64 = 5;

/// A value on its way through the channel, with the signal that a blocked
/// producer waits on, if one does.
struct Sealed<V> {
    val: V,
    ack: Option<std::sync::mpsc::Sender<()>>,
}

/// What the channel's lock accepts: a well-formed chain.
pub struct SoundChain;

impl<K: HyperKey + Clone, W> RwLockPredicate<Chain<K, W>> for SoundChain {
    open spec fn inv(self, v: Chain<K, W>) -> bool {
        v.wf()
    }
}

/// The channel: a chain of queued messages and the filter of held keys,
/// shared by any number of producers and one consumer.
pub struct Channel<K: HyperKey + Clone, V> {
    chain: RwLock<Chain<K, Sealed<V>>, SoundChain>,
    filter: Filter<K>,
}

/// A delivered message. It holds its keys until it is released.
pub struct Msg<K: HyperKey + Clone, T> {
    pub keys: Vec<K>,
    pub val: T,
    filter: Filter<K>,
}

impl<K: HyperKey + Clone, T> Msg<K, T> {
    /// The filter in which the keys of this message are registered.
    pub closed spec fn filter(&self) -> Filter<K> {
        self.filter
    }

    /// The keys of this message, as a sequence.
    pub closed spec fn keys(&self) -> Seq<K> {
        self.keys@
    }

    /// Gives the keys of this message back to the filter, once: for each key
    /// the first held entry that conflicts with it is removed. Returns
    /// `false`, and removes nothing, when some key finds no such entry:
    /// then the filter no longer held what this message had registered.
    ///
    /// A message that is dropped without this call keeps its keys held for
    /// good.
    ///
    /// Whether the keys are found depends on the keys held at the moment of
    /// the call: [`Filter::pop`], on the keys of this message. A message
    /// without keys is always released.
    pub fn release(self) -> (done: bool)
        ensures
            exists|held: Seq<K>| done == #[trigger] releasable(held, self.keys()),
    {
        let k = self.keys.as_slice();
        let done = self.filter.pop(k);
        proof {
            let held = choose|held: Seq<K>| done == #[trigger] releasable(held, k@);
            assert(done == releasable(held, self.keys()));
        }
        done
    }
}

/// What a blocking send returns for each way its wait can end: success when
/// the consumer took the message, an error otherwise.
pub fn send_outcome(waited: Waited) -> (r: Result<(), SendError>)
    ensures
        r is Ok <==> waited == Waited::Consumed,
{
    match waited {
        Waited::Consumed => Ok(()),
        Waited::TimedOut => Err(SendError),
        Waited::Abandoned => Err(SendError),
    }
}

impl<K: HyperKey + Clone, V> Channel<K, V> {
    /// The filter that this channel registers delivered keys in.
    pub closed spec fn filter(&self) -> Filter<K> {
        self.filter
    }

    /// An empty channel: one sentinel node, no held key.
    #[must_use]
    pub fn new() -> (ch: Channel<K, V>) {
        Channel { chain: RwLock::new(Chain::new(), Ghost(SoundChain)), filter: Filter::default() }
    }

    /// Appends a message: [`Chain::append`], under the lock of the chain.
    /// Never waits for the consumer and never fails.
    pub(crate) fn send(&self, keys: Vec<K>, val: V) {
        let (mut chain, guard) = self.chain.acquire_write();
        chain.append(keys, Sealed { val, ack: None });
        guard.release_write(chain);
    }

    /// Turns a parcel that left the chain into the message handed to the
    /// consumer, and tells the producer that waits for it, if one does.
    fn unseal(&self, parcel: Parcel<K, Sealed<V>>) -> (msg: Msg<K, V>)
        ensures
            msg.keys == parcel.keys,
            msg.val == parcel.val.val,
            msg.filter() == self.filter(),
    {
        let Parcel { keys, val: sealed } = parcel;
        let Sealed { val, ack } = sealed;
        match ack {
            Some(tx) => crate::ack::acknowledge(&tx),
            None => {},
        }
        Msg { keys, val, filter: self.filter.clone() }
    }

    /// Delivers the oldest queued message that no held key blocks, or says
    /// that there is none right now: [`Chain::deliver`], under the locks of
    /// the chain and of the filter. Never waits for a producer.
    pub(crate) fn recv(&self) -> (r: Result<Msg<K, V>, RecvError>)
        ensures
            r matches Ok(msg) ==> msg.filter() == self.filter(),
    {
        let (mut chain, guard) = self.chain.acquire_write();
        let out = self.filter.deliver_from(&mut chain);
        guard.release_write(chain);
        match out {
            Some(parcel) => Ok(self.unseal(parcel)),
            None => Err(RecvError),
        }
    }

    /// `recv`, for the consumer of a blocking producer.
    pub(crate) fn recv_sync(&self) -> (r: Result<Msg<K, V>, RecvError>)
        ensures
            r matches Ok(msg) ==> msg.filter() == self.filter(),
    {
        self.recv()
    }

    /// Appends a message and waits until the consumer has taken it, for
    /// `secs` seconds at most. When the wait ends without that, the message
    /// stays queued and a later `recv` may still deliver it.
    pub(crate) fn send_sync_within(&self, keys: Vec<K>, val: V, secs: u64) -> (r: Result<
        (),
        SendError,
    >)
        requires
            secs <= crate::ack::MAX_WAIT_SECS,
    {
        let (tx, rx) = crate::ack::ack_pair();
        let (mut chain, guard) = self.chain.acquire_write();
        chain.append(keys, Sealed { val, ack: Some(tx) });
        guard.release_write(chain);
        let waited = crate::ack::await_ack(&rx, secs);
        send_outcome(waited)
    }

    /// `send_sync_within`, with a wait of `SEND_TIMEOUT_SECS`.
    pub(crate) fn send_sync(&self, keys: Vec<K>, val: V) -> (r: Result<(), SendError>) {
        self.send_sync_within(keys, val, SEND_TIMEOUT_SECS)
    }
}

impl<K: HyperKey + Clone, V> Default for Channel<K, V> {
    fn default() -> (ch: Self) {
        Channel::new()
    }
}

} // verus!
