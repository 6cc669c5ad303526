//! The chain of nodes that producers append to and the consumer scans.

use crate::key_filter::conflicts_any;
use crate::key_filter::registered;
use crate::key_filter::HeldKeys;
use crate::HyperKey;
use vstd::prelude::*;

verus! {

/// A message in transit: its keys, fixed when it was sent, and its value.
pub struct Parcel<K, V> {
    pub keys: Vec<K>,
    pub val: V,
}

/// A parcel cannot be delivered while one of its keys conflicts with a held
/// key.
pub open spec fn blocked<K: HyperKey, V>(parcel: Parcel<K, V>, held: Seq<K>) -> bool {
    conflicts_any(parcel.keys@, held)
}

/// The least index `i >= start` at which `pending[i]` is not blocked, or
/// `pending.len()` when every parcel from `start` on is blocked.
pub open spec fn first_free_from<K: HyperKey, V>(
    pending: Seq<Parcel<K, V>>,
    held: Seq<K>,
    start: int,
) -> int
    decreases pending.len() - start,
{
    if start < 0 || start >= pending.len() {
        pending.len() as int
    } else if !blocked(pending[start], held) {
        start
    } else {
        first_free_from(pending, held, start + 1)
    }
}

/// The position of the oldest parcel that can be delivered, or
/// `pending.len()` when none can.
pub open spec fn first_free<K: HyperKey, V>(pending: Seq<Parcel<K, V>>, held: Seq<K>) -> int {
    first_free_from(pending, held, 0)
}

/// One delivery, as a relation between the queue and the held keys before
/// it, what is handed out, and the queue and the held keys after it.
///
/// A parcel is handed out exactly when some queued parcel is not blocked. It
/// is then the oldest such parcel; it leaves the queue, the others keep
/// their order, and one clone of each of its keys is registered behind the
/// keys already held. When every queued parcel is blocked, nothing is handed
/// out and nothing changes.
pub open spec fn delivery<K: HyperKey + Clone, V>(
    pending: Seq<Parcel<K, V>>,
    held: Seq<K>,
    out: Option<Parcel<K, V>>,
    pending_after: Seq<Parcel<K, V>>,
    held_after: Seq<K>,
) -> bool {
    let at = first_free(pending, held);
    match out {
        Some(parcel) => {
            &&& 0 <= at < pending.len()
            &&& parcel == pending[at]
            &&& !blocked(parcel, held)
            &&& forall|j: int| 0 <= j < at ==> blocked(#[trigger] pending[j], held)
            &&& pending_after == pending.remove(at)
            &&& registered(held, parcel.keys@, held_after)
        },
        None => {
            &&& at == pending.len()
            &&& forall|j: int| 0 <= j < pending.len() ==> blocked(#[trigger] pending[j], held)
            &&& pending_after == pending
            &&& held_after == held
        },
    }
}

/// `first_free_from` returns the least index from `start` on whose parcel is
/// not blocked.
pub proof fn lemma_first_free_from<K: HyperKey, V>(
    pending: Seq<Parcel<K, V>>,
    held: Seq<K>,
    start: int,
)
    requires
        0 <= start <= pending.len(),
    ensures
        start <= first_free_from(pending, held, start) <= pending.len(),
        first_free_from(pending, held, start) < pending.len() ==> !blocked(
            pending[first_free_from(pending, held, start)],
            held,
        ),
        forall|j: int|
            start <= j < first_free_from(pending, held, start) ==> blocked(
                #[trigger] pending[j],
                held,
            ),
    decreases pending.len() - start,
{
    if start < pending.len() && blocked(pending[start], held) {
        lemma_first_free_from(pending, held, start + 1);
    }
}

/// `first_free` is the position of the oldest parcel that is not blocked:
/// every parcel before it is blocked, and it is `pending.len()` exactly when
/// all are.
pub proof fn lemma_first_free<K: HyperKey, V>(pending: Seq<Parcel<K, V>>, held: Seq<K>)
    ensures
        0 <= first_free(pending, held) <= pending.len(),
        first_free(pending, held) < pending.len() ==> !blocked(
            pending[first_free(pending, held)],
            held,
        ),
        forall|j: int| 0 <= j < first_free(pending, held) ==> blocked(#[trigger] pending[j], held),
{
    lemma_first_free_from(pending, held, 0);
}

/// A parcel that is not blocked, behind parcels that all are, is the one at
/// `first_free`.
pub proof fn lemma_first_free_at<K: HyperKey, V>(
    pending: Seq<Parcel<K, V>>,
    held: Seq<K>,
    at: int,
)
    requires
        0 <= at < pending.len(),
        !blocked(pending[at], held),
        forall|j: int| 0 <= j < at ==> blocked(#[trigger] pending[j], held),
    ensures
        first_free(pending, held) == at,
{
    lemma_first_free(pending, held);
}

/// One link of the chain. Its slot holds at most one parcel; `consumed` is
/// set once, when that parcel is handed to the consumer.
struct Node<K, V> {
    slot: Option<Parcel<K, V>>,
    consumed: bool,
}

impl<K, V> Node<K, V> {
    /// The node carries no parcel and has handed none out.
    pub closed spec fn is_blank(&self) -> bool {
        self.slot is None && !self.consumed
    }
}

impl<K, V> Default for Node<K, V> {
    /// The sentinel: no parcel, not consumed.
    fn default() -> (node: Self)
        ensures
            node.is_blank(),
    {
        Node { slot: None, consumed: false }
    }
}

/// The parcels that the nodes still carry, oldest first.
spec fn pending_of<K, V>(nodes: Seq<Node<K, V>>) -> Seq<Parcel<K, V>>
    decreases nodes.len(),
{
    if nodes.len() == 0 {
        Seq::empty()
    } else {
        let front = pending_of(nodes.drop_last());
        match nodes.last().slot {
            Some(parcel) => front.push(parcel),
            None => front,
        }
    }
}

proof fn lemma_pending_concat<K, V>(a: Seq<Node<K, V>>, b: Seq<Node<K, V>>)
    ensures
        pending_of(a + b) == pending_of(a) + pending_of(b),
    decreases b.len(),
{
    if b.len() == 0 {
        assert(a + b =~= a);
        assert(pending_of(a) + pending_of(b) =~= pending_of(a));
    } else {
        assert((a + b).drop_last() =~= a + b.drop_last());
        lemma_pending_concat(a, b.drop_last());
        match b.last().slot {
            Some(parcel) => {
                assert((pending_of(a) + pending_of(b.drop_last())).push(parcel) =~= pending_of(a)
                    + pending_of(b.drop_last()).push(parcel));
            },
            None => {},
        }
    }
}

proof fn lemma_pending_single<K, V>(node: Node<K, V>)
    ensures
        pending_of(seq![node]) == match node.slot {
            Some(parcel) => seq![parcel],
            None => Seq::empty(),
        },
{
    assert(seq![node].drop_last() =~= Seq::<Node<K, V>>::empty());
    assert(pending_of(seq![node].drop_last()) =~= Seq::<Parcel<K, V>>::empty());
    match node.slot {
        Some(parcel) => {
            assert(Seq::<Parcel<K, V>>::empty().push(parcel) =~= seq![parcel]);
        },
        None => {},
    }
}

/// Nodes without a parcel carry nothing.
proof fn lemma_pending_none<K, V>(nodes: Seq<Node<K, V>>)
    requires
        forall|i: int| 0 <= i < nodes.len() ==> (#[trigger] nodes[i]).slot is None,
    ensures
        pending_of(nodes) == Seq::<Parcel<K, V>>::empty(),
    decreases nodes.len(),
{
    if nodes.len() > 0 {
        lemma_pending_none(nodes.drop_last());
    }
}

/// The number of consumed nodes that stand in a row from `from` on.
spec fn consumed_run<K, V>(nodes: Seq<Node<K, V>>, from: int) -> int
    decreases nodes.len() - from,
{
    if from < 0 || from >= nodes.len() || !nodes[from].consumed {
        0
    } else {
        1 + consumed_run(nodes, from + 1)
    }
}

/// The nodes that `retire` leaves: when the consumed nodes directly behind
/// the head, `run` of them, are at least as many as the nodes behind them,
/// the head and all but the last of the run are gone; otherwise nothing is.
spec fn retired<K, V>(nodes: Seq<Node<K, V>>) -> Seq<Node<K, V>> {
    let run = consumed_run(nodes, 1);
    if run > 0 && run >= nodes.len() - run {
        nodes.skip(run)
    } else {
        nodes
    }
}

/// Splits the parcels of `nodes` around the node at `at`.
proof fn lemma_pending_split<K, V>(nodes: Seq<Node<K, V>>, at: int)
    requires
        0 <= at < nodes.len(),
    ensures
        pending_of(nodes) == pending_of(nodes.take(at)) + pending_of(seq![nodes[at]]) + pending_of(
            nodes.skip(at + 1),
        ),
        pending_of(nodes.take(at + 1)) == pending_of(nodes.take(at)) + pending_of(seq![nodes[at]]),
{
    assert(nodes =~= nodes.take(at + 1) + nodes.skip(at + 1));
    assert(nodes.take(at + 1) =~= nodes.take(at) + seq![nodes[at]]);
    lemma_pending_concat(nodes.take(at + 1), nodes.skip(at + 1));
    lemma_pending_concat(nodes.take(at), seq![nodes[at]]);
}


/// The queue of one channel. Its first node is the head: the sentinel it was
/// created with or, later, a node whose parcel has been delivered. A node
/// behind the head carries a parcel exactly as long as it is not consumed.
///
/// Consumed nodes at the front are dropped in one batch once they make up at
/// least half of the chain; the last of them becomes the new head.
pub struct Chain<K, V> {
    nodes: Vec<Node<K, V>>,
}

impl<K, V> View for Chain<K, V> {
    type V = Seq<Parcel<K, V>>;

    /// The parcels waiting for delivery, in the order they were appended.
    closed spec fn view(&self) -> Seq<Parcel<K, V>> {
        pending_of(self.nodes@)
    }
}

impl<K: HyperKey + Clone, V> Chain<K, V> {
    /// The head carries no parcel, and a node behind it is consumed exactly
    /// when its slot is empty.
    pub closed spec fn wf(&self) -> bool {
        &&& self.nodes@.len() >= 1
        &&& self.nodes@[0].slot is None
        &&& forall|i: int|
            1 <= i < self.nodes@.len() ==> ((#[trigger] self.nodes@[i]).consumed
                <==> self.nodes@[i].slot is None)
    }

    /// A chain of one sentinel node, with nothing to deliver.
    pub fn new() -> (chain: Self)
        ensures
            chain.wf(),
            chain@ == Seq::<Parcel<K, V>>::empty(),
    {
        let mut nodes: Vec<Node<K, V>> = Vec::new();
        nodes.push(Node::default());
        proof {
            lemma_pending_none(nodes@);
        }
        Chain { nodes }
    }

    /// The number of parcels that wait for delivery.
    pub fn len(&self) -> (n: usize)
        requires
            self.wf(),
        ensures
            n == self@.len(),
    {
        let mut n: usize = 0;
        let mut i: usize = 1;
        proof {
            assert(self.nodes@.take(1) =~= seq![self.nodes@[0]]);
            lemma_pending_single(self.nodes@[0]);
        }
        while i < self.nodes.len()
            invariant
                1 <= i <= self.nodes@.len(),
                n == pending_of(self.nodes@.take(i as int)).len(),
                n < i,
            decreases self.nodes@.len() - i,
        {
            proof {
                lemma_pending_split(self.nodes@, i as int);
                lemma_pending_single(self.nodes@[i as int]);
            }
            if self.nodes[i].slot.is_some() {
                n += 1;
            }
            i += 1;
        }
        proof {
            assert(self.nodes@.take(i as int) =~= self.nodes@);
        }
        n
    }

    /// Links a new node that carries `keys` and `val` behind the last one.
    pub fn append(&mut self, keys: Vec<K>, val: V)
        requires
            old(self).wf(),
        ensures
            final(self).wf(),
            final(self)@ == old(self)@.push((Parcel { keys, val })),
    {
        let node = Node { slot: Some(Parcel { keys, val }), consumed: false };
        self.nodes.push(node);
        proof {
            assert(self.nodes@.drop_last() =~= old(self).nodes@);
        }
    }

    /// Scans from the head and hands out the oldest parcel that `held` does
    /// not block. Its node is marked consumed and a clone of each of its keys
    /// is registered in `held`. Blocked parcels stay where they are.
    pub fn deliver(&mut self, held: &mut HeldKeys<K>) -> (out: Option<Parcel<K, V>>)
        requires
            old(self).wf(),
        ensures
            final(self).wf(),
            delivery(old(self)@, old(held)@, out, final(self)@, final(held)@),
    {
        let mut i: usize = 1;
        let ghost mut rank: int = 0;
        proof {
            assert(self.nodes@.take(1) =~= seq![self.nodes@[0]]);
            lemma_pending_single(self.nodes@[0]);
        }
        while i < self.nodes.len()
            invariant
                self.wf(),
                self.nodes@ == old(self).nodes@,
                held@ == old(held)@,
                1 <= i <= self.nodes@.len(),
                rank == pending_of(self.nodes@.take(i as int)).len(),
                0 <= rank <= self@.len(),
                first_free_from(self@, held@, rank) == first_free(self@, held@),
            decreases self.nodes@.len() - i,
        {
            proof {
                lemma_pending_split(self.nodes@, i as int);
                lemma_pending_single(self.nodes@[i as int]);
            }
            if !self.nodes[i].consumed {
                let free = match &self.nodes[i].slot {
                    Some(parcel) => !held.contains(&parcel.keys),
                    None => false,
                };
                assert(self@[rank] == self.nodes@[i as int].slot->0);
                if free {
                    let ghost before = self.nodes@;
                    let taken = self.nodes[i].slot.take();
                    self.nodes[i].consumed = true;
                    let parcel = taken.unwrap();
                    held.put(parcel.keys.as_slice());
                    proof {
                        lemma_pending_split(self.nodes@, i as int);
                        lemma_pending_single(self.nodes@[i as int]);
                        assert(self.nodes@.take(i as int) =~= before.take(i as int));
                        assert(self.nodes@.skip(i as int + 1) =~= before.skip(i as int + 1));
                        assert(self@ =~= old(self)@.remove(rank));
                        lemma_first_free(old(self)@, old(held)@);
                    }
                    self.retire();
                    return Some(parcel);
                }
                proof {
                    rank = rank + 1;
                }
            }
            i += 1;
        }
        proof {
            assert(self.nodes@.take(i as int) =~= self.nodes@);
            lemma_first_free(old(self)@, old(held)@);
        }
        None
    }

    /// Drops the consumed nodes at the front once they make up at least half
    /// of the chain. The last of them stays, as the new head. No parcel is
    /// touched.
    fn retire(&mut self)
        requires
            old(self).wf(),
        ensures
            final(self).wf(),
            final(self).nodes@ == retired(old(self).nodes@),
            final(self)@ == old(self)@,
    {
        let mut r: usize = 0;
        while r < self.nodes.len() - 1 && self.nodes[r + 1].consumed
            invariant
                self.wf(),
                self.nodes@ == old(self).nodes@,
                r < self.nodes@.len(),
                forall|j: int| 1 <= j <= r ==> (#[trigger] self.nodes@[j]).consumed,
                r + consumed_run(self.nodes@, r + 1) == consumed_run(self.nodes@, 1),
            decreases self.nodes@.len() - r,
        {
            r += 1;
        }
        assert(consumed_run(self.nodes@, r + 1) == 0);
        if r > 0 && r >= self.nodes.len() - r {
            let rest = self.nodes.split_off(r);
            self.nodes = rest;
            proof {
                let before = old(self).nodes@;
                assert(before =~= before.take(r as int) + before.skip(r as int));
                lemma_pending_concat(before.take(r as int), before.skip(r as int));
                lemma_pending_none(before.take(r as int));
                assert(self.nodes@ =~= before.skip(r as int));
                assert(pending_of(before.take(r as int)) + pending_of(before.skip(r as int))
                    =~= pending_of(before.skip(r as int)));
            }
        }
    }
}

} // verus!
