//! What holds of every run of the channel, proved from the contracts of
//! [`crate::chain::Chain`] and [`crate::key_filter::HeldKeys`].
//!
//! The laws speak of the keys that undelivered messages carry, of the keys
//! that delivered messages hold, and of the entries that each delivery
//! registered: `outstanding[m]` is the run of held entries that belongs to
//! the `m`-th delivered message that has not been released, oldest delivery
//! first, so that the held keys are `outstanding.flatten()`.

use crate::chain::blocked;
use crate::chain::first_free;
use crate::chain::lemma_first_free;
use crate::chain::Parcel;
use crate::clone_faithful;
use crate::key_filter::conflicts_any;
use crate::key_filter::first_match;
use crate::key_filter::lemma_first_match;
use crate::key_filter::lemma_first_match_at;
use crate::key_filter::registered;
use crate::key_filter::releasable;
use crate::key_filter::release_one;
use crate::key_filter::released;
use crate::HyperKey;
use vstd::prelude::*;
use vstd::seq_lib::lemma_flatten_concat;

verus! {

/// A key conflicts with another exactly when the other conflicts with it.
pub open spec fn symmetric<K: HyperKey>() -> bool {
    forall|a: K, b: K| #[trigger] a.conflicts(&b) == b.conflicts(&a)
}

/// Every key conflicts with itself.
pub open spec fn reflexive<K: HyperKey>() -> bool {
    forall|a: K| #[trigger] a.conflicts(&a)
}

/// `copies` holds one clone of each key of `keys`, in order.
pub open spec fn copies_of<K: Clone>(keys: Seq<K>, copies: Seq<K>) -> bool {
    &&& copies.len() == keys.len()
    &&& forall|i: int| 0 <= i < keys.len() ==> cloned(#[trigger] keys[i], copies[i])
}

/// No entry of a later delivery conflicts with an entry of an earlier one.
pub open spec fn exclusive<K: HyperKey>(outstanding: Seq<Seq<K>>) -> bool {
    forall|a: int, b: int, i: int, j: int|
        0 <= a < b < outstanding.len() && 0 <= i < outstanding[a].len() && 0 <= j
            < outstanding[b].len() ==> !(#[trigger] outstanding[b][j].conflicts(
            &outstanding[a][i],
        ))
}

/// No entry of one delivery conflicts with an entry of another, whichever
/// way the two are compared.
pub open spec fn mutually_exclusive<K: HyperKey>(outstanding: Seq<Seq<K>>) -> bool {
    forall|a: int, b: int, i: int, j: int|
        0 <= a < outstanding.len() && 0 <= b < outstanding.len() && a != b && 0 <= i
            < outstanding[a].len() && 0 <= j < outstanding[b].len() ==> !(
        #[trigger] outstanding[a][i].conflicts(&outstanding[b][j]))
}

/// Where the entries of the delivery `m` begin among the held keys.
pub open spec fn offset<K>(outstanding: Seq<Seq<K>>, m: int) -> int {
    outstanding.take(m).flatten().len() as int
}

/// The held keys are the entries before delivery `m`, its own, and those
/// after it.
pub proof fn lemma_flatten_split<K>(outstanding: Seq<Seq<K>>, m: int)
    requires
        0 <= m < outstanding.len(),
    ensures
        outstanding.flatten() == outstanding.take(m).flatten() + outstanding[m]
            + outstanding.skip(m + 1).flatten(),
        outstanding.remove(m).flatten() == outstanding.take(m).flatten() + outstanding.skip(
            m + 1,
        ).flatten(),
{
    let front = outstanding.take(m);
    let back = outstanding.skip(m + 1);
    assert(outstanding =~= front + seq![outstanding[m]] + back);
    assert(outstanding.remove(m) =~= front + back);
    lemma_flatten_concat(front + seq![outstanding[m]], back);
    lemma_flatten_concat(front, seq![outstanding[m]]);
    lemma_flatten_concat(front, back);
    seq![outstanding[m]].lemma_flatten_one_element();
    assert(seq![outstanding[m]].first() == outstanding[m]);
}

/// Every held key is an entry of some delivery.
pub proof fn lemma_flatten_entry<K>(outstanding: Seq<Seq<K>>, x: int)
    requires
        0 <= x < outstanding.flatten().len(),
    ensures
        exists|m: int, i: int|
            0 <= m < outstanding.len() && 0 <= i < outstanding[m].len() && outstanding.flatten()[x]
                == #[trigger] outstanding[m][i],
    decreases outstanding.len(),
{
    if outstanding.len() > 0 {
        let last = outstanding.len() - 1;
        lemma_flatten_split(outstanding, last);
        assert(outstanding.skip(last + 1).flatten() =~= Seq::<K>::empty());
        let front = outstanding.take(last);
        if x < front.flatten().len() {
            lemma_flatten_entry(front, x);
            let (m, i) = choose|m: int, i: int|
                0 <= m < front.len() && 0 <= i < front[m].len() && front.flatten()[x]
                    == #[trigger] front[m][i];
            assert(outstanding[m][i] == front[m][i]);
        } else {
            let i = x - front.flatten().len();
            assert(outstanding.flatten()[x] == outstanding[last][i]);
        }
    }
}

/// Every entry of a delivery is a held key, at its place behind `offset`.
pub proof fn lemma_entry_is_held<K>(outstanding: Seq<Seq<K>>, m: int, i: int)
    requires
        0 <= m < outstanding.len(),
        0 <= i < outstanding[m].len(),
    ensures
        0 <= offset(outstanding, m) + i < outstanding.flatten().len(),
        outstanding.flatten()[offset(outstanding, m) + i] == outstanding[m][i],
{
    lemma_flatten_split(outstanding, m);
}

/// What `registered` appends is one clone of each key.
pub proof fn lemma_registered_copies<K: Clone>(before: Seq<K>, keys: Seq<K>, after: Seq<K>)
    requires
        registered(before, keys, after),
    ensures
        copies_of(keys, after.skip(before.len() as int)),
        after == before + after.skip(before.len() as int),
{
    let copies = after.skip(before.len() as int);
    assert forall|i: int| 0 <= i < keys.len() implies cloned(#[trigger] keys[i], copies[i]) by {
        assert(copies[i] == after[before.len() + i]);
    }
    assert(after =~= before + copies);
}

/// A clone of a key is blocked by, and blocks, what the key itself does.
pub proof fn lemma_copies_conflict_alike<K: HyperKey + Clone>(
    keys: Seq<K>,
    copies: Seq<K>,
    others: Seq<K>,
)
    requires
        clone_faithful::<K>(),
        copies_of(keys, copies),
    ensures
        conflicts_any(copies, others) == conflicts_any(keys, others),
        conflicts_any(others, copies) == conflicts_any(others, keys),
{
    if conflicts_any(copies, others) {
        let (i, j) = choose|i: int, j: int|
            0 <= i < copies.len() && 0 <= j < others.len() && #[trigger] copies[i].conflicts(
                &others[j],
            );
        assert(cloned(keys[i], copies[i]));
        assert(keys[i].conflicts(&others[j]));
    }
    if conflicts_any(keys, others) {
        let (i, j) = choose|i: int, j: int|
            0 <= i < keys.len() && 0 <= j < others.len() && #[trigger] keys[i].conflicts(
                &others[j],
            );
        assert(cloned(keys[i], copies[i]));
        assert(copies[i].conflicts(&others[j]));
    }
    if conflicts_any(others, copies) {
        let (i, j) = choose|i: int, j: int|
            0 <= i < others.len() && 0 <= j < copies.len() && #[trigger] others[i].conflicts(
                &copies[j],
            );
        assert(cloned(keys[j], copies[j]));
        assert(others[i].conflicts(&keys[j]));
    }
    if conflicts_any(others, keys) {
        let (i, j) = choose|i: int, j: int|
            0 <= i < others.len() && 0 <= j < keys.len() && #[trigger] others[i].conflicts(
                &keys[j],
            );
        assert(cloned(keys[j], copies[j]));
        assert(others[i].conflicts(&copies[j]));
    }
}

/// Exclusion holds while nothing is held: a new channel starts from it.
pub proof fn lemma_nothing_held_is_exclusive<K: HyperKey>()
    ensures
        exclusive(Seq::<Seq<K>>::empty()),
        Seq::<Seq<K>>::empty().flatten() == Seq::<K>::empty(),
{
}

/// Exclusion, kept by every delivery. When no entry of a later delivery
/// conflicts with an entry of an earlier one, the same holds after one more
/// delivery: the parcel that `deliver` hands out conflicts with no held key,
/// so the entries it registers conflict with none of an earlier delivery.
pub proof fn lemma_delivery_keeps_exclusion<K: HyperKey + Clone, V>(
    pending: Seq<Parcel<K, V>>,
    outstanding: Seq<Seq<K>>,
    after: Seq<K>,
)
    requires
        clone_faithful::<K>(),
        exclusive(outstanding),
        first_free(pending, outstanding.flatten()) < pending.len(),
        registered(
            outstanding.flatten(),
            pending[first_free(pending, outstanding.flatten())].keys@,
            after,
        ),
    ensures
        ({
            let copies = after.skip(outstanding.flatten().len() as int);
            &&& copies_of(pending[first_free(pending, outstanding.flatten())].keys@, copies)
            &&& after == outstanding.push(copies).flatten()
            &&& exclusive(outstanding.push(copies))
        }),
{
    let held = outstanding.flatten();
    let keys = pending[first_free(pending, held)].keys@;
    let copies = after.skip(held.len() as int);
    let grown = outstanding.push(copies);
    lemma_first_free(pending, held);
    lemma_registered_copies(held, keys, after);
    lemma_copies_conflict_alike(keys, copies, held);
    outstanding.lemma_flatten_push(copies);
    assert forall|a: int, b: int, i: int, j: int|
        0 <= a < b < grown.len() && 0 <= i < grown[a].len() && 0 <= j
            < grown[b].len() implies !(#[trigger] grown[b][j].conflicts(&grown[a][i])) by {
        if b == outstanding.len() {
            lemma_entry_is_held(outstanding, a, i);
            let x = offset(outstanding, a) + i;
            if copies[j].conflicts(&held[x]) {
                assert(conflicts_any(copies, held));
            }
        } else {
            assert(!outstanding[b][j].conflicts(&outstanding[a][i]));
        }
    }
}

/// Exclusion between every two held messages. Under a symmetric relation,
/// no key held for one delivered message conflicts with a key held for
/// another.
pub proof fn lemma_exclusion_is_mutual<K: HyperKey>(outstanding: Seq<Seq<K>>)
    requires
        symmetric::<K>(),
        exclusive(outstanding),
    ensures
        mutually_exclusive(outstanding),
{
    assert forall|a: int, b: int, i: int, j: int|
        0 <= a < outstanding.len() && 0 <= b < outstanding.len() && a != b && 0 <= i
            < outstanding[a].len() && 0 <= j < outstanding[b].len() implies !(
    #[trigger] outstanding[a][i].conflicts(&outstanding[b][j])) by {
        if a < b {
            assert(!outstanding[b][j].conflicts(&outstanding[a][i]));
        }
    }
}

/// Exclusion survives when a delivery loses its first entry.
proof fn lemma_exclusive_without_first_entry<K: HyperKey>(outstanding: Seq<Seq<K>>, m: int)
    requires
        exclusive(outstanding),
        0 <= m < outstanding.len(),
        outstanding[m].len() > 0,
    ensures
        exclusive(outstanding.update(m, outstanding[m].drop_first())),
{
    let rest = outstanding.update(m, outstanding[m].drop_first());
    assert forall|a: int, b: int, i: int, j: int|
        0 <= a < b < rest.len() && 0 <= i < rest[a].len() && 0 <= j < rest[b].len() implies !(
    #[trigger] rest[b][j].conflicts(&rest[a][i])) by {
        let i0 = if a == m {
            i + 1
        } else {
            i
        };
        let j0 = if b == m {
            j + 1
        } else {
            j
        };
        assert(!outstanding[b][j0].conflicts(&outstanding[a][i0]));
    }
}

/// Exclusion survives when a delivery is taken out.
pub proof fn lemma_exclusive_without<K: HyperKey>(outstanding: Seq<Seq<K>>, m: int)
    requires
        exclusive(outstanding),
        0 <= m < outstanding.len(),
    ensures
        exclusive(outstanding.remove(m)),
{
    let rest = outstanding.remove(m);
    assert forall|a: int, b: int, i: int, j: int|
        0 <= a < b < rest.len() && 0 <= i < rest[a].len() && 0 <= j < rest[b].len() implies !(
    #[trigger] rest[b][j].conflicts(&rest[a][i])) by {
        let a0 = if a < m {
            a
        } else {
            a + 1
        };
        let b0 = if b < m {
            b
        } else {
            b + 1
        };
        assert(!outstanding[b0][j].conflicts(&outstanding[a0][i]));
    }
}

/// Release gives back the entries of the released message and no others.
/// Under a relation that is reflexive and symmetric, the keys of any held
/// message can be released, and what stays held is what the other held
/// messages registered, in the same order; exclusion goes on holding.
pub proof fn lemma_release_returns_own_entries<K: HyperKey + Clone>(
    outstanding: Seq<Seq<K>>,
    m: int,
    keys: Seq<K>,
)
    requires
        clone_faithful::<K>(),
        symmetric::<K>(),
        reflexive::<K>(),
        exclusive(outstanding),
        0 <= m < outstanding.len(),
        copies_of(keys, outstanding[m]),
    ensures
        releasable(outstanding.flatten(), keys),
        released(outstanding.flatten(), keys) == outstanding.remove(m).flatten(),
        exclusive(outstanding.remove(m)),
    decreases keys.len(),
{
    let held = outstanding.flatten();
    lemma_flatten_split(outstanding, m);
    lemma_exclusive_without(outstanding, m);
    if keys.len() == 0 {
        assert(held =~= outstanding.remove(m).flatten());
    } else {
        let at = offset(outstanding, m);
        lemma_entry_is_held(outstanding, m, 0);
        assert(cloned(keys[0], outstanding[m][0]));
        assert(keys[0].conflicts(&keys[0]));
        assert(held[at].conflicts(&keys[0]));
        assert forall|x: int| 0 <= x < at implies !(#[trigger] held[x]).conflicts(&keys[0]) by {
            let front = outstanding.take(m);
            lemma_flatten_entry(front, x);
            let (a, i) = choose|a: int, i: int|
                0 <= a < front.len() && 0 <= i < front[a].len() && front.flatten()[x]
                    == #[trigger] front[a][i];
            assert(front[a] == outstanding[a]);
            assert(!outstanding[m][0].conflicts(&outstanding[a][i]));
            assert(outstanding[a][i].conflicts(&outstanding[m][0]) == outstanding[m][0].conflicts(
                &outstanding[a][i],
            ));
            assert(held[x] == outstanding[a][i]);
        }
        lemma_first_match_at(held, keys[0], at);
        let rest = outstanding.update(m, outstanding[m].drop_first());
        lemma_flatten_split(rest, m);
        assert(rest.take(m) =~= outstanding.take(m));
        assert(rest.skip(m + 1) =~= outstanding.skip(m + 1));
        assert(held.remove(at) =~= rest.flatten());
        assert(release_one(held, keys[0]) == rest.flatten());
        lemma_exclusive_without_first_entry(outstanding, m);
        assert forall|i: int| 0 <= i < keys.drop_first().len() implies cloned(
            #[trigger] keys.drop_first()[i],
            rest[m][i],
        ) by {
            assert(cloned(keys[i + 1], outstanding[m][i + 1]));
        }
        lemma_release_returns_own_entries(rest, m, keys.drop_first());
        assert(rest.remove(m) =~= outstanding.remove(m));
    }
}

/// Every key of `part` is an entry of `held`.
pub open spec fn holds_all<K>(held: Seq<K>, part: Seq<K>) -> bool {
    forall|i: int| 0 <= i < part.len() ==> held.contains(#[trigger] part[i])
}

/// Deferred delivery. While the entries that a delivered message registered
/// are held, a queued message with a key that conflicts with a key of that
/// message is blocked, wherever it stands in the queue, and `deliver` does
/// not hand it out.
pub proof fn lemma_conflicting_parcel_waits<K: HyperKey + Clone, V>(
    pending: Seq<Parcel<K, V>>,
    n: int,
    delivered: Seq<K>,
    copies: Seq<K>,
    held: Seq<K>,
)
    requires
        clone_faithful::<K>(),
        copies_of(delivered, copies),
        holds_all(held, copies),
        0 <= n < pending.len(),
        conflicts_any(pending[n].keys@, delivered),
    ensures
        blocked(pending[n], held),
        first_free(pending, held) != n,
{
    let waiting = pending[n].keys@;
    lemma_copies_conflict_alike(delivered, copies, waiting);
    let (i, j) = choose|i: int, j: int|
        0 <= i < waiting.len() && 0 <= j < copies.len() && #[trigger] waiting[i].conflicts(
            &copies[j],
        );
    assert(held.contains(copies[j]));
    let x = choose|x: int| 0 <= x < held.len() && held[x] == copies[j];
    assert(waiting[i].conflicts(&held[x]));
    lemma_first_free(pending, held);
}

/// Skip-ahead. A queued message that no held key blocks is delivered even
/// when blocked messages stand before it: `deliver` succeeds, and it hands
/// out this message when every message before it is blocked.
pub proof fn lemma_skip_ahead<K: HyperKey, V>(pending: Seq<Parcel<K, V>>, held: Seq<K>, n: int)
    requires
        0 <= n < pending.len(),
        !blocked(pending[n], held),
    ensures
        first_free(pending, held) <= n,
        (forall|j: int| 0 <= j < n ==> blocked(#[trigger] pending[j], held)) ==> first_free(
            pending,
            held,
        ) == n,
{
    lemma_first_free(pending, held);
}

/// Nothing is lost and nothing is delivered twice. A delivery takes one
/// parcel out of the queue: the parcel at `at` is there once less often than
/// before, every other parcel as often as before, and those that stay keep
/// their order.
pub proof fn lemma_delivery_takes_one<K, V>(pending: Seq<Parcel<K, V>>, at: int)
    requires
        0 <= at < pending.len(),
    ensures
        pending.remove(at).len() == pending.len() - 1,
        pending.remove(at).to_multiset() == pending.to_multiset().remove(pending[at]),
        forall|j: int| 0 <= j < at ==> #[trigger] pending.remove(at)[j] == pending[j],
        forall|j: int| at <= j < pending.len() - 1 ==> #[trigger] pending.remove(at)[j] == pending[j + 1],
{
    vstd::seq_lib::to_multiset_remove(pending, at);
}

/// Keys that were never registered cannot be released: when some key of
/// `keys` conflicts with no held entry, `keys` is not releasable.
pub proof fn lemma_unregistered_not_releasable<K: HyperKey>(held: Seq<K>, keys: Seq<K>, i: int)
    requires
        0 <= i < keys.len(),
        forall|x: int| 0 <= x < held.len() ==> !(#[trigger] held[x]).conflicts(&keys[i]),
    ensures
        !releasable(held, keys),
    decreases keys.len(),
{
    lemma_first_match(held, keys[0]);
    if i > 0 && first_match(held, keys[0]) < held.len() {
        let at = first_match(held, keys[0]);
        let rest = release_one(held, keys[0]);
        assert forall|x: int| 0 <= x < rest.len() implies !(#[trigger] rest[x]).conflicts(
            &keys.drop_first()[i - 1],
        ) by {
            let x0 = if x < at {
                x
            } else {
                x + 1
            };
            assert(rest[x] == held[x0]);
        }
        lemma_unregistered_not_releasable(rest, keys.drop_first(), i - 1);
    }
}

/// Exclusion, in the keys of the messages themselves. Of two messages that
/// are held at the same time, no key of the one that was delivered later
/// conflicts with a key of the other; under a symmetric relation no key of
/// either conflicts with a key of the other.
pub proof fn lemma_held_messages_exclude<K: HyperKey + Clone>(
    outstanding: Seq<Seq<K>>,
    earlier: int,
    later: int,
    earlier_keys: Seq<K>,
    later_keys: Seq<K>,
)
    requires
        clone_faithful::<K>(),
        exclusive(outstanding),
        0 <= earlier < later < outstanding.len(),
        copies_of(earlier_keys, outstanding[earlier]),
        copies_of(later_keys, outstanding[later]),
    ensures
        !conflicts_any(later_keys, earlier_keys),
        symmetric::<K>() ==> !conflicts_any(earlier_keys, later_keys),
{
    if conflicts_any(later_keys, earlier_keys) {
        let (j, i) = choose|j: int, i: int|
            0 <= j < later_keys.len() && 0 <= i < earlier_keys.len()
                && #[trigger] later_keys[j].conflicts(&earlier_keys[i]);
        assert(cloned(later_keys[j], outstanding[later][j]));
        assert(cloned(earlier_keys[i], outstanding[earlier][i]));
        assert(outstanding[later][j].conflicts(&earlier_keys[i]));
        assert(outstanding[later][j].conflicts(&outstanding[earlier][i]));
    }
    if symmetric::<K>() && conflicts_any(earlier_keys, later_keys) {
        let (i, j) = choose|i: int, j: int|
            0 <= i < earlier_keys.len() && 0 <= j < later_keys.len()
                && #[trigger] earlier_keys[i].conflicts(&later_keys[j]);
        assert(later_keys[j].conflicts(&earlier_keys[i]));
    }
}

/// A deferred message becomes deliverable by the release of what blocked
/// it. Under a relation that is reflexive and symmetric, once the held
/// message `m` is released, a queued message is blocked only if it
/// conflicts with a key that another held message registered.
pub proof fn lemma_release_unblocks<K: HyperKey + Clone, V>(
    pending: Seq<Parcel<K, V>>,
    n: int,
    outstanding: Seq<Seq<K>>,
    m: int,
    keys: Seq<K>,
)
    requires
        clone_faithful::<K>(),
        symmetric::<K>(),
        reflexive::<K>(),
        exclusive(outstanding),
        0 <= m < outstanding.len(),
        copies_of(keys, outstanding[m]),
        0 <= n < pending.len(),
    ensures
        blocked(pending[n], released(outstanding.flatten(), keys)) == conflicts_any(
            pending[n].keys@,
            outstanding.remove(m).flatten(),
        ),
{
    lemma_release_returns_own_entries(outstanding, m, keys);
}

/// No key of one queued message conflicts with a key of another.
pub open spec fn independent<K: HyperKey, V>(pending: Seq<Parcel<K, V>>) -> bool {
    forall|a: int, b: int|
        0 <= a < pending.len() && 0 <= b < pending.len() && a != b ==> !conflicts_any(
            #[trigger] pending[a].keys@,
            #[trigger] pending[b].keys@,
        )
}

/// Messages that do not conflict with one another all arrive, each once and
/// in the order they were queued. When no queued message is blocked and no
/// two of them conflict, `deliver` hands out the oldest, and of the others
/// none is blocked afterwards: the same holds again of the queue that is
/// left, however many messages it has.
pub proof fn lemma_independent_messages_all_arrive<K: HyperKey + Clone, V>(
    pending: Seq<Parcel<K, V>>,
    held: Seq<K>,
    after: Seq<K>,
)
    requires
        clone_faithful::<K>(),
        pending.len() > 0,
        independent(pending),
        forall|j: int| 0 <= j < pending.len() ==> !blocked(#[trigger] pending[j], held),
        registered(held, pending[0].keys@, after),
    ensures
        first_free(pending, held) == 0,
        independent(pending.remove(0)),
        forall|j: int|
            0 <= j < pending.remove(0).len() ==> !blocked(#[trigger] pending.remove(0)[j], after),
{
    let rest = pending.remove(0);
    let copies = after.skip(held.len() as int);
    lemma_registered_copies(held, pending[0].keys@, after);
    assert forall|j: int| 0 <= j < rest.len() implies !blocked(#[trigger] rest[j], after) by {
        let waiting = rest[j].keys@;
        assert(rest[j] == pending[j + 1]);
        assert(!blocked(pending[j + 1], held));
        assert(!conflicts_any(pending[j + 1].keys@, pending[0].keys@));
        lemma_copies_conflict_alike(pending[0].keys@, copies, waiting);
        if conflicts_any(waiting, after) {
            let (i, x) = choose|i: int, x: int|
                0 <= i < waiting.len() && 0 <= x < after.len() && #[trigger] waiting[i].conflicts(
                    &after[x],
                );
            if x < held.len() {
                assert(waiting[i].conflicts(&held[x]));
            } else {
                assert(waiting[i].conflicts(&copies[x - held.len()]));
            }
        }
    }
    assert forall|a: int, b: int|
        0 <= a < rest.len() && 0 <= b < rest.len() && a != b implies !conflicts_any(
        #[trigger] rest[a].keys@,
        #[trigger] rest[b].keys@,
    ) by {
        assert(rest[a] == pending[a + 1]);
        assert(rest[b] == pending[b + 1]);
    }
}

} // verus!
