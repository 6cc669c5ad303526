//! The set of keys that delivered messages currently hold.

use crate::chain::delivery;
use crate::chain::Chain;
use crate::chain::Parcel;
use crate::clone_faithful;
use crate::HyperKey;
use std::sync::Arc;
use vstd::prelude::*;
use vstd::rwlock::RwLock;
use vstd::rwlock::RwLockPredicate;

verus! {

/// Some candidate key conflicts with some held key.
pub open spec fn conflicts_any<K: HyperKey>(candidates: Seq<K>, held: Seq<K>) -> bool {
    exists|i: int, j: int|
        0 <= i < candidates.len() && 0 <= j < held.len() && #[trigger] candidates[i].conflicts(
            &held[j],
        )
}

/// The least index `i >= start` at which `held[i]` conflicts with `key`, or
/// `held.len()` when there is none.
pub open spec fn first_match_from<K: HyperKey>(held: Seq<K>, key: K, start: int) -> int
    decreases held.len() - start,
{
    if start < 0 || start >= held.len() {
        held.len() as int
    } else if held[start].conflicts(&key) {
        start
    } else {
        first_match_from(held, key, start + 1)
    }
}

/// The index of the first held key that conflicts with `key`, or `held.len()`
/// when no held key does.
pub open spec fn first_match<K: HyperKey>(held: Seq<K>, key: K) -> int {
    first_match_from(held, key, 0)
}


/// `first_match_from` returns the least index from `start` on whose entry
/// conflicts with `key`.
pub proof fn lemma_first_match_from<K: HyperKey>(held: Seq<K>, key: K, start: int)
    requires
        0 <= start <= held.len(),
    ensures
        start <= first_match_from(held, key, start) <= held.len(),
        first_match_from(held, key, start) < held.len() ==> held[first_match_from(
            held,
            key,
            start,
        )].conflicts(&key),
        forall|j: int|
            start <= j < first_match_from(held, key, start) ==> !(#[trigger] held[j]).conflicts(
                &key,
            ),
    decreases held.len() - start,
{
    if start < held.len() && !held[start].conflicts(&key) {
        lemma_first_match_from(held, key, start + 1);
    }
}

/// `first_match` is the index of the first held key that conflicts with
/// `key`: the entry there conflicts, and no entry before it does.
pub proof fn lemma_first_match<K: HyperKey>(held: Seq<K>, key: K)
    ensures
        0 <= first_match(held, key) <= held.len(),
        first_match(held, key) < held.len() ==> held[first_match(held, key)].conflicts(&key),
        forall|j: int| 0 <= j < first_match(held, key) ==> !(#[trigger] held[j]).conflicts(&key),
{
    lemma_first_match_from(held, key, 0);
}

/// An entry that conflicts with `key`, with none before it that does, is the
/// first match.
pub proof fn lemma_first_match_at<K: HyperKey>(held: Seq<K>, key: K, at: int)
    requires
        0 <= at < held.len(),
        held[at].conflicts(&key),
        forall|j: int| 0 <= j < at ==> !(#[trigger] held[j]).conflicts(&key),
    ensures
        first_match(held, key) == at,
{
    lemma_first_match(held, key);
}

/// The held keys after one key has been given back: the first entry that
/// conflicts with `key` is gone; nothing changes when no entry conflicts.
pub open spec fn release_one<K: HyperKey>(held: Seq<K>, key: K) -> Seq<K> {
    let at = first_match(held, key);
    if at < held.len() {
        held.remove(at)
    } else {
        held
    }
}

/// Every key of `keys`, taken in order, still finds a held entry that
/// conflicts with it once the entries of the keys before it are gone.
pub open spec fn releasable<K: HyperKey>(held: Seq<K>, keys: Seq<K>) -> bool
    decreases keys.len(),
{
    keys.len() == 0 || (first_match(held, keys[0]) < held.len() && releasable(
        release_one(held, keys[0]),
        keys.drop_first(),
    ))
}

/// The held keys after `keys` have been given back one by one, in order.
pub open spec fn released<K: HyperKey>(held: Seq<K>, keys: Seq<K>) -> Seq<K>
    decreases keys.len(),
{
    if keys.len() == 0 {
        held
    } else {
        released(release_one(held, keys[0]), keys.drop_first())
    }
}

/// Release removes exactly one held entry for each key.
pub proof fn lemma_release_takes_one_per_key<K: HyperKey>(held: Seq<K>, keys: Seq<K>)
    requires
        releasable(held, keys),
    ensures
        released(held, keys).len() == held.len() - keys.len(),
    decreases keys.len(),
{
    if keys.len() > 0 {
        lemma_first_match(held, keys[0]);
        lemma_release_takes_one_per_key(release_one(held, keys[0]), keys.drop_first());
    }
}

/// `after` is `before` followed by one clone of each key of `keys`, in order.
pub open spec fn registered<K: Clone>(before: Seq<K>, keys: Seq<K>, after: Seq<K>) -> bool {
    &&& after.len() == before.len() + keys.len()
    &&& forall|i: int| 0 <= i < before.len() ==> #[trigger] after[i] == before[i]
    &&& forall|i: int| 0 <= i < keys.len() ==> cloned(#[trigger] keys[i], after[before.len() + i])
}

/// The keys held by delivered messages, oldest registration first.
pub struct HeldKeys<K> {
    keys: Vec<K>,
}

impl<K> View for HeldKeys<K> {
    type V = Seq<K>;

    closed spec fn view(&self) -> Seq<K> {
        self.keys@
    }
}

impl<K: HyperKey + Clone> HeldKeys<K> {
    /// An empty set: no key is held.
    pub fn new() -> (held: Self)
        ensures
            held@ == Seq::<K>::empty(),
    {
        HeldKeys { keys: Vec::new() }
    }

    /// The number of held entries.
    pub fn len(&self) -> (n: usize)
        ensures
            n == self@.len(),
    {
        self.keys.len()
    }

    /// Whether any key of `k` conflicts with any held key.
    pub fn contains(&self, k: &Vec<K>) -> (hit: bool)
        ensures
            hit == conflicts_any(k@, self@),
    {
        let mut i: usize = 0;
        while i < k.len()
            invariant
                i <= k@.len(),
                forall|a: int, b: int|
                    0 <= a < i && 0 <= b < self.keys@.len() ==> !(#[trigger] k@[a].conflicts(
                        &self.keys@[b],
                    )),
            decreases k@.len() - i,
        {
            let mut j: usize = 0;
            while j < self.keys.len()
                invariant
                    i < k@.len(),
                    j <= self.keys@.len(),
                    forall|b: int|
                        0 <= b < j ==> !(#[trigger] k@[i as int].conflicts(&self.keys@[b])),
                decreases self.keys@.len() - j,
            {
                if k[i].collision_detect(&self.keys[j]) {
                    assert(k@[i as int].conflicts(&self.keys@[j as int]));
                    return true;
                }
                j += 1;
            }
            i += 1;
        }
        false
    }

    /// Registers a clone of every key of `k`, after the entries already held.
    /// Exclusion is the caller's part: `put` does not look for conflicts.
    pub fn put(&mut self, k: &[K])
        ensures
            registered(old(self)@, k@, final(self)@),
    {
        self.keys.extend_from_slice(k);
    }

    /// The position of the first held key that conflicts with `key`.
    pub fn position(&self, key: &K) -> (at: Option<usize>)
        ensures
            match at {
                Some(i) => i < self@.len() && i == first_match(self@, *key),
                None => first_match(self@, *key) == self@.len(),
            },
    {
        let mut i: usize = 0;
        while i < self.keys.len()
            invariant
                i <= self.keys@.len(),
                first_match_from(self.keys@, *key, i as int) == first_match(self.keys@, *key),
            decreases self.keys@.len() - i,
        {
            if self.keys[i].collision_detect(key) {
                return Some(i);
            }
            i += 1;
        }
        None
    }

    /// Gives back the keys of `k`: for each key in turn, the first held entry
    /// that conflicts with it is removed.
    pub fn pop(&mut self, k: &[K])
        requires
            releasable(old(self)@, k@),
        ensures
            final(self)@ == released(old(self)@, k@),
            final(self)@.len() == old(self)@.len() - k@.len(),
    {
        proof {
            lemma_release_takes_one_per_key(self@, k@);
        }
        let mut n: usize = 0;
        assert(k@.skip(0) =~= k@);
        while n < k.len()
            invariant
                n <= k@.len(),
                releasable(self.keys@, k@.skip(n as int)),
                released(self.keys@, k@.skip(n as int)) == released(old(self).keys@, k@),
            decreases k@.len() - n,
        {
            proof {
                assert(k@.skip(n as int)[0] == k@[n as int]);
                assert(k@.skip(n as int).drop_first() =~= k@.skip(n as int + 1));
            }
            let at = self.position(&k[n]);
            match at {
                Some(i) => {
                    let _ = self.keys.remove(i);
                },
                None => {},
            }
            n += 1;
        }
        assert(k@.skip(n as int).len() == 0);
    }

    /// Gives back the keys of `k` when every one of them finds its entry, as
    /// `pop` does; otherwise leaves the set as it was and says so.
    pub fn try_pop(&mut self, k: &[K]) -> (done: bool)
        ensures
            done == releasable(old(self)@, k@),
            done ==> final(self)@ == released(old(self)@, k@) && final(self)@.len() == old(
                self,
            )@.len() - k@.len(),
            !done ==> final(self)@ == old(self)@,
    {
        proof {
            if releasable(self@, k@) {
                lemma_release_takes_one_per_key(self@, k@);
            }
        }
        let mut taken: Vec<(usize, K)> = Vec::new();
        let ghost mut trail: Seq<Seq<K>> = seq![self.keys@];
        let mut n: usize = 0;
        assert(k@.skip(0) =~= k@);
        while n < k.len()
            invariant
                n <= k@.len(),
                taken@.len() == n,
                trail.len() == n + 1,
                trail[0] == old(self).keys@,
                trail[n as int] == self.keys@,
                forall|m: int|
                    0 <= m < n ==> (#[trigger] taken@[m]).0 < trail[m].len() && taken@[m].1
                        == trail[m][taken@[m].0 as int] && trail[m + 1] == trail[m].remove(
                        taken@[m].0 as int,
                    ),
                releasable(self.keys@, k@.skip(n as int)) == releasable(old(self).keys@, k@),
                released(self.keys@, k@.skip(n as int)) == released(old(self).keys@, k@),
            decreases k@.len() - n,
        {
            proof {
                assert(k@.skip(n as int)[0] == k@[n as int]);
                assert(k@.skip(n as int).drop_first() =~= k@.skip(n as int + 1));
            }
            match self.position(&k[n]) {
                Some(i) => {
                    let entry = self.keys.remove(i);
                    taken.push((i, entry));
                    proof {
                        trail = trail.push(self.keys@);
                    }
                    n += 1;
                },
                None => {
                    let ghost log = taken@;
                    let mut m: usize = n;
                    while m > 0
                        invariant
                            m <= n,
                            taken@ == log.take(m as int),
                            log.len() == n,
                            trail.len() == n + 1,
                            self.keys@ == trail[m as int],
                            forall|i: int|
                                0 <= i < n ==> (#[trigger] log[i]).0 < trail[i].len() && log[i].1
                                    == trail[i][log[i].0 as int] && trail[i + 1] == trail[i].remove(
                                    log[i].0 as int,
                                ),
                        decreases m,
                    {
                        let last = taken.pop();
                        let (at, entry) = last.unwrap();
                        assert(log[m - 1] == (at, entry));
                        self.keys.insert(at, entry);
                        m -= 1;
                        assert(self.keys@ =~= trail[m as int]);
                        assert(taken@ =~= log.take(m as int));
                    }
                    return false;
                },
            }
        }
        assert(k@.skip(n as int).len() == 0);
        true
    }
}


/// What the filter's lock accepts: any set of held keys.
pub struct AnyHeld;

impl<K> RwLockPredicate<HeldKeys<K>> for AnyHeld {
    open spec fn inv(self, v: HeldKeys<K>) -> bool {
        true
    }
}

/// A shared handle to one lock-guarded set of held keys. Clones of a handle
/// reach the same set.
///
/// Other holders may change the set between any two calls, so a contract
/// here speaks of the set as it stood at one moment during the call; what
/// each operation does to a set is stated by [`HeldKeys`].
pub struct Filter<K: HyperKey + Clone> {
    active_keys: Arc<RwLock<HeldKeys<K>, AnyHeld>>,
}

impl<K: HyperKey + Clone> Filter<K> {
    /// Whether any key of `k` conflicts with a key held at the moment of the
    /// call: [`HeldKeys::contains`], under the lock.
    pub fn contains(&self, k: &Vec<K>) -> (hit: bool)
        ensures
            exists|held: Seq<K>| hit == #[trigger] conflicts_any(k@, held),
    {
        let guard = self.active_keys.acquire_read();
        let hit = guard.borrow().contains(k);
        assert(hit == conflicts_any(k@, guard@@));
        guard.release_read();
        hit
    }

    /// Registers a clone of every key of `k`: [`HeldKeys::put`], under the
    /// lock.
    pub fn put(&self, k: &[K]) {
        let (mut held, guard) = self.active_keys.acquire_write();
        held.put(k);
        guard.release_write(held);
    }

    /// Gives back the keys of `k` when each of them finds a held entry that
    /// conflicts with it; otherwise removes nothing and returns `false`:
    /// [`HeldKeys::try_pop`], under the lock.
    pub fn pop(&self, k: &[K]) -> (done: bool)
        ensures
            exists|held: Seq<K>| done == #[trigger] releasable(held, k@),
    {
        let (mut held, guard) = self.active_keys.acquire_write();
        let ghost before = held@;
        let done = held.try_pop(k);
        assert(done == releasable(before, k@));
        guard.release_write(held);
        done
    }

    /// Runs one delivery of `chain` against the keys held at the moment of
    /// the call, with the set locked from the scan to the registration:
    /// [`Chain::deliver`], under the lock. What is handed out, and what the
    /// chain is afterwards, is what one delivery gives for the keys held at
    /// that moment.
    pub(crate) fn deliver_from<V>(&self, chain: &mut Chain<K, V>) -> (out: Option<Parcel<K, V>>)
        requires
            old(chain).wf(),
        ensures
            final(chain).wf(),
            exists|held: Seq<K>, after: Seq<K>| #[trigger]
                delivery(old(chain)@, held, out, final(chain)@, after),
    {
        let (mut held, guard) = self.active_keys.acquire_write();
        let ghost before = held@;
        let out = chain.deliver(&mut held);
        assert(delivery(old(chain)@, before, out, chain@, held@));
        guard.release_write(held);
        out
    }
}

impl<K: HyperKey + Clone> Default for Filter<K> {
    fn default() -> (filter: Self) {
        Filter { active_keys: Arc::new(RwLock::new(HeldKeys::new(), Ghost(AnyHeld))) }
    }
}

impl<K: HyperKey + Clone> Clone for Filter<K> {
    fn clone(&self) -> (copy: Self)
        ensures
            copy == *self,
    {
        Filter { active_keys: self.active_keys.clone() }
    }
}


/// A key that conflicts with exactly the keys that carry the same number.
pub struct SimpleKey {
    pub key: usize,
}

impl Clone for SimpleKey {
    fn clone(&self) -> (copy: Self)
        ensures
            copy == *self,
    {
        SimpleKey { key: self.key }
    }
}

impl HyperKey for SimpleKey {
    open spec fn conflicts(&self, other: &Self) -> bool {
        self.key == other.key
    }

    fn collision_detect(&self, other: &Self) -> (hit: bool) {
        self.key == other.key
    }
}

/// Equality of the numbers is reflexive and symmetric, and a clone carries
/// the number of its source.
pub proof fn lemma_simple_key_relation()
    ensures
        clone_faithful::<SimpleKey>(),
        crate::laws::symmetric::<SimpleKey>(),
        crate::laws::reflexive::<SimpleKey>(),
{
}

} // verus!
