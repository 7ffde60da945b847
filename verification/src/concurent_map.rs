//! A hash map made of a fixed number of buckets, each a guarded list of
//! key/value pairs with the most recently inserted pair at the front.

use vstd::prelude::*;
use crate::hasher::{HashKey, generic_xxhash, xor_hash};

verus! {

/// The number of buckets of a map made by `LocklessMap::new`.
pub const DEFAULT_CAPACITY: usize = 16;

/// One bucket: a guard flag and the list of the pairs stored in it.
pub struct GuardCell<K, V> {
    guard: bool,
    list: Vec<(K, V)>,
}

/// The hash of a key.
pub open spec fn key_hash<K: HashKey>(k: K) -> u64 {
    xor_hash(k.key_words())
}

/// The bucket that a key belongs to in a map with `cap` buckets.
pub open spec fn bucket_of<K: HashKey>(k: K, cap: usize) -> int {
    ((key_hash(k) as usize) % cap) as int
}

/// Some pair of `s` has key `k`.
pub open spec fn has_key<K, V>(s: Seq<(K, V)>, k: K) -> bool {
    exists|i: int| 0 <= i < s.len() && (#[trigger] s[i]).0 == k
}

/// No two pairs of `s` have the same key.
pub open spec fn keys_distinct<K, V>(s: Seq<(K, V)>) -> bool {
    forall|i: int, j: int|
        0 <= i < s.len() && 0 <= j < s.len() && i != j ==> (#[trigger] s[i]).0 != (#[trigger] s[j]).0
}

/// The position of a pair of `s` with key `k` (meaningful when `has_key(s, k)`).
pub open spec fn key_position<K, V>(s: Seq<(K, V)>, k: K) -> int {
    choose|i: int| 0 <= i < s.len() && (#[trigger] s[i]).0 == k
}

/// `s` without its pair of key `k`, if it has one.
pub open spec fn without_key<K, V>(s: Seq<(K, V)>, k: K) -> Seq<(K, V)> {
    if has_key(s, k) {
        s.remove(key_position(s, k))
    } else {
        s
    }
}

/// The position in `s` of the pair at position `j` of `without_key(s, k)`.
pub open spec fn source_index<K, V>(s: Seq<(K, V)>, k: K, j: int) -> int {
    if has_key(s, k) && j >= key_position(s, k) {
        j + 1
    } else {
        j
    }
}

/// The map `m` after inserting the pairs of `s` in order, so that a later
/// pair of a key overrides an earlier one.
pub open spec fn insert_all<K, V>(m: Map<K, V>, s: Seq<(K, V)>) -> Map<K, V>
    decreases s.len(),
{
    if s.len() == 0 {
        m
    } else {
        insert_all(m, s.drop_last()).insert(s.last().0, s.last().1)
    }
}

/// Bucket `b` of a map with `cap` buckets, starting as `s`, after the pairs
/// of `data` are inserted in order: each pair of a key that hashes to `b`
/// replaces the pair of its key and goes to the front.
pub open spec fn bucket_after_inserts<K: HashKey, V>(
    s: Seq<(K, V)>,
    data: Seq<(K, V)>,
    b: int,
    cap: usize,
) -> Seq<(K, V)>
    decreases data.len(),
{
    if data.len() == 0 {
        s
    } else {
        let prev = bucket_after_inserts(s, data.drop_last(), b, cap);
        let (k, v) = data.last();
        if bucket_of(k, cap) == b {
            seq![(k, v)] + without_key(prev, k)
        } else {
            prev
        }
    }
}

/// The sum of the list lengths of `cells`.
pub open spec fn total_len<K, V>(cells: Seq<GuardCell<K, V>>) -> nat
    decreases cells.len(),
{
    if cells.len() == 0 {
        0
    } else {
        total_len(cells.drop_last()) + cells.last().entries().len()
    }
}

proof fn lemma_total_len_update<K, V>(cells: Seq<GuardCell<K, V>>, b: int, c: GuardCell<K, V>)
    requires
        0 <= b < cells.len(),
    ensures
        total_len(cells.update(b, c)) == total_len(cells) - cells[b].entries().len()
            + c.entries().len(),
    decreases cells.len(),
{
    if b == cells.len() - 1 {
        assert(cells.update(b, c).drop_last() =~= cells.drop_last());
    } else {
        lemma_total_len_update(cells.drop_last(), b, c);
        assert(cells.update(b, c).drop_last() =~= cells.drop_last().update(b, c));
    }
}

proof fn lemma_total_len_prefix<K, V>(cells: Seq<GuardCell<K, V>>, i: int)
    requires
        0 <= i <= cells.len(),
    ensures
        total_len(cells.take(i)) <= total_len(cells),
    decreases cells.len() - i,
{
    if i < cells.len() {
        lemma_total_len_prefix(cells, i + 1);
        assert(cells.take(i + 1).drop_last() =~= cells.take(i));
    } else {
        assert(cells.take(i) =~= cells);
    }
}

proof fn lemma_without_key<K, V>(s: Seq<(K, V)>, k: K)
    requires
        keys_distinct(s),
    ensures
        keys_distinct(without_key(s, k)),
        !has_key(without_key(s, k), k),
        forall|kk: K| kk != k && has_key(s, kk) ==> #[trigger] has_key(without_key(s, k), kk),
        forall|j: int|
            0 <= j < without_key(s, k).len() ==> 0 <= source_index(s, k, j) < s.len()
                && #[trigger] without_key(s, k)[j] == s[source_index(s, k, j)],
        without_key(s, k).len() == (if has_key(s, k) {
            s.len() - 1
        } else {
            s.len() as int
        }),
{
    let w = without_key(s, k);
    if has_key(s, k) {
        let p = key_position(s, k);
        assert forall|x: int, y: int|
            0 <= x < w.len() && 0 <= y < w.len() && x != y implies (#[trigger] w[x]).0 != (
            #[trigger] w[y]).0 by {
            let xi = if x < p { x } else { x + 1 };
            let yi = if y < p { y } else { y + 1 };
            assert(s[xi] == w[x]);
            assert(s[yi] == w[y]);
        }
        assert forall|kk: K| kk != k && has_key(s, kk) implies #[trigger] has_key(w, kk) by {
            let i = choose|i: int| 0 <= i < s.len() && (#[trigger] s[i]).0 == kk;
            if i < p {
                assert(w[i] == s[i]);
            } else {
                assert(i != p);
                assert(w[i - 1] == s[i]);
            }
        }
        if has_key(w, k) {
            let i = choose|i: int| 0 <= i < w.len() && (#[trigger] w[i]).0 == k;
            let si = if i < p { i } else { i + 1 };
            assert(s[si] == w[i]);
        }
    }
}

proof fn lemma_prepend_key<K, V>(s: Seq<(K, V)>, k: K, v: V)
    requires
        keys_distinct(s),
        !has_key(s, k),
    ensures
        keys_distinct(seq![(k, v)] + s),
        has_key(seq![(k, v)] + s, k),
        forall|kk: K| has_key(s, kk) ==> #[trigger] has_key(seq![(k, v)] + s, kk),
{
    let t = seq![(k, v)] + s;
    assert(t[0] == (k, v));
    assert forall|x: int, y: int|
        0 <= x < t.len() && 0 <= y < t.len() && x != y implies (#[trigger] t[x]).0 != (
        #[trigger] t[y]).0 by {
        if x > 0 {
            assert(t[x] == s[x - 1]);
        }
        if y > 0 {
            assert(t[y] == s[y - 1]);
        }
    }
    assert forall|kk: K| has_key(s, kk) implies #[trigger] has_key(t, kk) by {
        let i = choose|i: int| 0 <= i < s.len() && (#[trigger] s[i]).0 == kk;
        assert(t[i + 1] == s[i]);
    }
}

impl<K, V> GuardCell<K, V> {
    /// The guard is taken.
    pub closed spec fn is_locked(&self) -> bool {
        self.guard
    }

    /// The pairs of the bucket, front first.
    pub closed spec fn entries(&self) -> Seq<(K, V)> {
        self.list@
    }

    /// An empty bucket with its guard released.
    pub fn new() -> (cell: Self)
        ensures
            !cell.is_locked(),
            cell.entries() == Seq::<(K, V)>::empty(),
    {
        GuardCell { guard: false, list: Vec::new() }
    }

    /// Takes the guard. A guard that is already taken is never released
    /// while its holder waits, so it must be free.
    pub fn lock(&mut self)
        requires
            !old(self).is_locked(),
        ensures
            final(self).is_locked(),
            final(self).entries() == old(self).entries(),
    {
        self.guard = true;
    }

    /// Releases the guard.
    pub fn unlock(&mut self)
        ensures
            !final(self).is_locked(),
            final(self).entries() == old(self).entries(),
    {
        self.guard = false;
    }
}

impl<K: HashKey, V> GuardCell<K, V> {
    /// The position of the first pair whose key is `key`.
    fn find(&self, key: &K) -> (pos: Option<usize>)
        ensures
            pos matches Some(j) ==> j < self.entries().len() && self.entries()[j as int].0 == *key,
            pos is None ==> !has_key(self.entries(), *key),
    {
        let mut j: usize = 0;
        while j < self.list.len()
            invariant
                j <= self.list@.len(),
                forall|i: int| 0 <= i < j ==> (#[trigger] self.list@[i]).0 != *key,
            decreases self.list@.len() - j,
        {
            if self.list[j].0.same_key(key) {
                return Some(j);
            }
            j = j + 1;
        }
        None
    }
}

/// A hash map of `capacity` buckets. A pair with key `k` lives in bucket
/// `bucket_of(k, capacity)`; inside a bucket the newest pair comes first.
#[verifier::reject_recursive_types(K)]
pub struct LocklessMap<K, V> {
    map: Vec<GuardCell<K, V>>,
    capacity: usize,
    contents: Ghost<Map<K, V>>,
}

impl<K, V> View for LocklessMap<K, V> {
    type V = Map<K, V>;

    /// The key/value pairs that the map holds.
    closed spec fn view(&self) -> Map<K, V> {
        self.contents@
    }
}

impl<K: HashKey, V> LocklessMap<K, V> {
    /// The number of buckets.
    pub closed spec fn spec_capacity(&self) -> usize {
        self.capacity
    }

    /// The pairs of bucket `b`, front first.
    pub closed spec fn bucket(&self, b: int) -> Seq<(K, V)> {
        self.map@[b].entries()
    }

    /// Whether the guard of bucket `b` is taken.
    pub closed spec fn bucket_locked(&self, b: int) -> bool {
        self.map@[b].is_locked()
    }

    /// The pair `e`, found in bucket `b`, belongs there and is what the map holds for its key.
    closed spec fn entry_ok(&self, b: int, e: (K, V)) -> bool {
        &&& bucket_of(e.0, self.capacity) == b
        &&& self.contents@.contains_key(e.0)
        &&& self.contents@[e.0] == e.1
    }

    closed spec fn bucket_wf(&self, b: int) -> bool {
        &&& !self.map@[b].is_locked()
        &&& keys_distinct(self.map@[b].entries())
        &&& forall|j: int|
            0 <= j < self.map@[b].entries().len() ==> self.entry_ok(
                b,
                #[trigger] self.map@[b].entries()[j],
            )
    }

    /// Well-formedness: every bucket is released and holds distinct keys that
    /// hash to it; the buckets together hold exactly the pairs of the view,
    /// whose number fits in a `usize`.
    pub closed spec fn wf(&self) -> bool {
        &&& self.map@.len() == self.capacity
        &&& self.contents@.dom().finite()
        &&& self.contents@.len() == total_len(self.map@)
        &&& total_len(self.map@) <= usize::MAX
        &&& forall|b: int| 0 <= b < self.map@.len() ==> #[trigger] self.bucket_wf(b)
        &&& forall|k: K| #[trigger]
            self.contents@.contains_key(k) ==> self.capacity > 0 && has_key(
                self.map@[bucket_of(k, self.capacity)].entries(),
                k,
            )
    }

    /// An empty map of `DEFAULT_CAPACITY` buckets.
    pub fn new() -> (m: Self)
        ensures
            m.wf(),
            m@ == Map::<K, V>::empty(),
            m.spec_capacity() == DEFAULT_CAPACITY,
    {
        Self::with_capacity(DEFAULT_CAPACITY)
    }

    /// An empty map of `capacity` buckets.
    pub fn with_capacity(capacity: usize) -> (m: Self)
        ensures
            m.wf(),
            m@ == Map::<K, V>::empty(),
            m.spec_capacity() == capacity,
    {
        let mut vec: Vec<GuardCell<K, V>> = Vec::with_capacity(capacity);
        let mut i: usize = 0;
        while i < capacity
            invariant
                i <= capacity,
                vec@.len() == i,
                total_len(vec@) == 0,
                forall|b: int|
                    0 <= b < i ==> !(#[trigger] vec@[b]).is_locked() && vec@[b].entries().len() == 0,
            decreases capacity - i,
        {
            let ghost before = vec@;
            vec.push(GuardCell::new());
            assert(vec@.drop_last() =~= before);
            i = i + 1;
        }
        let m = LocklessMap { map: vec, capacity, contents: Ghost(Map::empty()) };
        assert forall|b: int| 0 <= b < m.map@.len() implies #[trigger] m.bucket_wf(b) by {
            assert(m.map@[b].entries().len() == 0);
        }
        m
    }

    /// The index of the bucket of `key`.
    fn bucket_index(&self, key: &K) -> (b: usize)
        requires
            self.capacity > 0,
        ensures
            b == bucket_of(*key, self.capacity),
            b < self.capacity,
    {
        let hash = generic_xxhash(key);
        (hash as usize) % self.capacity
    }

    /// The number of pairs the map holds.
    pub fn size(&self) -> (n: usize)
        requires
            self.wf(),
        ensures
            n == self@.len(),
    {
        let mut list_size: usize = 0;
        let mut i: usize = 0;
        while i < self.map.len()
            invariant
                self.wf(),
                i <= self.map@.len(),
                list_size == total_len(self.map@.take(i as int)),
            decreases self.map@.len() - i,
        {
            proof {
                lemma_total_len_prefix(self.map@, i + 1);
                assert(self.map@.take(i + 1).drop_last() =~= self.map@.take(i as int));
            }
            list_size = list_size + self.map[i].list.len();
            i = i + 1;
        }
        assert(self.map@.take(self.map@.len() as int) =~= self.map@);
        list_size
    }

    /// Whether the map holds a pair with key `key`.
    pub fn contains_key(&self, key: &K) -> (found: bool)
        requires
            self.wf(),
            self.spec_capacity() > 0,
        ensures
            found == self@.contains_key(*key),
    {
        let index = self.bucket_index(key);
        let pos = self.map[index].find(key);
        proof {
            if let Some(j) = pos {
                assert(self.bucket_wf(index as int));
                assert(self.entry_ok(index as int, self.map@[index as int].entries()[j as int]));
            }
        }
        pos.is_some()
    }

    /// The value that the map holds for `key`, if any.
    pub fn get(&self, key: &K) -> (value: Option<&V>)
        requires
            self.wf(),
            self.spec_capacity() > 0,
        ensures
            value is Some <==> self@.contains_key(*key),
            value matches Some(v) ==> *v == self@[*key],
    {
        let index = self.bucket_index(key);
        let pos = self.map[index].find(key);
        match pos {
            Some(j) => {
                proof {
                    assert(self.bucket_wf(index as int));
                    assert(self.entry_ok(index as int, self.map@[index as int].entries()[j as int]));
                }
                Some(&self.map[index].list[j].1)
            },
            None => None,
        }
    }
    /// The map stays well formed when only the bucket of `key` changes, in a
    /// way that keeps the view and that bucket consistent.
    proof fn lemma_replace_bucket(pre: Self, post: Self, b: int, key: K)
        requires
            pre.wf(),
            pre.capacity > 0,
            b == bucket_of(key, pre.capacity),
            post.capacity == pre.capacity,
            post.map@ == pre.map@.update(b, post.map@[b]),
            !post.map@[b].is_locked(),
            keys_distinct(post.map@[b].entries()),
            forall|j: int|
                0 <= j < post.map@[b].entries().len() ==> post.entry_ok(
                    b,
                    #[trigger] post.map@[b].entries()[j],
                ),
            forall|kk: K|
                kk != key ==> (#[trigger] post@.contains_key(kk) <==> pre@.contains_key(kk)),
            forall|kk: K| kk != key && pre@.contains_key(kk) ==> #[trigger] post@[kk] == pre@[kk],
            forall|kk: K|
                kk != key && has_key(pre.map@[b].entries(), kk) ==> #[trigger] has_key(
                    post.map@[b].entries(),
                    kk,
                ),
            post@.contains_key(key) ==> has_key(post.map@[b].entries(), key),
            post@.dom().finite(),
            post@.len() == total_len(post.map@),
            total_len(post.map@) <= usize::MAX,
        ensures
            post.wf(),
    {
        assert forall|bb: int| 0 <= bb < post.map@.len() implies #[trigger] post.bucket_wf(bb) by {
            if bb != b {
                assert(pre.bucket_wf(bb));
                assert(post.map@[bb] == pre.map@[bb]);
                assert forall|j: int| 0 <= j < post.map@[bb].entries().len() implies post.entry_ok(
                    bb,
                    #[trigger] post.map@[bb].entries()[j],
                ) by {
                    assert(pre.entry_ok(bb, pre.map@[bb].entries()[j]));
                }
            }
        }
        assert forall|kk: K| #[trigger] post@.contains_key(kk) implies post.capacity > 0 && has_key(
            post.map@[bucket_of(kk, post.capacity)].entries(),
            kk,
        ) by {
            if kk != key {
                assert(pre@.contains_key(kk));
                if bucket_of(kk, post.capacity) == b {
                    assert(has_key(post.map@[b].entries(), kk));
                }
            }
        }
    }

    /// The number of buckets.
    pub fn capacity(&self) -> (cap: usize)
        ensures
            cap == self.spec_capacity(),
    {
        self.capacity
    }

    /// The pairs of bucket `b`, front (newest) first.
    pub fn bucket_entries(&self, b: usize) -> (pairs: &[(K, V)])
        requires
            self.wf(),
            b < self.spec_capacity(),
        ensures
            pairs@ == self.bucket(b as int),
    {
        self.map[b].list.as_slice()
    }

    /// Stores `value` under `key` at the front of the key's bucket, replacing
    /// the pair of that key if there was one, and returns the replaced value.
    pub fn insert(&mut self, key: K, value: V) -> (previous: Option<V>)
        requires
            old(self).wf(),
            old(self).spec_capacity() > 0,
            !old(self)@.contains_key(key) ==> old(self)@.len() < usize::MAX,
        ensures
            final(self).wf(),
            final(self).spec_capacity() == old(self).spec_capacity(),
            final(self)@ == old(self)@.insert(key, value),
            previous == (if old(self)@.contains_key(key) {
                Some(old(self)@[key])
            } else {
                None::<V>
            }),
            final(self).bucket(bucket_of(key, old(self).spec_capacity())) == seq![(key, value)]
                + without_key(old(self).bucket(bucket_of(key, old(self).spec_capacity())), key),
            forall|b: int|
                0 <= b < old(self).spec_capacity() && b != bucket_of(key, old(self).spec_capacity())
                    ==> #[trigger] final(self).bucket(b) == old(self).bucket(b),
    {
        let ghost pre = *self;
        let ghost k = key;
        let index = self.bucket_index(&key);
        let ghost b = index as int;
        proof {
            assert(pre.bucket_wf(b));
        }
        self.map[index].lock();
        let pos = self.map[index].find(&key);
        let ghost old_list = pre.map@[b].entries();
        let previous = match pos {
            Some(j) => {
                let pair = self.map[index].list.remove(j);
                Some(pair.1)
            },
            None => None,
        };
        let ghost mid_list = self.map@[b].entries();
        self.map[index].list.insert(0, (key, value));
        self.map[index].unlock();
        self.contents = Ghost(self.contents@.insert(k, value));
        proof {
            let new_list = self.map@[b].entries();
            assert(new_list =~= seq![(k, value)] + mid_list);
            if let Some(j) = pos {
                assert(pre.entry_ok(b, old_list[j as int]));
                assert(mid_list =~= old_list.remove(j as int));
                assert(has_key(old_list, k));
                assert(key_position(old_list, k) == j);
            } else {
                assert(!pre@.contains_key(k));
            }
            assert(mid_list == without_key(old_list, k));
            lemma_without_key(old_list, k);
            lemma_prepend_key(mid_list, k, value);
            assert(self.map@ =~= pre.map@.update(b, self.map@[b]));
            lemma_total_len_update(pre.map@, b, self.map@[b]);
            assert forall|j: int| 0 <= j < new_list.len() implies self.entry_ok(
                b,
                #[trigger] new_list[j],
            ) by {
                if j > 0 {
                    assert(new_list[j] == mid_list[j - 1]);
                    assert(pre.entry_ok(b, old_list[source_index(old_list, k, j - 1)]));
                }
            }
            Self::lemma_replace_bucket(pre, *self, b, k);
        }
        previous
    }



    /// Removes the pair of key `key`, if there is one, and returns its value.
    pub fn remove(&mut self, key: &K) -> (removed: Option<V>)
        requires
            old(self).wf(),
            old(self).spec_capacity() > 0,
        ensures
            final(self).wf(),
            final(self).spec_capacity() == old(self).spec_capacity(),
            final(self)@ == old(self)@.remove(*key),
            removed == (if old(self)@.contains_key(*key) {
                Some(old(self)@[*key])
            } else {
                None::<V>
            }),
            final(self).bucket(bucket_of(*key, old(self).spec_capacity())) == without_key(
                old(self).bucket(bucket_of(*key, old(self).spec_capacity())),
                *key,
            ),
            forall|b: int|
                0 <= b < old(self).spec_capacity() && b != bucket_of(*key, old(self).spec_capacity())
                    ==> #[trigger] final(self).bucket(b) == old(self).bucket(b),
    {
        let ghost pre = *self;
        let index = self.bucket_index(key);
        let ghost b = index as int;
        let ghost old_list = pre.map@[b].entries();
        proof {
            assert(pre.bucket_wf(b));
            lemma_without_key(old_list, *key);
        }
        self.map[index].lock();
        let pos = self.map[index].find(key);
        match pos {
            Some(j) => {
                let pair = self.map[index].list.remove(j);
                self.map[index].unlock();
                self.contents = Ghost(self.contents@.remove(*key));
                proof {
                    let new_list = self.map@[b].entries();
                    assert(pre.entry_ok(b, old_list[j as int]));
                    assert(new_list =~= old_list.remove(j as int));
                    assert(key_position(old_list, *key) == j);
                    assert(new_list == without_key(old_list, *key));
                    assert(self.map@ =~= pre.map@.update(b, self.map@[b]));
                    lemma_total_len_update(pre.map@, b, self.map@[b]);
                    assert forall|i: int| 0 <= i < new_list.len() implies self.entry_ok(
                        b,
                        #[trigger] new_list[i],
                    ) by {
                        assert(pre.entry_ok(b, old_list[source_index(old_list, *key, i)]));
                    }
                    Self::lemma_replace_bucket(pre, *self, b, *key);
                }
                Some(pair.1)
            },
            None => {
                self.map[index].unlock();
                proof {
                    let new_list = self.map@[b].entries();
                    assert(!pre@.contains_key(*key));
                    assert(pre@.remove(*key) =~= pre@);
                    assert(new_list == without_key(old_list, *key));
                    assert(self.map@ =~= pre.map@.update(b, self.map@[b]));
                    lemma_total_len_update(pre.map@, b, self.map@[b]);
                    assert forall|i: int| 0 <= i < new_list.len() implies self.entry_ok(
                        b,
                        #[trigger] new_list[i],
                    ) by {
                        assert(pre.entry_ok(b, old_list[i]));
                    }
                    Self::lemma_replace_bucket(pre, *self, b, *key);
                }
                None
            },
        }
    }

    /// Inserts the pairs of `dataset` one after the other.
    pub fn put_data_into_map(&mut self, dataset: Vec<(K, V)>)
        requires
            old(self).wf(),
            dataset@.len() > 0 ==> old(self).spec_capacity() > 0,
            old(self)@.len() + dataset@.len() <= usize::MAX,
        ensures
            final(self).wf(),
            final(self).spec_capacity() == old(self).spec_capacity(),
            final(self)@ == insert_all(old(self)@, dataset@),
            forall|b: int|
                0 <= b < old(self).spec_capacity() ==> #[trigger] final(self).bucket(b)
                    == bucket_after_inserts(old(self).bucket(b), dataset@, b, old(self).spec_capacity()),
    {
        let ghost pre = self@;
        let ghost pre_map = *self;
        let ghost data = dataset@;
        for x in it: dataset
            invariant
                self.wf(),
                self.spec_capacity() == old(self).spec_capacity(),
                it.seq() == data,
                data.len() > 0 ==> self.spec_capacity() > 0,
                pre.len() + data.len() <= usize::MAX,
                self@ == insert_all(pre, data.take(it.index() as int)),
                self@.len() <= pre.len() + it.index(),
                forall|b: int|
                    0 <= b < self.spec_capacity() ==> #[trigger] self.bucket(b)
                        == bucket_after_inserts(
                        pre_map.bucket(b),
                        data.take(it.index() as int),
                        b,
                        self.spec_capacity(),
                    ),
        {
            let ghost i = it.index();
            let ghost before = *self;
            proof {
                assert(data.take(i + 1).drop_last() =~= data.take(i as int));
                assert(data.take(i + 1).last() == x);
            }
            self.insert(x.0, x.1);
            proof {
                assert forall|b: int| 0 <= b < self.spec_capacity() implies #[trigger] self.bucket(b)
                    == bucket_after_inserts(
                    pre_map.bucket(b),
                    data.take(i + 1),
                    b,
                    self.spec_capacity(),
                ) by {
                    assert(before.bucket(b) == bucket_after_inserts(
                        pre_map.bucket(b),
                        data.take(i as int),
                        b,
                        self.spec_capacity(),
                    ));
                }
            }
        }
        proof {
            assert(data.take(data.len() as int) =~= data);
        }
    }
}

/// After `insert(k, v)` the map holds `v` under `k`, and every other key
/// keeps what it had.
pub proof fn law_insert_then_get<K, V>(m: Map<K, V>, k: K, v: V, other: K)
    ensures
        m.insert(k, v).contains_key(k),
        m.insert(k, v)[k] == v,
        other != k ==> m.insert(k, v).contains_key(other) == m.contains_key(other),
        other != k && m.contains_key(other) ==> m.insert(k, v)[other] == m[other],
{
}

/// Inserting a key that is present leaves the size unchanged; inserting a
/// new key adds one.
pub proof fn law_insert_size<K, V>(m: Map<K, V>, k: K, v: V)
    requires
        m.dom().finite(),
    ensures
        m.insert(k, v).len() == (if m.contains_key(k) {
            m.len()
        } else {
            m.len() + 1
        }),
{
    if m.contains_key(k) {
        assert(m.insert(k, v).dom() =~= m.dom());
    }
}

/// Inserting the same key twice keeps only the second value.
pub proof fn law_insert_overrides<K, V>(m: Map<K, V>, k: K, v1: V, v2: V)
    ensures
        m.insert(k, v1).insert(k, v2) == m.insert(k, v2),
{
    assert(m.insert(k, v1).insert(k, v2) =~= m.insert(k, v2));
}

/// After `remove(k)` the key is absent, every other key keeps what it had,
/// and the size drops by one exactly when the key was present.
pub proof fn law_remove_then_get<K, V>(m: Map<K, V>, k: K, other: K)
    requires
        m.dom().finite(),
    ensures
        !m.remove(k).contains_key(k),
        other != k ==> m.remove(k).contains_key(other) == m.contains_key(other),
        other != k && m.contains_key(other) ==> m.remove(k)[other] == m[other],
        m.remove(k).len() == (if m.contains_key(k) {
            m.len() - 1
        } else {
            m.len() as int
        }),
{
    if !m.contains_key(k) {
        assert(m.remove(k).dom() =~= m.dom());
    }
}

/// Removing a key that was just inserted as new gives back the map from
/// before the insert.
pub proof fn law_remove_undoes_insert<K, V>(m: Map<K, V>, k: K, v: V)
    requires
        !m.contains_key(k),
    ensures
        m.insert(k, v).remove(k) == m,
{
    assert(m.insert(k, v).remove(k) =~= m);
}

/// Putting a dataset of one pair into a map is inserting that pair, and
/// putting a longer dataset inserts its last pair after all the others.
pub proof fn law_put_data_is_inserts<K, V>(m: Map<K, V>, s: Seq<(K, V)>, k: K, v: V)
    ensures
        insert_all(m, seq![(k, v)]) == m.insert(k, v),
        insert_all(m, s.push((k, v))) == insert_all(m, s).insert(k, v),
        insert_all(m, Seq::<(K, V)>::empty()) == m,
{
    assert(seq![(k, v)].drop_last() =~= Seq::<(K, V)>::empty());
    assert(insert_all(m, Seq::<(K, V)>::empty()) == m);
    assert(s.push((k, v)).drop_last() =~= s);
}

impl<K: HashKey, V> LocklessMap<K, V> {
    /// In a well-formed map every bucket's guard is released, every bucket
    /// holds each key at most once and only keys that hash to it, and a key
    /// is in the map exactly when its bucket holds a pair of that key, whose
    /// value is the map's value for it.
    pub proof fn law_bucket_layout(&self, b: int, j: int, k: K)
        requires
            self.wf(),
            0 <= b < self.spec_capacity(),
        ensures
            !self.bucket_locked(b),
            keys_distinct(self.bucket(b)),
            0 <= j < self.bucket(b).len() ==> bucket_of(self.bucket(b)[j].0, self.spec_capacity()) == b
                && self@.contains_key(self.bucket(b)[j].0) && self@[self.bucket(b)[j].0]
                == self.bucket(b)[j].1,
            self@.contains_key(k) <==> has_key(self.bucket(bucket_of(k, self.spec_capacity())), k),
    {
        assert(self.bucket_wf(b));
        if 0 <= j < self.bucket(b).len() {
            assert(self.entry_ok(b, self.map@[b].entries()[j]));
        }
        let bk = bucket_of(k, self.capacity);
        if has_key(self.bucket(bk), k) {
            assert(self.bucket_wf(bk));
            let i = choose|i: int| 0 <= i < self.bucket(bk).len() && (#[trigger] self.bucket(bk)[i]).0 == k;
            assert(self.entry_ok(bk, self.map@[bk].entries()[i]));
        }
    }

    /// The number of pairs in buckets `0..n`.
    pub open spec fn pairs_in_buckets(&self, n: int) -> nat
        decreases n,
    {
        if n <= 0 {
            0
        } else {
            self.pairs_in_buckets(n - 1) + self.bucket(n - 1).len()
        }
    }

    proof fn lemma_pairs_in_buckets(&self, n: int)
        requires
            0 <= n <= self.map@.len(),
        ensures
            self.pairs_in_buckets(n) == total_len(self.map@.take(n)),
        decreases n,
    {
        if n > 0 {
            self.lemma_pairs_in_buckets(n - 1);
            assert(self.map@.take(n).drop_last() =~= self.map@.take(n - 1));
        }
    }

    /// A well-formed map holds finitely many pairs, and its size is the
    /// total number of pairs in its buckets.
    pub proof fn law_size_is_bucket_total(&self)
        requires
            self.wf(),
        ensures
            self@.dom().finite(),
            self@.len() == self.pairs_in_buckets(self.spec_capacity() as int),
    {
        self.lemma_pairs_in_buckets(self.capacity as int);
        assert(self.map@.take(self.capacity as int) =~= self.map@);
    }
}

} // verus!
