//! A cache that holds a bounded number of key-value pairs and, when full,
//! forgets the pair that was used least recently.
//!
//! The cache is viewed as the sequence of its pairs from the most recently
//! used to the least recently used one, together with its capacity.
//! Putting or getting a key makes its pair the most recently used one.
//!
//! Keys are told apart by their views (`Key`): two strings are the same
//! key when they hold the same text, two integers when they are equal.

use vstd::prelude::*;

verus! {

/// Whether some pair of `s` has key `k`.
pub open spec fn has_key<K, V>(s: Seq<(K, V)>, k: K) -> bool {
    exists|i: int| 0 <= i < s.len() && (#[trigger] s[i]).0 == k
}

/// The position of the pair with key `k` in `s` (meaningful when
/// `has_key(s, k)`).
pub open spec fn key_index<K, V>(s: Seq<(K, V)>, k: K) -> int {
    choose|i: int| 0 <= i < s.len() && (#[trigger] s[i]).0 == k
}

/// No key occurs twice in `s`.
pub open spec fn unique_keys<K, V>(s: Seq<(K, V)>) -> bool {
    forall|i: int, j: int| 0 <= i < s.len() && 0 <= j < s.len() && i != j ==> (#[trigger] s[i]).0
        != (#[trigger] s[j]).0
}

/// `s` without the pair of key `k`.
pub open spec fn without_key<K, V>(s: Seq<(K, V)>, k: K) -> Seq<(K, V)> {
    if has_key(s, k) {
        s.remove(key_index(s, k))
    } else {
        s
    }
}

/// The pairs after `k` is put with value `v` into a cache of capacity
/// `cap` that holds `s`: the pair goes first (replacing an old pair of the
/// same key), and the least recently used pair leaves if there are now
/// more than `cap`.
pub open spec fn put_spec<K, V>(s: Seq<(K, V)>, k: K, v: V, cap: nat) -> Seq<(K, V)> {
    let t = seq![(k, v)] + without_key(s, k);
    if t.len() > cap {
        t.drop_last()
    } else {
        t
    }
}

/// The pairs after `k` is looked up: its pair, if any, goes first.
pub open spec fn touch_spec<K, V>(s: Seq<(K, V)>, k: K) -> Seq<(K, V)> {
    if has_key(s, k) {
        seq![s[key_index(s, k)]] + s.remove(key_index(s, k))
    } else {
        s
    }
}

/// The value stored under `k`, if any.
pub open spec fn lookup_spec<K, V>(s: Seq<(K, V)>, k: K) -> Option<V> {
    if has_key(s, k) {
        Some(s[key_index(s, k)].1)
    } else {
        None
    }
}

/// A cache that holds at most `capacity` key-value pairs.
pub struct LruCache<K, V> {
    entries: Vec<(K, V)>,
    max_size: usize,
}

/// A key of the cache: keys are told apart by their views.
pub trait Key: View + Sized {
    /// Whether the two keys are the same key.
    fn same_key(&self, other: &Self) -> (r: bool)
        ensures
            r == (self@ == other@),
    ;
}

impl Key for String {
    fn same_key(&self, other: &Self) -> (r: bool) {
        *self == *other
    }
}

impl Key for u64 {
    fn same_key(&self, other: &Self) -> (r: bool) {
        *self == *other
    }
}

impl Key for u32 {
    fn same_key(&self, other: &Self) -> (r: bool) {
        *self == *other
    }
}

impl Key for usize {
    fn same_key(&self, other: &Self) -> (r: bool) {
        *self == *other
    }
}

impl Key for i64 {
    fn same_key(&self, other: &Self) -> (r: bool) {
        *self == *other
    }
}

impl Key for i32 {
    fn same_key(&self, other: &Self) -> (r: bool) {
        *self == *other
    }
}

impl Key for isize {
    fn same_key(&self, other: &Self) -> (r: bool) {
        *self == *other
    }
}

/// The pairs with each key taken by its view.
pub open spec fn pairs_view<K: View, V>(s: Seq<(K, V)>) -> Seq<(K::V, V)> {
    s.map_values(|e: (K, V)| (e.0@, e.1))
}

impl<K: View, V> View for LruCache<K, V> {
    type V = Seq<(K::V, V)>;

    /// The pairs, from the most recently used to the least recently used,
    /// each key by its view.
    closed spec fn view(&self) -> Seq<(K::V, V)> {
        pairs_view(self.entries@)
    }
}

proof fn lemma_key_index<K, V>(s: Seq<(K, V)>, k: K, i: int)
    requires
        unique_keys(s),
        0 <= i < s.len(),
        s[i].0 == k,
    ensures
        has_key(s, k),
        key_index(s, k) == i,
{
    assert(s[i].0 == k);
    let j = key_index(s, k);
    assert(0 <= j < s.len() && s[j].0 == k);
}

proof fn lemma_unique_remove<K, V>(s: Seq<(K, V)>, i: int)
    requires
        unique_keys(s),
        0 <= i < s.len(),
    ensures
        unique_keys(s.remove(i)),
        forall|j: int| 0 <= j < s.remove(i).len() ==> (#[trigger] s.remove(i)[j]).0 != s[i].0,
{
    let t = s.remove(i);
    assert forall|a: int, b: int| 0 <= a < t.len() && 0 <= b < t.len() && a != b implies (
    #[trigger] t[a]).0 != (#[trigger] t[b]).0 by {
        let a2 = if a < i { a } else { a + 1 };
        let b2 = if b < i { b } else { b + 1 };
        assert(t[a] == s[a2] && t[b] == s[b2]);
    }
    assert forall|j: int| 0 <= j < t.len() implies (#[trigger] t[j]).0 != s[i].0 by {
        let j2 = if j < i { j } else { j + 1 };
        assert(t[j] == s[j2]);
    }
}

proof fn lemma_unique_push_front<K, V>(e: (K, V), s: Seq<(K, V)>)
    requires
        unique_keys(s),
        forall|j: int| 0 <= j < s.len() ==> (#[trigger] s[j]).0 != e.0,
    ensures
        unique_keys(seq![e] + s),
{
    let t = seq![e] + s;
    assert forall|a: int, b: int| 0 <= a < t.len() && 0 <= b < t.len() && a != b implies (
    #[trigger] t[a]).0 != (#[trigger] t[b]).0 by {
        if a > 0 && b > 0 {
            assert(t[a] == s[a - 1] && t[b] == s[b - 1]);
        } else if a == 0 {
            assert(t[b] == s[b - 1]);
        } else {
            assert(t[a] == s[a - 1]);
        }
    }
}

proof fn lemma_unique_prefix<K, V>(s: Seq<(K, V)>, n: int)
    requires
        unique_keys(s),
        0 <= n <= s.len(),
    ensures
        unique_keys(s.subrange(0, n)),
{
    let t = s.subrange(0, n);
    assert forall|a: int, b: int| 0 <= a < t.len() && 0 <= b < t.len() && a != b implies (
    #[trigger] t[a]).0 != (#[trigger] t[b]).0 by {
        assert(t[a] == s[a] && t[b] == s[b]);
    }
}

/// The pairs of a cache with unique keys keep unique keys after a put.
proof fn lemma_put_unique<K, V>(s: Seq<(K, V)>, k: K, v: V, cap: nat)
    requires
        unique_keys(s),
    ensures
        unique_keys(put_spec(s, k, v, cap)),
{
    let w = without_key(s, k);
    if has_key(s, k) {
        let i = key_index(s, k);
        lemma_unique_remove(s, i);
    } else {
        assert forall|j: int| 0 <= j < w.len() implies (#[trigger] w[j]).0 != k by {
            if w[j].0 == k {
                assert(s[j].0 == k);
            }
        }
    }
    lemma_unique_push_front((k, v), w);
    let t = seq![(k, v)] + w;
    if t.len() > cap {
        lemma_unique_prefix(t, t.len() - 1);
        assert(t.drop_last() =~= t.subrange(0, t.len() - 1));
    }
}

/// Law: after `k` is put with value `v` into a cache that can hold at least
/// one pair, looking `k` up gives `v`, and `k` is the most recently used key.
pub proof fn law_get_after_put<K, V>(s: Seq<(K, V)>, k: K, v: V, cap: nat)
    requires
        unique_keys(s),
        s.len() <= cap,
        cap > 0,
    ensures
        lookup_spec(put_spec(s, k, v, cap), k) == Some(v),
        put_spec(s, k, v, cap)[0] == (k, v),
{
    lemma_put_unique(s, k, v, cap);
    let p = put_spec(s, k, v, cap);
    assert(p[0] == (k, v));
    lemma_key_index(p, k, 0);
}

/// Law: a cache never holds more pairs than its capacity after a put.
pub proof fn law_put_bounded<K, V>(s: Seq<(K, V)>, k: K, v: V, cap: nat)
    requires
        unique_keys(s),
        s.len() <= cap,
    ensures
        put_spec(s, k, v, cap).len() <= cap,
        unique_keys(put_spec(s, k, v, cap)),
{
    lemma_put_unique(s, k, v, cap);
}

/// Law: putting a new key into a full cache forgets exactly the least
/// recently used pair, whose key is then absent.
pub proof fn law_put_evicts_least_recent<K, V>(s: Seq<(K, V)>, k: K, v: V, cap: nat)
    requires
        unique_keys(s),
        s.len() == cap,
        cap > 0,
        !has_key(s, k),
    ensures
        put_spec(s, k, v, cap) == seq![(k, v)] + s.drop_last(),
        !has_key(put_spec(s, k, v, cap), s.last().0),
{
    let p = put_spec(s, k, v, cap);
    assert(p =~= seq![(k, v)] + s.drop_last());
    let last = s.last().0;
    if has_key(p, last) {
        let i = choose|i: int| 0 <= i < p.len() && (#[trigger] p[i]).0 == last;
        if i == 0 {
            assert(s[s.len() - 1].0 == k);
        } else {
            assert(p[i] == s[i - 1]);
            assert(s[i - 1].0 == s[s.len() - 1].0);
        }
    }
}

/// Law: after the pair of `k` is popped, looking `k` up gives nothing.
pub proof fn law_get_after_pop<K, V>(s: Seq<(K, V)>, k: K)
    requires
        unique_keys(s),
    ensures
        lookup_spec(without_key(s, k), k) is None,
{
    let w = without_key(s, k);
    if has_key(s, k) {
        lemma_unique_remove(s, key_index(s, k));
    }
    if has_key(w, k) {
        let i = choose|i: int| 0 <= i < w.len() && (#[trigger] w[i]).0 == k;
        if !has_key(s, k) {
            assert(s[i].0 == k);
        }
    }
}

/// Law: a put leaves the value of every other key that stays in the cache
/// unchanged.
pub proof fn law_put_keeps_others<K, V>(s: Seq<(K, V)>, k: K, v: V, cap: nat, k2: K)
    requires
        unique_keys(s),
        k2 != k,
        has_key(put_spec(s, k, v, cap), k2),
    ensures
        lookup_spec(put_spec(s, k, v, cap), k2) == lookup_spec(s, k2),
{
    lemma_put_unique(s, k, v, cap);
    let p = put_spec(s, k, v, cap);
    let i = key_index(p, k2);
    let w = without_key(s, k);
    assert(i > 0);
    assert(p[i] == w[i - 1]);
    let j = if has_key(s, k) && i - 1 >= key_index(s, k) { i } else { i - 1 };
    assert(w[i - 1] == s[j]);
    lemma_key_index(s, k2, j);
}

impl<K: Key, V> LruCache<K, V> {
    /// A well-formed cache: no key twice, and no more pairs than its
    /// capacity.
    pub closed spec fn wf(&self) -> bool {
        &&& unique_keys(self@)
        &&& self.entries@.len() <= self.max_size
    }

    /// The capacity of the cache.
    pub closed spec fn spec_capacity(&self) -> nat {
        self.max_size as nat
    }

    /// A well-formed cache holds no key twice and no more pairs than its
    /// capacity, so the laws over its view apply to it.
    pub proof fn lemma_wf(&self)
        requires
            self.wf(),
        ensures
            unique_keys(self@),
            self@.len() <= self.spec_capacity(),
    {
    }

    /// Creates a cache that holds at most `capacity` pairs.
    pub fn new(capacity: usize) -> (r: Self)
        ensures
            r.wf(),
            r@ == Seq::<(K::V, V)>::empty(),
            r.spec_capacity() == capacity,
    {
        let r = LruCache { entries: Vec::new(), max_size: capacity };
        assert(r@ =~= Seq::<(K::V, V)>::empty());
        r
    }

    fn find(&self, k: &K) -> (r: Option<usize>)
        requires
            self.wf(),
        ensures
            r matches Some(i) ==> i < self@.len() && self@[i as int].0 == k@ && key_index(self@, k@)
                == i && has_key(self@, k@),
            r is None ==> !has_key(self@, k@),
    {
        let mut i: usize = 0;
        while i < self.entries.len()
            invariant
                0 <= i <= self.entries@.len(),
                self.wf(),
                self@.len() == self.entries@.len(),
                forall|j: int| 0 <= j < i ==> (#[trigger] self@[j]).0 != k@,
            decreases self.entries@.len() - i,
        {
            if self.entries[i].0.same_key(k) {
                proof {
                    assert(self@[i as int].0 == self.entries@[i as int].0@);
                    lemma_key_index(self@, k@, i as int);
                }
                return Some(i);
            }
            assert(self@[i as int].0 == self.entries@[i as int].0@);
            i = i + 1;
        }
        None
    }

    /// Moves the pair at `i` to the front.
    fn move_to_front(&mut self, i: usize)
        requires
            old(self).wf(),
            i < old(self)@.len(),
        ensures
            final(self).wf(),
            final(self).max_size == old(self).max_size,
            final(self)@ == seq![old(self)@[i as int]] + old(self)@.remove(i as int),
            final(self)@.len() == final(self).entries@.len(),
    {
        let ghost s = self@;
        let ghost es = self.entries@;
        let e = self.entries.remove(i);
        proof {
            lemma_unique_remove(s, i as int);
            assert(pairs_view(es.remove(i as int)) =~= s.remove(i as int));
        }
        self.entries.insert(0, e);
        proof {
            assert(self@ =~= seq![s[i as int]] + s.remove(i as int));
            lemma_unique_push_front(s[i as int], s.remove(i as int));
        }
    }

    /// Puts a key-value pair into the cache. The pair becomes the most
    /// recently used one; if there are then more pairs than the capacity,
    /// the least recently used pair leaves.
    pub fn put(&mut self, k: K, v: V)
        requires
            old(self).wf(),
        ensures
            final(self).wf(),
            final(self).spec_capacity() == old(self).spec_capacity(),
            final(self)@ == put_spec(old(self)@, k@, v, old(self).spec_capacity()),
            final(self)@.len() <= final(self).spec_capacity(),
            final(self)@.len() == if has_key(old(self)@, k@) || old(self)@.len() == old(self).spec_capacity() {
                if old(self).spec_capacity() == 0 { 0 } else { old(self)@.len() }
            } else {
                old(self)@.len() + 1
            },
            old(self).spec_capacity() > 0 ==> lookup_spec(final(self)@, k@) == Some(v) && final(self)@[0] == (
                k@,
                v,
            ),
    {
        let ghost s = self@;
        let ghost es = self.entries@;
        let ghost kv = k@;
        proof {
            if self.max_size > 0 {
                law_get_after_put(s, kv, v, self.max_size as nat);
            }
            lemma_put_len(s, kv, v, self.max_size as nat);
        }
        match self.find(&k) {
            Some(i) => {
                let e = self.entries.remove(i);
                proof {
                    lemma_unique_remove(s, i as int);
                    assert(pairs_view(es.remove(i as int)) =~= s.remove(i as int));
                }
                let old_key = e.0;
                self.entries.insert(0, (old_key, v));
                proof {
                    assert(self@ =~= seq![(kv, v)] + without_key(s, kv));
                    lemma_unique_push_front((kv, v), s.remove(i as int));
                }
            },
            None => {
                self.entries.insert(0, (k, v));
                proof {
                    assert(self@ =~= seq![(kv, v)] + without_key(s, kv));
                    lemma_unique_push_front((kv, v), s);
                }
                if self.entries.len() > self.max_size {
                    let ghost before = self.entries@;
                    self.entries.pop();
                    proof {
                        lemma_unique_prefix(seq![(kv, v)] + s, s.len() as int);
                        assert(self@ =~= (seq![(kv, v)] + s).subrange(0, s.len() as int));
                    }
                }
            },
        }
    }

    /// Returns the value stored under `k`, if any; its pair becomes the
    /// most recently used one.
    pub fn get(&mut self, k: &K) -> (r: Option<&V>)
        requires
            old(self).wf(),
        ensures
            final(self).wf(),
            final(self).spec_capacity() == old(self).spec_capacity(),
            final(self)@ == touch_spec(old(self)@, k@),
            r is Some <==> lookup_spec(old(self)@, k@) is Some,
            r matches Some(v) ==> lookup_spec(old(self)@, k@) == Some(*v),
    {
        match self.find(k) {
            Some(i) => {
                self.move_to_front(i);
                assert(self@[0] == (self.entries@[0].0@, self.entries@[0].1));
                Some(&self.entries[0].1)
            },
            None => None,
        }
    }

    /// Removes the pair of key `k` and returns its value, if any.
    pub fn pop(&mut self, k: &K) -> (r: Option<V>)
        requires
            old(self).wf(),
        ensures
            final(self).wf(),
            final(self).spec_capacity() == old(self).spec_capacity(),
            final(self)@ == without_key(old(self)@, k@),
            r == lookup_spec(old(self)@, k@),
    {
        let ghost s = self@;
        let ghost es = self.entries@;
        match self.find(k) {
            Some(i) => {
                let e = self.entries.remove(i);
                proof {
                    lemma_unique_remove(s, i as int);
                    assert(self@ =~= s.remove(i as int));
                    assert(e.1 == s[i as int].1);
                }
                Some(e.1)
            },
            None => None,
        }
    }

    /// The maximum number of pairs the cache can hold.
    pub fn capacity(&self) -> (r: usize)
        ensures
            r == self.spec_capacity(),
    {
        self.max_size
    }

    /// The number of pairs in the cache.
    pub fn len(&self) -> (r: usize)
        ensures
            r == self@.len(),
    {
        self.entries.len()
    }

    /// Changes the number of pairs the cache can hold, removing least
    /// recently used pairs if necessary.
    pub fn change_capacity(&mut self, capacity: usize)
        requires
            old(self).wf(),
        ensures
            final(self).wf(),
            final(self).spec_capacity() == capacity,
            final(self)@ == old(self)@.subrange(
                0,
                if old(self)@.len() <= capacity {
                    old(self)@.len() as int
                } else {
                    capacity as int
                },
            ),
    {
        let ghost s = self@;
        while self.entries.len() > capacity
            invariant
                self@.len() <= s.len(),
                self@.len() == self.entries@.len(),
                self@.len() < s.len() ==> capacity <= self@.len(),
                self@ == s.subrange(0, self@.len() as int),
                unique_keys(s),
            decreases self.entries@.len(),
        {
            self.remove_lru();
        }
        proof {
            if s.len() <= capacity {
                assert(self@ =~= s);
            }
            lemma_unique_prefix(s, self@.len() as int);
        }
        self.max_size = capacity;
    }

    /// Removes the least recently used pair, if any.
    fn remove_lru(&mut self)
        ensures
            final(self)@ == (if old(self)@.len() > 0 {
                old(self)@.drop_last()
            } else {
                old(self)@
            }),
            final(self)@.len() == final(self).entries@.len(),
            final(self).max_size == old(self).max_size,
    {
        let ghost s = self@;
        if self.entries.len() > 0 {
            self.entries.pop();
            assert(self@ =~= s.drop_last());
        }
    }

    /// Removes every pair.
    pub fn clear(&mut self)
        requires
            old(self).wf(),
        ensures
            final(self).wf(),
            final(self).spec_capacity() == old(self).spec_capacity(),
            final(self)@ == Seq::<(K::V, V)>::empty(),
    {
        self.entries.clear();
        assert(self@ =~= Seq::<(K::V, V)>::empty());
    }

    /// The pairs, from the most recently used to the least recently used.
    pub fn entries(&self) -> (r: &Vec<(K, V)>)
        ensures
            pairs_view(r@) == self@,
    {
        &self.entries
    }
}

/// How many pairs a put leaves: one more when the key is new and the cache
/// is not full, none in a cache of capacity zero, else as many as before.
proof fn lemma_put_len<K, V>(s: Seq<(K, V)>, k: K, v: V, cap: nat)
    requires
        unique_keys(s),
        s.len() <= cap,
    ensures
        put_spec(s, k, v, cap).len() == if has_key(s, k) || s.len() == cap {
            if cap == 0 { 0 } else { s.len() }
        } else {
            s.len() + 1
        },
{
    if has_key(s, k) {
        let i = key_index(s, k);
        assert(s.remove(i).len() == s.len() - 1);
    }
}

} // verus!
