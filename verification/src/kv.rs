//! The key/value store abstraction: typed tables with sorted keys.
//!
//! A table is a sequence of entries sorted strictly ascending by key. The
//! positioned cursor operations of the underlying engine are modelled by
//! explicit index positions (`seek_ge`, `entry_at`, `last`), which also
//! enforces that no position survives a structural change. Two key shapes
//! exist: plain `u64` keys and composite `(number, hash)` keys whose primary
//! sort is the block number.

use vstd::prelude::*;

verus! {

/// Failures surfaced by the table primitives themselves.
#[derive(Clone, Copy, Debug, PartialEq, Eq, Structural)]
pub enum KvError {
    /// `append` was handed a key that is not strictly greater than every
    /// existing key of the table.
    OutOfOrderAppend,
}

/// A table keyed by a plain `u64` (block numbers, transaction indices,
/// header hashes).
pub struct KvTable<V> {
    entries: Vec<(u64, V)>,
}

impl<V> View for KvTable<V> {
    type V = Seq<(u64, V)>;

    closed spec fn view(&self) -> Seq<(u64, V)> {
        self.entries@
    }
}

impl<V> KvTable<V> {
    /// Keys are strictly increasing, hence unique.
    pub open spec fn wf(&self) -> bool {
        forall|i: int, j: int|
            0 <= i < j < self@.len() ==> (#[trigger] self@[i]).0 < (#[trigger] self@[j]).0
    }

    /// Whether some entry of the table has key `k`.
    pub open spec fn has_key(&self, k: u64) -> bool {
        seq_has_key(self@, k)
    }

    /// The value stored under `k`, as the engine's point lookup returns it.
    pub open spec fn get_spec(&self, k: u64) -> Option<V> {
        seq_get(self@, k)
    }

    /// An empty table.
    pub fn new() -> (t: Self)
        ensures
            t@ =~= Seq::<(u64, V)>::empty(),
            t.wf(),
    {
        KvTable { entries: Vec::new() }
    }

    /// Number of entries.
    pub fn len(&self) -> (n: usize)
        ensures
            n == self@.len(),
    {
        self.entries.len()
    }

    /// The entry at position `i`; the model of a cursor read.
    pub fn entry_at(&self, i: usize) -> (e: &(u64, V))
        requires
            i < self@.len(),
        ensures
            *e == self@[i as int],
    {
        &self.entries[i]
    }

    /// The position of the first entry whose key is `>= k`; the model of a
    /// seek-greater-or-equal cursor operation.
    pub fn seek_ge(&self, k: u64) -> (i: usize)
        requires
            self.wf(),
        ensures
            i <= self@.len(),
            forall|j: int| 0 <= j < i ==> (#[trigger] self@[j]).0 < k,
            forall|j: int| i <= j < self@.len() ==> (#[trigger] self@[j]).0 >= k,
    {
        let mut i: usize = 0;
        while i < self.entries.len()
            invariant
                i <= self@.len(),
                forall|j: int| 0 <= j < i ==> (#[trigger] self@[j]).0 < k,
                self.wf(),
            decreases self@.len() - i,
        {
            if self.entries[i].0 >= k {
                return i;
            }
            i = i + 1;
        }
        i
    }

    /// Point lookup (the `seek_exact` cursor operation).
    pub fn get(&self, k: u64) -> (r: Option<&V>)
        requires
            self.wf(),
        ensures
            match r {
                Some(v) => self.get_spec(k) == Some(*v),
                None => self.get_spec(k) is None,
            },
    {
        let i = self.seek_ge(k);
        if i < self.entries.len() && self.entries[i].0 == k {
            proof {
                lemma_seq_get_unique(self@, k, i as int, self@[i as int].1);
            }
            Some(&self.entries[i].1)
        } else {
            proof {
                if self.has_key(k) {
                    let w = choose|w: int| 0 <= w < self@.len() && (#[trigger] self@[w]).0 == k;
                    assert(self@[w].0 == k);
                    assert(false);
                }
            }
            None
        }
    }

    /// The entry with the greatest key (the `last` cursor operation).
    pub fn last(&self) -> (r: Option<&(u64, V)>)
        ensures
            match r {
                Some(e) => self@.len() > 0 && *e == self@[self@.len() - 1],
                None => self@.len() == 0,
            },
    {
        if self.entries.len() > 0 {
            Some(&self.entries[self.entries.len() - 1])
        } else {
            None
        }
    }

    /// Unordered point write: inserts at the sorted position or overwrites
    /// the existing value under `k`.
    pub fn put(&mut self, k: u64, v: V)
        requires
            old(self).wf(),
        ensures
            final(self).wf(),
            final(self).get_spec(k) == Some(v),
            forall|k2: u64| k2 != k ==> #[trigger] final(self).get_spec(k2) == old(self).get_spec(k2),
            final(self)@.len() == old(self)@.len() + (if old(self).has_key(k) { 0int } else { 1int }),
    {
        let i = self.seek_ge(k);
        let ghost pre = self@;
        if i < self.entries.len() && self.entries[i].0 == k {
            proof {
                assert(pre[i as int].0 == k);
                assert(old(self).has_key(k));
            }
            self.entries.remove(i);
            self.entries.insert(i, (k, v));
            proof {
                assert(self@ =~= pre.update(i as int, (k, v)));
                Self::lemma_update_pointwise(pre, self@, i as int, k, v);
            }
        } else {
            proof {
                if old(self).has_key(k) {
                    let w = choose|w: int| 0 <= w < pre.len() && (#[trigger] pre[w]).0 == k;
                    assert(pre[w].0 == k);
                    assert(false);
                }
            }
            self.entries.insert(i, (k, v));
            proof {
                Self::lemma_insert_pointwise(pre, self@, i as int, k, v);
            }
        }
    }

    /// Helper for `put`: overwriting position `i` (which held key `k`)
    /// changes only the binding of `k`.
    proof fn lemma_update_pointwise(pre: Seq<(u64, V)>, post: Seq<(u64, V)>, i: int, k: u64, v: V)
        requires
            0 <= i < pre.len(),
            pre[i].0 == k,
            post =~= pre.update(i, (k, v)),
            forall|p: int, q: int| 0 <= p < q < pre.len() ==> (#[trigger] pre[p]).0 < (#[trigger] pre[q]).0,
        ensures
            seq_sorted(post),
            seq_has_key(post, k),
            seq_get(post, k) == Some(v),
            forall|k2: u64| k2 != k ==> #[trigger] seq_get(post, k2) == seq_get(pre, k2),
            post.len() == pre.len(),
    {
        assert forall|p: int, q: int| 0 <= p < q < post.len() implies (#[trigger] post[p]).0 < (#[trigger] post[q]).0 by {
            assert(pre[p].0 < pre[q].0);
        }
        assert(post[i].0 == k);
        assert(seq_has_key(post, k));
        lemma_seq_get_unique(post, k, i, v);
        assert forall|k2: u64| k2 != k implies #[trigger] seq_get(post, k2) == seq_get(pre, k2) by {
            if seq_has_key(pre, k2) {
                let w = choose|w: int| 0 <= w < pre.len() && (#[trigger] pre[w]).0 == k2;
                assert(w != i);
                assert(post[w] == pre[w]);
                lemma_seq_get_unique(post, k2, w, pre[w].1);
                lemma_seq_get_unique(pre, k2, w, pre[w].1);
            } else {
                if seq_has_key(post, k2) {
                    let w = choose|w: int| 0 <= w < post.len() && (#[trigger] post[w]).0 == k2;
                    assert(w != i);
                    assert(pre[w].0 == k2);
                    assert(false);
                }
            }
        }
    }

    /// Helper for `put`: inserting `(k, v)` at position `i`, where all keys
    /// before `i` are `< k` and all at or after are `> k`, adds exactly the
    /// binding of `k`.
    proof fn lemma_insert_pointwise(pre: Seq<(u64, V)>, post: Seq<(u64, V)>, i: int, k: u64, v: V)
        requires
            0 <= i <= pre.len(),
            post =~= pre.insert(i, (k, v)),
            forall|p: int, q: int| 0 <= p < q < pre.len() ==> (#[trigger] pre[p]).0 < (#[trigger] pre[q]).0,
            forall|j: int| 0 <= j < i ==> (#[trigger] pre[j]).0 < k,
            forall|j: int| i <= j < pre.len() ==> (#[trigger] pre[j]).0 > k,
        ensures
            forall|p: int, q: int| 0 <= p < q < post.len() ==> (#[trigger] post[p]).0 < (#[trigger] post[q]).0,
            seq_get(post, k) == Some(v),
            forall|k2: u64| k2 != k ==> #[trigger] seq_get(post, k2) == seq_get(pre, k2),
            post.len() == pre.len() + 1,
    {
        assert forall|p: int, q: int| 0 <= p < q < post.len() implies (#[trigger] post[p]).0 < (#[trigger] post[q]).0 by {
            if p < i && q > i {
                assert(pre[p].0 < k);
                assert(pre[q - 1].0 > k);
            }
        }
        assert(post[i].0 == k);
        lemma_seq_get_unique(post, k, i, v);
        assert forall|k2: u64| k2 != k implies #[trigger] seq_get(post, k2) == seq_get(pre, k2) by {
            if seq_has_key(pre, k2) {
                let w = choose|w: int| 0 <= w < pre.len() && (#[trigger] pre[w]).0 == k2;
                if w < i {
                    assert(post[w] == pre[w]);
                    lemma_seq_get_unique(post, k2, w, pre[w].1);
                    lemma_seq_get_unique(pre, k2, w, pre[w].1);
                } else {
                    assert(post[w + 1] == pre[w]);
                    lemma_seq_get_unique(post, k2, w + 1, pre[w].1);
                    lemma_seq_get_unique(pre, k2, w, pre[w].1);
                }
            } else {
                if seq_has_key(post, k2) {
                    let w = choose|w: int| 0 <= w < post.len() && (#[trigger] post[w]).0 == k2;
                    if w < i {
                        assert(pre[w].0 == k2);
                    } else if w > i {
                        assert(pre[w - 1].0 == k2);
                    }
                    assert(false);
                }
            }
        }
    }

    /// Strictly ascending write: fails unless `k` is greater than every key
    /// already present.
    pub fn append(&mut self, k: u64, v: V) -> (r: Result<(), KvError>)
        requires
            old(self).wf(),
        ensures
            final(self).wf(),
            r is Ok <==> (old(self)@.len() == 0 || old(self)@[old(self)@.len() - 1].0 < k),
            r is Ok ==> final(self)@ == old(self)@.push((k, v)),
            r is Err ==> final(self)@ == old(self)@,
            r is Ok ==> final(self).get_spec(k) == Some(v),
            r is Ok ==> forall|k2: u64|
                k2 != k ==> #[trigger] final(self).get_spec(k2) == old(self).get_spec(k2),
    {
        let n = self.entries.len();
        if n > 0 && self.entries[n - 1].0 >= k {
            return Err(KvError::OutOfOrderAppend);
        }
        let ghost pre = self@;
        self.entries.push((k, v));
        proof {
            assert forall|p: int, q: int| 0 <= p < q < self@.len() implies (#[trigger] self@[p]).0 < (#[trigger] self@[q]).0 by {
                if q == self@.len() - 1 && p < q {
                    assert(pre[p].0 <= pre[pre.len() - 1].0) by {
                        if p < pre.len() - 1 {
                            assert(pre[p].0 < pre[pre.len() - 1].0);
                        }
                    }
                }
            }
            assert(self@[self@.len() - 1].0 == k);
            lemma_seq_get_unique(self@, k, self@.len() - 1, v);
            assert forall|k2: u64| k2 != k implies #[trigger] self.get_spec(k2) == old(self).get_spec(k2) by {
                if seq_has_key(pre, k2) {
                    let w = choose|w: int| 0 <= w < pre.len() && (#[trigger] pre[w]).0 == k2;
                    assert(self@[w] == pre[w]);
                    lemma_seq_get_unique(self@, k2, w, pre[w].1);
                    lemma_seq_get_unique(pre, k2, w, pre[w].1);
                } else {
                    if seq_has_key(self@, k2) {
                        let w = choose|w: int| 0 <= w < self@.len() && (#[trigger] self@[w]).0 == k2;
                        assert(w < pre.len() ==> pre[w].0 == k2);
                        assert(false);
                    }
                }
            }
        }
        Ok(())
    }

    /// Point delete.
    pub fn delete(&mut self, k: u64) -> (r: bool)
        requires
            old(self).wf(),
        ensures
            final(self).wf(),
            r == old(self).has_key(k),
            final(self).get_spec(k) is None,
            forall|k2: u64| k2 != k ==> #[trigger] final(self).get_spec(k2) == old(self).get_spec(k2),
            final(self)@.len() == old(self)@.len() - (if old(self).has_key(k) { 1int } else { 0int }),
    {
        let i = self.seek_ge(k);
        let ghost pre = self@;
        if i < self.entries.len() && self.entries[i].0 == k {
            self.entries.remove(i);
            proof {
                assert(pre[i as int].0 == k);
                assert(old(self).has_key(k));
                assert forall|p: int, q: int| 0 <= p < q < self@.len() implies (#[trigger] self@[p]).0 < (#[trigger] self@[q]).0 by {
                    if q < i {
                        assert(pre[p].0 < pre[q].0);
                    } else if p < i {
                        assert(pre[p].0 < pre[q + 1].0);
                    } else {
                        assert(pre[p + 1].0 < pre[q + 1].0);
                    }
                }
                assert forall|k2: u64| k2 != k implies #[trigger] self.get_spec(k2) == old(self).get_spec(k2) by {
                    lemma_remove_get(pre, self@, i as int, k, k2);
                }
                if seq_has_key(self@, k) {
                    let w = choose|w: int| 0 <= w < self@.len() && (#[trigger] self@[w]).0 == k;
                    if w < i {
                        assert(pre[w].0 == k);
                        assert(pre[w].0 < pre[i as int].0);
                    } else {
                        assert(pre[w + 1].0 == k);
                        assert(pre[i as int].0 < pre[w + 1].0);
                    }
                    assert(false);
                }
            }
            true
        } else {
            proof {
                if old(self).has_key(k) {
                    let w = choose|w: int| 0 <= w < pre.len() && (#[trigger] pre[w]).0 == k;
                    assert(pre[w].0 == k);
                    assert(false);
                }
            }
            false
        }
    }

    /// Unwind primitive: removes every entry whose key is `> n`.
    pub fn unwind_above(&mut self, n: u64)
        requires
            old(self).wf(),
        ensures
            final(self).wf(),
            forall|k: u64| k <= n ==> #[trigger] final(self).get_spec(k) == old(self).get_spec(k),
            forall|k: u64| k > n ==> #[trigger] final(self).get_spec(k) is None,
    {
        let ghost pre = self@;
        let mut i: usize = 0;
        while i < self.entries.len() && self.entries[i].0 <= n
            invariant
                self@ == pre,
                self.wf(),
                i <= self@.len(),
                forall|j: int| 0 <= j < i ==> (#[trigger] self@[j]).0 <= n,
            decreases self@.len() - i,
        {
            i = i + 1;
        }
        proof {
            assert forall|j: int| i <= j < self@.len() implies (#[trigger] self@[j]).0 > n by {
                if j > i {
                    assert(self@[i as int].0 < self@[j].0);
                }
            }
        }
        self.entries.truncate(i);
        proof {
            assert(self@ =~= pre.subrange(0, i as int));
            assert forall|k: u64| k <= n implies #[trigger] self.get_spec(k) == old(self).get_spec(k) by {
                if seq_has_key(pre, k) {
                    let w = choose|w: int| 0 <= w < pre.len() && (#[trigger] pre[w]).0 == k;
                    assert(w < i);
                    assert(self@[w] == pre[w]);
                    lemma_seq_get_unique(self@, k, w, pre[w].1);
                    lemma_seq_get_unique(pre, k, w, pre[w].1);
                } else {
                    if seq_has_key(self@, k) {
                        let w = choose|w: int| 0 <= w < self@.len() && (#[trigger] self@[w]).0 == k;
                        assert(pre[w].0 == k);
                        assert(false);
                    }
                }
            }
            assert forall|k: u64| k > n implies #[trigger] self.get_spec(k) is None by {
                if seq_has_key(self@, k) {
                    let w = choose|w: int| 0 <= w < self@.len() && (#[trigger] self@[w]).0 == k;
                    assert(false);
                }
            }
        }
    }

    /// Unwind primitive: removes every entry whose key is `>= n`.
    pub fn unwind_from(&mut self, n: u64)
        requires
            old(self).wf(),
        ensures
            final(self).wf(),
            forall|k: u64| k < n ==> #[trigger] final(self).get_spec(k) == old(self).get_spec(k),
            forall|k: u64| k >= n ==> #[trigger] final(self).get_spec(k) is None,
    {
        if n == 0 {
            self.entries.clear();
            proof {
                assert forall|k: u64| k >= n implies #[trigger] self.get_spec(k) is None by {
                    if seq_has_key(self@, k) {
                        let w = choose|w: int| 0 <= w < self@.len() && (#[trigger] self@[w]).0 == k;
                        assert(false);
                    }
                }
            }
        } else {
            self.unwind_above(n - 1);
        }
    }
}

/// Keys of the raw sequence `s` are strictly increasing.
pub open spec fn seq_sorted<V>(s: Seq<(u64, V)>) -> bool {
    forall|i: int, j: int| 0 <= i < j < s.len() ==> (#[trigger] s[i]).0 < (#[trigger] s[j]).0
}

/// Whether the raw sequence `s` has an entry with key `k`.
pub open spec fn seq_has_key<V>(s: Seq<(u64, V)>, k: u64) -> bool {
    exists|i: int| 0 <= i < s.len() && (#[trigger] s[i]).0 == k
}

/// The value a raw sequence binds to `k`, if any.
pub open spec fn seq_get<V>(s: Seq<(u64, V)>, k: u64) -> Option<V> {
    if seq_has_key(s, k) {
        Some(s[choose|i: int| 0 <= i < s.len() && (#[trigger] s[i]).0 == k].1)
    } else {
        None
    }
}

/// If keys are unique and position `i` holds `(k, v)`, then the lookup of
/// `k` yields `v`.
pub proof fn lemma_seq_get_unique<V>(s: Seq<(u64, V)>, k: u64, i: int, v: V)
    requires
        forall|p: int, q: int| 0 <= p < q < s.len() ==> (#[trigger] s[p]).0 < (#[trigger] s[q]).0,
        0 <= i < s.len(),
        s[i].0 == k,
        s[i].1 == v,
    ensures
        seq_has_key(s, k),
        seq_get(s, k) == Some(v),
{
    assert(seq_has_key(s, k));
    let w = choose|w: int| 0 <= w < s.len() && (#[trigger] s[w]).0 == k;
    if w < i {
        assert(s[w].0 < s[i].0);
    } else if w > i {
        assert(s[i].0 < s[w].0);
    }
}

/// Removing position `i` (holding key `k`) leaves the binding of any other
/// key unchanged.
proof fn lemma_remove_get<V>(pre: Seq<(u64, V)>, post: Seq<(u64, V)>, i: int, k: u64, k2: u64)
    requires
        forall|p: int, q: int| 0 <= p < q < pre.len() ==> (#[trigger] pre[p]).0 < (#[trigger] pre[q]).0,
        forall|p: int, q: int| 0 <= p < q < post.len() ==> (#[trigger] post[p]).0 < (#[trigger] post[q]).0,
        0 <= i < pre.len(),
        pre[i].0 == k,
        post =~= pre.remove(i),
        k2 != k,
    ensures
        seq_get(post, k2) == seq_get(pre, k2),
{
    if seq_has_key(pre, k2) {
        let w = choose|w: int| 0 <= w < pre.len() && (#[trigger] pre[w]).0 == k2;
        if w < i {
            assert(post[w] == pre[w]);
            lemma_seq_get_unique(post, k2, w, pre[w].1);
            lemma_seq_get_unique(pre, k2, w, pre[w].1);
        } else {
            assert(w != i);
            assert(post[w - 1] == pre[w]);
            lemma_seq_get_unique(post, k2, w - 1, pre[w].1);
            lemma_seq_get_unique(pre, k2, w, pre[w].1);
        }
    } else {
        if seq_has_key(post, k2) {
            let w = choose|w: int| 0 <= w < post.len() && (#[trigger] post[w]).0 == k2;
            if w < i {
                assert(pre[w].0 == k2);
            } else {
                assert(pre[w + 1].0 == k2);
            }
            assert(false);
        }
    }
}

/// The index of the first entry whose key is strictly above `n`; the
/// length of `s` when there is none.
pub open spec fn first_above<V>(s: Seq<(u64, V)>, n: u64) -> int
    decreases s.len(),
{
    if s.len() == 0 {
        0
    } else if s[0].0 > n {
        0
    } else {
        1 + first_above(s.drop_first(), n)
    }
}

/// Basic shape of `first_above` on a sorted sequence: everything before it
/// is at or below `n`, everything at or after is above.
pub proof fn lemma_first_above<V>(s: Seq<(u64, V)>, n: u64)
    requires
        seq_sorted(s),
    ensures
        0 <= first_above(s, n) <= s.len(),
        forall|j: int| 0 <= j < first_above(s, n) ==> (#[trigger] s[j]).0 <= n,
        forall|j: int| first_above(s, n) <= j < s.len() ==> (#[trigger] s[j]).0 > n,
    decreases s.len(),
{
    if s.len() > 0 && !(s[0].0 > n) {
        let t = s.drop_first();
        assert(seq_sorted(t));
        lemma_first_above(t, n);
        assert forall|j: int| 0 <= j < first_above(s, n) implies (#[trigger] s[j]).0 <= n by {
            if j > 0 {
                assert(t[j - 1].0 <= n);
            }
        }
        assert forall|j: int| first_above(s, n) <= j < s.len() implies (#[trigger] s[j]).0 > n by {
            assert(j >= 1);
            assert(t[j - 1].0 > n);
        }
    }
}

/// Two well-formed tables that agree on every point lookup are equal entry
/// for entry: the sorted layout is canonical. This is what lets unwind
/// guarantees stated pointwise imply byte-for-byte restoration.
pub proof fn lemma_pointwise_eq<V>(a: Seq<(u64, V)>, b: Seq<(u64, V)>)
    requires
        forall|p: int, q: int| 0 <= p < q < a.len() ==> (#[trigger] a[p]).0 < (#[trigger] a[q]).0,
        forall|p: int, q: int| 0 <= p < q < b.len() ==> (#[trigger] b[p]).0 < (#[trigger] b[q]).0,
        forall|k: u64| #[trigger] seq_get(a, k) == seq_get(b, k),
    ensures
        a =~= b,
    decreases a.len(),
{
    if a.len() == 0 {
        if b.len() > 0 {
            lemma_seq_get_unique(b, b[0].0, 0, b[0].1);
            assert(seq_get(a, b[0].0) == seq_get(b, b[0].0));
            assert(seq_has_key(a, b[0].0));
            assert(false);
        }
    } else if b.len() == 0 {
        lemma_seq_get_unique(a, a[0].0, 0, a[0].1);
        assert(seq_get(a, a[0].0) == seq_get(b, a[0].0));
        assert(seq_has_key(b, a[0].0));
        assert(false);
    } else {
        // Heads are equal: each head key is present in the other sequence,
        // and each head key is the minimum of its own sequence.
        lemma_seq_get_unique(a, a[0].0, 0, a[0].1);
        lemma_seq_get_unique(b, b[0].0, 0, b[0].1);
        assert(seq_get(a, b[0].0) == seq_get(b, b[0].0));
        assert(seq_get(a, a[0].0) == seq_get(b, a[0].0));
        assert(seq_has_key(a, b[0].0));
        assert(seq_has_key(b, a[0].0));
        let wa = choose|i: int| 0 <= i < a.len() && (#[trigger] a[i]).0 == b[0].0;
        let wb = choose|i: int| 0 <= i < b.len() && (#[trigger] b[i]).0 == a[0].0;
        if a[0].0 < b[0].0 {
            assert(b[wb].0 == a[0].0);
            assert(wb > 0 ==> b[0].0 < b[wb].0);
            assert(false);
        } else if b[0].0 < a[0].0 {
            assert(a[wa].0 == b[0].0);
            assert(wa > 0 ==> a[0].0 < a[wa].0);
            assert(false);
        }
        assert(a[0].0 == b[0].0);
        assert(wa == 0);
        assert(seq_get(a, a[0].0) == Some(a[0].1));
        assert(seq_get(b, a[0].0) == Some(b[0].1));
        assert(a[0] == b[0]);
        let ta = a.remove(0);
        let tb = b.remove(0);
        assert forall|k: u64| #[trigger] seq_get(ta, k) == seq_get(tb, k) by {
            if k != a[0].0 {
                lemma_remove_get(a, ta, 0, a[0].0, k);
                lemma_remove_get(b, tb, 0, b[0].0, k);
            } else {
                if seq_has_key(ta, k) {
                    let w = choose|i: int| 0 <= i < ta.len() && (#[trigger] ta[i]).0 == k;
                    assert(a[w + 1].0 == k);
                    assert(a[0].0 < a[w + 1].0);
                    assert(false);
                }
                if seq_has_key(tb, k) {
                    let w = choose|i: int| 0 <= i < tb.len() && (#[trigger] tb[i]).0 == k;
                    assert(b[w + 1].0 == k);
                    assert(b[0].0 < b[w + 1].0);
                    assert(false);
                }
            }
        }
        lemma_pointwise_eq(ta, tb);
        assert(a =~= Seq::empty().push(a[0]) + ta);
        assert(b =~= Seq::empty().push(b[0]) + tb);
    }
}

} // verus!
