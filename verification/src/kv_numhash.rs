//! The composite-key table: keys are `(block number, header hash)` pairs
//! whose primary sort is the number, ties broken by the hash. Composite keys
//! permit range walks keyed by the block number alone.

use vstd::prelude::*;
use crate::kv::KvError;

verus! {

/// The composite key of the header-shaped tables.
#[derive(Clone, Copy, Debug, PartialEq, Eq, Structural)]
pub struct BlockNumHash {
    /// Block number, the primary sort.
    pub number: u64,
    /// Header hash, the tie-break.
    pub hash: u64,
}

/// Lexicographic strict order on composite keys.
pub open spec fn bnh_lt(a: BlockNumHash, b: BlockNumHash) -> bool {
    a.number < b.number || (a.number == b.number && a.hash < b.hash)
}

/// Exec comparison mirroring `bnh_lt`.
pub fn bnh_less(a: &BlockNumHash, b: &BlockNumHash) -> (r: bool)
    ensures
        r == bnh_lt(*a, *b),
{
    a.number < b.number || (a.number == b.number && a.hash < b.hash)
}

/// Keys of the raw sequence are strictly increasing in the composite order.
pub open spec fn bnh_sorted<V>(s: Seq<(BlockNumHash, V)>) -> bool {
    forall|i: int, j: int| 0 <= i < j < s.len() ==> bnh_lt((#[trigger] s[i]).0, (#[trigger] s[j]).0)
}

/// Whether the raw sequence has an entry with key `k`.
pub open spec fn bnh_has_key<V>(s: Seq<(BlockNumHash, V)>, k: BlockNumHash) -> bool {
    exists|i: int| 0 <= i < s.len() && (#[trigger] s[i]).0 == k
}

/// The value the raw sequence binds to `k`, if any.
pub open spec fn bnh_get<V>(s: Seq<(BlockNumHash, V)>, k: BlockNumHash) -> Option<V> {
    if bnh_has_key(s, k) {
        Some(s[choose|i: int| 0 <= i < s.len() && (#[trigger] s[i]).0 == k].1)
    } else {
        None
    }
}

/// If keys are unique and position `i` holds `(k, v)`, the lookup of `k`
/// yields `v`.
pub proof fn lemma_bnh_get_unique<V>(s: Seq<(BlockNumHash, V)>, k: BlockNumHash, i: int, v: V)
    requires
        bnh_sorted(s),
        0 <= i < s.len(),
        s[i].0 == k,
        s[i].1 == v,
    ensures
        bnh_has_key(s, k),
        bnh_get(s, k) == Some(v),
{
    assert(bnh_has_key(s, k));
    let w = choose|w: int| 0 <= w < s.len() && (#[trigger] s[w]).0 == k;
    if w < i {
        assert(bnh_lt(s[w].0, s[i].0));
    } else if w > i {
        assert(bnh_lt(s[i].0, s[w].0));
    }
}

/// A successful lookup on a well-formed table comes from an actual entry
/// of the sequence.
pub proof fn lemma_bnh_get_is_entry<V>(s: Seq<(BlockNumHash, V)>, k: BlockNumHash)
    requires
        bnh_sorted(s),
        bnh_get(s, k) is Some,
    ensures
        exists|i: int|
            0 <= i < s.len() && (#[trigger] s[i]).0 == k && s[i].1 == bnh_get(s, k)->Some_0,
{
    assert(bnh_has_key(s, k));
    let w = choose|i: int| 0 <= i < s.len() && (#[trigger] s[i]).0 == k;
    assert(s[w].0 == k);
    lemma_bnh_get_unique(s, k, w, s[w].1);
}

/// A table keyed by `(number, hash)` composites.
pub struct NumHashTable<V> {
    entries: Vec<(BlockNumHash, V)>,
}

impl<V> View for NumHashTable<V> {
    type V = Seq<(BlockNumHash, V)>;

    closed spec fn view(&self) -> Seq<(BlockNumHash, V)> {
        self.entries@
    }
}

impl<V> NumHashTable<V> {
    /// Keys are strictly increasing in the composite order.
    pub open spec fn wf(&self) -> bool {
        bnh_sorted(self@)
    }

    /// Whether some entry of the table has key `k`.
    pub open spec fn has_key(&self, k: BlockNumHash) -> bool {
        bnh_has_key(self@, k)
    }

    /// The value stored under `k`.
    pub open spec fn get_spec(&self, k: BlockNumHash) -> Option<V> {
        bnh_get(self@, k)
    }

    /// An empty table.
    pub fn new() -> (t: Self)
        ensures
            t@ =~= Seq::<(BlockNumHash, V)>::empty(),
            t.wf(),
    {
        NumHashTable { entries: Vec::new() }
    }

    /// Number of entries.
    pub fn len(&self) -> (n: usize)
        ensures
            n == self@.len(),
    {
        self.entries.len()
    }

    /// The entry at position `i`; the model of a cursor read.
    pub fn entry_at(&self, i: usize) -> (e: &(BlockNumHash, V))
        requires
            i < self@.len(),
        ensures
            *e == self@[i as int],
    {
        &self.entries[i]
    }

    /// The position of the first entry whose key is `>= k` in the composite
    /// order.
    pub fn seek_ge(&self, k: BlockNumHash) -> (i: usize)
        requires
            self.wf(),
        ensures
            i <= self@.len(),
            forall|j: int| 0 <= j < i ==> bnh_lt((#[trigger] self@[j]).0, k),
            forall|j: int| i <= j < self@.len() ==> !bnh_lt((#[trigger] self@[j]).0, k),
    {
        let mut i: usize = 0;
        while i < self.entries.len()
            invariant
                i <= self@.len(),
                forall|j: int| 0 <= j < i ==> bnh_lt((#[trigger] self@[j]).0, k),
                self.wf(),
            decreases self@.len() - i,
        {
            if !bnh_less(&self.entries[i].0, &k) {
                return i;
            }
            i = i + 1;
        }
        i
    }

    /// Point lookup (the `seek_exact` cursor operation).
    pub fn get(&self, k: BlockNumHash) -> (r: Option<&V>)
        requires
            self.wf(),
        ensures
            match r {
                Some(v) => self.get_spec(k) == Some(*v),
                None => self.get_spec(k) is None,
            },
    {
        let i = self.seek_ge(k);
        if i < self.entries.len() && self.entries[i].0.number == k.number
            && self.entries[i].0.hash == k.hash {
            proof {
                lemma_bnh_get_unique(self@, k, i as int, self@[i as int].1);
            }
            Some(&self.entries[i].1)
        } else {
            proof {
                if self.has_key(k) {
                    let w = choose|w: int| 0 <= w < self@.len() && (#[trigger] self@[w]).0 == k;
                    assert(self@[w].0 == k);
                    assert(false);
                }
            }
            None
        }
    }

    /// Unordered point write: inserts at the sorted position or overwrites
    /// the existing value under `k`.
    pub fn put(&mut self, k: BlockNumHash, v: V)
        requires
            old(self).wf(),
        ensures
            final(self).wf(),
            final(self).get_spec(k) == Some(v),
            forall|k2: BlockNumHash|
                k2 != k ==> #[trigger] final(self).get_spec(k2) == old(self).get_spec(k2),
            final(self)@.len() == old(self)@.len() + (if old(self).has_key(k) { 0int } else { 1int }),
    {
        let i = self.seek_ge(k);
        let ghost pre = self@;
        if i < self.entries.len() && self.entries[i].0.number == k.number
            && self.entries[i].0.hash == k.hash {
            proof {
                assert(pre[i as int].0 == k);
                assert(old(self).has_key(k));
            }
            self.entries.remove(i);
            self.entries.insert(i, (k, v));
            proof {
                assert(self@ =~= pre.update(i as int, (k, v)));
                assert forall|p: int, q: int| 0 <= p < q < self@.len() implies bnh_lt(
                    (#[trigger] self@[p]).0,
                    (#[trigger] self@[q]).0,
                ) by {
                    assert(bnh_lt(pre[p].0, pre[q].0));
                }
                lemma_bnh_get_unique(self@, k, i as int, v);
                assert forall|k2: BlockNumHash| k2 != k implies #[trigger] self.get_spec(k2)
                    == old(self).get_spec(k2) by {
                    if bnh_has_key(pre, k2) {
                        let w = choose|w: int| 0 <= w < pre.len() && (#[trigger] pre[w]).0 == k2;
                        assert(w != i);
                        assert(self@[w] == pre[w]);
                        lemma_bnh_get_unique(self@, k2, w, pre[w].1);
                        lemma_bnh_get_unique(pre, k2, w, pre[w].1);
                    } else {
                        if bnh_has_key(self@, k2) {
                            let w = choose|w: int| 0 <= w < self@.len() && (#[trigger] self@[w]).0 == k2;
                            assert(w != i);
                            assert(pre[w].0 == k2);
                            assert(false);
                        }
                    }
                }
            }
        } else {
            proof {
                if old(self).has_key(k) {
                    let w = choose|w: int| 0 <= w < pre.len() && (#[trigger] pre[w]).0 == k;
                    assert(pre[w].0 == k);
                    assert(false);
                }
            }
            self.entries.insert(i, (k, v));
            proof {
                let post = self@;
                assert(post =~= pre.insert(i as int, (k, v)));
                assert forall|p: int, q: int| 0 <= p < q < post.len() implies bnh_lt(
                    (#[trigger] post[p]).0,
                    (#[trigger] post[q]).0,
                ) by {
                    if p < i && q > i {
                        assert(bnh_lt(pre[p].0, k));
                        assert(!bnh_lt(pre[q - 1].0, k));
                        assert(pre[q - 1].0 != k);
                    }
                }
                lemma_bnh_get_unique(post, k, i as int, v);
                assert forall|k2: BlockNumHash| k2 != k implies #[trigger] self.get_spec(k2)
                    == old(self).get_spec(k2) by {
                    if bnh_has_key(pre, k2) {
                        let w = choose|w: int| 0 <= w < pre.len() && (#[trigger] pre[w]).0 == k2;
                        if w < i {
                            assert(post[w] == pre[w]);
                            lemma_bnh_get_unique(post, k2, w, pre[w].1);
                            lemma_bnh_get_unique(pre, k2, w, pre[w].1);
                        } else {
                            assert(post[w + 1] == pre[w]);
                            lemma_bnh_get_unique(post, k2, w + 1, pre[w].1);
                            lemma_bnh_get_unique(pre, k2, w, pre[w].1);
                        }
                    } else {
                        if bnh_has_key(post, k2) {
                            let w = choose|w: int| 0 <= w < post.len() && (#[trigger] post[w]).0 == k2;
                            if w < i {
                                assert(pre[w].0 == k2);
                            } else if w > i {
                                assert(pre[w - 1].0 == k2);
                            }
                            assert(false);
                        }
                    }
                }
            }
        }
    }

    /// Strictly ascending write: fails unless `k` is greater than every key
    /// already present in the composite order.
    pub fn append(&mut self, k: BlockNumHash, v: V) -> (r: Result<(), KvError>)
        requires
            old(self).wf(),
        ensures
            final(self).wf(),
            r is Ok <==> (old(self)@.len() == 0 || bnh_lt(old(self)@[old(self)@.len() - 1].0, k)),
            r is Ok ==> final(self)@ == old(self)@.push((k, v)),
            r is Err ==> final(self)@ == old(self)@,
            r is Ok ==> final(self).get_spec(k) == Some(v),
            r is Ok ==> forall|k2: BlockNumHash|
                k2 != k ==> #[trigger] final(self).get_spec(k2) == old(self).get_spec(k2),
    {
        let n = self.entries.len();
        if n > 0 && !bnh_less(&self.entries[n - 1].0, &k) {
            return Err(KvError::OutOfOrderAppend);
        }
        let ghost pre = self@;
        self.entries.push((k, v));
        proof {
            assert forall|p: int, q: int| 0 <= p < q < self@.len() implies bnh_lt(
                (#[trigger] self@[p]).0,
                (#[trigger] self@[q]).0,
            ) by {
                if q == self@.len() - 1 && p < q {
                    if p < pre.len() - 1 {
                        assert(bnh_lt(pre[p].0, pre[pre.len() - 1].0));
                    }
                }
            }
            assert(self@[self@.len() - 1].0 == k);
            lemma_bnh_get_unique(self@, k, self@.len() - 1, v);
            assert forall|k2: BlockNumHash| k2 != k implies #[trigger] self.get_spec(k2)
                == old(self).get_spec(k2) by {
                if bnh_has_key(pre, k2) {
                    let w = choose|w: int| 0 <= w < pre.len() && (#[trigger] pre[w]).0 == k2;
                    assert(self@[w] == pre[w]);
                    lemma_bnh_get_unique(self@, k2, w, pre[w].1);
                    lemma_bnh_get_unique(pre, k2, w, pre[w].1);
                } else {
                    if bnh_has_key(self@, k2) {
                        let w = choose|w: int| 0 <= w < self@.len() && (#[trigger] self@[w]).0 == k2;
                        assert(w < pre.len() ==> pre[w].0 == k2);
                        assert(false);
                    }
                }
            }
        }
        Ok(())
    }

    /// Unwind primitive: removes every entry whose number component is `> n`.
    pub fn unwind_num_above(&mut self, n: u64)
        requires
            old(self).wf(),
        ensures
            final(self).wf(),
            forall|k: BlockNumHash|
                k.number <= n ==> #[trigger] final(self).get_spec(k) == old(self).get_spec(k),
            forall|k: BlockNumHash| k.number > n ==> #[trigger] final(self).get_spec(k) is None,
    {
        let ghost pre = self@;
        let mut i: usize = 0;
        while i < self.entries.len() && self.entries[i].0.number <= n
            invariant
                self@ == pre,
                self.wf(),
                i <= self@.len(),
                forall|j: int| 0 <= j < i ==> (#[trigger] self@[j]).0.number <= n,
            decreases self@.len() - i,
        {
            i = i + 1;
        }
        proof {
            assert forall|j: int| i <= j < self@.len() implies (#[trigger] self@[j]).0.number > n by {
                if j > i {
                    assert(bnh_lt(self@[i as int].0, self@[j].0));
                }
            }
        }
        self.entries.truncate(i);
        proof {
            assert(self@ =~= pre.subrange(0, i as int));
            assert forall|k: BlockNumHash| k.number <= n implies #[trigger] self.get_spec(k)
                == old(self).get_spec(k) by {
                if bnh_has_key(pre, k) {
                    let w = choose|w: int| 0 <= w < pre.len() && (#[trigger] pre[w]).0 == k;
                    assert(w < i);
                    assert(self@[w] == pre[w]);
                    lemma_bnh_get_unique(self@, k, w, pre[w].1);
                    lemma_bnh_get_unique(pre, k, w, pre[w].1);
                } else {
                    if bnh_has_key(self@, k) {
                        let w = choose|w: int| 0 <= w < self@.len() && (#[trigger] self@[w]).0 == k;
                        assert(pre[w].0 == k);
                        assert(false);
                    }
                }
            }
            assert forall|k: BlockNumHash| k.number > n implies #[trigger] self.get_spec(k) is None by {
                if bnh_has_key(self@, k) {
                    let w = choose|w: int| 0 <= w < self@.len() && (#[trigger] self@[w]).0 == k;
                    assert(false);
                }
            }
        }
    }
}

/// Two well-formed composite-key tables that agree on every point lookup are
/// equal entry for entry.
pub proof fn lemma_bnh_pointwise_eq<V>(a: Seq<(BlockNumHash, V)>, b: Seq<(BlockNumHash, V)>)
    requires
        bnh_sorted(a),
        bnh_sorted(b),
        forall|k: BlockNumHash| #[trigger] bnh_get(a, k) == bnh_get(b, k),
    ensures
        a =~= b,
    decreases a.len(),
{
    if a.len() == 0 {
        if b.len() > 0 {
            lemma_bnh_get_unique(b, b[0].0, 0, b[0].1);
            assert(bnh_get(a, b[0].0) == bnh_get(b, b[0].0));
            assert(bnh_has_key(a, b[0].0));
            assert(false);
        }
    } else if b.len() == 0 {
        lemma_bnh_get_unique(a, a[0].0, 0, a[0].1);
        assert(bnh_get(a, a[0].0) == bnh_get(b, a[0].0));
        assert(bnh_has_key(b, a[0].0));
        assert(false);
    } else {
        lemma_bnh_get_unique(a, a[0].0, 0, a[0].1);
        lemma_bnh_get_unique(b, b[0].0, 0, b[0].1);
        assert(bnh_get(a, b[0].0) == bnh_get(b, b[0].0));
        assert(bnh_get(a, a[0].0) == bnh_get(b, a[0].0));
        assert(bnh_has_key(a, b[0].0));
        assert(bnh_has_key(b, a[0].0));
        let wa = choose|i: int| 0 <= i < a.len() && (#[trigger] a[i]).0 == b[0].0;
        let wb = choose|i: int| 0 <= i < b.len() && (#[trigger] b[i]).0 == a[0].0;
        if bnh_lt(a[0].0, b[0].0) {
            assert(b[wb].0 == a[0].0);
            assert(wb > 0 ==> bnh_lt(b[0].0, b[wb].0));
            assert(false);
        } else if bnh_lt(b[0].0, a[0].0) {
            assert(a[wa].0 == b[0].0);
            assert(wa > 0 ==> bnh_lt(a[0].0, a[wa].0));
            assert(false);
        }
        assert(a[0].0 == b[0].0);
        assert(a[0] == b[0]);
        let ta = a.remove(0);
        let tb = b.remove(0);
        assert forall|k: BlockNumHash| #[trigger] bnh_get(ta, k) == bnh_get(tb, k) by {
            lemma_bnh_remove_head(a, ta, k);
            lemma_bnh_remove_head(b, tb, k);
            if k == a[0].0 {
                if bnh_has_key(ta, k) {
                    let w = choose|i: int| 0 <= i < ta.len() && (#[trigger] ta[i]).0 == k;
                    assert(a[w + 1].0 == k);
                    assert(bnh_lt(a[0].0, a[w + 1].0));
                    assert(false);
                }
                if bnh_has_key(tb, k) {
                    let w = choose|i: int| 0 <= i < tb.len() && (#[trigger] tb[i]).0 == k;
                    assert(b[w + 1].0 == k);
                    assert(bnh_lt(b[0].0, b[w + 1].0));
                    assert(false);
                }
            }
        }
        lemma_bnh_pointwise_eq(ta, tb);
        assert(a =~= Seq::empty().push(a[0]) + ta);
        assert(b =~= Seq::empty().push(b[0]) + tb);
    }
}

/// Removing the head leaves the binding of any key other than the head's
/// unchanged.
proof fn lemma_bnh_remove_head<V>(pre: Seq<(BlockNumHash, V)>, post: Seq<(BlockNumHash, V)>, k: BlockNumHash)
    requires
        bnh_sorted(pre),
        pre.len() > 0,
        post =~= pre.remove(0),
    ensures
        k != pre[0].0 ==> bnh_get(post, k) == bnh_get(pre, k),
{
    assert(bnh_sorted(post));
    if k != pre[0].0 {
        if bnh_has_key(pre, k) {
            let w = choose|w: int| 0 <= w < pre.len() && (#[trigger] pre[w]).0 == k;
            assert(w != 0);
            assert(post[w - 1] == pre[w]);
            lemma_bnh_get_unique(post, k, w - 1, pre[w].1);
            lemma_bnh_get_unique(pre, k, w, pre[w].1);
        } else {
            if bnh_has_key(post, k) {
                let w = choose|w: int| 0 <= w < post.len() && (#[trigger] post[w]).0 == k;
                assert(pre[w + 1].0 == k);
                assert(false);
            }
        }
    }
}

} // verus!
