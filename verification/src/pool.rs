//! The parked transaction pool: a dual-indexed container over validated
//! transactions awaiting promotion. A map keyed by transaction identifier
//! and a priority-ordered list hold the same records at all times; every
//! record carries a submission id assigned at insertion, and the order is
//! the priority with the submission id as a FIFO tie-break.

use vstd::prelude::*;
use vstd::seq_lib::*;
use std::collections::HashMap;
use std::hash::BuildHasherDefault;
use fnv::FnvHasher;

verus! {

/// fnv's hasher, declared so the map's hasher type can appear in fields.
#[verifier::external_type_specification]
#[verifier::external_body]
pub struct ExFnvHasher(FnvHasher);

/// std's adapter from a default-constructible hasher to a hasher builder.
#[verifier::external_type_specification]
#[verifier::external_body]
#[verifier::reject_recursive_types(H)]
pub struct ExBuildHasherDefault<H>(BuildHasherDefault<H>);

/// The map index's type: a hash map keyed by transaction identifier with
/// fnv's hasher.
pub type FnvIndex<V> = HashMap<u64, V, BuildHasherDefault<FnvHasher>>;

/// Relies on `HashMap::default` (through fnv's map alias): a newly
/// constructed map is empty.
#[verifier::external_body]
fn fnv_map_new<V>() -> (m: FnvIndex<V>)
    ensures
        m@.dom() == Set::<u64>::empty(),
{
    fnv::FnvHashMap::default()
}

/// Relies on `HashMap::insert`: with `u64` keys and fnv's deterministic
/// hasher, the map afterwards binds `k` to `v` and is otherwise
/// unchanged.
#[verifier::external_body]
fn fnv_map_insert<V>(m: &mut FnvIndex<V>, k: u64, v: V)
    ensures
        final(m)@ == old(m)@.insert(k, v),
{
    m.insert(k, v);
}

/// Relies on `HashMap::remove`: the map afterwards no longer binds `k`,
/// and the removed value is returned.
#[verifier::external_body]
fn fnv_map_remove<V>(m: &mut FnvIndex<V>, k: u64) -> (r: Option<V>)
    ensures
        final(m)@ == old(m)@.remove(k),
        match r {
            Some(v) => old(m)@.contains_key(k) && v == old(m)@[k],
            None => !old(m)@.contains_key(k),
        },
{
    m.remove(&k)
}

/// Relies on `HashMap::contains_key`.
#[verifier::external_body]
fn fnv_map_contains<V>(m: &FnvIndex<V>, k: u64) -> (r: bool)
    ensures
        r == m@.contains_key(k),
{
    m.contains_key(&k)
}

/// A transaction that passed validation, reduced to what the parked pool
/// reads: its identifier and its fee-based priority.
#[derive(Clone, Copy, Debug, PartialEq, Eq)]
pub struct ValidPoolTransaction {
    /// The transaction's identifier; unique within the pool.
    pub id: u64,
    /// The maximum base fee the transaction pays, if it carries one.
    pub max_fee_per_gas: Option<u128>,
}

/// Helper trait for the priority wrappers around a pool transaction: each
/// wrapper carries the transaction and defines the priority key its pool
/// sorts by.
pub trait ParkedOrd: Sized + Copy {
    /// The wrapper holding `tx`.
    spec fn from_spec(tx: ValidPoolTransaction) -> Self;

    /// The wrapped transaction.
    spec fn tx_spec(&self) -> ValidPoolTransaction;

    /// The priority key, compared lexicographically.
    spec fn prio_spec(&self) -> (u64, u128);

    /// Wrapping and unwrapping are inverse.
    proof fn lemma_from_spec(tx: ValidPoolTransaction)
        ensures
            Self::from_spec(tx).tx_spec() == tx,
    ;

    /// Wrap a transaction.
    fn from_tx(tx: ValidPoolTransaction) -> (s: Self)
        ensures
            s == Self::from_spec(tx),
    ;

    /// Unwrap the transaction.
    fn into_tx(self) -> (tx: ValidPoolTransaction)
        ensures
            tx == self.tx_spec(),
    ;

    /// The wrapped transaction's identifier.
    fn tx_id(&self) -> (id: u64)
        ensures
            id == self.tx_spec().id,
    ;

    /// The priority key.
    fn prio(&self) -> (k: (u64, u128))
        ensures
            k == self.prio_spec(),
    ;
}

/// Sorts transactions by their base fee; a missing fee sorts below every
/// present fee.
#[derive(Clone, Copy, Debug, PartialEq, Eq)]
pub struct BasefeeOrd(pub ValidPoolTransaction);

impl ParkedOrd for BasefeeOrd {
    open spec fn from_spec(tx: ValidPoolTransaction) -> Self {
        BasefeeOrd(tx)
    }

    open spec fn tx_spec(&self) -> ValidPoolTransaction {
        self.0
    }

    open spec fn prio_spec(&self) -> (u64, u128) {
        match self.0.max_fee_per_gas {
            None => (0, 0),
            Some(fee) => (1, fee),
        }
    }

    proof fn lemma_from_spec(tx: ValidPoolTransaction) {
    }

    fn from_tx(tx: ValidPoolTransaction) -> (s: Self) {
        BasefeeOrd(tx)
    }

    fn into_tx(self) -> (tx: ValidPoolTransaction) {
        self.0
    }

    fn tx_id(&self) -> (id: u64) {
        self.0.id
    }

    fn prio(&self) -> (k: (u64, u128)) {
        match self.0.max_fee_per_gas {
            None => (0, 0),
            Some(fee) => (1, fee),
        }
    }
}

/// Sorts transactions by their queued distance; every distance is equal
/// for now, so the pool's FIFO tie-break decides.
#[derive(Clone, Copy, Debug, PartialEq, Eq)]
pub struct QueuedOrd(pub ValidPoolTransaction);

impl ParkedOrd for QueuedOrd {
    open spec fn from_spec(tx: ValidPoolTransaction) -> Self {
        QueuedOrd(tx)
    }

    open spec fn tx_spec(&self) -> ValidPoolTransaction {
        self.0
    }

    open spec fn prio_spec(&self) -> (u64, u128) {
        (0, 0)
    }

    proof fn lemma_from_spec(tx: ValidPoolTransaction) {
    }

    fn from_tx(tx: ValidPoolTransaction) -> (s: Self) {
        QueuedOrd(tx)
    }

    fn into_tx(self) -> (tx: ValidPoolTransaction) {
        self.0
    }

    fn tx_id(&self) -> (id: u64) {
        self.0.id
    }

    fn prio(&self) -> (k: (u64, u128)) {
        (0, 0)
    }
}

/// A transaction inside the pool: the ordering wrapper together with the
/// submission id assigned when it entered.
#[derive(Clone, Copy, Debug)]
pub struct ParkedPoolTransaction<T: ParkedOrd> {
    /// Tags when the transaction was submitted to the pool.
    pub submission_id: u64,
    /// The wrapped transaction.
    pub transaction: T,
}

/// The full comparison key of a pool record: the wrapper's priority, then
/// the submission id.
pub open spec fn rec_key<T: ParkedOrd>(r: ParkedPoolTransaction<T>) -> (u64, u128, u64) {
    (r.transaction.prio_spec().0, r.transaction.prio_spec().1, r.submission_id)
}

/// Lexicographic order on full keys.
pub open spec fn key_le(a: (u64, u128, u64), b: (u64, u128, u64)) -> bool {
    a.0 < b.0 || (a.0 == b.0 && (a.1 < b.1 || (a.1 == b.1 && a.2 <= b.2)))
}

/// The parked pool: a bijective pair of indexes over the same records.
pub struct ParkedPool<T: ParkedOrd> {
    /// Submission counter; wraps on overflow.
    submission_id: u64,
    /// All transactions currently inside the pool, by identifier.
    by_id: FnvIndex<ParkedPoolTransaction<T>>,
    /// The same transactions, sorted by priority with FIFO tie-break.
    best: Vec<ParkedPoolTransaction<T>>,
}

impl<T: ParkedOrd> ParkedPool<T> {
    /// The map index's contents.
    pub closed spec fn by_id_spec(&self) -> Map<u64, ParkedPoolTransaction<T>> {
        self.by_id@
    }

    /// The ordered index's contents.
    pub closed spec fn best_spec(&self) -> Seq<ParkedPoolTransaction<T>> {
        self.best@
    }

    /// The submission counter.
    pub closed spec fn submission_counter(&self) -> u64 {
        self.submission_id
    }

    /// The pool's invariant: the two indexes hold exactly the same
    /// records, each record sits under its own id, ids are unique, and
    /// the ordered index is sorted by priority then submission id.
    pub open spec fn wf(&self) -> bool {
        &&& self.by_id_spec().dom().finite()
        &&& forall|i: int|
            0 <= i < self.best_spec().len() ==> self.by_id_spec().contains_key(
                (#[trigger] self.best_spec()[i]).transaction.tx_spec().id,
            ) && self.by_id_spec()[self.best_spec()[i].transaction.tx_spec().id]
                == self.best_spec()[i]
        &&& forall|id: u64|
            #[trigger] self.by_id_spec().contains_key(id) ==> exists|i: int|
                0 <= i < self.best_spec().len() && (#[trigger] self.best_spec()[i])
                    == self.by_id_spec()[id]
        &&& forall|id: u64|
            #[trigger] self.by_id_spec().contains_key(id)
                ==> self.by_id_spec()[id].transaction.tx_spec().id == id
        &&& forall|i: int, j: int|
            0 <= i < j < self.best_spec().len() ==> (#[trigger] self.best_spec()[i]).transaction.tx_spec().id
                != (#[trigger] self.best_spec()[j]).transaction.tx_spec().id
        &&& forall|i: int, j: int|
            0 <= i < j < self.best_spec().len() ==> key_le(
                rec_key(#[trigger] self.best_spec()[i]),
                rec_key(#[trigger] self.best_spec()[j]),
            )
    }

    /// An empty pool.
    pub fn new() -> (p: Self)
        ensures
            p.wf(),
            p.by_id_spec() == Map::<u64, ParkedPoolTransaction<T>>::empty(),
            p.best_spec() == Seq::<ParkedPoolTransaction<T>>::empty(),
            p.submission_counter() == 0,
    {
        let p = ParkedPool { submission_id: 0, by_id: fnv_map_new(), best: Vec::new() };
        proof {
            assert(p.best_spec() =~= Seq::<ParkedPoolTransaction<T>>::empty());
            assert(p.by_id@ =~= Map::<u64, ParkedPoolTransaction<T>>::empty());
        }
        p
    }

    /// Whether a transaction with identifier `id` is in the pool; callers
    /// check this before `add_transaction`, whose precondition forbids
    /// duplicates.
    pub fn contains(&self, id: u64) -> (r: bool)
        ensures
            r == self.by_id_spec().contains_key(id),
    {
        fnv_map_contains(&self.by_id, id)
    }

    /// Number of transactions in the pool.
    pub fn len(&self) -> (n: usize)
        ensures
            n == self.best_spec().len(),
    {
        self.best.len()
    }

    /// The next submission id; the counter wraps, which is acceptable
    /// because no realistic pool sees that many insertions.
    fn next_id(&mut self) -> (id: u64)
        ensures
            id == old(self).submission_counter(),
            final(self).submission_counter() == ((old(self).submission_counter() + 1)
                % 0x1_0000_0000_0000_0000) as u64,
            final(self).by_id_spec() == old(self).by_id_spec(),
            final(self).best_spec() == old(self).best_spec(),
    {
        let id = self.submission_id;
        self.submission_id = self.submission_id.wrapping_add(1);
        id
    }

    /// The sorted position for `rec`: after every record whose key is at
    /// most `rec`'s, which keeps equal priorities in FIFO order.
    fn find_insert_pos(best: &Vec<ParkedPoolTransaction<T>>, rec: &ParkedPoolTransaction<T>) -> (i:
        usize)
        ensures
            i <= best@.len(),
            forall|p: int| 0 <= p < i ==> key_le(rec_key(#[trigger] best@[p]), rec_key(*rec)),
            i < best@.len() ==> !key_le(rec_key(best@[i as int]), rec_key(*rec)),
    {
        let prio = rec.transaction.prio();
        let mut i: usize = 0;
        while i < best.len()
            invariant
                i <= best@.len(),
                prio == rec.transaction.prio_spec(),
                forall|p: int| 0 <= p < i ==> key_le(rec_key(#[trigger] best@[p]), rec_key(*rec)),
            decreases best@.len() - i,
        {
            let e = &best[i];
            let eprio = e.transaction.prio();
            let after = eprio.0 > prio.0 || (eprio.0 == prio.0 && (eprio.1 > prio.1 || (eprio.1
                == prio.1 && e.submission_id > rec.submission_id)));
            if after {
                return i;
            }
            i = i + 1;
        }
        i
    }

    /// Adds a new transaction to the pool, indexing it on both sides.
    /// Inserting an identifier that is already present is a programming
    /// error, which the precondition excludes.
    #[verifier::loop_isolation(false)]
    #[verifier::rlimit(60)]
    pub fn add_transaction(&mut self, tx: ValidPoolTransaction)
        requires
            old(self).wf(),
            !old(self).by_id_spec().contains_key(tx.id),
        ensures
            final(self).wf(),
            final(self).submission_counter() == ((old(self).submission_counter() + 1)
                % 0x1_0000_0000_0000_0000) as u64,
            ({
                let rec = ParkedPoolTransaction {
                    submission_id: old(self).submission_counter(),
                    transaction: T::from_spec(tx),
                };
                &&& final(self).by_id_spec() == old(self).by_id_spec().insert(tx.id, rec)
                &&& exists|i: int|
                    0 <= i <= old(self).best_spec().len() && final(self).best_spec() == old(
                        self,
                    ).best_spec().insert(i, rec)
            }),
    {
        proof {
            T::lemma_from_spec(tx);
        }
        let id = tx.id;
        let submission_id = self.next_id();
        let transaction = ParkedPoolTransaction { submission_id, transaction: T::from_tx(tx) };

        fnv_map_insert(&mut self.by_id, id, transaction);

        // Find the sorted position: after every record whose key is at
        // most the new record's key.
        let ghost key = rec_key(transaction);
        let i = Self::find_insert_pos(&self.best, &transaction);
        let ghost pre_best = self.best@;
        proof {
            assert(pre_best == old(self).best_spec());
        }
        let ghost pre_map = self.by_id@;
        self.best.insert(i, transaction);
        proof {
            let post = self.best@;
            assert(post == pre_best.insert(i as int, transaction));
            assert forall|p: int, q: int|
                0 <= p < q < post.len() implies key_le(
                rec_key(#[trigger] post[p]),
                rec_key(#[trigger] post[q]),
            ) by {
                if q == i {
                    assert(key_le(rec_key(pre_best[p]), key));
                } else if p == i && q > i {
                    assert(!key_le(rec_key(pre_best[i as int]), key));
                    if q - 1 > i {
                        assert(key_le(rec_key(pre_best[i as int]), rec_key(pre_best[q - 1])));
                    }
                    assert(key_le(key, rec_key(pre_best[q - 1])));
                } else if p < i && q > i {
                    assert(key_le(rec_key(pre_best[p]), rec_key(pre_best[q - 1])));
                } else if p > i {
                    assert(key_le(rec_key(pre_best[p - 1]), rec_key(pre_best[q - 1])));
                } else {
                    assert(key_le(rec_key(pre_best[p]), rec_key(pre_best[q])));
                }
            }
            assert forall|p: int, q: int|
                0 <= p < q < post.len() implies (#[trigger] post[p]).transaction.tx_spec().id
                != (#[trigger] post[q]).transaction.tx_spec().id by {
                if p != i && q != i {
                    let p0 = if p < i { p } else { p - 1 };
                    let q0 = if q < i { q } else { q - 1 };
                    assert(pre_best[p0] == post[p]);
                    assert(pre_best[q0] == post[q]);
                } else if p == i {
                    assert(pre_best[q - 1] == post[q]);
                    assert(old(self).by_id_spec().contains_key(
                        pre_best[q - 1].transaction.tx_spec().id,
                    ));
                } else {
                    assert(pre_best[p] == post[p]);
                    assert(old(self).by_id_spec().contains_key(
                        pre_best[p].transaction.tx_spec().id,
                    ));
                }
            }
            assert forall|p: int|
                0 <= p < post.len() implies self.by_id_spec().contains_key(
                (#[trigger] post[p]).transaction.tx_spec().id,
            ) && self.by_id_spec()[post[p].transaction.tx_spec().id] == post[p] by {
                if p == i {
                    assert(post[p] == transaction);
                } else {
                    let p0 = if p < i { p } else { p - 1 };
                    assert(pre_best[p0] == post[p]);
                    assert(pre_best[p0].transaction.tx_spec().id != tx.id);
                }
            }
            assert forall|id2: u64| #[trigger]
                self.by_id_spec().contains_key(id2) implies exists|p: int|
                0 <= p < post.len() && (#[trigger] post[p]) == self.by_id_spec()[id2] by {
                if id2 == tx.id {
                    assert(post[i as int] == transaction);
                } else {
                    assert(pre_map.contains_key(id2));
                    let w = choose|w: int|
                        0 <= w < pre_best.len() && (#[trigger] pre_best[w]) == pre_map[id2];
                    if w < i {
                        assert(post[w] == pre_best[w]);
                    } else {
                        assert(post[w + 1] == pre_best[w]);
                    }
                }
            }
        }
    }

    /// Removes the transaction with identifier `id` from both indexes,
    /// returning it.
    #[verifier::loop_isolation(false)]
    #[verifier::rlimit(60)]
    pub fn remove_transaction(&mut self, id: u64) -> (r: Option<ValidPoolTransaction>)
        requires
            old(self).wf(),
        ensures
            final(self).wf(),
            final(self).submission_counter() == old(self).submission_counter(),
            final(self).by_id_spec() == old(self).by_id_spec().remove(id),
            match r {
                Some(t) => {
                    &&& old(self).by_id_spec().contains_key(id)
                    &&& t == old(self).by_id_spec()[id].transaction.tx_spec()
                    &&& exists|i: int|
                        0 <= i < old(self).best_spec().len() && old(self).best_spec()[i] == old(
                            self,
                        ).by_id_spec()[id] && final(self).best_spec() == old(
                            self,
                        ).best_spec().remove(i)
                },
                None => !old(self).by_id_spec().contains_key(id) && final(self).best_spec() == old(
                    self,
                ).best_spec(),
            },
    {
        let removed = fnv_map_remove(&mut self.by_id, id);
        let rec = match removed {
            Some(rec) => rec,
            None => {
                proof {
                    assert(self.by_id@ =~= old(self).by_id@);
                }
                return None;
            },
        };
        // The record sits somewhere in the ordered index; find and drop
        // it.
        let ghost pre_best = self.best@;
        proof {
            assert(pre_best == old(self).best_spec());
            assert(old(self).by_id_spec().contains_key(id));
            assert(exists|w: int|
                0 <= w < pre_best.len() && (#[trigger] pre_best[w]) == old(self).by_id_spec()[id]);
        }
        let n = self.best.len();
        let mut i: usize = 0;
        while i < n
            invariant
                i <= n,
                n == self.best@.len(),
                self.best@ == pre_best,
                self.by_id@ == old(self).by_id@.remove(id),
                self.submission_id == old(self).submission_id,
                forall|p: int|
                    0 <= p < i ==> (#[trigger] pre_best[p]).transaction.tx_spec().id != id,
            decreases n - i,
        {
            if self.best[i].transaction.tx_id() == id {
                let ghost w = choose|w: int|
                    0 <= w < pre_best.len() && (#[trigger] pre_best[w]) == old(self).by_id_spec()[id];
                proof {
                    assert(pre_best[w].transaction.tx_spec().id == id);
                    assert(w == i);
                }
                self.best.remove(i);
                proof {
                    let post = self.best@;
                    assert(post == pre_best.remove(i as int));
                    assert forall|p: int, q: int|
                        0 <= p < q < post.len() implies key_le(
                        rec_key(#[trigger] post[p]),
                        rec_key(#[trigger] post[q]),
                    ) by {
                        let p0 = if p < i { p } else { p + 1 };
                        let q0 = if q < i { q } else { q + 1 };
                        assert(post[p] == pre_best[p0]);
                        assert(post[q] == pre_best[q0]);
                    }
                    assert forall|p: int, q: int|
                        0 <= p < q < post.len() implies (#[trigger] post[p]).transaction.tx_spec().id
                        != (#[trigger] post[q]).transaction.tx_spec().id by {
                        let p0 = if p < i { p } else { p + 1 };
                        let q0 = if q < i { q } else { q + 1 };
                        assert(post[p] == pre_best[p0]);
                        assert(post[q] == pre_best[q0]);
                    }
                    assert(self.by_id_spec() == old(self).by_id_spec().remove(id));
                    assert forall|p: int|
                        0 <= p < post.len() implies self.by_id_spec().contains_key(
                        (#[trigger] post[p]).transaction.tx_spec().id,
                    ) && self.by_id_spec()[post[p].transaction.tx_spec().id] == post[p] by {
                        let p0 = if p < i { p } else { p + 1 };
                        assert(post[p] == pre_best[p0]);
                        assert(old(self).best_spec()[p0] == pre_best[p0]);
                        assert(old(self).best_spec()[i as int] == pre_best[i as int]);
                        assert(pre_best[p0].transaction.tx_spec().id != id);
                        assert(old(self).by_id_spec().contains_key(
                            pre_best[p0].transaction.tx_spec().id,
                        ));
                    }
                    assert forall|id2: u64| #[trigger]
                        self.by_id_spec().contains_key(id2) implies exists|p: int|
                        0 <= p < post.len() && (#[trigger] post[p]) == self.by_id_spec()[id2] by {
                        assert(self.by_id_spec() == old(self).by_id_spec().remove(id));
                        assert(old(self).by_id_spec().contains_key(id2));
                        assert(id2 != id);
                        let v = choose|v: int|
                            0 <= v < pre_best.len() && (#[trigger] pre_best[v]) == old(
                                self,
                            ).by_id_spec()[id2];
                        assert(pre_best[v].transaction.tx_spec().id == id2);
                        assert(v != i);
                        if v < i {
                            assert(post[v] == pre_best[v]);
                        } else {
                            assert(post[v - 1] == pre_best[v]);
                        }
                    }
                }
                return Some(rec.transaction.into_tx());
            }
            i = i + 1;
        }
        proof {
            // The invariant says the record's id is nowhere in the
            // ordered index, yet the map held it: impossible.
            let w = choose|w: int|
                0 <= w < pre_best.len() && (#[trigger] pre_best[w]) == old(self).by_id_spec()[id];
            assert(pre_best[w].transaction.tx_spec().id == id);
            assert(false);
        }
        None
    }

    /// The best transaction: the first element of the ordered index.
    pub fn peek_best(&self) -> (r: Option<&ParkedPoolTransaction<T>>)
        ensures
            match r {
                Some(rec) => self.best_spec().len() > 0 && *rec == self.best_spec()[0],
                None => self.best_spec().len() == 0,
            },
    {
        if self.best.len() > 0 {
            Some(&self.best[0])
        } else {
            None
        }
    }
}

impl<T: ParkedOrd> Default for ParkedPool<T> {
    /// An empty pool.
    fn default() -> (p: Self)
        ensures
            p.wf(),
            p.by_id_spec() == Map::<u64, ParkedPoolTransaction<T>>::empty(),
            p.best_spec() == Seq::<ParkedPoolTransaction<T>>::empty(),
            p.submission_counter() == 0,
    {
        ParkedPool::new()
    }
}

/// The parked pool's two indexes are a bijection: for every reachable
/// pool, they hold the same transactions and equally many of them.
pub proof fn lemma_parked_pool_bijection<T: ParkedOrd>(pool: &ParkedPool<T>)
    requires
        pool.wf(),
    ensures
        pool.by_id_spec().dom().len() == pool.best_spec().len(),
        forall|i: int|
            0 <= i < pool.best_spec().len() ==> pool.by_id_spec().contains_key(
                (#[trigger] pool.best_spec()[i]).transaction.tx_spec().id,
            ) && pool.by_id_spec()[pool.best_spec()[i].transaction.tx_spec().id]
                == pool.best_spec()[i],
        forall|id: u64|
            #[trigger] pool.by_id_spec().contains_key(id) ==> exists|i: int|
                0 <= i < pool.best_spec().len() && (#[trigger] pool.best_spec()[i])
                    == pool.by_id_spec()[id],
{
    let best = pool.best_spec();
    let ids = Seq::new(best.len(), |i: int| best[i].transaction.tx_spec().id);
    assert(ids.no_duplicates());
    ids.unique_seq_to_set();
    assert(ids.to_set() =~= pool.by_id_spec().dom()) by {
        assert forall|id: u64| ids.to_set().contains(id) implies pool.by_id_spec().dom().contains(
            id,
        ) by {
            let i = choose|i: int| 0 <= i < ids.len() && ids[i] == id;
            assert(best[i].transaction.tx_spec().id == id);
        }
        assert forall|id: u64| pool.by_id_spec().dom().contains(id) implies ids.to_set().contains(
            id,
        ) by {
            let i = choose|i: int|
                0 <= i < best.len() && (#[trigger] best[i]) == pool.by_id_spec()[id];
            assert(best[i].transaction.tx_spec().id == id);
            assert(ids[i] == id);
        }
    }
}

} // verus!
