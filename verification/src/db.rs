//! The transaction wrapper: one read-write context over all typed tables,
//! with explicit commit points and the unwind primitives.
//!
//! Stages treat the wrapper as a single logical transaction; `commit` marks
//! a boundary after which the work so far survives re-entry. Positions into
//! tables are plain indices, so no cursor can outlive a commit.

use vstd::prelude::*;
use crate::kv::KvTable;
use crate::kv_numhash::{BlockNumHash, NumHashTable};
use crate::primitives::{Header, StoredBlockBody, TransactionSigned};
use crate::error::DatabaseIntegrityError;

verus! {

/// The transactional context over the chain tables.
pub struct Tx {
    /// `CanonicalHeaders`: block number to canonical header hash.
    pub canonical_headers: KvTable<u64>,
    /// `HeaderNumbers`: header hash back to block number.
    pub header_numbers: KvTable<u64>,
    /// `Headers`: composite key to full header.
    pub headers: NumHashTable<Header>,
    /// `HeaderTD`: composite key to cumulative total difficulty.
    pub header_td: NumHashTable<u128>,
    /// `BlockBodies`: composite key to the body index record.
    pub block_bodies: NumHashTable<StoredBlockBody>,
    /// `Transactions`: flat transaction log by monotonic index.
    pub transactions: KvTable<TransactionSigned>,
    /// `TxSenders`: recovered sender address by transaction index.
    pub tx_senders: KvTable<u64>,
    /// Number of commit boundaries crossed so far, modulo the counter
    /// width.
    pub commits: u64,
}

impl Tx {
    /// All tables are well-formed.
    pub open spec fn wf(&self) -> bool {
        &&& self.canonical_headers.wf()
        &&& self.header_numbers.wf()
        &&& self.headers.wf()
        &&& self.header_td.wf()
        &&& self.block_bodies.wf()
        &&& self.transactions.wf()
        &&& self.tx_senders.wf()
    }

    /// Every body record's transaction range fits the index type.
    pub open spec fn bodies_bounded(&self) -> bool {
        forall|i: int|
            0 <= i < self.block_bodies@.len() ==> (#[trigger] self.block_bodies@[i]).1.start_tx_id
                + self.block_bodies@[i].1.tx_count <= u64::MAX
    }

    /// The tables of `self` and `other` are equal entry for entry.
    pub open spec fn same_tables(&self, other: &Tx) -> bool {
        &&& self.canonical_headers@ == other.canonical_headers@
        &&& self.header_numbers@ == other.header_numbers@
        &&& self.headers@ == other.headers@
        &&& self.header_td@ == other.header_td@
        &&& self.block_bodies@ == other.block_bodies@
        &&& self.transactions@ == other.transactions@
        &&& self.tx_senders@ == other.tx_senders@
    }

    /// A fresh context over empty tables.
    pub fn new() -> (tx: Tx)
        ensures
            tx.wf(),
            tx.canonical_headers@.len() == 0,
            tx.header_numbers@.len() == 0,
            tx.headers@.len() == 0,
            tx.header_td@.len() == 0,
            tx.block_bodies@.len() == 0,
            tx.transactions@.len() == 0,
            tx.tx_senders@.len() == 0,
            tx.commits == 0,
    {
        Tx {
            canonical_headers: KvTable::new(),
            header_numbers: KvTable::new(),
            headers: NumHashTable::new(),
            header_td: NumHashTable::new(),
            block_bodies: NumHashTable::new(),
            transactions: KvTable::new(),
            tx_senders: KvTable::new(),
            commits: 0,
        }
    }

    /// Ends the current transaction and transparently begins a fresh one:
    /// a commit boundary. The tables are untouched.
    pub fn commit(&mut self)
        ensures
            final(self).same_tables(old(self)),
            final(self).wf() == old(self).wf(),
            final(self).commits == ((old(self).commits + 1) % 0x1_0000_0000_0000_0000) as u64,
    {
        if self.commits == u64::MAX {
            self.commits = 0;
        } else {
            self.commits = self.commits + 1;
        }
    }

    /// Convenience lookup: the composite key of the canonical block at
    /// `number`.
    pub fn get_block_numhash(&self, number: u64) -> (r: Result<BlockNumHash, DatabaseIntegrityError>)
        requires
            self.wf(),
        ensures
            match r {
                Ok(k) => k.number == number && self.canonical_headers.get_spec(number) == Some(
                    k.hash,
                ),
                Err(e) => self.canonical_headers.get_spec(number) is None && e
                    == (DatabaseIntegrityError::CanonicalHeader { number }),
            },
    {
        match self.canonical_headers.get(number) {
            Some(hash) => Ok(BlockNumHash { number, hash: *hash }),
            None => Err(DatabaseIntegrityError::CanonicalHeader { number }),
        }
    }

    /// The body record of the canonical block at `number`, as the tables
    /// bind it.
    pub open spec fn body_at(&self, number: u64) -> Option<StoredBlockBody> {
        match self.canonical_headers.get_spec(number) {
            Some(h) => self.block_bodies.get_spec(BlockNumHash { number, hash: h }),
            None => None,
        }
    }

    /// Which integrity error a failed body lookup reports.
    pub open spec fn body_missing_err(&self, number: u64) -> DatabaseIntegrityError {
        if self.canonical_headers.get_spec(number) is None {
            DatabaseIntegrityError::CanonicalHeader { number }
        } else {
            DatabaseIntegrityError::BlockBody { number }
        }
    }

    /// Convenience lookup: the body record of the canonical block at
    /// `number`.
    pub fn get_block_body_by_num(&self, number: u64) -> (r: Result<
        StoredBlockBody,
        DatabaseIntegrityError,
    >)
        requires
            self.wf(),
        ensures
            match r {
                Ok(b) => self.body_at(number) == Some(b),
                Err(e) => self.body_at(number) is None && e == self.body_missing_err(number),
            },
    {
        let key = match self.get_block_numhash(number) {
            Ok(k) => k,
            Err(e) => {
                return Err(e);
            },
        };
        match self.block_bodies.get(key) {
            Some(b) => {
                proof {
                    assert(self.canonical_headers.get_spec(number) == Some(key.hash)
                        && self.block_bodies.get_spec(BlockNumHash { number, hash: key.hash })
                        == Some(*b));
                }
                Ok(*b)
            },
            None => {
                proof {
                    assert(self.canonical_headers.get_spec(number) == Some(key.hash)
                        && self.block_bodies.get_spec(
                        BlockNumHash { number, hash: key.hash },
                    ) is None);
                }
                Err(DatabaseIntegrityError::BlockBody { number })
            },
        }
    }

    /// Unwind-by-walker over the canonical index: for every canonical entry
    /// whose block number is `>= start`, the reverse-lookup row keyed by
    /// that entry's hash is removed.
    pub fn unwind_table_by_walker(&mut self, start: u64)
        requires
            old(self).wf(),
        ensures
            final(self).wf(),
            final(self).canonical_headers@ == old(self).canonical_headers@,
            final(self).headers@ == old(self).headers@,
            final(self).header_td@ == old(self).header_td@,
            final(self).block_bodies@ == old(self).block_bodies@,
            final(self).transactions@ == old(self).transactions@,
            final(self).tx_senders@ == old(self).tx_senders@,
            final(self).commits == old(self).commits,
            forall|h: u64|
                (exists|n: u64|
                    n >= start && #[trigger] old(self).canonical_headers.get_spec(n) == Some(h))
                    ==> #[trigger] final(self).header_numbers.get_spec(h) is None,
            forall|h: u64|
                (forall|n: u64|
                    n >= start ==> #[trigger] old(self).canonical_headers.get_spec(n) != Some(h))
                    ==> #[trigger] final(self).header_numbers.get_spec(h) == old(
                    self,
                ).header_numbers.get_spec(h),
    {
        let i0 = self.canonical_headers.seek_ge(start);
        let n = self.canonical_headers.len();
        let ghost canon = self.canonical_headers@;
        let ghost pre_numbers = self.header_numbers@;
        let mut i: usize = i0;
        while i < n
            invariant
                i0 <= i <= n,
                n == canon.len(),
                self.canonical_headers@ == canon,
                self.canonical_headers.wf(),
                self.header_numbers.wf(),
                self.headers@ == old(self).headers@,
                self.header_td@ == old(self).header_td@,
                self.block_bodies@ == old(self).block_bodies@,
                self.transactions@ == old(self).transactions@,
                self.tx_senders@ == old(self).tx_senders@,
                self.commits == old(self).commits,
                old(self).headers.wf(),
                old(self).header_td.wf(),
                old(self).block_bodies.wf(),
                old(self).transactions.wf(),
                old(self).tx_senders.wf(),
                forall|j: int|
                    i0 <= j < i ==> #[trigger] self.header_numbers.get_spec(canon[j].1) is None,
                forall|h: u64|
                    (forall|j: int| i0 <= j < i ==> (#[trigger] canon[j]).1 != h)
                        ==> #[trigger] self.header_numbers.get_spec(h) == crate::kv::seq_get(
                        pre_numbers,
                        h,
                    ),
                forall|j: int| 0 <= j < i0 ==> (#[trigger] canon[j]).0 < start,
            decreases n - i,
        {
            let hash = self.canonical_headers.entry_at(i).1;
            self.header_numbers.delete(hash);
            proof {
                assert(canon[i as int].1 == hash);
                assert forall|j: int|
                    i0 <= j < i + 1 implies #[trigger] self.header_numbers.get_spec(
                    canon[j].1,
                ) is None by {
                    if j < i && canon[j].1 != hash {
                        assert(self.header_numbers.get_spec(canon[j].1) == old(
                            self,
                        ).header_numbers.get_spec(canon[j].1) || self.header_numbers.get_spec(
                            canon[j].1,
                        ) is None);
                    }
                }
            }
            i = i + 1;
        }
        proof {
            assert forall|h: u64|
                (exists|m: u64|
                    m >= start && #[trigger] old(self).canonical_headers.get_spec(m) == Some(h))
                    implies #[trigger] self.header_numbers.get_spec(h) is None by {
                let m = choose|m: u64|
                    m >= start && #[trigger] old(self).canonical_headers.get_spec(m) == Some(h);
                assert(crate::kv::seq_has_key(canon, m));
                let j = choose|j: int| 0 <= j < canon.len() && (#[trigger] canon[j]).0 == m;
                crate::kv::lemma_seq_get_unique(canon, m, j, canon[j].1);
                assert(canon[j].1 == h);
                assert(j >= i0);
            }
            assert forall|h: u64|
                (forall|m: u64|
                    m >= start ==> #[trigger] old(self).canonical_headers.get_spec(m) != Some(h))
                    implies #[trigger] self.header_numbers.get_spec(h) == old(
                self,
            ).header_numbers.get_spec(h) by {
                assert forall|j: int| i0 <= j < n implies (#[trigger] canon[j]).1 != h by {
                    crate::kv::lemma_seq_get_unique(canon, canon[j].0, j, canon[j].1);
                    assert(canon[j].0 >= start);
                    assert(old(self).canonical_headers.get_spec(canon[j].0) == Some(canon[j].1));
                }
            }
        }
    }
}

} // verus!
