//! The database inspection tool behind the command line: table
//! statistics, table listings, and a deterministic seeding routine for
//! test databases. Argument parsing and printing live outside the
//! library.

use vstd::prelude::*;
use crate::db::Tx;
use crate::kv_numhash::BlockNumHash;
use crate::primitives::{Header, StoredBlockBody, TransactionSigned};

verus! {

/// The `db` command: a database location and a subcommand.
#[derive(Clone, Debug)]
pub struct Command {
    /// Path to the database folder.
    pub db: String,
    /// The subcommand to run.
    pub command: Subcommands,
}

/// The `db` subcommands.
#[derive(Clone, Debug)]
pub enum Subcommands {
    /// Lists all the table names and their entry counts.
    Stats,
    /// Lists the contents of a table.
    List(ListArgs),
    /// Seeds the block tables with a deterministic chain.
    Seed {
        /// How many blocks to generate.
        len: u64,
    },
}

/// The arguments of the `list` subcommand.
#[derive(Clone, Debug)]
pub struct ListArgs {
    /// The table name.
    pub table: String,
    /// Where to start iterating.
    pub start: usize,
    /// How many entries to take.
    pub len: usize,
}

/// The failures the tool reports to its caller.
#[derive(Clone, Copy, Debug, PartialEq, Eq, Structural)]
pub enum ToolError {
    /// The named table is not listable.
    UnknownTable,
}

/// A page of a listable table.
#[derive(Clone, Debug, PartialEq, Eq)]
pub enum TableListing {
    /// Entries of the headers table.
    Headers(Vec<(BlockNumHash, Header)>),
    /// Entries of the flat transaction log.
    Transactions(Vec<(u64, TransactionSigned)>),
}

/// Relies on `str`'s equality: two string slices are equal exactly when
/// their characters are.
#[verifier::external_body]
fn str_eq(a: &str, b: &str) -> (r: bool)
    ensures
        r == (a@ == b@),
{
    a == b
}

/// The hash the seeding routine gives block `n`.
pub open spec fn seed_hash(n: u64) -> u64 {
    (n + 0x100000) as u64
}

/// The header the seeding routine gives block `n`: unit difficulty, each
/// block linking to the one before it.
pub open spec fn seed_header(n: u64) -> Header {
    Header {
        number: n,
        parent_hash: if n == 0 {
            0
        } else {
            seed_hash((n - 1) as u64)
        },
        difficulty: 1,
    }
}

/// The single transaction the seeding routine gives block `n`.
pub open spec fn seed_tx(n: u64) -> TransactionSigned {
    TransactionSigned { signer: (n + 1) as u64, signature_valid: true }
}

/// Abstraction over the transactional context for inspecting and seeding
/// the database.
pub struct DbTool {
    /// The wrapped transaction.
    pub db: Tx,
}

impl DbTool {
    /// Takes a context whose tables have already been created.
    pub fn new(db: Tx) -> (t: Self)
        ensures
            t.db == db,
    {
        DbTool { db }
    }

    /// Seeds the database with a deterministic chain of `len` blocks,
    /// each with one transaction: the canonical index, reverse lookups,
    /// headers, unit-difficulty totals, body records and the transaction
    /// log, in ascending order.
    #[verifier::loop_isolation(false)]
    #[verifier::rlimit(60)]
    pub fn seed(&mut self, len: u64)
        requires
            old(self).db.wf(),
            old(self).db.canonical_headers@.len() == 0,
            old(self).db.header_numbers@.len() == 0,
            old(self).db.headers@.len() == 0,
            old(self).db.header_td@.len() == 0,
            old(self).db.block_bodies@.len() == 0,
            old(self).db.transactions@.len() == 0,
            len <= 0xFFFF_FFFF,
        ensures
            final(self).db.wf(),
            final(self).db.bodies_bounded(),
            final(self).db.tx_senders@ == old(self).db.tx_senders@,
            final(self).db.commits == ((old(self).db.commits + 1) % 0x1_0000_0000_0000_0000) as u64,
            final(self).db.canonical_headers@ == Seq::new(len as nat, |i: int| (i as u64, seed_hash(i as u64))),
            final(self).db.headers@ == Seq::new(
                len as nat,
                |i: int|
                    (
                        BlockNumHash { number: i as u64, hash: seed_hash(i as u64) },
                        seed_header(i as u64),
                    ),
            ),
            final(self).db.header_numbers@ == Seq::new(
                len as nat,
                |i: int| (seed_hash(i as u64), i as u64),
            ),
            final(self).db.header_td@ == Seq::new(
                len as nat,
                |i: int|
                    (
                        BlockNumHash { number: i as u64, hash: seed_hash(i as u64) },
                        (i + 1) as u128,
                    ),
            ),
            final(self).db.block_bodies@ == Seq::new(
                len as nat,
                |i: int|
                    (
                        BlockNumHash { number: i as u64, hash: seed_hash(i as u64) },
                        StoredBlockBody { start_tx_id: i as u64, tx_count: 1 },
                    ),
            ),
            final(self).db.transactions@ == Seq::new(
                len as nat,
                |i: int| (i as u64, seed_tx(i as u64)),
            ),
    {
        let mut n: u64 = 0;
        while n < len
            invariant
                n <= len,
                self.db.wf(),
                self.db.tx_senders@ == old(self).db.tx_senders@,
                self.db.commits == old(self).db.commits,
                self.db.canonical_headers@ == Seq::new(
                    n as nat,
                    |i: int| (i as u64, seed_hash(i as u64)),
                ),
                self.db.headers@ == Seq::new(
                    n as nat,
                    |i: int|
                        (
                            BlockNumHash { number: i as u64, hash: seed_hash(i as u64) },
                            seed_header(i as u64),
                        ),
                ),
                self.db.header_numbers@ == Seq::new(
                    n as nat,
                    |i: int| (seed_hash(i as u64), i as u64),
                ),
                self.db.header_td@ == Seq::new(
                    n as nat,
                    |i: int|
                        (
                            BlockNumHash { number: i as u64, hash: seed_hash(i as u64) },
                            (i + 1) as u128,
                        ),
                ),
                self.db.block_bodies@ == Seq::new(
                    n as nat,
                    |i: int|
                        (
                            BlockNumHash { number: i as u64, hash: seed_hash(i as u64) },
                            StoredBlockBody { start_tx_id: i as u64, tx_count: 1 },
                        ),
                ),
                self.db.transactions@ == Seq::new(n as nat, |i: int| (i as u64, seed_tx(i as u64))),
            decreases len - n,
        {
            let hash = n + 0x100000;
            let parent_hash = if n == 0 {
                0
            } else {
                n - 1 + 0x100000
            };
            let header = Header { number: n, parent_hash, difficulty: 1 };
            let key = BlockNumHash { number: n, hash };

            let r1 = self.db.canonical_headers.append(n, hash);
            let r2 = self.db.header_numbers.append(hash, n);
            let r3 = self.db.headers.append(key, header);
            let r4 = self.db.header_td.append(key, (n + 1) as u128);
            let r5 = self.db.block_bodies.append(
                key,
                StoredBlockBody { start_tx_id: n, tx_count: 1 },
            );
            let r6 = self.db.transactions.append(
                n,
                TransactionSigned { signer: n + 1, signature_valid: true },
            );
            proof {
                assert(r1 is Ok && r2 is Ok && r3 is Ok && r4 is Ok && r5 is Ok && r6 is Ok);
                assert(self.db.canonical_headers@ =~= Seq::new(
                    (n + 1) as nat,
                    |i: int| (i as u64, seed_hash(i as u64)),
                ));
                assert(self.db.headers@ =~= Seq::new(
                    (n + 1) as nat,
                    |i: int|
                        (
                            BlockNumHash { number: i as u64, hash: seed_hash(i as u64) },
                            seed_header(i as u64),
                        ),
                ));
                assert(self.db.header_numbers@ =~= Seq::new(
                    (n + 1) as nat,
                    |i: int| (seed_hash(i as u64), i as u64),
                ));
                assert(self.db.header_td@ =~= Seq::new(
                    (n + 1) as nat,
                    |i: int|
                        (
                            BlockNumHash { number: i as u64, hash: seed_hash(i as u64) },
                            (i + 1) as u128,
                        ),
                ));
                assert(self.db.block_bodies@ =~= Seq::new(
                    (n + 1) as nat,
                    |i: int|
                        (
                            BlockNumHash { number: i as u64, hash: seed_hash(i as u64) },
                            StoredBlockBody { start_tx_id: i as u64, tx_count: 1 },
                        ),
                ));
                assert(self.db.transactions@ =~= Seq::new(
                    (n + 1) as nat,
                    |i: int| (i as u64, seed_tx(i as u64)),
                ));
            }
            n = n + 1;
        }
        self.db.commit();
        proof {
            assert forall|i: int|
                0 <= i < self.db.block_bodies@.len() implies (#[trigger] self.db.block_bodies@[i]).1.start_tx_id
                + self.db.block_bodies@[i].1.tx_count <= u64::MAX by {
                assert(self.db.block_bodies@[i].1 == (StoredBlockBody {
                    start_tx_id: i as u64,
                    tx_count: 1,
                }));
            }
        }
    }

    /// Lists the named table's contents; only the headers table and the
    /// transaction log are listable.
    pub fn list(&self, args: &ListArgs) -> (r: Result<TableListing, ToolError>)
        requires
            self.db.wf(),
        ensures
            match r {
                Ok(listing) => (args.table@ == "headers"@ && (listing matches TableListing::Headers(
                    v,
                ) && v@ == page_headers(self.db.headers@, args.start as int, args.len as int)))
                    || (args.table@ == "txs"@ && (listing matches TableListing::Transactions(v)
                    && v@ == page_transactions(
                    self.db.transactions@,
                    args.start as int,
                    args.len as int,
                ))),
                Err(e) => e == ToolError::UnknownTable && args.table@ != "headers"@ && args.table@
                    != "txs"@,
            },
    {
        if str_eq(args.table.as_str(), "headers") {
            Ok(TableListing::Headers(self.list_headers(args.start, args.len)))
        } else if str_eq(args.table.as_str(), "txs") {
            Ok(TableListing::Transactions(self.list_transactions(args.start, args.len)))
        } else {
            Err(ToolError::UnknownTable)
        }
    }

    /// The requested page of the headers table.
    pub fn list_headers(&self, start: usize, len: usize) -> (page: Vec<(BlockNumHash, Header)>)
        ensures
            page@ == page_headers(self.db.headers@, start as int, len as int),
    {
        let n = self.db.headers.len();
        let from: usize = if start < n {
            start
        } else {
            n
        };
        let until: usize = if len < n - from {
            from + len
        } else {
            n
        };
        let mut page: Vec<(BlockNumHash, Header)> = Vec::new();
        let mut i: usize = from;
        while i < until
            invariant
                from <= i <= until <= n,
                n == self.db.headers@.len(),
                page@ == self.db.headers@.subrange(from as int, i as int),
            decreases until - i,
        {
            let e = *self.db.headers.entry_at(i);
            page.push(e);
            proof {
                assert(page@ =~= self.db.headers@.subrange(from as int, i + 1));
            }
            i = i + 1;
        }
        proof {
            assert(page@ =~= page_headers(self.db.headers@, start as int, len as int));
        }
        page
    }

    /// The requested page of the transaction log.
    pub fn list_transactions(&self, start: usize, len: usize) -> (page: Vec<
        (u64, TransactionSigned),
    >)
        ensures
            page@ == page_transactions(self.db.transactions@, start as int, len as int),
    {
        let n = self.db.transactions.len();
        let from: usize = if start < n {
            start
        } else {
            n
        };
        let until: usize = if len < n - from {
            from + len
        } else {
            n
        };
        let mut page: Vec<(u64, TransactionSigned)> = Vec::new();
        let mut i: usize = from;
        while i < until
            invariant
                from <= i <= until <= n,
                n == self.db.transactions@.len(),
                page@ == self.db.transactions@.subrange(from as int, i as int),
            decreases until - i,
        {
            let e = *self.db.transactions.entry_at(i);
            page.push(e);
            proof {
                assert(page@ =~= self.db.transactions@.subrange(from as int, i + 1));
            }
            i = i + 1;
        }
        proof {
            assert(page@ =~= page_transactions(self.db.transactions@, start as int, len as int));
        }
        page
    }

    /// Entry counts of every table, in table order.
    pub fn stats(&self) -> (counts: Vec<usize>)
        ensures
            counts@.len() == 7,
            counts@[0] == self.db.canonical_headers@.len(),
            counts@[1] == self.db.header_numbers@.len(),
            counts@[2] == self.db.headers@.len(),
            counts@[3] == self.db.header_td@.len(),
            counts@[4] == self.db.block_bodies@.len(),
            counts@[5] == self.db.transactions@.len(),
            counts@[6] == self.db.tx_senders@.len(),
    {
        let mut counts: Vec<usize> = Vec::new();
        counts.push(self.db.canonical_headers.len());
        counts.push(self.db.header_numbers.len());
        counts.push(self.db.headers.len());
        counts.push(self.db.header_td.len());
        counts.push(self.db.block_bodies.len());
        counts.push(self.db.transactions.len());
        counts.push(self.db.tx_senders.len());
        counts
    }
}

/// The page `[start, start + len)` of the headers table, clipped to its
/// length.
pub open spec fn page_headers(
    s: Seq<(BlockNumHash, Header)>,
    start: int,
    len: int,
) -> Seq<(BlockNumHash, Header)> {
    let from = if start < s.len() {
        start
    } else {
        s.len() as int
    };
    let until = if len < s.len() - from {
        from + len
    } else {
        s.len() as int
    };
    s.subrange(from, until)
}

/// The page `[start, start + len)` of the transaction log, clipped to its
/// length.
pub open spec fn page_transactions(
    s: Seq<(u64, TransactionSigned)>,
    start: int,
    len: int,
) -> Seq<(u64, TransactionSigned)> {
    let from = if start < s.len() {
        start
    } else {
        s.len() as int
    };
    let until = if len < s.len() - from {
        from + len
    } else {
        s.len() as int
    };
    s.subrange(from, until)
}

} // verus!
