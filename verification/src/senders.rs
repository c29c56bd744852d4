//! The sender-recovery stage: walks the transaction range of the newly
//! available blocks, recovers each transaction's signer in fixed-size
//! batches dispatched to a CPU worker pool, and appends the results to the
//! senders table in order.

use vstd::prelude::*;
use rayon::iter::{IntoParallelRefIterator, ParallelIterator};
use crate::db::Tx;
use crate::error::{SendersStageError, StageError};
use crate::kv::KvError;
use crate::primitives::TransactionSigned;
use crate::stage::{ExecInput, ExecOutput, StageId, UnwindInput, UnwindOutput};

verus! {

/// The sender-recovery stage.
pub struct SendersStage {
    /// The size of the chunk for parallel sender recovery.
    pub batch_size: usize,
    /// The number of blocks after which control returns to the pipeline
    /// for a commit.
    pub commit_threshold: u64,
}

/// The transaction entries whose index lies in `[lo, hi)`.
pub open spec fn tx_range(
    s: Seq<(u64, TransactionSigned)>,
    lo: u64,
    hi: int,
) -> Seq<(u64, TransactionSigned)> {
    s.filter(|e: (u64, TransactionSigned)| lo <= e.0 && e.0 < hi)
}

/// The `(index, signer)` pairs recovery produces for `s`, assuming every
/// signature in `s` is recoverable.
pub open spec fn senders_of(s: Seq<(u64, TransactionSigned)>) -> Seq<(u64, u64)> {
    Seq::new(s.len(), |i: int| (s[i].0, s[i].1.signer))
}

/// The index of the first entry whose signature does not admit recovery;
/// the length of `s` when every entry is recoverable.
pub open spec fn first_invalid(s: Seq<(u64, TransactionSigned)>) -> int
    decreases s.len(),
{
    if s.len() == 0 {
        0
    } else if !s[0].1.signature_valid {
        0
    } else {
        1 + first_invalid(s.drop_first())
    }
}

/// Basic shape of `first_invalid`: it is the least index of an
/// unrecoverable entry.
pub proof fn lemma_first_invalid(s: Seq<(u64, TransactionSigned)>)
    ensures
        0 <= first_invalid(s) <= s.len(),
        forall|p: int| 0 <= p < first_invalid(s) ==> (#[trigger] s[p]).1.signature_valid,
        first_invalid(s) < s.len() ==> !s[first_invalid(s)].1.signature_valid,
    decreases s.len(),
{
    if s.len() > 0 && s[0].1.signature_valid {
        lemma_first_invalid(s.drop_first());
        assert forall|p: int| 0 <= p < first_invalid(s) implies (#[trigger] s[p]).1.signature_valid by {
            if p > 0 {
                assert(s.drop_first()[p - 1].1.signature_valid);
            }
        }
    }
}

/// Whether the first append into the senders table would land out of
/// order: some existing senders key is at or above the first walked index.
pub open spec fn append_conflict(
    senders0: Seq<(u64, u64)>,
    walked: Seq<(u64, TransactionSigned)>,
) -> bool {
    walked.len() > 0 && senders0.len() > 0 && senders0.last().0 >= walked[0].0
}

/// What one run of the stage over the walked entries returns, and the
/// senders table it leaves behind. Batches are recovered before they are
/// appended, so a recovery failure in batch `c` leaves batches `0..c`
/// appended; an out-of-order first index is detected at the first append,
/// after the first batch was recovered.
pub open spec fn senders_outcome(
    senders0: Seq<(u64, u64)>,
    walked: Seq<(u64, TransactionSigned)>,
    bsz: int,
    max_block: u64,
    prev: u64,
) -> (Result<ExecOutput, StageError>, Seq<(u64, u64)>) {
    let fi = first_invalid(walked);
    if fi < walked.len() && fi < bsz {
        (
            Err(StageError::Fatal(SendersStageError::SenderRecovery { tx: walked[fi].0 })),
            senders0,
        )
    } else if append_conflict(senders0, walked) {
        (Err(StageError::Database(KvError::OutOfOrderAppend)), senders0)
    } else if fi < walked.len() {
        (
            Err(StageError::Fatal(SendersStageError::SenderRecovery { tx: walked[fi].0 })),
            senders0 + senders_of(walked.take((fi / bsz) * bsz)),
        )
    } else {
        (
            Ok(
                ExecOutput {
                    stage_progress: max_block,
                    reached_tip: max_block >= prev,
                    done: max_block >= prev,
                },
            ),
            senders0 + senders_of(walked),
        )
    }
}

/// Relies on rayon: `par_iter` over a vector is an indexed parallel
/// iterator, `map` keeps the indexing, and `collect` into a vector places
/// every result at its input's position; the closure only calls the
/// verified `recover_signer`.
#[verifier::external_body]
fn recover_signers_batch(txs: &Vec<(u64, TransactionSigned)>) -> (r: Vec<Option<u64>>)
    ensures
        r@.len() == txs@.len(),
        forall|i: int| 0 <= i < txs@.len() ==> r@[i] == (#[trigger] txs@[i]).1.recover_spec(),
{
    txs.par_iter().map(|entry| entry.1.recover_signer()).collect()
}

impl SendersStage {
    /// Return the id of the stage.
    pub fn id(&self) -> (r: StageId)
        ensures
            r.0@ == "Senders"@,
    {
        StageId("Senders")
    }

    /// The stage's upper working bound for this run: the previous stage's
    /// progress, capped by the commit threshold.
    pub open spec fn max_block_spec(&self, sp: u64, prev: u64) -> u64 {
        if sp + self.commit_threshold < prev {
            (sp + self.commit_threshold) as u64
        } else {
            prev
        }
    }

    /// Walk the newly available transaction range, recover signers in
    /// parallel batches, and append them to the senders table.
    #[verifier::loop_isolation(false)]
    pub fn execute(&self, tx: &mut Tx, input: ExecInput) -> (r: Result<ExecOutput, StageError>)
        requires
            old(tx).wf(),
            old(tx).bodies_bounded(),
            self.batch_size >= 1,
        ensures
            final(tx).wf(),
            final(tx).bodies_bounded(),
            final(tx).canonical_headers@ == old(tx).canonical_headers@,
            final(tx).header_numbers@ == old(tx).header_numbers@,
            final(tx).headers@ == old(tx).headers@,
            final(tx).header_td@ == old(tx).header_td@,
            final(tx).block_bodies@ == old(tx).block_bodies@,
            final(tx).transactions@ == old(tx).transactions@,
            final(tx).commits == old(tx).commits,
            ({
                let sp = input.stage_progress_spec();
                let prev = input.previous_stage_progress_spec();
                let mb = self.max_block_spec(sp, prev);
                if mb <= sp {
                    r == Ok::<ExecOutput, StageError>(
                        ExecOutput { stage_progress: sp, reached_tip: true, done: true },
                    ) && final(tx).tx_senders@ == old(tx).tx_senders@
                } else if old(tx).body_at((sp + 1) as u64) is None {
                    r == Err::<ExecOutput, StageError>(
                        StageError::DatabaseIntegrity(old(tx).body_missing_err((sp + 1) as u64)),
                    ) && final(tx).tx_senders@ == old(tx).tx_senders@
                } else if old(tx).body_at(mb) is None {
                    r == Err::<ExecOutput, StageError>(
                        StageError::DatabaseIntegrity(old(tx).body_missing_err(mb)),
                    ) && final(tx).tx_senders@ == old(tx).tx_senders@
                } else {
                    let start = old(tx).body_at((sp + 1) as u64)->Some_0.start_tx_id;
                    let end_next = old(tx).body_at(mb)->Some_0.next_tx_spec();
                    if start >= end_next {
                        r == Ok::<ExecOutput, StageError>(
                            ExecOutput { stage_progress: mb, reached_tip: true, done: true },
                        ) && final(tx).tx_senders@ == old(tx).tx_senders@
                    } else {
                        let walked = tx_range(old(tx).transactions@, start, end_next);
                        let outcome = senders_outcome(
                            old(tx).tx_senders@,
                            walked,
                            self.batch_size as int,
                            mb,
                            prev,
                        );
                        r == outcome.0 && final(tx).tx_senders@ == outcome.1
                    }
                }
            }),
    {
        let stage_progress: u64 = match input.stage_progress {
            Some(n) => n,
            None => 0,
        };
        let previous_stage_progress = input.previous_stage_progress();
        let capped: u64 = if self.commit_threshold <= u64::MAX - stage_progress {
            stage_progress + self.commit_threshold
        } else {
            u64::MAX
        };
        let max_block_num: u64 = if capped < previous_stage_progress {
            capped
        } else {
            previous_stage_progress
        };

        if max_block_num <= stage_progress {
            return Ok(ExecOutput { stage_progress, reached_tip: true, done: true });
        }

        // Look up the start index of the transaction range.
        let start_body = match tx.get_block_body_by_num(stage_progress + 1) {
            Ok(b) => b,
            Err(e) => {
                return Err(StageError::DatabaseIntegrity(e));
            },
        };
        let start_tx_index = start_body.start_tx_id;

        // Look up the end of the transaction range (exclusive).
        let end_body = match tx.get_block_body_by_num(max_block_num) {
            Ok(b) => b,
            Err(e) => {
                return Err(StageError::DatabaseIntegrity(e));
            },
        };
        proof {
            let key = crate::kv_numhash::BlockNumHash {
                number: max_block_num,
                hash: tx.canonical_headers.get_spec(max_block_num)->Some_0,
            };
            assert(tx.block_bodies.get_spec(key) == Some(end_body));
            crate::kv_numhash::lemma_bnh_get_is_entry(tx.block_bodies@, key);
            let i = choose|i: int|
                0 <= i < tx.block_bodies@.len() && (#[trigger] tx.block_bodies@[i]).0 == key
                    && tx.block_bodies@[i].1 == end_body;
            assert(end_body.start_tx_id + end_body.tx_count <= u64::MAX);
        }
        let end_tx_exclusive = end_body.next_tx_index();

        // No transactions to walk over.
        if start_tx_index >= end_tx_exclusive {
            return Ok(ExecOutput { stage_progress: max_block_num, done: true, reached_tip: true });
        }

        // Walk the transactions from the start index up to the end index.
        let entries = self.collect_range(tx, start_tx_index, end_tx_exclusive);

        // Recover and append, batch by batch.
        match self.process_batches(tx, &entries) {
            Ok(_) => {},
            Err(e) => {
                return Err(e);
            },
        }

        let done = max_block_num >= previous_stage_progress;
        Ok(ExecOutput { stage_progress: max_block_num, done, reached_tip: done })
    }

    /// Recover the signers of `entries` in parallel batches of
    /// `batch_size`, appending each recovered batch to the senders table
    /// in order before the next batch is dispatched.
    #[verifier::loop_isolation(false)]
    #[verifier::rlimit(60)]
    fn process_batches(&self, tx: &mut Tx, entries: &Vec<(u64, TransactionSigned)>) -> (r: Result<
        (),
        StageError,
    >)
        requires
            old(tx).wf(),
            old(tx).bodies_bounded(),
            self.batch_size >= 1,
            forall|p: int, q: int|
                0 <= p < q < entries@.len() ==> (#[trigger] entries@[p]).0
                    < (#[trigger] entries@[q]).0,
        ensures
            final(tx).wf(),
            final(tx).bodies_bounded(),
            final(tx).canonical_headers@ == old(tx).canonical_headers@,
            final(tx).header_numbers@ == old(tx).header_numbers@,
            final(tx).headers@ == old(tx).headers@,
            final(tx).header_td@ == old(tx).header_td@,
            final(tx).block_bodies@ == old(tx).block_bodies@,
            final(tx).transactions@ == old(tx).transactions@,
            final(tx).commits == old(tx).commits,
            ({
                let fi = first_invalid(entries@);
                let bsz = self.batch_size as int;
                if fi < entries@.len() && fi < bsz {
                    r == Err::<(), StageError>(
                        StageError::Fatal(SendersStageError::SenderRecovery { tx: entries@[fi].0 }),
                    ) && final(tx).tx_senders@ == old(tx).tx_senders@
                } else if append_conflict(old(tx).tx_senders@, entries@) {
                    r == Err::<(), StageError>(StageError::Database(KvError::OutOfOrderAppend))
                        && final(tx).tx_senders@ == old(tx).tx_senders@
                } else if fi < entries@.len() {
                    r == Err::<(), StageError>(
                        StageError::Fatal(SendersStageError::SenderRecovery { tx: entries@[fi].0 }),
                    ) && final(tx).tx_senders@ == old(tx).tx_senders@ + senders_of(
                        entries@.take((fi / bsz) * bsz),
                    )
                } else {
                    r == Ok::<(), StageError>(()) && final(tx).tx_senders@ == old(tx).tx_senders@
                        + senders_of(entries@)
                }
            }),
    {
        let ghost senders0 = tx.tx_senders@;
        let mut pos: usize = 0;
        let ghost batches: int = 0;
        while pos < entries.len()
            invariant
                tx.wf(),
                tx.bodies_bounded(),
                tx.canonical_headers@ == old(tx).canonical_headers@,
                tx.header_numbers@ == old(tx).header_numbers@,
                tx.headers@ == old(tx).headers@,
                tx.header_td@ == old(tx).header_td@,
                tx.block_bodies@ == old(tx).block_bodies@,
                tx.transactions@ == old(tx).transactions@,
                tx.commits == old(tx).commits,
                pos <= entries@.len(),
                pos == batches * (self.batch_size as int) || pos == entries@.len(),
                batches >= 0,
                forall|p: int| 0 <= p < pos ==> (#[trigger] entries@[p]).1.signature_valid,
                tx.tx_senders@ == senders0 + senders_of(entries@.take(pos as int)),
                pos > 0 ==> tx.tx_senders@.len() > 0 && tx.tx_senders@.last().0 == entries@[pos
                    - 1].0,
                pos == 0 ==> tx.tx_senders@ == senders0,
                pos > 0 ==> !append_conflict(senders0, entries@),
            decreases entries@.len() - pos,
        {
            let batch_end: usize = if entries.len() - pos < self.batch_size {
                entries.len()
            } else {
                pos + self.batch_size
            };
            // Collect the batch for dispatch.
            let mut batch: Vec<(u64, TransactionSigned)> = Vec::new();
            let mut i: usize = pos;
            while i < batch_end
                invariant
                    pos <= i <= batch_end <= entries@.len(),
                    batch@ == entries@.subrange(pos as int, i as int),
                decreases batch_end - i,
            {
                let e = entries[i];
                batch.push(e);
                proof {
                    assert(batch@ =~= entries@.subrange(pos as int, i + 1));
                }
                i = i + 1;
            }

            // Recover the signers of the batch in parallel.
            let recovered = recover_signers_batch(&batch);

            // Any unrecoverable signature means a corrupt transactions
            // table: fatal.
            let mut j: usize = 0;
            while j < recovered.len()
                invariant
                    j <= recovered@.len(),
                    recovered@.len() == batch@.len(),
                    forall|p: int|
                        0 <= p < batch@.len() ==> recovered@[p] == (
                        #[trigger] batch@[p]).1.recover_spec(),
                    forall|p: int| 0 <= p < j ==> (#[trigger] batch@[p]).1.signature_valid,
                decreases recovered@.len() - j,
            {
                if recovered[j].is_none() {
                    proof {
                        lemma_first_invalid(entries@);
                        assert(batch@[j as int] == entries@[pos + j]);
                        assert(!entries@[pos + j].1.signature_valid);
                        assert forall|p: int| 0 <= p < pos + j implies (
                        #[trigger] entries@[p]).1.signature_valid by {
                            if p >= pos {
                                assert(batch@[p - pos] == entries@[p]);
                            }
                        }
                        let fi = first_invalid(entries@);
                        assert(fi == pos + j) by {
                            if fi < pos + j {
                                assert(entries@[fi].1.signature_valid);
                            }
                            if fi > pos + j {
                                assert(!entries@[pos + j].1.signature_valid);
                            }
                        }
                        assert(pos == batches * (self.batch_size as int));
                        if pos == 0 {
                            assert(fi < self.batch_size as int);
                            assert(entries@.take(0) =~= Seq::<(u64, TransactionSigned)>::empty());
                            assert(senders_of(entries@.take(0)) =~= Seq::<(u64, u64)>::empty());
                            assert(tx.tx_senders@ =~= senders0);
                        } else {
                            assert(batches >= 1) by (nonlinear_arith)
                                requires
                                    pos == batches * (self.batch_size as int),
                                    pos > 0,
                                    batches >= 0,
                            ;
                            assert(pos >= self.batch_size) by (nonlinear_arith)
                                requires
                                    pos == batches * (self.batch_size as int),
                                    batches >= 1,
                                    self.batch_size >= 1,
                            ;
                            assert(fi >= self.batch_size as int);
                            assert((fi / (self.batch_size as int)) * (self.batch_size as int)
                                == pos) by (nonlinear_arith)
                                requires
                                    fi == pos + j,
                                    pos == batches * (self.batch_size as int),
                                    batches >= 0,
                                    0 <= j < self.batch_size,
                                    self.batch_size >= 1,
                            ;
                        }
                    }
                    return Err(
                        StageError::Fatal(SendersStageError::SenderRecovery { tx: batch[j].0 }),
                    );
                }
                j = j + 1;
            }

            // Append the batch's `(index, signer)` pairs in order.
            let mut k: usize = 0;
            while k < batch.len()
                invariant
                    tx.wf(),
                    tx.bodies_bounded(),
                    tx.canonical_headers@ == old(tx).canonical_headers@,
                    tx.header_numbers@ == old(tx).header_numbers@,
                    tx.headers@ == old(tx).headers@,
                    tx.header_td@ == old(tx).header_td@,
                    tx.block_bodies@ == old(tx).block_bodies@,
                    tx.transactions@ == old(tx).transactions@,
                    tx.commits == old(tx).commits,
                    k <= batch@.len(),
                    forall|p: int|
                        0 <= p < batch@.len() ==> (#[trigger] batch@[p]).1.signature_valid,
                    tx.tx_senders@ == senders0 + senders_of(entries@.take(pos + k)),
                    pos + k > 0 ==> tx.tx_senders@.len() > 0 && tx.tx_senders@.last().0
                        == entries@[pos + k - 1].0,
                    pos + k == 0 ==> tx.tx_senders@ == senders0,
                    pos + k > 0 ==> !append_conflict(senders0, entries@),
                decreases batch@.len() - k,
            {
                let (id, record) = batch[k];
                let signer = record.signer;
                let ghost pre_senders = tx.tx_senders@;
                match tx.tx_senders.append(id, signer) {
                    Ok(_) => {
                        proof {
                            assert(batch@[k as int] == entries@[pos + k]);
                            assert(entries@.take(pos + k + 1) =~= entries@.take(pos + k).push(
                                entries@[pos + k],
                            ));
                            assert(senders_of(entries@.take(pos + k + 1)) =~= senders_of(
                                entries@.take(pos + k),
                            ).push((entries@[pos + k].0, entries@[pos + k].1.signer)));
                            assert(tx.tx_senders@ =~= senders0 + senders_of(
                                entries@.take(pos + k + 1),
                            ));
                        }
                    },
                    Err(e) => {
                        proof {
                            // The first append is the only one that can be
                            // refused; it is refused exactly on a conflict.
                            assert(pos + k == 0) by {
                                if pos + k > 0 {
                                    assert(pre_senders.last().0 == entries@[pos + k - 1].0);
                                    assert(batch@[k as int] == entries@[pos + k]);
                                    assert(entries@[pos + k - 1].0 < entries@[pos + k].0);
                                    assert(false);
                                }
                            }
                            assert(batch@[0] == entries@[0]);
                            assert(append_conflict(senders0, entries@));
                            lemma_first_invalid(entries@);
                            let fi = first_invalid(entries@);
                            assert(fi >= batch@.len()) by {
                                if fi < batch@.len() {
                                    assert(batch@[fi] == entries@[fi]);
                                    assert(batch@[fi].1.signature_valid);
                                    assert(!entries@[fi].1.signature_valid);
                                }
                            }
                            assert(!(fi < entries@.len() && fi < self.batch_size as int));
                        }
                        return Err(StageError::Database(e));
                    },
                }
                k = k + 1;
            }
            proof {
                assert forall|p: int| 0 <= p < batch_end implies (
                #[trigger] entries@[p]).1.signature_valid by {
                    if p >= pos {
                        assert(batch@[p - pos] == entries@[p]);
                    }
                }
            }
            pos = batch_end;
            proof {
                let bold = batches;
                batches = batches + 1;
                assert((bold + 1) * (self.batch_size as int) == bold * (self.batch_size as int) + (
                self.batch_size as int)) by (nonlinear_arith);
                assert(pos == batches * (self.batch_size as int) || pos == entries@.len());
            }
        }

        proof {
            lemma_first_invalid(entries@);
            assert(first_invalid(entries@) == entries@.len()) by {
                if first_invalid(entries@) < entries@.len() {
                    assert(entries@[first_invalid(entries@)].1.signature_valid);
                }
            }
            assert(entries@.take(pos as int) =~= entries@);
            assert(senders_of(entries@.take(pos as int)) =~= senders_of(entries@));
        }
        Ok(())
    }

    /// Collect the transaction entries whose index lies in `[lo, hi)`, in
    /// ascending index order.
    #[verifier::loop_isolation(false)]
    fn collect_range(&self, tx: &Tx, lo: u64, hi: u64) -> (entries: Vec<(u64, TransactionSigned)>)
        requires
            tx.wf(),
        ensures
            entries@ == tx_range(tx.transactions@, lo, hi as int),
            forall|p: int, q: int|
                0 <= p < q < entries@.len() ==> (#[trigger] entries@[p]).0
                    < (#[trigger] entries@[q]).0,
    {
        let n = tx.transactions.len();
        let mut entries: Vec<(u64, TransactionSigned)> = Vec::new();
        let mut i: usize = 0;
        while i < n
            invariant
                n == tx.transactions@.len(),
                i <= n,
                tx.wf(),
                entries@ == tx_range(tx.transactions@.subrange(0, i as int), lo, hi as int),
                forall|p: int, q: int|
                    0 <= p < q < entries@.len() ==> (#[trigger] entries@[p]).0
                        < (#[trigger] entries@[q]).0,
                forall|p: int|
                    0 <= p < entries@.len() ==> exists|w: int|
                        0 <= w < i && (#[trigger] entries@[p]) == tx.transactions@[w],
            decreases n - i,
        {
            let e = *tx.transactions.entry_at(i);
            let ghost prefix = tx.transactions@.subrange(0, i as int);
            proof {
                assert(tx.transactions@.subrange(0, i + 1).drop_last() =~= prefix);
                assert(tx.transactions@.subrange(0, i + 1).last() == e);
                reveal(Seq::filter);
            }
            if lo <= e.0 && e.0 < hi {
                proof {
                    assert forall|p: int| 0 <= p < entries@.len() implies (
                    #[trigger] entries@[p]).0 < e.0 by {
                        let w = choose|w: int|
                            0 <= w < i && (#[trigger] entries@[p]) == tx.transactions@[w];
                        assert(tx.transactions@[w].0 < tx.transactions@[i as int].0);
                    }
                }
                entries.push(e);
            }
            i = i + 1;
        }
        proof {
            assert(tx.transactions@.subrange(0, n as int) =~= tx.transactions@);
        }
        entries
    }

    /// Unwind the stage: remove every senders row above the last
    /// transaction of the unwind target.
    pub fn unwind(&self, tx: &mut Tx, input: UnwindInput) -> (r: Result<UnwindOutput, StageError>)
        requires
            old(tx).wf(),
            old(tx).bodies_bounded(),
        ensures
            final(tx).wf(),
            final(tx).bodies_bounded(),
            final(tx).canonical_headers@ == old(tx).canonical_headers@,
            final(tx).header_numbers@ == old(tx).header_numbers@,
            final(tx).headers@ == old(tx).headers@,
            final(tx).header_td@ == old(tx).header_td@,
            final(tx).block_bodies@ == old(tx).block_bodies@,
            final(tx).transactions@ == old(tx).transactions@,
            final(tx).commits == old(tx).commits,
            match r {
                Ok(out) => {
                    &&& old(tx).body_at(input.unwind_to) is Some
                    &&& out == (UnwindOutput { stage_progress: input.unwind_to })
                    &&& ({
                        let next = old(tx).body_at(input.unwind_to)->Some_0.next_tx_spec();
                        &&& forall|k: u64|
                            k < next ==> #[trigger] final(tx).tx_senders.get_spec(k) == old(
                                tx,
                            ).tx_senders.get_spec(k)
                        &&& forall|k: u64|
                            k >= next ==> #[trigger] final(tx).tx_senders.get_spec(k) is None
                    })
                },
                Err(e) => {
                    &&& old(tx).body_at(input.unwind_to) is None
                    &&& e == StageError::DatabaseIntegrity(
                        old(tx).body_missing_err(input.unwind_to),
                    )
                    &&& final(tx).tx_senders@ == old(tx).tx_senders@
                },
            },
    {
        let body = match tx.get_block_body_by_num(input.unwind_to) {
            Ok(b) => b,
            Err(e) => {
                return Err(StageError::DatabaseIntegrity(e));
            },
        };
        proof {
            let h = tx.canonical_headers.get_spec(input.unwind_to)->Some_0;
            let key = crate::kv_numhash::BlockNumHash { number: input.unwind_to, hash: h };
            assert(tx.block_bodies.get_spec(key) == Some(body));
            crate::kv_numhash::lemma_bnh_get_is_entry(tx.block_bodies@, key);
            let i = choose|i: int|
                0 <= i < tx.block_bodies@.len() && (#[trigger] tx.block_bodies@[i]).0 == key
                    && tx.block_bodies@[i].1 == body;
            assert(body.start_tx_id + body.tx_count <= u64::MAX);
        }
        let next = body.next_tx_index();
        tx.tx_senders.unwind_from(next);
        Ok(UnwindOutput { stage_progress: input.unwind_to })
    }
}

} // verus!
