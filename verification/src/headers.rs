//! The headers stage: determines the sync range, consumes a downloader's
//! descending header stream in commit-sized chunks, validates parent
//! linkage, writes the four header tables, and finishes with the
//! total-difficulty pass.

use vstd::prelude::*;
use crate::db::Tx;
use crate::error::{DatabaseIntegrityError, DownloadError, StageError};
use crate::kv::first_above;
use crate::kv_numhash::BlockNumHash;
use crate::primitives::{ForkchoiceState, SealedHeader};
use crate::stage::{ExecInput, ExecOutput, StageId, UnwindInput, UnwindOutput};

verus! {

/// The headers stage. The downloader, consensus channel and network sink
/// are external collaborators: the stage receives the downloader's output
/// and the accepted forkchoice head as values, and hands the status update
/// back to its caller to push.
pub struct HeaderStage {
    /// The number of block headers to commit at once.
    pub commit_threshold: usize,
}

/// The node status the stage broadcasts before syncing: the current
/// head's height, hash and total difficulty.
#[derive(Clone, Copy, Debug, PartialEq, Eq, Structural)]
pub struct StatusUpdate {
    /// Height of the local head.
    pub height: u64,
    /// Hash of the local head.
    pub hash: u64,
    /// Total difficulty at the local head.
    pub total_difficulty: u128,
}

/// Whether `child` links to `parent`: the chain is streamed in descending
/// order, so the entry after a header is its parent.
pub open spec fn linked_pair(child: SealedHeader, parent: SealedHeader) -> bool {
    child.header.parent_hash == parent.hash && child.header.number == parent.header.number + 1
}

/// Whether every adjacent pair of the descending sequence links.
pub open spec fn desc_chain(hs: Seq<SealedHeader>) -> bool {
    forall|i: int| 0 <= i < hs.len() - 1 ==> #[trigger] linked_pair(hs[i], hs[i + 1])
}

/// The first position whose pair breaks the linkage; `len - 1` bounds it
/// when the whole sequence links.
pub open spec fn first_broken(hs: Seq<SealedHeader>) -> int
    decreases hs.len(),
{
    if hs.len() <= 1 {
        0
    } else if !linked_pair(hs[0], hs[1]) {
        0
    } else {
        1 + first_broken(hs.drop_first())
    }
}

/// Basic shape of `first_broken`: the least index of a broken pair.
pub proof fn lemma_first_broken(hs: Seq<SealedHeader>)
    ensures
        0 <= first_broken(hs),
        hs.len() >= 1 ==> first_broken(hs) <= hs.len() - 1,
        hs.len() == 0 ==> first_broken(hs) == 0,
        forall|p: int| 0 <= p < first_broken(hs) ==> #[trigger] linked_pair(hs[p], hs[p + 1]),
        first_broken(hs) < hs.len() - 1 ==> !linked_pair(
            hs[first_broken(hs)],
            hs[first_broken(hs) + 1],
        ),
    decreases hs.len(),
{
    if hs.len() > 1 && linked_pair(hs[0], hs[1]) {
        let t = hs.drop_first();
        lemma_first_broken(t);
        assert forall|p: int| 0 <= p < first_broken(hs) implies #[trigger] linked_pair(
            hs[p],
            hs[p + 1],
        ) by {
            if p > 0 {
                assert(linked_pair(t[p - 1], t[p]));
            }
        }
        if first_broken(hs) < hs.len() - 1 {
            assert(!linked_pair(t[first_broken(hs) - 1], t[first_broken(hs)]));
        }
    }
}

/// The canonical entry right after `n`, if any: the peek the range lookup
/// makes past the current head.
pub open spec fn next_canonical(tx: &Tx, n: u64) -> Option<(u64, u64)> {
    let fa = first_above(tx.canonical_headers@, n);
    if fa < tx.canonical_headers@.len() {
        Some(tx.canonical_headers@[fa])
    } else {
        None
    }
}

/// What the range lookup decides, given the stage progress and the
/// accepted forkchoice head: the sealed local head and the tip hash to
/// download towards, or the error that stops the stage.
pub open spec fn head_and_tip_spec(tx: &Tx, stage_progress: u64, forkchoice_head: u64) -> Result<
    (SealedHeader, u64),
    StageError,
> {
    if tx.canonical_headers.get_spec(stage_progress) is None {
        Err(
            StageError::DatabaseIntegrity(
                DatabaseIntegrityError::CanonicalHeader { number: stage_progress },
            ),
        )
    } else {
        let head_hash = tx.canonical_headers.get_spec(stage_progress)->Some_0;
        let head_key = BlockNumHash { number: stage_progress, hash: head_hash };
        if tx.headers.get_spec(head_key) is None {
            Err(
                StageError::DatabaseIntegrity(
                    DatabaseIntegrityError::Header { number: stage_progress, hash: head_hash },
                ),
            )
        } else {
            let head = SealedHeader {
                header: tx.headers.get_spec(head_key)->Some_0,
                hash: head_hash,
            };
            match next_canonical(tx, stage_progress) {
                None => Ok((head, forkchoice_head)),
                Some((next_num, next_hash)) => {
                    let next_key = BlockNumHash { number: next_num, hash: next_hash };
                    if tx.headers.get_spec(next_key) is None {
                        Err(
                            StageError::DatabaseIntegrity(
                                DatabaseIntegrityError::Header {
                                    number: next_num,
                                    hash: next_hash,
                                },
                            ),
                        )
                    } else if stage_progress + 1 != next_num {
                        Ok((head, tx.headers.get_spec(next_key)->Some_0.parent_hash))
                    } else {
                        Err(StageError::StageProgress(stage_progress))
                    }
                },
            }
        }
    }
}

/// The number the write pass leaves bound to hash `h` in the reverse
/// lookup table, given the binding `prior` before the pass. The pass
/// writes `hs` back to front and skips genesis, so the first match in
/// `hs` is the one that sticks.
pub open spec fn hn_lookup(hs: Seq<SealedHeader>, prior: Option<u64>, h: u64) -> Option<u64>
    decreases hs.len(),
{
    if hs.len() == 0 {
        prior
    } else if hs[0].hash == h && hs[0].header.number != 0 {
        Some(hs[0].header.number)
    } else {
        hn_lookup(hs.drop_first(), prior, h)
    }
}

/// The hash the write pass leaves bound to number `n` in the canonical
/// index.
pub open spec fn canon_lookup(hs: Seq<SealedHeader>, prior: Option<u64>, n: u64) -> Option<u64>
    decreases hs.len(),
{
    if hs.len() == 0 {
        prior
    } else if hs[0].header.number == n && hs[0].header.number != 0 {
        Some(hs[0].hash)
    } else {
        canon_lookup(hs.drop_first(), prior, n)
    }
}

/// The header the write pass leaves bound to the composite key `k`.
pub open spec fn hdr_lookup(
    hs: Seq<SealedHeader>,
    prior: Option<crate::primitives::Header>,
    k: BlockNumHash,
) -> Option<crate::primitives::Header>
    decreases hs.len(),
{
    if hs.len() == 0 {
        prior
    } else if hs[0].header.number == k.number && hs[0].hash == k.hash && hs[0].header.number != 0 {
        Some(hs[0].header)
    } else {
        hdr_lookup(hs.drop_first(), prior, k)
    }
}

/// The number of the last header the pass writes: the front-most
/// non-genesis entry of the descending sequence.
pub open spec fn latest_written(hs: Seq<SealedHeader>) -> Option<u64>
    decreases hs.len(),
{
    if hs.len() == 0 {
        None
    } else if hs[0].header.number != 0 {
        Some(hs[0].header.number)
    } else {
        latest_written(hs.drop_first())
    }
}

/// The headers-table entries the total-difficulty pass walks: everything
/// at or above the walk's start key.
pub open spec fn headers_from(
    s: Seq<(BlockNumHash, crate::primitives::Header)>,
    k: BlockNumHash,
) -> Seq<(BlockNumHash, crate::primitives::Header)> {
    s.filter(|e: (BlockNumHash, crate::primitives::Header)| !crate::kv_numhash::bnh_lt(e.0, k))
}

/// Sum of the difficulties of the first `i` walked entries.
pub open spec fn dsum(walked: Seq<(BlockNumHash, crate::primitives::Header)>, i: int) -> int
    decreases i,
{
    if i <= 0 {
        0
    } else {
        dsum(walked, i - 1) + walked[i - 1].1.difficulty
    }
}

/// The first walked position at which the running total starting from
/// `acc` no longer fits the total-difficulty representation; the walk's
/// length when every total fits.
pub open spec fn first_td_overflow(
    walked: Seq<(BlockNumHash, crate::primitives::Header)>,
    acc: int,
) -> int
    decreases walked.len(),
{
    if walked.len() == 0 {
        0
    } else if acc + walked[0].1.difficulty > u128::MAX {
        0
    } else {
        1 + first_td_overflow(walked.drop_first(), acc + walked[0].1.difficulty)
    }
}

/// Shifting `dsum` past the first entry.
pub proof fn lemma_dsum_shift(walked: Seq<(BlockNumHash, crate::primitives::Header)>, i: int)
    requires
        0 <= i < walked.len(),
    ensures
        dsum(walked, i + 1) == walked[0].1.difficulty + dsum(walked.drop_first(), i),
    decreases i,
{
    if i == 0 {
        assert(dsum(walked, 1) == dsum(walked, 0) + walked[0].1.difficulty);
        assert(dsum(walked, 0) == 0);
        assert(dsum(walked.drop_first(), 0) == 0);
    } else {
        lemma_dsum_shift(walked, i - 1);
        assert(walked.drop_first()[i - 1] == walked[i]);
        assert(dsum(walked, i + 1) == dsum(walked, i) + walked[i].1.difficulty);
        assert(dsum(walked.drop_first(), i) == dsum(walked.drop_first(), i - 1)
            + walked.drop_first()[i - 1].1.difficulty);
    }
}

/// Basic shape of `first_td_overflow`: totals fit strictly before it and
/// overflow at it.
pub proof fn lemma_first_td_overflow(
    walked: Seq<(BlockNumHash, crate::primitives::Header)>,
    acc: int,
)
    requires
        acc >= 0,
    ensures
        0 <= first_td_overflow(walked, acc) <= walked.len(),
        forall|i: int|
            0 <= i < first_td_overflow(walked, acc) ==> acc + #[trigger] dsum(walked, i + 1)
                <= u128::MAX,
        first_td_overflow(walked, acc) < walked.len() ==> acc + dsum(
            walked,
            first_td_overflow(walked, acc) + 1,
        ) > u128::MAX,
    decreases walked.len(),
{
    if walked.len() > 0 && acc + walked[0].1.difficulty > u128::MAX {
        assert(dsum(walked, 1) == dsum(walked, 0) + walked[0].1.difficulty);
        assert(dsum(walked, 0) == 0);
    } else if walked.len() > 0 {
        let t = walked.drop_first();
        let acc2 = acc + walked[0].1.difficulty;
        lemma_first_td_overflow(t, acc2);
        let fo = first_td_overflow(walked, acc);
        assert(fo == 1 + first_td_overflow(t, acc2));
        assert forall|i: int| 0 <= i < fo implies acc + #[trigger] dsum(walked, i + 1)
            <= u128::MAX by {
            if i == 0 {
                assert(dsum(walked, 1) == dsum(walked, 0) + walked[0].1.difficulty);
                assert(dsum(walked, 0) == 0);
            } else {
                lemma_dsum_shift(walked, i);
                assert(acc2 + dsum(t, i) <= u128::MAX);
            }
        }
        if fo < walked.len() {
            lemma_dsum_shift(walked, fo);
            assert(acc2 + dsum(t, fo) > u128::MAX);
        }
    }
}

/// The `(key, cumulative difficulty)` entries the pass appends when every
/// total fits.
pub open spec fn td_entries(
    walked: Seq<(BlockNumHash, crate::primitives::Header)>,
    td0: u128,
) -> Seq<(BlockNumHash, u128)> {
    Seq::new(walked.len(), |i: int| (walked[i].0, (td0 + dsum(walked, i + 1)) as u128))
}

/// What the total-difficulty pass returns and the td table it leaves
/// behind, given the head's total `td0` and the walked entries. An
/// overflowing total is a fatal integrity failure detected before any
/// write; an out-of-order start is refused by the appending cursor.
pub open spec fn td_outcome(
    td_table0: Seq<(BlockNumHash, u128)>,
    walked: Seq<(BlockNumHash, crate::primitives::Header)>,
    td0: u128,
) -> (Result<(), StageError>, Seq<(BlockNumHash, u128)>) {
    let fo = first_td_overflow(walked, td0 as int);
    if fo < walked.len() {
        (
            Err(
                StageError::DatabaseIntegrity(
                    DatabaseIntegrityError::TotalDifficulty { number: walked[fo].0.number },
                ),
            ),
            td_table0,
        )
    } else if walked.len() > 0 && td_table0.len() > 0 && !crate::kv_numhash::bnh_lt(
        td_table0.last().0,
        walked[0].0,
    ) {
        (Err(StageError::Database(crate::kv::KvError::OutOfOrderAppend)), td_table0)
    } else {
        (Ok(()), td_table0 + td_entries(walked, td0))
    }
}

/// On a sorted sequence split at the first key not below `k`, the walk's
/// filter is exactly the suffix from the split.
pub proof fn lemma_headers_from_is_suffix(
    s: Seq<(BlockNumHash, crate::primitives::Header)>,
    k: BlockNumHash,
    i0: int,
)
    requires
        0 <= i0 <= s.len(),
        forall|j: int| 0 <= j < i0 ==> crate::kv_numhash::bnh_lt((#[trigger] s[j]).0, k),
        forall|j: int| i0 <= j < s.len() ==> !crate::kv_numhash::bnh_lt((#[trigger] s[j]).0, k),
    ensures
        headers_from(s, k) == s.subrange(i0, s.len() as int),
    decreases s.len(),
{
    reveal(Seq::filter);
    if s.len() == 0 {
        assert(headers_from(s, k) =~= s.subrange(0, 0));
    } else {
        let pre = s.drop_last();
        if i0 == s.len() {
            lemma_headers_from_is_suffix(pre, k, i0 - 1);
            assert(crate::kv_numhash::bnh_lt(s[s.len() - 1].0, k));
            assert(headers_from(s, k) =~= headers_from(pre, k));
            assert(pre.subrange(i0 - 1, pre.len() as int) =~= Seq::empty());
            assert(headers_from(s, k) =~= s.subrange(i0, s.len() as int));
        } else {
            assert forall|j: int| i0 <= j < pre.len() implies !crate::kv_numhash::bnh_lt(
                (#[trigger] pre[j]).0,
                k,
            ) by {
                assert(pre[j] == s[j]);
            }
            lemma_headers_from_is_suffix(pre, k, i0);
            assert(!crate::kv_numhash::bnh_lt(s[s.len() - 1].0, k));
            assert(headers_from(s, k) =~= headers_from(pre, k).push(s[s.len() - 1]));
            assert(pre.subrange(i0, pre.len() as int) =~= s.subrange(i0, s.len() - 1));
            assert(s.subrange(i0, s.len() as int) =~= s.subrange(i0, s.len() - 1).push(
                s[s.len() - 1],
            ));
        }
    }
}

/// What the whole total-difficulty pass returns and the td table it
/// leaves, from the td table, the canonical hash right above the head,
/// and the headers table as they stand when it starts.
pub open spec fn write_td_spec(
    td_table0: Seq<(BlockNumHash, u128)>,
    canon_above_head: Option<u64>,
    headers_table: Seq<(BlockNumHash, crate::primitives::Header)>,
    head: SealedHeader,
) -> (Result<(), StageError>, Seq<(BlockNumHash, u128)>) {
    let head_key = BlockNumHash { number: head.header.number, hash: head.hash };
    match crate::kv_numhash::bnh_get(td_table0, head_key) {
        None => (
            Err(
                StageError::DatabaseIntegrity(
                    DatabaseIntegrityError::TotalDifficulty { number: head.header.number },
                ),
            ),
            td_table0,
        ),
        Some(td0) => {
            let start_num = (head.header.number + 1) as u64;
            match canon_above_head {
                None => (
                    Err(
                        StageError::DatabaseIntegrity(
                            DatabaseIntegrityError::CanonicalHeader { number: start_num },
                        ),
                    ),
                    td_table0,
                ),
                Some(h0) => td_outcome(
                    td_table0,
                    headers_from(headers_table, BlockNumHash { number: start_num, hash: h0 }),
                    td0,
                ),
            }
        },
    }
}

/// The first position of the chunk holding a download error; the chunk's
/// length when every result is a header.
pub open spec fn first_err(c: Seq<Result<SealedHeader, DownloadError>>) -> int
    decreases c.len(),
{
    if c.len() == 0 {
        0
    } else if c[0] is Err {
        0
    } else {
        1 + first_err(c.drop_first())
    }
}

/// Basic shape of `first_err`: the least index of an error.
pub proof fn lemma_first_err(c: Seq<Result<SealedHeader, DownloadError>>)
    ensures
        0 <= first_err(c) <= c.len(),
        forall|p: int| 0 <= p < first_err(c) ==> (#[trigger] c[p]) is Ok,
        first_err(c) < c.len() ==> c[first_err(c)] is Err,
    decreases c.len(),
{
    if c.len() > 0 && !(c[0] is Err) {
        lemma_first_err(c.drop_first());
        assert forall|p: int| 0 <= p < first_err(c) implies (#[trigger] c[p]) is Ok by {
            if p > 0 {
                assert(c.drop_first()[p - 1] is Ok);
            }
        }
    }
}

/// The headers of an all-successful chunk.
pub open spec fn oks(c: Seq<Result<SealedHeader, DownloadError>>) -> Seq<SealedHeader> {
    c.map_values(|r: Result<SealedHeader, DownloadError>| r->Ok_0)
}

/// A chunk the stage accepts: every result a header, and the headers a
/// descending linked chain.
pub open spec fn chunk_good(c: Seq<Result<SealedHeader, DownloadError>>) -> bool {
    first_err(c) == c.len() && desc_chain(oks(c))
}

/// How a download error surfaces through the stage contract: timeouts and
/// failed requests are recoverable, a header that failed the downloader's
/// validation triggers an unwind to the stage's progress.
pub open spec fn map_download_err(e: DownloadError, sp: u64) -> StageError {
    match e {
        DownloadError::Timeout => StageError::Recoverable(DownloadError::Timeout),
        DownloadError::HeaderValidation { hash } => StageError::Validation { block: sp, hash },
        DownloadError::RequestFailed(re) => StageError::Recoverable(
            DownloadError::RequestFailed(re),
        ),
    }
}

/// The error a bad chunk stops the stage with.
pub open spec fn chunk_error(c: Seq<Result<SealedHeader, DownloadError>>, sp: u64) -> StageError {
    let fe = first_err(c);
    if fe < c.len() {
        map_download_err(c[fe]->Err_0, sp)
    } else {
        StageError::Download { hash: oks(c)[first_broken(oks(c))].hash }
    }
}

/// The length of the next chunk taken from `s_len` remaining results.
pub open spec fn chunk_len(s_len: int, ct: int) -> int {
    if ct < s_len {
        ct
    } else {
        s_len
    }
}

/// The headers that reach the tables when the results are processed in
/// chunks of `ct`, ordered so that the first match wins a lookup: chunks
/// written later stand in front.
pub open spec fn chunks_written(s: Seq<Result<SealedHeader, DownloadError>>, ct: int) -> Seq<
    SealedHeader,
>
    decreases s.len(), when ct >= 1
{
    if s.len() == 0 {
        Seq::empty()
    } else {
        let k = chunk_len(s.len() as int, ct);
        let c = s.take(k);
        if chunk_good(c) {
            chunks_written(s.skip(k), ct) + oks(c)
        } else {
            Seq::empty()
        }
    }
}

/// The running progress after the chunk loop, starting from `cur`.
pub open spec fn progress_after(
    s: Seq<Result<SealedHeader, DownloadError>>,
    ct: int,
    cur: u64,
) -> u64
    decreases s.len(), when ct >= 1
{
    if s.len() == 0 {
        cur
    } else {
        let k = chunk_len(s.len() as int, ct);
        let c = s.take(k);
        if chunk_good(c) {
            let w = latest_written(oks(c));
            let wp = if w is Some {
                w->Some_0
            } else {
                0
            };
            progress_after(
                s.skip(k),
                ct,
                if cur >= wp {
                    cur
                } else {
                    wp
                },
            )
        } else {
            cur
        }
    }
}

/// The error the chunk loop stops with, if any chunk is bad.
pub open spec fn chunks_result(
    s: Seq<Result<SealedHeader, DownloadError>>,
    ct: int,
    sp: u64,
) -> Option<StageError>
    decreases s.len(), when ct >= 1
{
    if s.len() == 0 {
        None
    } else {
        let k = chunk_len(s.len() as int, ct);
        let c = s.take(k);
        if chunk_good(c) {
            chunks_result(s.skip(k), ct, sp)
        } else {
            Some(chunk_error(c, sp))
        }
    }
}

/// The number of chunks the loop commits.
pub open spec fn good_chunks(s: Seq<Result<SealedHeader, DownloadError>>, ct: int) -> int
    decreases s.len(), when ct >= 1
{
    if s.len() == 0 {
        0
    } else {
        let k = chunk_len(s.len() as int, ct);
        let c = s.take(k);
        if chunk_good(c) {
            1 + good_chunks(s.skip(k), ct)
        } else {
            0
        }
    }
}

/// Looking up through two write passes is looking up through their
/// concatenated priority sequences.
pub proof fn lemma_hn_lookup_append(a: Seq<SealedHeader>, b: Seq<SealedHeader>, prior: Option<u64>, h: u64)
    ensures
        hn_lookup(a + b, prior, h) == hn_lookup(a, hn_lookup(b, prior, h), h),
    decreases a.len(),
{
    if a.len() == 0 {
        assert(a + b =~= b);
    } else {
        assert((a + b)[0] == a[0]);
        assert((a + b).drop_first() =~= a.drop_first() + b);
        lemma_hn_lookup_append(a.drop_first(), b, prior, h);
    }
}

/// As `lemma_hn_lookup_append`, for the canonical index.
pub proof fn lemma_canon_lookup_append(a: Seq<SealedHeader>, b: Seq<SealedHeader>, prior: Option<u64>, n: u64)
    ensures
        canon_lookup(a + b, prior, n) == canon_lookup(a, canon_lookup(b, prior, n), n),
    decreases a.len(),
{
    if a.len() == 0 {
        assert(a + b =~= b);
    } else {
        assert((a + b)[0] == a[0]);
        assert((a + b).drop_first() =~= a.drop_first() + b);
        lemma_canon_lookup_append(a.drop_first(), b, prior, n);
    }
}

/// As `lemma_hn_lookup_append`, for the headers table.
pub proof fn lemma_hdr_lookup_append(
    a: Seq<SealedHeader>,
    b: Seq<SealedHeader>,
    prior: Option<crate::primitives::Header>,
    k: BlockNumHash,
)
    ensures
        hdr_lookup(a + b, prior, k) == hdr_lookup(a, hdr_lookup(b, prior, k), k),
    decreases a.len(),
{
    if a.len() == 0 {
        assert(a + b =~= b);
    } else {
        assert((a + b)[0] == a[0]);
        assert((a + b).drop_first() =~= a.drop_first() + b);
        lemma_hdr_lookup_append(a.drop_first(), b, prior, k);
    }
}

impl HeaderStage {
    /// Return the id of the stage.
    pub fn id(&self) -> (r: StageId)
        ensures
            r.0@ == "Headers"@,
    {
        StageId("Headers")
    }

    /// Unwind the stage: remove every row of the four header tables whose
    /// block number is above the unwind target.
    pub fn unwind(&self, tx: &mut Tx, input: UnwindInput) -> (r: Result<UnwindOutput, StageError>)
        requires
            old(tx).wf(),
        ensures
            final(tx).wf(),
            final(tx).block_bodies@ == old(tx).block_bodies@,
            final(tx).transactions@ == old(tx).transactions@,
            final(tx).tx_senders@ == old(tx).tx_senders@,
            final(tx).commits == old(tx).commits,
            r == Ok::<UnwindOutput, StageError>(
                UnwindOutput { stage_progress: input.unwind_to },
            ),
            forall|n: u64|
                n <= input.unwind_to ==> #[trigger] final(tx).canonical_headers.get_spec(n) == old(
                    tx,
                ).canonical_headers.get_spec(n),
            forall|n: u64|
                n > input.unwind_to ==> #[trigger] final(tx).canonical_headers.get_spec(n) is None,
            forall|k: BlockNumHash|
                k.number <= input.unwind_to ==> #[trigger] final(tx).headers.get_spec(k) == old(
                    tx,
                ).headers.get_spec(k),
            forall|k: BlockNumHash|
                k.number > input.unwind_to ==> #[trigger] final(tx).headers.get_spec(k) is None,
            forall|k: BlockNumHash|
                k.number <= input.unwind_to ==> #[trigger] final(tx).header_td.get_spec(k) == old(
                    tx,
                ).header_td.get_spec(k),
            forall|k: BlockNumHash|
                k.number > input.unwind_to ==> #[trigger] final(tx).header_td.get_spec(k) is None,
            forall|h: u64|
                (exists|n: u64|
                    n > input.unwind_to && #[trigger] old(tx).canonical_headers.get_spec(n)
                        == Some(h)) ==> #[trigger] final(tx).header_numbers.get_spec(h) is None,
            forall|h: u64|
                (forall|n: u64|
                    n > input.unwind_to ==> #[trigger] old(tx).canonical_headers.get_spec(n)
                        != Some(h)) ==> #[trigger] final(tx).header_numbers.get_spec(h) == old(
                    tx,
                ).header_numbers.get_spec(h),
    {
        // Drop the reverse lookups of every canonical entry above the
        // target, walking the canonical index.
        if input.unwind_to < u64::MAX {
            tx.unwind_table_by_walker(input.unwind_to + 1);
        } else {
            proof {
                assert forall|h: u64|
                    (forall|n: u64|
                        n > input.unwind_to ==> #[trigger] tx.canonical_headers.get_spec(n)
                            != Some(h)) implies #[trigger] tx.header_numbers.get_spec(h)
                    == old(tx).header_numbers.get_spec(h) by {}
            }
        }
        // Truncate the three number-ordered tables.
        tx.canonical_headers.unwind_above(input.unwind_to);
        tx.headers.unwind_num_above(input.unwind_to);
        tx.header_td.unwind_num_above(input.unwind_to);
        Ok(UnwindOutput { stage_progress: input.unwind_to })
    }

    /// Look up the current head's hash and total difficulty for the
    /// status broadcast. The push itself is the network sink's
    /// fire-and-forget call; the caller performs it with the returned
    /// value.
    pub fn update_head(&self, tx: &Tx, height: u64) -> (r: Result<StatusUpdate, StageError>)
        requires
            tx.wf(),
        ensures
            match r {
                Ok(s) => {
                    &&& s.height == height
                    &&& tx.canonical_headers.get_spec(height) == Some(s.hash)
                    &&& tx.header_td.get_spec(BlockNumHash { number: height, hash: s.hash })
                        == Some(s.total_difficulty)
                },
                Err(e) => match e {
                    StageError::DatabaseIntegrity(DatabaseIntegrityError::CanonicalHeader {
                        number,
                    }) => number == height && tx.canonical_headers.get_spec(height) is None,
                    StageError::DatabaseIntegrity(DatabaseIntegrityError::TotalDifficulty {
                        number,
                    }) => {
                        &&& number == height
                        &&& tx.canonical_headers.get_spec(height) is Some
                        &&& tx.header_td.get_spec(
                            BlockNumHash {
                                number: height,
                                hash: tx.canonical_headers.get_spec(height)->Some_0,
                            },
                        ) is None
                    },
                    _ => false,
                },
            },
    {
        let block_key = match tx.get_block_numhash(height) {
            Ok(k) => k,
            Err(e) => {
                return Err(StageError::DatabaseIntegrity(e));
            },
        };
        let td = match tx.header_td.get(block_key) {
            Some(td) => *td,
            None => {
                return Err(
                    StageError::DatabaseIntegrity(
                        DatabaseIntegrityError::TotalDifficulty { number: height },
                    ),
                );
            },
        };
        Ok(StatusUpdate { height, hash: block_key.hash, total_difficulty: td })
    }

    /// Get the head and the tip of the range to sync: the canonical header
    /// at the stage's progress, and either the parent of the gap above it
    /// or the accepted forkchoice head.
    pub fn get_head_and_tip(&self, tx: &Tx, stage_progress: u64, forkchoice_head: u64) -> (r:
        Result<(SealedHeader, u64), StageError>)
        requires
            tx.wf(),
        ensures
            r == head_and_tip_spec(tx, stage_progress, forkchoice_head),
    {
        // Get the head hash and look the header up.
        let head_hash = match tx.canonical_headers.get(stage_progress) {
            Some(h) => *h,
            None => {
                return Err(
                    StageError::DatabaseIntegrity(
                        DatabaseIntegrityError::CanonicalHeader { number: stage_progress },
                    ),
                );
            },
        };
        let head_key = BlockNumHash { number: stage_progress, hash: head_hash };
        let head_header = match tx.headers.get(head_key) {
            Some(h) => *h,
            None => {
                return Err(
                    StageError::DatabaseIntegrity(
                        DatabaseIntegrityError::Header { number: stage_progress, hash: head_hash },
                    ),
                );
            },
        };
        let head = SealedHeader::new(head_header, head_hash);

        // Peek at the next canonical header.
        let idx: usize = if stage_progress == u64::MAX {
            tx.canonical_headers.len()
        } else {
            tx.canonical_headers.seek_ge(stage_progress + 1)
        };
        proof {
            crate::kv::lemma_first_above(tx.canonical_headers@, stage_progress);
            let fa = first_above(tx.canonical_headers@, stage_progress);
            if fa < idx {
                assert(tx.canonical_headers@[fa].0 > stage_progress);
            }
            if idx < fa {
                assert(tx.canonical_headers@[idx as int].0 <= stage_progress);
            }
            assert(idx == fa);
        }
        if idx == tx.canonical_headers.len() {
            // No next header: the tip comes from the consensus forkchoice.
            return Ok((head, forkchoice_head));
        }
        let next = *tx.canonical_headers.entry_at(idx);
        let next_key = BlockNumHash { number: next.0, hash: next.1 };
        let next_header = match tx.headers.get(next_key) {
            Some(h) => *h,
            None => {
                return Err(
                    StageError::DatabaseIntegrity(
                        DatabaseIntegrityError::Header { number: next.0, hash: next.1 },
                    ),
                );
            },
        };
        // A gap right above the head means the tip is the gap's parent;
        // no gap means there is no work.
        if stage_progress + 1 != next.0 {
            Ok((head, next_header.parent_hash))
        } else {
            Err(StageError::StageProgress(stage_progress))
        }
    }

    /// Scan the observed forkchoice states for the first that names a real
    /// tip: a non-zero head hash different from the local head. The
    /// channel is a coalesced broadcast, so only the order of observation
    /// matters.
    pub fn next_fork_choice_state(&self, states: &Vec<ForkchoiceState>, head: u64) -> (r: Option<
        ForkchoiceState,
    >)
        ensures
            match r {
                Some(s) => exists|i: int|
                    {
                        &&& 0 <= i < states@.len()
                        &&& #[trigger] states@[i] == s
                        &&& s.head_block_hash != 0 && s.head_block_hash != head
                        &&& forall|j: int|
                            0 <= j < i ==> ((#[trigger] states@[j]).head_block_hash == 0
                                || states@[j].head_block_hash == head)
                    },
                None => forall|j: int|
                    0 <= j < states@.len() ==> ((#[trigger] states@[j]).head_block_hash == 0
                        || states@[j].head_block_hash == head),
            },
    {
        let mut i: usize = 0;
        while i < states.len()
            invariant
                i <= states@.len(),
                forall|j: int|
                    0 <= j < i ==> ((#[trigger] states@[j]).head_block_hash == 0
                        || states@[j].head_block_hash == head),
            decreases states@.len() - i,
        {
            let s = states[i];
            if s.head_block_hash != 0 && s.head_block_hash != head {
                proof {
                    assert(states@[i as int] == s);
                }
                return Some(s);
            }
            i = i + 1;
        }
        None
    }

    /// Write the downloaded headers to the reverse-lookup, headers and
    /// canonical tables. The input is descending, so it is written back to
    /// front to keep the writes ascending; genesis is preloaded and
    /// skipped. Returns the number of the last header written.
    #[verifier::loop_isolation(false)]
    pub fn write_headers(&self, tx: &mut Tx, headers: Vec<SealedHeader>) -> (latest: Option<u64>)
        requires
            old(tx).wf(),
        ensures
            final(tx).wf(),
            final(tx).header_td@ == old(tx).header_td@,
            final(tx).block_bodies@ == old(tx).block_bodies@,
            final(tx).transactions@ == old(tx).transactions@,
            final(tx).tx_senders@ == old(tx).tx_senders@,
            final(tx).commits == old(tx).commits,
            forall|h: u64|
                #[trigger] final(tx).header_numbers.get_spec(h) == hn_lookup(
                    headers@,
                    old(tx).header_numbers.get_spec(h),
                    h,
                ),
            forall|n: u64|
                #[trigger] final(tx).canonical_headers.get_spec(n) == canon_lookup(
                    headers@,
                    old(tx).canonical_headers.get_spec(n),
                    n,
                ),
            forall|k: BlockNumHash|
                #[trigger] final(tx).headers.get_spec(k) == hdr_lookup(
                    headers@,
                    old(tx).headers.get_spec(k),
                    k,
                ),
            latest == latest_written(headers@),
    {
        let mut latest: Option<u64> = None;
        let mut idx: usize = headers.len();
        while idx > 0
            invariant
                tx.wf(),
                tx.header_td@ == old(tx).header_td@,
                tx.block_bodies@ == old(tx).block_bodies@,
                tx.transactions@ == old(tx).transactions@,
                tx.tx_senders@ == old(tx).tx_senders@,
                tx.commits == old(tx).commits,
                idx <= headers@.len(),
                forall|h: u64|
                    #[trigger] tx.header_numbers.get_spec(h) == hn_lookup(
                        headers@.subrange(idx as int, headers@.len() as int),
                        old(tx).header_numbers.get_spec(h),
                        h,
                    ),
                forall|n: u64|
                    #[trigger] tx.canonical_headers.get_spec(n) == canon_lookup(
                        headers@.subrange(idx as int, headers@.len() as int),
                        old(tx).canonical_headers.get_spec(n),
                        n,
                    ),
                forall|k: BlockNumHash|
                    #[trigger] tx.headers.get_spec(k) == hdr_lookup(
                        headers@.subrange(idx as int, headers@.len() as int),
                        old(tx).headers.get_spec(k),
                        k,
                    ),
                latest == latest_written(headers@.subrange(idx as int, headers@.len() as int)),
            decreases idx,
        {
            idx = idx - 1;
            let ghost pre_tail = headers@.subrange(idx + 1, headers@.len() as int);
            let ghost tail = headers@.subrange(idx as int, headers@.len() as int);
            proof {
                assert(tail[0] == headers@[idx as int]);
                assert(tail.drop_first() =~= pre_tail);
            }
            let header = headers[idx];
            if header.header.number != 0 {
                let key = BlockNumHash { number: header.header.number, hash: header.hash };
                tx.header_numbers.put(header.hash, header.header.number);
                tx.headers.put(key, header.header);
                tx.canonical_headers.put(header.header.number, header.hash);
                latest = Some(header.header.number);
            }
        }
        proof {
            assert(headers@.subrange(0, headers@.len() as int) =~= headers@);
        }
        latest
    }

    /// Run the stage: broadcast the head status, determine the sync
    /// range, consume the downloaded headers in commit-sized chunks, and
    /// finish with the total-difficulty pass. The downloader's output and
    /// the accepted forkchoice head arrive as values; the caller performs
    /// the network calls.
    #[verifier::loop_isolation(false)]
    #[verifier::rlimit(100)]
    pub fn execute(
        &self,
        tx: &mut Tx,
        input: ExecInput,
        forkchoice_head: u64,
        downloaded: Vec<Result<SealedHeader, DownloadError>>,
    ) -> (r: Result<ExecOutput, StageError>)
        requires
            old(tx).wf(),
            self.commit_threshold >= 1,
            input.stage_progress_spec() < u64::MAX,
            ({
                let sp = input.stage_progress_spec();
                match old(tx).canonical_headers.get_spec(sp) {
                    Some(h) => match old(tx).headers.get_spec(
                        BlockNumHash { number: sp, hash: h },
                    ) {
                        Some(hdr) => hdr.number < u64::MAX,
                        None => true,
                    },
                    None => true,
                }
            }),
        ensures
            final(tx).wf(),
            final(tx).block_bodies@ == old(tx).block_bodies@,
            final(tx).transactions@ == old(tx).transactions@,
            final(tx).tx_senders@ == old(tx).tx_senders@,
            ({
                let sp = input.stage_progress_spec();
                let cti = self.commit_threshold as int;
                if old(tx).canonical_headers.get_spec(sp) is None {
                    r == Err::<ExecOutput, StageError>(
                        StageError::DatabaseIntegrity(
                            DatabaseIntegrityError::CanonicalHeader { number: sp },
                        ),
                    ) && final(tx).same_tables(old(tx)) && final(tx).commits == old(tx).commits
                } else if old(tx).header_td.get_spec(
                    BlockNumHash {
                        number: sp,
                        hash: old(tx).canonical_headers.get_spec(sp)->Some_0,
                    },
                ) is None {
                    r == Err::<ExecOutput, StageError>(
                        StageError::DatabaseIntegrity(
                            DatabaseIntegrityError::TotalDifficulty { number: sp },
                        ),
                    ) && final(tx).same_tables(old(tx)) && final(tx).commits == old(tx).commits
                } else if head_and_tip_spec(old(tx), sp, forkchoice_head) is Err {
                    r == Err::<ExecOutput, StageError>(
                        head_and_tip_spec(old(tx), sp, forkchoice_head)->Err_0,
                    ) && final(tx).same_tables(old(tx)) && final(tx).commits == old(tx).commits
                } else {
                    let head = head_and_tip_spec(old(tx), sp, forkchoice_head)->Ok_0.0;
                    let written = chunks_written(downloaded@, cti);
                    &&& forall|h: u64|
                        #[trigger] final(tx).header_numbers.get_spec(h) == hn_lookup(
                            written,
                            old(tx).header_numbers.get_spec(h),
                            h,
                        )
                    &&& forall|n: u64|
                        #[trigger] final(tx).canonical_headers.get_spec(n) == canon_lookup(
                            written,
                            old(tx).canonical_headers.get_spec(n),
                            n,
                        )
                    &&& forall|k: BlockNumHash|
                        #[trigger] final(tx).headers.get_spec(k) == hdr_lookup(
                            written,
                            old(tx).headers.get_spec(k),
                            k,
                        )
                    &&& final(tx).commits == ((old(tx).commits + good_chunks(downloaded@, cti))
                        % 0x1_0000_0000_0000_0000) as u64
                    &&& match chunks_result(downloaded@, cti, sp) {
                        Some(e) => r == Err::<ExecOutput, StageError>(e) && final(tx).header_td@
                            == old(tx).header_td@,
                        None => {
                            let o = write_td_spec(
                                old(tx).header_td@,
                                final(tx).canonical_headers.get_spec(
                                    (head.header.number + 1) as u64,
                                ),
                                final(tx).headers@,
                                head,
                            );
                            &&& final(tx).header_td@ == o.1
                            &&& match o.0 {
                                Err(e) => r == Err::<ExecOutput, StageError>(e),
                                Ok(_) => {
                                    let cur = progress_after(downloaded@, cti, sp);
                                    let canon_final = final(tx).canonical_headers@;
                                    let last = if canon_final.len() > 0 {
                                        canon_final[canon_final.len() - 1].0
                                    } else {
                                        0
                                    };
                                    r == Ok::<ExecOutput, StageError>(
                                        ExecOutput {
                                            stage_progress: if cur >= last {
                                                cur
                                            } else {
                                                last
                                            },
                                            reached_tip: true,
                                            done: true,
                                        },
                                    )
                                },
                            }
                        },
                    }
                }
            }),
    {
        let stage_progress: u64 = match input.stage_progress {
            Some(n) => n,
            None => 0,
        };

        // Broadcast the head status; the caller pushes the value to the
        // network.
        match self.update_head(tx, stage_progress) {
            Ok(_) => {},
            Err(e) => {
                return Err(e);
            },
        }

        // Look up the head and the tip of the sync range.
        let head = match self.get_head_and_tip(tx, stage_progress, forkchoice_head) {
            Ok((head, _tip)) => head,
            Err(e) => {
                return Err(e);
            },
        };

        // Consume the downloaded headers chunk by chunk.
        let current_progress = match self.process_chunks(tx, stage_progress, &downloaded) {
            Ok(p) => p,
            Err(e) => {
                return Err(e);
            },
        };
        let ghost written = chunks_written(downloaded@, self.commit_threshold as int);
        let ghost chunked_hn = tx.header_numbers;
        let ghost chunked_canon = tx.canonical_headers;
        let ghost chunked_hdr = tx.headers;

        // Write the total-difficulty values after all headers are in.
        match self.write_td(tx, &head) {
            Ok(_) => {},
            Err(e) => {
                proof {
                    assert forall|h: u64|
                        #[trigger] tx.header_numbers.get_spec(h) == hn_lookup(
                            written,
                            old(tx).header_numbers.get_spec(h),
                            h,
                        ) by {
                        assert(chunked_hn.get_spec(h) == hn_lookup(
                            written,
                            old(tx).header_numbers.get_spec(h),
                            h,
                        ));
                        assert(tx.header_numbers.get_spec(h) == chunked_hn.get_spec(h));
                    }
                    assert forall|n: u64|
                        #[trigger] tx.canonical_headers.get_spec(n) == canon_lookup(
                            written,
                            old(tx).canonical_headers.get_spec(n),
                            n,
                        ) by {
                        assert(chunked_canon.get_spec(n) == canon_lookup(
                            written,
                            old(tx).canonical_headers.get_spec(n),
                            n,
                        ));
                        assert(tx.canonical_headers.get_spec(n) == chunked_canon.get_spec(n));
                    }
                    assert forall|k: BlockNumHash|
                        #[trigger] tx.headers.get_spec(k) == hdr_lookup(
                            written,
                            old(tx).headers.get_spec(k),
                            k,
                        ) by {
                        assert(chunked_hdr.get_spec(k) == hdr_lookup(
                            written,
                            old(tx).headers.get_spec(k),
                            k,
                        ));
                        assert(tx.headers.get_spec(k) == chunked_hdr.get_spec(k));
                    }
                    assert(chunked_canon.get_spec((head.header.number + 1) as u64)
                        == tx.canonical_headers.get_spec((head.header.number + 1) as u64));
                }
                return Err(e);
            },
        }
        proof {
            assert forall|h: u64|
                #[trigger] tx.header_numbers.get_spec(h) == hn_lookup(
                    written,
                    old(tx).header_numbers.get_spec(h),
                    h,
                ) by {
                assert(chunked_hn.get_spec(h) == hn_lookup(
                    written,
                    old(tx).header_numbers.get_spec(h),
                    h,
                ));
                assert(tx.header_numbers.get_spec(h) == chunked_hn.get_spec(h));
            }
            assert forall|n: u64|
                #[trigger] tx.canonical_headers.get_spec(n) == canon_lookup(
                    written,
                    old(tx).canonical_headers.get_spec(n),
                    n,
                ) by {
                assert(chunked_canon.get_spec(n) == canon_lookup(
                    written,
                    old(tx).canonical_headers.get_spec(n),
                    n,
                ));
                assert(tx.canonical_headers.get_spec(n) == chunked_canon.get_spec(n));
            }
            assert forall|k: BlockNumHash|
                #[trigger] tx.headers.get_spec(k) == hdr_lookup(
                    written,
                    old(tx).headers.get_spec(k),
                    k,
                ) by {
                assert(chunked_hdr.get_spec(k) == hdr_lookup(
                    written,
                    old(tx).headers.get_spec(k),
                    k,
                ));
                assert(tx.headers.get_spec(k) == chunked_hdr.get_spec(k));
            }
            assert(chunked_canon.get_spec((head.header.number + 1) as u64)
                == tx.canonical_headers.get_spec((head.header.number + 1) as u64));
        }

        let last: u64 = match tx.canonical_headers.last() {
            Some(e) => e.0,
            None => 0,
        };
        let stage_progress_out: u64 = if current_progress >= last {
            current_progress
        } else {
            last
        };
        Ok(ExecOutput { stage_progress: stage_progress_out, reached_tip: true, done: true })
    }

    /// Consume the downloaded results in commit-sized chunks: collect each
    /// chunk, stop the stage on the chunk's first error, validate its
    /// parent linkage, write it and commit. Returns the running progress.
    #[verifier::loop_isolation(false)]
    #[verifier::rlimit(100)]
    pub fn process_chunks(
        &self,
        tx: &mut Tx,
        stage_progress: u64,
        downloaded: &Vec<Result<SealedHeader, DownloadError>>,
    ) -> (r: Result<u64, StageError>)
        requires
            old(tx).wf(),
            self.commit_threshold >= 1,
        ensures
            final(tx).wf(),
            final(tx).header_td@ == old(tx).header_td@,
            final(tx).block_bodies@ == old(tx).block_bodies@,
            final(tx).transactions@ == old(tx).transactions@,
            final(tx).tx_senders@ == old(tx).tx_senders@,
            final(tx).commits == ((old(tx).commits + good_chunks(
                downloaded@,
                self.commit_threshold as int,
            )) % 0x1_0000_0000_0000_0000) as u64,
            forall|h: u64|
                #[trigger] final(tx).header_numbers.get_spec(h) == hn_lookup(
                    chunks_written(downloaded@, self.commit_threshold as int),
                    old(tx).header_numbers.get_spec(h),
                    h,
                ),
            forall|n: u64|
                #[trigger] final(tx).canonical_headers.get_spec(n) == canon_lookup(
                    chunks_written(downloaded@, self.commit_threshold as int),
                    old(tx).canonical_headers.get_spec(n),
                    n,
                ),
            forall|k: BlockNumHash|
                #[trigger] final(tx).headers.get_spec(k) == hdr_lookup(
                    chunks_written(downloaded@, self.commit_threshold as int),
                    old(tx).headers.get_spec(k),
                    k,
                ),
            match r {
                Ok(p) => chunks_result(
                    downloaded@,
                    self.commit_threshold as int,
                    stage_progress,
                ) is None && p == progress_after(
                    downloaded@,
                    self.commit_threshold as int,
                    stage_progress,
                ),
                Err(e) => chunks_result(downloaded@, self.commit_threshold as int, stage_progress)
                    == Some(e),
            },
    {
        let ct = self.commit_threshold;
        let ghost cti = ct as int;
        let ghost s = downloaded@;
        let ghost commits0 = old(tx).commits;
        let mut pos: usize = 0;
        let mut current: u64 = stage_progress;
        let ghost done: int = 0;
        proof {
            assert(s.skip(0) =~= s);
        }
        while pos < downloaded.len()
            invariant
                tx.wf(),
                tx.header_td@ == old(tx).header_td@,
                tx.block_bodies@ == old(tx).block_bodies@,
                tx.transactions@ == old(tx).transactions@,
                tx.tx_senders@ == old(tx).tx_senders@,
                pos <= s.len(),
                done >= 0,
                tx.commits == ((commits0 + done) % 0x1_0000_0000_0000_0000) as u64,
                forall|h: u64|
                    hn_lookup(
                        chunks_written(s.skip(pos as int), cti),
                        #[trigger] tx.header_numbers.get_spec(h),
                        h,
                    ) == hn_lookup(chunks_written(s, cti), old(tx).header_numbers.get_spec(h), h),
                forall|n: u64|
                    canon_lookup(
                        chunks_written(s.skip(pos as int), cti),
                        #[trigger] tx.canonical_headers.get_spec(n),
                        n,
                    ) == canon_lookup(
                        chunks_written(s, cti),
                        old(tx).canonical_headers.get_spec(n),
                        n,
                    ),
                forall|k: BlockNumHash|
                    hdr_lookup(
                        chunks_written(s.skip(pos as int), cti),
                        #[trigger] tx.headers.get_spec(k),
                        k,
                    ) == hdr_lookup(chunks_written(s, cti), old(tx).headers.get_spec(k), k),
                progress_after(s.skip(pos as int), cti, current) == progress_after(
                    s,
                    cti,
                    stage_progress,
                ),
                chunks_result(s.skip(pos as int), cti, stage_progress) == chunks_result(
                    s,
                    cti,
                    stage_progress,
                ),
                done + good_chunks(s.skip(pos as int), cti) == good_chunks(s, cti),
            decreases s.len() - pos,
        {
            let remaining = downloaded.len() - pos;
            let k: usize = if ct < remaining {
                ct
            } else {
                remaining
            };
            let ghost rest = s.skip(pos as int);
            let ghost c = rest.take(k as int);
            proof {
                assert(chunk_len(rest.len() as int, cti) == k);
                assert forall|p: int| 0 <= p < k implies c[p] == s[pos + p] by {
                    assert(rest[p] == s[pos + p]);
                }
            }

            // Collect the chunk, stopping at its first download error.
            let mut hs: Vec<SealedHeader> = Vec::new();
            let mut j: usize = 0;
            while j < k
                invariant
                    j <= k,
                    k <= remaining,
                    remaining == s.len() - pos,
                    hs@.len() == j,
                    forall|p: int|
                        0 <= p < j ==> (#[trigger] c[p]) is Ok && hs@[p] == c[p]->Ok_0,
                decreases k - j,
            {
                let entry = downloaded[pos + j];
                match entry {
                    Ok(h) => {
                        hs.push(h);
                        proof {
                            assert(c[j as int] == s[pos + j]);
                        }
                    },
                    Err(e) => {
                        proof {
                            assert(c[j as int] == s[pos + j]);
                            lemma_first_err(c);
                            let fe = first_err(c);
                            assert(fe == j) by {
                                if fe < j {
                                    assert(c[fe] is Ok);
                                    assert(c[fe] is Err);
                                }
                                if fe > j {
                                    assert(c[j as int] is Ok);
                                }
                            }
                            assert(!chunk_good(c));
                            assert(chunk_error(c, stage_progress) == map_download_err(
                                e,
                                stage_progress,
                            ));
                            assert(chunks_result(rest, cti, stage_progress) == Some(
                                chunk_error(c, stage_progress),
                            ));
                            assert(chunks_written(rest, cti) =~= Seq::<SealedHeader>::empty());
                            assert(good_chunks(rest, cti) == 0);
                        }
                        let mapped = match e {
                            DownloadError::Timeout => StageError::Recoverable(
                                DownloadError::Timeout,
                            ),
                            DownloadError::HeaderValidation { hash } => StageError::Validation {
                                block: stage_progress,
                                hash,
                            },
                            DownloadError::RequestFailed(re) => StageError::Recoverable(
                                DownloadError::RequestFailed(re),
                            ),
                        };
                        return Err(mapped);
                    },
                }
                j = j + 1;
            }
            proof {
                lemma_first_err(c);
                assert(first_err(c) == c.len()) by {
                    if first_err(c) < c.len() {
                        assert(c[first_err(c)] is Ok);
                        assert(c[first_err(c)] is Err);
                    }
                }
                assert(hs@ =~= oks(c));
            }

            // Validate the chunk's parent linkage.
            match self.validate_header_response(&hs) {
                Ok(_) => {},
                Err(e) => {
                    proof {
                        assert(!desc_chain(oks(c)));
                        assert(!chunk_good(c));
                        assert(e == chunk_error(c, stage_progress));
                        assert(chunks_result(rest, cti, stage_progress) == Some(
                            chunk_error(c, stage_progress),
                        ));
                        assert(chunks_written(rest, cti) =~= Seq::<SealedHeader>::empty());
                        assert(good_chunks(rest, cti) == 0);
                    }
                    return Err(e);
                },
            }

            // Write the chunk and commit.
            let ghost pre_hn = tx.header_numbers;
            let ghost pre_canon = tx.canonical_headers;
            let ghost pre_hdr = tx.headers;
            let latest = self.write_headers(tx, hs);
            let ghost mid_hn = tx.header_numbers;
            let ghost mid_canon = tx.canonical_headers;
            let ghost mid_hdr = tx.headers;
            let wp: u64 = match latest {
                Some(n) => n,
                None => 0,
            };
            if wp > current {
                current = wp;
            }
            tx.commit();
            proof {
                assert(chunk_good(c));
                assert(rest.skip(k as int) =~= s.skip(pos + k));
                let tail_written = chunks_written(s.skip(pos + k), cti);
                assert(chunks_written(rest, cti) == tail_written + oks(c));
                assert forall|h: u64|
                    hn_lookup(tail_written, #[trigger] tx.header_numbers.get_spec(h), h)
                        == hn_lookup(
                        chunks_written(s, cti),
                        old(tx).header_numbers.get_spec(h),
                        h,
                    ) by {
                    assert(mid_hn.get_spec(h) == hn_lookup(oks(c), pre_hn.get_spec(h), h));
                    assert(tx.header_numbers.get_spec(h) == mid_hn.get_spec(h));
                    lemma_hn_lookup_append(tail_written, oks(c), pre_hn.get_spec(h), h);
                    assert(hn_lookup(chunks_written(rest, cti), pre_hn.get_spec(h), h)
                        == hn_lookup(chunks_written(s, cti), old(tx).header_numbers.get_spec(h), h));
                }
                assert forall|n: u64|
                    canon_lookup(tail_written, #[trigger] tx.canonical_headers.get_spec(n), n)
                        == canon_lookup(
                        chunks_written(s, cti),
                        old(tx).canonical_headers.get_spec(n),
                        n,
                    ) by {
                    assert(mid_canon.get_spec(n) == canon_lookup(oks(c), pre_canon.get_spec(n), n));
                    assert(tx.canonical_headers.get_spec(n) == mid_canon.get_spec(n));
                    lemma_canon_lookup_append(tail_written, oks(c), pre_canon.get_spec(n), n);
                    assert(canon_lookup(chunks_written(rest, cti), pre_canon.get_spec(n), n)
                        == canon_lookup(
                        chunks_written(s, cti),
                        old(tx).canonical_headers.get_spec(n),
                        n,
                    ));
                }
                assert forall|k2: BlockNumHash|
                    hdr_lookup(tail_written, #[trigger] tx.headers.get_spec(k2), k2) == hdr_lookup(
                        chunks_written(s, cti),
                        old(tx).headers.get_spec(k2),
                        k2,
                    ) by {
                    assert(mid_hdr.get_spec(k2) == hdr_lookup(oks(c), pre_hdr.get_spec(k2), k2));
                    assert(tx.headers.get_spec(k2) == mid_hdr.get_spec(k2));
                    lemma_hdr_lookup_append(tail_written, oks(c), pre_hdr.get_spec(k2), k2);
                    assert(hdr_lookup(chunks_written(rest, cti), pre_hdr.get_spec(k2), k2)
                        == hdr_lookup(chunks_written(s, cti), old(tx).headers.get_spec(k2), k2));
                }
                let old_done = done;
                done = done + 1;
                vstd::arithmetic::div_mod::lemma_add_mod_noop(
                    commits0 + old_done,
                    1,
                    0x1_0000_0000_0000_0000,
                );
                assert(1int % 0x1_0000_0000_0000_0000 == 1);
            }
            pos = pos + k;
        }
        proof {
            assert(s.skip(pos as int) =~= Seq::<Result<SealedHeader, DownloadError>>::empty());
            assert(chunks_written(s.skip(pos as int), cti) =~= Seq::<SealedHeader>::empty());
        }
        Ok(current)
    }

    /// Iterate over the headers inserted above the head and write the
    /// cumulative total-difficulty entries. The pass is append-only and
    /// runs in one transaction: an overflowing total is detected before
    /// anything is written.
    #[verifier::loop_isolation(false)]
    #[verifier::rlimit(60)]
    pub fn write_td(&self, tx: &mut Tx, head: &SealedHeader) -> (r: Result<(), StageError>)
        requires
            old(tx).wf(),
            head.header.number < u64::MAX,
        ensures
            final(tx).wf(),
            final(tx).canonical_headers@ == old(tx).canonical_headers@,
            final(tx).header_numbers@ == old(tx).header_numbers@,
            final(tx).headers@ == old(tx).headers@,
            final(tx).block_bodies@ == old(tx).block_bodies@,
            final(tx).transactions@ == old(tx).transactions@,
            final(tx).tx_senders@ == old(tx).tx_senders@,
            final(tx).commits == old(tx).commits,
            ({
                let o = write_td_spec(
                    old(tx).header_td@,
                    old(tx).canonical_headers.get_spec((head.header.number + 1) as u64),
                    old(tx).headers@,
                    *head,
                );
                r == o.0 && final(tx).header_td@ == o.1
            }),
    {
        // Get the head's total difficulty.
        let head_key = BlockNumHash { number: head.header.number, hash: head.hash };
        let td0 = match tx.header_td.get(head_key) {
            Some(t) => *t,
            None => {
                return Err(
                    StageError::DatabaseIntegrity(
                        DatabaseIntegrityError::TotalDifficulty { number: head.header.number },
                    ),
                );
            },
        };

        // Start at the first block inserted above the head.
        let start_key = match tx.get_block_numhash(head.header.number + 1) {
            Ok(k) => k,
            Err(e) => {
                return Err(StageError::DatabaseIntegrity(e));
            },
        };

        let i0 = tx.headers.seek_ge(start_key);
        let ghost walked = headers_from(tx.headers@, start_key);
        proof {
            lemma_headers_from_is_suffix(tx.headers@, start_key, i0 as int);
            assert(walked == tx.headers@.subrange(i0 as int, tx.headers@.len() as int));
        }

        // First pass: accumulate the totals, refusing any that overflows.
        let n = tx.headers.len();
        let mut sums: Vec<(BlockNumHash, u128)> = Vec::new();
        let mut acc: u128 = td0;
        let mut i: usize = i0;
        while i < n
            invariant
                i0 <= i <= n,
                n == tx.headers@.len(),
                sums@ == td_entries(walked, td0).take(i - i0),
                acc == td0 + dsum(walked, i - i0),
                forall|p: int| 0 <= p <= i - i0 ==> td0 + #[trigger] dsum(walked, p) <= u128::MAX,
            decreases n - i,
        {
            let e = *tx.headers.entry_at(i);
            proof {
                assert(walked[i - i0] == e);
            }
            if (e.1.difficulty as u128) > u128::MAX - acc {
                proof {
                    lemma_first_td_overflow(walked, td0 as int);
                    let fo = first_td_overflow(walked, td0 as int);
                    assert(td0 + dsum(walked, (i - i0) + 1) > u128::MAX);
                    if fo < i - i0 {
                        assert(td0 + dsum(walked, fo + 1) <= u128::MAX);
                    }
                    if fo > i - i0 {
                        assert(td0 + dsum(walked, (i - i0) + 1) <= u128::MAX);
                    }
                    assert(fo == i - i0);
                }
                return Err(
                    StageError::DatabaseIntegrity(
                        DatabaseIntegrityError::TotalDifficulty { number: e.0.number },
                    ),
                );
            }
            acc = acc + (e.1.difficulty as u128);
            sums.push((e.0, acc));
            proof {
                assert(dsum(walked, (i - i0) + 1) == dsum(walked, i - i0) + walked[i - i0].1.difficulty);
                assert(sums@ =~= td_entries(walked, td0).take((i - i0) + 1));
                assert forall|p: int| 0 <= p <= (i - i0) + 1 implies td0 + #[trigger] dsum(
                    walked,
                    p,
                ) <= u128::MAX by {
                    if p == (i - i0) + 1 {
                        assert(td0 + dsum(walked, p) == acc);
                    }
                }
            }
            i = i + 1;
        }

        proof {
            lemma_first_td_overflow(walked, td0 as int);
            let fo = first_td_overflow(walked, td0 as int);
            if fo < walked.len() {
                assert(td0 + dsum(walked, fo + 1) <= u128::MAX);
                assert(td0 + dsum(walked, fo + 1) > u128::MAX);
            }
            assert(sums@ == td_entries(walked, td0).take(walked.len() as int));
            assert(td_entries(walked, td0).take(walked.len() as int) =~= td_entries(walked, td0));
        }

        // Second pass: append the totals in ascending key order.
        let ghost td_table0 = tx.header_td@;
        let mut j: usize = 0;
        while j < sums.len()
            invariant
                j <= sums@.len(),
                sums@ == td_entries(walked, td0),
                sums@.len() == walked.len(),
                tx.wf(),
                tx.canonical_headers@ == old(tx).canonical_headers@,
                tx.header_numbers@ == old(tx).header_numbers@,
                tx.headers@ == old(tx).headers@,
                tx.block_bodies@ == old(tx).block_bodies@,
                tx.transactions@ == old(tx).transactions@,
                tx.tx_senders@ == old(tx).tx_senders@,
                tx.commits == old(tx).commits,
                tx.header_td@ == td_table0 + td_entries(walked, td0).take(j as int),
                j > 0 ==> tx.header_td@.len() > 0 && tx.header_td@[tx.header_td@.len() - 1].0
                    == walked[j - 1].0,
                j > 0 ==> !(walked.len() > 0 && td_table0.len() > 0 && !crate::kv_numhash::bnh_lt(
                    td_table0.last().0,
                    walked[0].0,
                )),
                j == 0 ==> tx.header_td@ == td_table0,
            decreases sums@.len() - j,
        {
            let (key, val) = sums[j];
            proof {
                assert(sums@[j as int] == (walked[j as int].0, (td0 + dsum(walked, j + 1)) as u128));
            }
            match tx.header_td.append(key, val) {
                Ok(_) => {
                    proof {
                        assert(tx.header_td@ =~= td_table0 + td_entries(walked, td0).take(j + 1));
                    }
                },
                Err(e) => {
                    proof {
                        assert(j == 0) by {
                            if j > 0 {
                                assert(crate::kv_numhash::bnh_lt(walked[j - 1].0, walked[j as int].0));
                                assert(false);
                            }
                        }
                        assert(walked.len() > 0 && td_table0.len() > 0
                            && !crate::kv_numhash::bnh_lt(td_table0.last().0, walked[0].0));
                    }
                    return Err(StageError::Database(e));
                },
            }
            j = j + 1;
        }
        proof {
            if sums.len() == 0 {
                assert(td_entries(walked, td0).take(0) =~= Seq::<(BlockNumHash, u128)>::empty());
                assert(tx.header_td@ =~= td_table0 + td_entries(walked, td0));
            } else {
                assert(td_entries(walked, td0).take(sums@.len() as int) =~= td_entries(
                    walked,
                    td0,
                ));
            }
        }
        Ok(())
    }

    /// Perform basic response validation: every adjacent pair of the
    /// descending chunk must link child to parent.
    pub fn validate_header_response(&self, headers: &Vec<SealedHeader>) -> (r: Result<
        (),
        StageError,
    >)
        ensures
            r is Ok <==> desc_chain(headers@),
            r is Err ==> r == Err::<(), StageError>(
                StageError::Download { hash: headers@[first_broken(headers@)].hash },
            ),
    {
        if headers.len() == 0 {
            return Ok(());
        }
        let mut i: usize = 0;
        while i < headers.len() - 1
            invariant
                headers@.len() >= 1,
                i <= headers@.len() - 1,
                forall|p: int| 0 <= p < i ==> #[trigger] linked_pair(headers@[p], headers@[p + 1]),
            decreases headers@.len() - i,
        {
            let child = headers[i];
            let parent = headers[i + 1];
            let links = child.header.parent_hash == parent.hash && parent.header.number < u64::MAX
                && child.header.number == parent.header.number + 1;
            if !links {
                proof {
                    lemma_first_broken(headers@);
                    let fb = first_broken(headers@);
                    assert(!linked_pair(headers@[i as int], headers@[i + 1]));
                    if fb < i {
                        assert(linked_pair(headers@[fb], headers@[fb + 1]));
                    }
                    if fb > i {
                        assert(linked_pair(headers@[i as int], headers@[i + 1]));
                    }
                    assert(fb == i);
                }
                return Err(StageError::Download { hash: child.hash });
            }
            i = i + 1;
        }
        Ok(())
    }
}

} // verus!
