//! The library-wide laws: properties that relate several operations, each
//! stated over the spec functions the operations' own contracts use.

use vstd::prelude::*;
use crate::db::Tx;
use crate::error::DownloadError;
use crate::headers::{
    canon_lookup, chunk_good, chunk_len, chunks_result, chunks_written, desc_chain, dsum,
    good_chunks, hdr_lookup, hn_lookup, latest_written, linked_pair, oks, progress_after,
};
use crate::kv::{seq_get, seq_has_key, seq_sorted};
use crate::kv_numhash::BlockNumHash;
use crate::primitives::{SealedHeader, TransactionSigned};
use crate::senders::{senders_of, tx_range};

verus! {

/// No entry of `s` lies in `[lo, hi)`, so the walk over that range is
/// empty.
proof fn lemma_tx_range_empty(s: Seq<(u64, TransactionSigned)>, lo: u64, hi: int)
    requires
        forall|j: int| 0 <= j < s.len() ==> !(lo <= (#[trigger] s[j]).0 < hi),
    ensures
        tx_range(s, lo, hi) == Seq::<(u64, TransactionSigned)>::empty(),
    decreases s.len(),
{
    reveal(Seq::filter);
    if s.len() == 0 {
        assert(tx_range(s, lo, hi) =~= Seq::<(u64, TransactionSigned)>::empty());
    } else {
        let pre = s.drop_last();
        lemma_tx_range_empty(pre, lo, hi);
        assert(!(lo <= s.last().0 < hi));
        assert(tx_range(s, lo, hi) =~= tx_range(pre, lo, hi));
    }
}

/// Splitting a sorted transaction walk at an intermediate index splits
/// its entries in order: re-entering the senders stage at a commit
/// boundary walks exactly the remainder, so an interrupted run appends
/// the same rows, in the same order, as an uninterrupted one.
pub proof fn lemma_senders_reentry(s: Seq<(u64, TransactionSigned)>, lo: u64, mid: u64, hi: int)
    requires
        seq_sorted(s),
        lo <= mid <= hi,
    ensures
        tx_range(s, lo, hi) == tx_range(s, lo, mid as int) + tx_range(s, mid, hi),
        senders_of(tx_range(s, lo, hi)) == senders_of(tx_range(s, lo, mid as int)) + senders_of(
            tx_range(s, mid, hi),
        ),
    decreases s.len(),
{
    reveal(Seq::filter);
    if s.len() == 0 {
        assert(tx_range(s, lo, hi) =~= Seq::<(u64, TransactionSigned)>::empty());
        assert(tx_range(s, lo, mid as int) =~= Seq::<(u64, TransactionSigned)>::empty());
        assert(tx_range(s, mid, hi) =~= Seq::<(u64, TransactionSigned)>::empty());
        assert(tx_range(s, lo, hi) =~= tx_range(s, lo, mid as int) + tx_range(s, mid, hi));
    } else {
        let pre = s.drop_last();
        let e = s.last();
        assert(seq_sorted(pre));
        lemma_senders_reentry(pre, lo, mid, hi);
        if lo <= e.0 && e.0 < hi {
            if e.0 < mid {
                // The last entry has the greatest index, so nothing at
                // all sits in the upper half.
                assert forall|j: int| 0 <= j < s.len() implies !(mid <= (#[trigger] s[j]).0 < hi) by {
                    if j < s.len() - 1 {
                        assert(s[j].0 < e.0);
                    }
                }
                lemma_tx_range_empty(s, mid, hi);
                lemma_tx_range_empty(pre, mid, hi);
                assert(tx_range(s, lo, mid as int) =~= tx_range(pre, lo, mid as int).push(e));
                assert(tx_range(s, lo, hi) =~= tx_range(pre, lo, hi).push(e));
                assert(tx_range(s, lo, hi) =~= tx_range(s, lo, mid as int) + tx_range(s, mid, hi));
            } else {
                assert(tx_range(s, lo, mid as int) =~= tx_range(pre, lo, mid as int));
                assert(tx_range(s, mid, hi) =~= tx_range(pre, mid, hi).push(e));
                assert(tx_range(s, lo, hi) =~= tx_range(pre, lo, hi).push(e));
                assert(tx_range(s, lo, hi) =~= tx_range(s, lo, mid as int) + tx_range(s, mid, hi));
            }
        } else {
            assert(tx_range(s, lo, mid as int) =~= tx_range(pre, lo, mid as int));
            assert(tx_range(s, mid, hi) =~= tx_range(pre, mid, hi));
            assert(tx_range(s, lo, hi) =~= tx_range(pre, lo, hi));
        }
        let a = tx_range(s, lo, mid as int);
        let b = tx_range(s, mid, hi);
        assert(senders_of(a + b) =~= senders_of(a) + senders_of(b));
    }
}

/// A key is in a concatenation exactly when it is in one of the halves.
proof fn lemma_has_key_concat(a: Seq<(u64, u64)>, b: Seq<(u64, u64)>, k: u64)
    ensures
        seq_has_key(a + b, k) <==> (seq_has_key(a, k) || seq_has_key(b, k)),
{
    if seq_has_key(a, k) {
        let i = choose|i: int| 0 <= i < a.len() && (#[trigger] a[i]).0 == k;
        assert((a + b)[i] == a[i]);
        assert(seq_has_key(a + b, k));
    }
    if seq_has_key(b, k) {
        let i = choose|i: int| 0 <= i < b.len() && (#[trigger] b[i]).0 == k;
        assert((a + b)[a.len() + i] == b[i]);
        assert(seq_has_key(a + b, k));
    }
    if seq_has_key(a + b, k) {
        let i = choose|i: int| 0 <= i < (a + b).len() && (#[trigger] (a + b)[i]).0 == k;
        if i < a.len() {
            assert(a[i] == (a + b)[i]);
            assert(seq_has_key(a, k));
        } else {
            assert(b[i - a.len()] == (a + b)[i]);
            assert(seq_has_key(b, k));
        }
    }
}

/// Shape of a walk over a sorted log: the entries stay sorted, their
/// indices lie in the range, they come from the log, and none exceeds the
/// log's last index.
proof fn lemma_tx_range_shape(s: Seq<(u64, TransactionSigned)>, lo: u64, hi: int)
    requires
        seq_sorted(s),
    ensures
        seq_sorted(tx_range(s, lo, hi)),
        forall|j: int|
            0 <= j < tx_range(s, lo, hi).len() ==> lo <= (#[trigger] tx_range(s, lo, hi)[j]).0
                < hi,
        forall|j: int|
            0 <= j < tx_range(s, lo, hi).len() ==> seq_has_key(
                s,
                (#[trigger] tx_range(s, lo, hi)[j]).0,
            ),
        forall|j: int|
            0 <= j < tx_range(s, lo, hi).len() && s.len() > 0 ==> (#[trigger] tx_range(
                s,
                lo,
                hi,
            )[j]).0 <= s.last().0,
    decreases s.len(),
{
    reveal(Seq::filter);
    if s.len() == 0 {
        assert(tx_range(s, lo, hi) =~= Seq::<(u64, TransactionSigned)>::empty());
    } else {
        let pre = s.drop_last();
        let e = s.last();
        assert(seq_sorted(pre));
        lemma_tx_range_shape(pre, lo, hi);
        let f = tx_range(s, lo, hi);
        let fp = tx_range(pre, lo, hi);
        if lo <= e.0 && e.0 < hi {
            assert(f =~= fp.push(e));
            assert forall|j: int| 0 <= j < fp.len() implies (#[trigger] fp[j]).0 < e.0 by {
                assert(pre.len() > 0);
                assert(fp[j].0 <= pre.last().0);
                assert(pre.last().0 == s[s.len() - 2].0);
                assert(s[s.len() - 2].0 < e.0);
            }
            assert forall|j: int| 0 <= j < f.len() implies seq_has_key(s, (#[trigger] f[j]).0) by {
                if j < fp.len() {
                    let w = choose|w: int| 0 <= w < pre.len() && (#[trigger] pre[w]).0 == fp[j].0;
                    assert(s[w] == pre[w]);
                } else {
                    assert(s[s.len() - 1].0 == e.0);
                }
            }
        } else {
            assert(f =~= fp);
            assert forall|j: int| 0 <= j < f.len() implies seq_has_key(s, (#[trigger] f[j]).0) by {
                let w = choose|w: int| 0 <= w < pre.len() && (#[trigger] pre[w]).0 == fp[j].0;
                assert(s[w] == pre[w]);
            }
            assert forall|j: int| 0 <= j < f.len() && s.len() > 0 implies (#[trigger] f[j]).0
                <= s.last().0 by {
                if pre.len() > 0 {
                    assert(f[j].0 <= pre.last().0);
                    assert(pre.last().0 == s[s.len() - 2].0);
                    assert(s[s.len() - 2].0 < e.0);
                }
            }
        }
    }
}

/// A walk over a sorted gap-free log contains every index of its range.
proof fn lemma_tx_range_complete(s: Seq<(u64, TransactionSigned)>, lo: u64, hi: int, k: u64)
    requires
        seq_sorted(s),
        lo <= k < hi,
        seq_has_key(s, k),
    ensures
        exists|j: int|
            0 <= j < tx_range(s, lo, hi).len() && (#[trigger] tx_range(s, lo, hi)[j]).0 == k
                && tx_range(s, lo, hi)[j] == s[choose|i: int|
                0 <= i < s.len() && (#[trigger] s[i]).0 == k],
    decreases s.len(),
{
    reveal(Seq::filter);
    let i = choose|i: int| 0 <= i < s.len() && (#[trigger] s[i]).0 == k;
    let pre = s.drop_last();
    let e = s.last();
    let f = tx_range(s, lo, hi);
    let fp = tx_range(pre, lo, hi);
    if i == s.len() - 1 {
        assert(lo <= e.0 < hi);
        assert(f =~= fp.push(e));
        assert(f[f.len() - 1] == e);
        assert(e == s[i]);
    } else {
        assert(pre[i] == s[i]);
        assert(seq_has_key(pre, k));
        assert(seq_sorted(pre));
        lemma_tx_range_complete(pre, lo, hi, k);
        let ip = choose|w: int| 0 <= w < pre.len() && (#[trigger] pre[w]).0 == k;
        assert(pre[ip].0 == k && pre[ip] == s[i]) by {
            crate::kv::lemma_seq_get_unique(pre, k, i, pre[i].1);
            if ip < i {
                assert(pre[ip].0 < pre[i].0);
            } else if ip > i {
                assert(pre[i].0 < pre[ip].0);
            }
        }
        let j = choose|j: int| 0 <= j < fp.len() && (#[trigger] fp[j]).0 == k && fp[j] == pre[ip];
        if lo <= e.0 && e.0 < hi {
            assert(f =~= fp.push(e));
            assert(f[j] == fp[j]);
        } else {
            assert(f =~= fp);
        }
    }
}

/// Senders completeness: when the senders table binds exactly the indices
/// below `start` and the transaction log is gap-free over `[start, end)`,
/// a completed run leaves the table binding exactly the indices below
/// `end`, each to its transaction's recovered signer.
pub proof fn lemma_senders_completeness(
    pre_senders: Seq<(u64, u64)>,
    txs: Seq<(u64, TransactionSigned)>,
    start: u64,
    end: int,
)
    requires
        seq_sorted(pre_senders),
        seq_sorted(txs),
        forall|k: u64| #[trigger] seq_has_key(pre_senders, k) <==> k < start,
        forall|k: u64| start <= k < end ==> #[trigger] seq_has_key(txs, k),
        start <= end,
    ensures
        forall|k: u64|
            #[trigger] seq_has_key(pre_senders + senders_of(tx_range(txs, start, end)), k) <==> k
                < end,
        forall|k: u64|
            start <= k < end ==> #[trigger] seq_get(
                pre_senders + senders_of(tx_range(txs, start, end)),
                k,
            ) == Some(seq_get(txs, k)->Some_0.signer),
        forall|k: u64|
            k < start ==> #[trigger] seq_get(
                pre_senders + senders_of(tx_range(txs, start, end)),
                k,
            ) == seq_get(pre_senders, k),
{
    let walked = tx_range(txs, start, end);
    let appended = senders_of(walked);
    let post = pre_senders + appended;
    lemma_tx_range_shape(txs, start, end);
    // The appended rows carry the walked indices.
    assert forall|k: u64| #[trigger] seq_has_key(appended, k) implies seq_has_key(walked, k) by {
        let j = choose|j: int| 0 <= j < appended.len() && (#[trigger] appended[j]).0 == k;
        assert(walked[j].0 == k);
    }
    assert forall|k: u64| #[trigger] seq_has_key(walked, k) implies seq_has_key(appended, k) by {
        let j = choose|j: int| 0 <= j < walked.len() && (#[trigger] walked[j]).0 == k;
        assert(appended[j].0 == k);
    }
    // The combined table is sorted: old rows sit strictly below `start`.
    assert forall|p: int, q: int|
        0 <= p < q < post.len() implies (#[trigger] post[p]).0 < (#[trigger] post[q]).0 by {
        if q < pre_senders.len() {
            assert(post[p] == pre_senders[p] && post[q] == pre_senders[q]);
        } else if p >= pre_senders.len() {
            let p0 = p - pre_senders.len();
            let q0 = q - pre_senders.len();
            assert(post[p] == appended[p0] && post[q] == appended[q0]);
            assert(appended[p0] == (walked[p0].0, walked[p0].1.signer));
            assert(appended[q0] == (walked[q0].0, walked[q0].1.signer));
            assert(walked[p0].0 < walked[q0].0);
        } else {
            let q0 = q - pre_senders.len();
            assert(post[p] == pre_senders[p]);
            assert(post[q] == appended[q0]);
            assert(appended[q0] == (walked[q0].0, walked[q0].1.signer));
            crate::kv::lemma_seq_get_unique(pre_senders, pre_senders[p].0, p, pre_senders[p].1);
            assert(seq_has_key(pre_senders, pre_senders[p].0));
            assert(pre_senders[p].0 < start);
            assert(walked[q0].0 >= start);
        }
    }
    assert forall|k: u64| #[trigger] seq_has_key(post, k) implies k < end by {
        lemma_has_key_concat(pre_senders, appended, k);
        if seq_has_key(appended, k) {
            let j = choose|j: int| 0 <= j < walked.len() && (#[trigger] walked[j]).0 == k;
        }
    }
    assert forall|k: u64| k < end implies #[trigger] seq_has_key(post, k) by {
        lemma_has_key_concat(pre_senders, appended, k);
        if k >= start {
            lemma_tx_range_complete(txs, start, end, k);
            let j = choose|j: int|
                0 <= j < walked.len() && (#[trigger] walked[j]).0 == k && walked[j] == txs[choose|
                    i: int,
                |
                    0 <= i < txs.len() && (#[trigger] txs[i]).0 == k];
            assert(appended[j].0 == k);
            assert(seq_has_key(appended, k));
        }
    }
    assert forall|k: u64| start <= k < end implies #[trigger] seq_get(post, k) == Some(
        seq_get(txs, k)->Some_0.signer,
    ) by {
        lemma_tx_range_complete(txs, start, end, k);
        let i = choose|i: int| 0 <= i < txs.len() && (#[trigger] txs[i]).0 == k;
        crate::kv::lemma_seq_get_unique(txs, k, i, txs[i].1);
        let j = choose|j: int|
            0 <= j < walked.len() && (#[trigger] walked[j]).0 == k && walked[j] == txs[i];
        assert(appended[j] == (k, txs[i].1.signer));
        assert(post[pre_senders.len() + j] == appended[j]);
        crate::kv::lemma_seq_get_unique(post, k, pre_senders.len() + j, txs[i].1.signer);
    }
    assert forall|k: u64| k < start implies #[trigger] seq_get(post, k) == seq_get(
        pre_senders,
        k,
    ) by {
        if seq_has_key(pre_senders, k) {
            let i = choose|i: int| 0 <= i < pre_senders.len() && (#[trigger] pre_senders[i]).0 == k;
            assert(post[i] == pre_senders[i]);
            crate::kv::lemma_seq_get_unique(pre_senders, k, i, pre_senders[i].1);
            crate::kv::lemma_seq_get_unique(post, k, i, pre_senders[i].1);
        } else {
            lemma_has_key_concat(pre_senders, appended, k);
            if seq_has_key(appended, k) {
                let j = choose|j: int| 0 <= j < walked.len() && (#[trigger] walked[j]).0 == k;
                assert(false);
            }
        }
    }
}

/// The mutual-consistency invariant of the four header tables: every
/// canonical binding has exactly one matching header entry and reverse
/// lookup, and wherever a canonical header's total difficulty is
/// recorded, it is its parent's total plus its own difficulty.
pub open spec fn header_tables_consistent(tx: &Tx) -> bool {
    &&& forall|n: u64|
        #[trigger] tx.canonical_headers.get_spec(n) is Some ==> {
            let h = tx.canonical_headers.get_spec(n)->Some_0;
            &&& tx.headers.get_spec(BlockNumHash { number: n, hash: h }) is Some
            &&& tx.header_numbers.get_spec(h) == Some(n)
        }
    &&& forall|n: u64|
        n >= 1 && #[trigger] tx.canonical_headers.get_spec(n) is Some ==> {
            let h = tx.canonical_headers.get_spec(n)->Some_0;
            let key = BlockNumHash { number: n, hash: h };
            tx.header_td.get_spec(key) is Some ==> {
                let hdr = tx.headers.get_spec(key);
                &&& hdr is Some
                &&& {
                    let parent_key = BlockNumHash {
                        number: (n - 1) as u64,
                        hash: hdr->Some_0.parent_hash,
                    };
                    &&& tx.header_td.get_spec(parent_key) is Some
                    &&& tx.header_td.get_spec(key)->Some_0 == tx.header_td.get_spec(
                        parent_key,
                    )->Some_0 + hdr->Some_0.difficulty
                }
            }
        }
}

/// A linked descending chain has strictly descending block numbers:
/// every chunk the stage accepts therefore satisfies the distinctness
/// the consistency laws ask of a written batch.
pub proof fn lemma_desc_chain_numbers(hs: Seq<SealedHeader>, i: int, j: int)
    requires
        desc_chain(hs),
        0 <= i <= j < hs.len(),
    ensures
        hs[i].header.number == hs[j].header.number + (j - i),
    decreases j - i,
{
    if i < j {
        assert(linked_pair(hs[i], hs[i + 1]));
        lemma_desc_chain_numbers(hs, i + 1, j);
    }
}

/// With numbers distinct across the pass, the headers binding of a
/// written non-genesis composite key is that entry's header.
proof fn lemma_hdr_lookup_hit(
    hs: Seq<SealedHeader>,
    prior: Option<crate::primitives::Header>,
    i: int,
)
    requires
        0 <= i < hs.len(),
        hs[i].header.number != 0,
        forall|p: int, q: int|
            0 <= p < q < hs.len() ==> (#[trigger] hs[p]).header.number
                != (#[trigger] hs[q]).header.number,
    ensures
        hdr_lookup(
            hs,
            prior,
            BlockNumHash { number: hs[i].header.number, hash: hs[i].hash },
        ) == Some(hs[i].header),
    decreases hs.len(),
{
    let k = BlockNumHash { number: hs[i].header.number, hash: hs[i].hash };
    if hs[0].header.number == k.number {
        assert(i == 0) by {
            if i > 0 {
                assert(hs[0].header.number != hs[i].header.number);
            }
        }
    } else {
        assert(i > 0);
        let t = hs.drop_first();
        assert forall|p: int, q: int|
            0 <= p < q < t.len() implies (#[trigger] t[p]).header.number
            != (#[trigger] t[q]).header.number by {
            assert(t[p] == hs[p + 1] && t[q] == hs[q + 1]);
        }
        assert(t[i - 1] == hs[i]);
        lemma_hdr_lookup_hit(t, prior, i - 1);
    }
}

/// A fresh, distinct batch written above the stage's progress
/// re-establishes the mutual consistency of the canonical index, the
/// headers table and the reverse lookup, and leaves the total-difficulty
/// clause intact.
pub proof fn lemma_write_establishes_consistency(
    pre: &Tx,
    mid: &Tx,
    written: Seq<SealedHeader>,
    sp: u64,
)
    requires
        pre.wf(),
        mid.wf(),
        header_tables_consistent(pre),
        forall|h: u64|
            #[trigger] mid.header_numbers.get_spec(h) == hn_lookup(
                written,
                pre.header_numbers.get_spec(h),
                h,
            ),
        forall|n: u64|
            #[trigger] mid.canonical_headers.get_spec(n) == canon_lookup(
                written,
                pre.canonical_headers.get_spec(n),
                n,
            ),
        forall|k: BlockNumHash|
            #[trigger] mid.headers.get_spec(k) == hdr_lookup(written, pre.headers.get_spec(k), k),
        forall|k: BlockNumHash|
            #[trigger] mid.header_td.get_spec(k) == pre.header_td.get_spec(k),
        forall|i: int| 0 <= i < written.len() ==> (#[trigger] written[i]).header.number > sp,
        forall|i: int, j: int|
            0 <= i < j < written.len() ==> (#[trigger] written[i]).header.number
                != (#[trigger] written[j]).header.number,
        forall|i: int, j: int|
            0 <= i < j < written.len() ==> (#[trigger] written[i]).hash
                != (#[trigger] written[j]).hash,
        forall|i: int|
            0 <= i < written.len() ==> #[trigger] pre.header_numbers.get_spec(
                written[i].hash,
            ) is None,
        forall|n: u64| n > sp ==> #[trigger] pre.canonical_headers.get_spec(n) is None,
        forall|k: BlockNumHash| k.number > sp ==> #[trigger] pre.header_td.get_spec(k) is None,
    ensures
        header_tables_consistent(mid),
{
    assert forall|n: u64| #[trigger] mid.canonical_headers.get_spec(n) is Some implies {
        let h = mid.canonical_headers.get_spec(n)->Some_0;
        &&& mid.headers.get_spec(BlockNumHash { number: n, hash: h }) is Some
        &&& mid.header_numbers.get_spec(h) == Some(n)
    } by {
        let h = mid.canonical_headers.get_spec(n)->Some_0;
        lemma_canon_lookup_cases(written, pre.canonical_headers.get_spec(n), n);
        if mid.canonical_headers.get_spec(n) == pre.canonical_headers.get_spec(n) {
            // An untouched binding: the batch stays above the progress.
            assert(pre.canonical_headers.get_spec(n) == Some(h));
            assert(n <= sp);
            assert forall|i: int| 0 <= i < written.len() implies (#[trigger] written[i]).header.number
                != n by {}
            lemma_hdr_lookup_miss(
                written,
                pre.headers.get_spec(BlockNumHash { number: n, hash: h }),
                BlockNumHash { number: n, hash: h },
            );
            assert(pre.headers.get_spec(BlockNumHash { number: n, hash: h }) is Some);
            assert(pre.header_numbers.get_spec(h) == Some(n));
            assert forall|i: int| 0 <= i < written.len() implies (#[trigger] written[i]).hash
                != h by {
                if written[i].hash == h {
                    assert(pre.header_numbers.get_spec(written[i].hash) is None);
                }
            }
            lemma_hn_lookup_miss(written, pre.header_numbers.get_spec(h), h);
        } else {
            // A binding of the batch.
            let i = choose|i: int|
                0 <= i < written.len() && (#[trigger] written[i]).header.number == n
                    && written[i].header.number != 0 && canon_lookup(
                    written,
                    pre.canonical_headers.get_spec(n),
                    n,
                ) == Some(written[i].hash);
            assert(h == written[i].hash);
            lemma_hdr_lookup_hit(
                written,
                pre.headers.get_spec(BlockNumHash { number: n, hash: h }),
                i,
            );
            assert(mid.headers.get_spec(BlockNumHash { number: n, hash: h }) == Some(
                written[i].header,
            ));
            assert forall|p: int| 0 <= p < written.len() implies (#[trigger] written[p]).header.number
                != 0 by {}
            lemma_hn_lookup_hit(written, pre.header_numbers.get_spec(h), i);
            assert(mid.header_numbers.get_spec(h) == Some(n));
        }
    }
    assert forall|n: u64|
        n >= 1 && #[trigger] mid.canonical_headers.get_spec(n) is Some implies {
        let h = mid.canonical_headers.get_spec(n)->Some_0;
        let key = BlockNumHash { number: n, hash: h };
        mid.header_td.get_spec(key) is Some ==> {
            let hdr = mid.headers.get_spec(key);
            &&& hdr is Some
            &&& {
                let parent_key = BlockNumHash {
                    number: (n - 1) as u64,
                    hash: hdr->Some_0.parent_hash,
                };
                &&& mid.header_td.get_spec(parent_key) is Some
                &&& mid.header_td.get_spec(key)->Some_0 == mid.header_td.get_spec(
                    parent_key,
                )->Some_0 + hdr->Some_0.difficulty
            }
        }
    } by {
        let h = mid.canonical_headers.get_spec(n)->Some_0;
        let key = BlockNumHash { number: n, hash: h };
        if mid.header_td.get_spec(key) is Some {
            assert(pre.header_td.get_spec(key) is Some);
            assert(key.number <= sp);
            lemma_canon_lookup_cases(written, pre.canonical_headers.get_spec(n), n);
            if mid.canonical_headers.get_spec(n) != pre.canonical_headers.get_spec(n) {
                let i = choose|i: int|
                    0 <= i < written.len() && (#[trigger] written[i]).header.number == n
                        && written[i].header.number != 0 && canon_lookup(
                        written,
                        pre.canonical_headers.get_spec(n),
                        n,
                    ) == Some(written[i].hash);
                assert(written[i].header.number > sp);
                assert(false);
            }
            assert(pre.canonical_headers.get_spec(n) == Some(h));
            assert forall|i: int| 0 <= i < written.len() implies (#[trigger] written[i]).header.number
                != n by {}
            lemma_hdr_lookup_miss(written, pre.headers.get_spec(key), key);
            assert(mid.headers.get_spec(key) == pre.headers.get_spec(key));
        }
    }
}

/// Accumulated difficulty is never negative.
proof fn lemma_dsum_nonneg(walked: Seq<(BlockNumHash, crate::primitives::Header)>, i: int)
    ensures
        dsum(walked, i) >= 0,
    decreases i,
{
    if i > 0 {
        lemma_dsum_nonneg(walked, i - 1);
    }
}

/// Point lookups on a sorted concatenation fall through to the half that
/// holds the key.
proof fn lemma_bnh_get_concat<V>(
    a: Seq<(BlockNumHash, V)>,
    b: Seq<(BlockNumHash, V)>,
    k: BlockNumHash,
)
    requires
        crate::kv_numhash::bnh_sorted(a + b),
    ensures
        crate::kv_numhash::bnh_has_key(a, k) ==> crate::kv_numhash::bnh_get(a + b, k)
            == crate::kv_numhash::bnh_get(a, k),
        crate::kv_numhash::bnh_has_key(b, k) ==> crate::kv_numhash::bnh_get(a + b, k)
            == crate::kv_numhash::bnh_get(b, k),
        !crate::kv_numhash::bnh_has_key(a, k) && !crate::kv_numhash::bnh_has_key(b, k)
            ==> crate::kv_numhash::bnh_get(a + b, k) is None,
{
    assert forall|p: int, q: int|
        0 <= p < q < a.len() implies crate::kv_numhash::bnh_lt(
        (#[trigger] a[p]).0,
        (#[trigger] a[q]).0,
    ) by {
        assert((a + b)[p] == a[p] && (a + b)[q] == a[q]);
    }
    assert forall|p: int, q: int|
        0 <= p < q < b.len() implies crate::kv_numhash::bnh_lt(
        (#[trigger] b[p]).0,
        (#[trigger] b[q]).0,
    ) by {
        assert((a + b)[a.len() + p] == b[p] && (a + b)[a.len() + q] == b[q]);
    }
    if crate::kv_numhash::bnh_has_key(a, k) {
        let w = choose|w: int| 0 <= w < a.len() && (#[trigger] a[w]).0 == k;
        assert((a + b)[w] == a[w]);
        crate::kv_numhash::lemma_bnh_get_unique(a + b, k, w, a[w].1);
        crate::kv_numhash::lemma_bnh_get_unique(a, k, w, a[w].1);
    }
    if crate::kv_numhash::bnh_has_key(b, k) {
        let w = choose|w: int| 0 <= w < b.len() && (#[trigger] b[w]).0 == k;
        assert((a + b)[a.len() + w] == b[w]);
        crate::kv_numhash::lemma_bnh_get_unique(a + b, k, a.len() + w, b[w].1);
        crate::kv_numhash::lemma_bnh_get_unique(b, k, w, b[w].1);
    }
    if !crate::kv_numhash::bnh_has_key(a, k) && !crate::kv_numhash::bnh_has_key(b, k) {
        if crate::kv_numhash::bnh_has_key(a + b, k) {
            let w = choose|w: int| 0 <= w < (a + b).len() && (#[trigger] (a + b)[w]).0 == k;
            if w < a.len() {
                assert(a[w] == (a + b)[w]);
            } else {
                assert(b[w - a.len()] == (a + b)[w]);
            }
            assert(false);
        }
    }
}

/// The total-difficulty pass re-establishes full consistency: appending
/// the accumulated totals for the canonical chain written above the head
/// satisfies the difficulty recurrence at every new entry.
pub proof fn lemma_td_pass_establishes_consistency(
    mid: &Tx,
    post: &Tx,
    walked: Seq<(BlockNumHash, crate::primitives::Header)>,
    td0: u128,
    sp: u64,
    head_hash: u64,
)
    requires
        mid.wf(),
        post.wf(),
        header_tables_consistent(mid),
        // the pass changes only the total-difficulty table
        post.canonical_headers@ == mid.canonical_headers@,
        post.header_numbers@ == mid.header_numbers@,
        post.headers@ == mid.headers@,
        post.header_td@ == mid.header_td@ + crate::headers::td_entries(walked, td0),
        // nothing stood above the head in the td table, and the head's
        // total is recorded
        forall|k: BlockNumHash| k.number > sp ==> #[trigger] mid.header_td.get_spec(k) is None,
        mid.header_td.get_spec(BlockNumHash { number: sp, hash: head_hash }) == Some(td0),
        // the walked entries are the canonical chain right above the head
        walked.len() > 0 ==> walked[0].0.number == sp + 1 && walked[0].1.parent_hash == head_hash,
        forall|i: int| 0 <= i < walked.len() ==> (#[trigger] walked[i]).0.number == sp + 1 + i,
        forall|i: int|
            1 <= i < walked.len() ==> (#[trigger] walked[i]).1.parent_hash == walked[i - 1].0.hash,
        forall|i: int|
            0 <= i < walked.len() ==> #[trigger] mid.canonical_headers.get_spec(
                walked[i].0.number,
            ) == Some(walked[i].0.hash),
        forall|i: int|
            0 <= i < walked.len() ==> #[trigger] mid.headers.get_spec(walked[i].0) == Some(
                walked[i].1,
            ),
        // every accumulated total fits its representation
        forall|i: int| 0 <= i <= walked.len() ==> td0 + #[trigger] dsum(walked, i) <= u128::MAX,
    ensures
        header_tables_consistent(post),
{
    let entries = crate::headers::td_entries(walked, td0);
    // The three index tables are untouched, so the index clause carries
    // over.
    assert forall|n: u64| #[trigger] post.canonical_headers.get_spec(n) is Some implies {
        let h = post.canonical_headers.get_spec(n)->Some_0;
        &&& post.headers.get_spec(BlockNumHash { number: n, hash: h }) is Some
        &&& post.header_numbers.get_spec(h) == Some(n)
    } by {
        assert(post.canonical_headers.get_spec(n) == mid.canonical_headers.get_spec(n));
        let h = mid.canonical_headers.get_spec(n)->Some_0;
        assert(mid.headers.get_spec(BlockNumHash { number: n, hash: h }) is Some);
        assert(mid.header_numbers.get_spec(h) == Some(n));
    }
    // The difficulty clause, entry by entry.
    assert forall|n: u64|
        n >= 1 && #[trigger] post.canonical_headers.get_spec(n) is Some implies {
        let h = post.canonical_headers.get_spec(n)->Some_0;
        let key = BlockNumHash { number: n, hash: h };
        post.header_td.get_spec(key) is Some ==> {
            let hdr = post.headers.get_spec(key);
            &&& hdr is Some
            &&& {
                let parent_key = BlockNumHash {
                    number: (n - 1) as u64,
                    hash: hdr->Some_0.parent_hash,
                };
                &&& post.header_td.get_spec(parent_key) is Some
                &&& post.header_td.get_spec(key)->Some_0 == post.header_td.get_spec(
                    parent_key,
                )->Some_0 + hdr->Some_0.difficulty
            }
        }
    } by {
        assert(post.canonical_headers.get_spec(n) == mid.canonical_headers.get_spec(n));
        let h = post.canonical_headers.get_spec(n)->Some_0;
        let key = BlockNumHash { number: n, hash: h };
        if post.header_td.get_spec(key) is Some {
            lemma_bnh_get_concat(mid.header_td@, entries, key);
            if n <= sp {
                // An old entry: consistency of `mid` applies unchanged.
                assert(crate::kv_numhash::bnh_has_key(entries, key)
                    ==> false) by {
                    if crate::kv_numhash::bnh_has_key(entries, key) {
                        let w = choose|w: int|
                            0 <= w < entries.len() && (#[trigger] entries[w]).0 == key;
                        assert(entries[w].0 == walked[w].0);
                        assert(walked[w].0.number == sp + 1 + w);
                    }
                }
                assert(crate::kv_numhash::bnh_has_key(mid.header_td@, key));
                assert(post.header_td.get_spec(key) == mid.header_td.get_spec(key));
                assert(mid.header_td.get_spec(key) is Some);
                assert(mid.canonical_headers.get_spec(n) is Some);
                let hdr = mid.headers.get_spec(key);
                assert(hdr is Some);
                assert(post.headers.get_spec(key) == mid.headers.get_spec(key));
                let parent_key = BlockNumHash {
                    number: (n - 1) as u64,
                    hash: hdr->Some_0.parent_hash,
                };
                assert(mid.header_td.get_spec(parent_key) is Some);
                lemma_bnh_get_concat(mid.header_td@, entries, parent_key);
                crate::kv_numhash::lemma_bnh_get_is_entry(mid.header_td@, parent_key);
                assert(post.header_td.get_spec(parent_key) == mid.header_td.get_spec(parent_key));
                assert(post.header_td.get_spec(key)->Some_0 == post.header_td.get_spec(
                    parent_key,
                )->Some_0 + hdr->Some_0.difficulty);
            } else {
                // A new entry: it is the walked entry at its number.
                assert(!crate::kv_numhash::bnh_has_key(mid.header_td@, key)) by {
                    if crate::kv_numhash::bnh_has_key(mid.header_td@, key) {
                        crate::kv_numhash::lemma_bnh_get_is_entry(mid.header_td@, key);
                    }
                }
                assert(crate::kv_numhash::bnh_has_key(entries, key));
                let i = choose|i: int| 0 <= i < entries.len() && (#[trigger] entries[i]).0 == key;
                assert(entries[i].0 == walked[i].0);
                assert(n == sp + 1 + i);
                assert(mid.canonical_headers.get_spec(walked[i].0.number) == Some(
                    walked[i].0.hash,
                ));
                assert(h == walked[i].0.hash);
                assert(key == walked[i].0);
                // Its binding is the accumulated total.
                assert(crate::kv_numhash::bnh_sorted(post.header_td@));
                assert(post.header_td@[mid.header_td@.len() + i] == entries[i]);
                crate::kv_numhash::lemma_bnh_get_unique(
                    post.header_td@,
                    key,
                    mid.header_td@.len() + i,
                    entries[i].1,
                );
                assert(post.header_td.get_spec(key) == Some(entries[i].1));
                assert(entries[i].1 == (td0 + dsum(walked, i + 1)) as u128);
                let hdr = post.headers.get_spec(key);
                assert(hdr == mid.headers.get_spec(walked[i].0));
                assert(hdr == Some(walked[i].1));
                let parent_key = BlockNumHash {
                    number: (n - 1) as u64,
                    hash: walked[i].1.parent_hash,
                };
                assert(dsum(walked, i + 1) == dsum(walked, i) + walked[i].1.difficulty);
                if i == 0 {
                    assert(parent_key == BlockNumHash { number: sp, hash: head_hash });
                    crate::kv_numhash::lemma_bnh_get_is_entry(mid.header_td@, parent_key);
                    lemma_bnh_get_concat(mid.header_td@, entries, parent_key);
                    assert(post.header_td.get_spec(parent_key) == Some(td0));
                    assert(dsum(walked, 0) == 0);
                    assert(dsum(walked, 1) == dsum(walked, 0) + walked[0].1.difficulty);
                    assert(td0 + dsum(walked, 1) <= u128::MAX);
                    lemma_dsum_nonneg(walked, 1);
                    assert(entries[0].1 == (td0 + dsum(walked, 1)) as u128);
                    assert(post.header_td.get_spec(key)->Some_0 == post.header_td.get_spec(
                        parent_key,
                    )->Some_0 + walked[0].1.difficulty);
                } else {
                    assert(walked[i].1.parent_hash == walked[i - 1].0.hash);
                    assert(walked[i - 1].0.number == sp + i);
                    assert(parent_key == walked[i - 1].0);
                    assert(post.header_td@[mid.header_td@.len() + i - 1] == entries[i - 1]);
                    crate::kv_numhash::lemma_bnh_get_unique(
                        post.header_td@,
                        parent_key,
                        mid.header_td@.len() + i - 1,
                        entries[i - 1].1,
                    );
                    assert(post.header_td.get_spec(parent_key) == Some(entries[i - 1].1));
                    assert(entries[i - 1].1 == (td0 + dsum(walked, i)) as u128);
                    assert(td0 + dsum(walked, i) <= u128::MAX);
                    assert(td0 + dsum(walked, i + 1) <= u128::MAX);
                    lemma_dsum_nonneg(walked, i);
                    lemma_dsum_nonneg(walked, i + 1);
                    assert(post.header_td.get_spec(key)->Some_0 == post.header_td.get_spec(
                        parent_key,
                    )->Some_0 + walked[i].1.difficulty);
                }
            }
        }
    }
}

/// Unwinding the headers stage preserves the mutual consistency of the
/// four header tables.
pub proof fn lemma_unwind_preserves_consistency(mid: &Tx, post: &Tx, u: u64)
    requires
        mid.wf(),
        post.wf(),
        header_tables_consistent(mid),
        forall|n: u64|
            n <= u ==> #[trigger] post.canonical_headers.get_spec(n)
                == mid.canonical_headers.get_spec(n),
        forall|n: u64| n > u ==> #[trigger] post.canonical_headers.get_spec(n) is None,
        forall|k: BlockNumHash|
            k.number <= u ==> #[trigger] post.headers.get_spec(k) == mid.headers.get_spec(k),
        forall|k: BlockNumHash| k.number > u ==> #[trigger] post.headers.get_spec(k) is None,
        forall|k: BlockNumHash|
            k.number <= u ==> #[trigger] post.header_td.get_spec(k) == mid.header_td.get_spec(k),
        forall|k: BlockNumHash| k.number > u ==> #[trigger] post.header_td.get_spec(k) is None,
        forall|h: u64|
            (exists|n: u64|
                n > u && #[trigger] mid.canonical_headers.get_spec(n) == Some(h))
                ==> #[trigger] post.header_numbers.get_spec(h) is None,
        forall|h: u64|
            (forall|n: u64|
                n > u ==> #[trigger] mid.canonical_headers.get_spec(n) != Some(h))
                ==> #[trigger] post.header_numbers.get_spec(h) == mid.header_numbers.get_spec(h),
    ensures
        header_tables_consistent(post),
{
    assert forall|n: u64| #[trigger] post.canonical_headers.get_spec(n) is Some implies {
        let h = post.canonical_headers.get_spec(n)->Some_0;
        &&& post.headers.get_spec(BlockNumHash { number: n, hash: h }) is Some
        &&& post.header_numbers.get_spec(h) == Some(n)
    } by {
        assert(n <= u);
        let h = post.canonical_headers.get_spec(n)->Some_0;
        assert(mid.canonical_headers.get_spec(n) == Some(h));
        assert(mid.headers.get_spec(BlockNumHash { number: n, hash: h }) is Some);
        assert(mid.header_numbers.get_spec(h) == Some(n));
        assert(post.headers.get_spec(BlockNumHash { number: n, hash: h }) is Some);
        // No canonical entry above the cut can carry this hash: the
        // reverse lookup is a function, so the hash names one number.
        assert forall|n2: u64| n2 > u implies #[trigger] mid.canonical_headers.get_spec(n2)
            != Some(h) by {
            if mid.canonical_headers.get_spec(n2) == Some(h) {
                assert(mid.header_numbers.get_spec(h) == Some(n2));
            }
        }
        assert(post.header_numbers.get_spec(h) == mid.header_numbers.get_spec(h));
    }
    assert forall|n: u64|
        n >= 1 && #[trigger] post.canonical_headers.get_spec(n) is Some implies {
        let h = post.canonical_headers.get_spec(n)->Some_0;
        let key = BlockNumHash { number: n, hash: h };
        post.header_td.get_spec(key) is Some ==> {
            let hdr = post.headers.get_spec(key);
            &&& hdr is Some
            &&& {
                let parent_key = BlockNumHash {
                    number: (n - 1) as u64,
                    hash: hdr->Some_0.parent_hash,
                };
                &&& post.header_td.get_spec(parent_key) is Some
                &&& post.header_td.get_spec(key)->Some_0 == post.header_td.get_spec(
                    parent_key,
                )->Some_0 + hdr->Some_0.difficulty
            }
        }
    } by {
        assert(n <= u);
        let h = post.canonical_headers.get_spec(n)->Some_0;
        let key = BlockNumHash { number: n, hash: h };
        assert(mid.canonical_headers.get_spec(n) == Some(h));
        if post.header_td.get_spec(key) is Some {
            assert(post.header_td.get_spec(key) == mid.header_td.get_spec(key));
            assert(post.headers.get_spec(key) == mid.headers.get_spec(key));
            let hdr = mid.headers.get_spec(key);
            let parent_key = BlockNumHash {
                number: (n - 1) as u64,
                hash: hdr->Some_0.parent_hash,
            };
            assert(parent_key.number <= u);
            assert(post.header_td.get_spec(parent_key) == mid.header_td.get_spec(parent_key));
        }
    }
}

/// Re-entry for the headers stage: interrupting the chunk loop at a
/// commit boundary and re-entering with the remaining results writes the
/// same headers, reaches the same progress and stops with the same
/// result as the uninterrupted run.
pub proof fn lemma_headers_reentry(
    a: Seq<Result<SealedHeader, DownloadError>>,
    b: Seq<Result<SealedHeader, DownloadError>>,
    ct: int,
    sp: u64,
    cur: u64,
)
    requires
        ct >= 1,
        a.len() % (ct as nat) == 0,
        chunks_result(a, ct, sp) is None,
    ensures
        chunks_written(a + b, ct) == chunks_written(b, ct) + chunks_written(a, ct),
        chunks_result(a + b, ct, sp) == chunks_result(b, ct, sp),
        progress_after(a + b, ct, cur) == progress_after(b, ct, progress_after(a, ct, cur)),
        good_chunks(a + b, ct) == good_chunks(a, ct) + good_chunks(b, ct),
    decreases a.len(),
{
    if a.len() == 0 {
        assert(a + b =~= b);
        assert(chunks_written(a, ct) =~= Seq::<SealedHeader>::empty());
        assert(chunks_written(b, ct) + chunks_written(a, ct) =~= chunks_written(b, ct));
    } else {
        assert(a.len() >= ct) by (nonlinear_arith)
            requires
                a.len() % (ct as nat) == 0,
                a.len() > 0,
                ct >= 1,
        ;
        let s = a + b;
        let k = chunk_len(s.len() as int, ct);
        let ka = chunk_len(a.len() as int, ct);
        assert(k == ct && ka == ct);
        let c = s.take(ct);
        assert(c =~= a.take(ct));
        // The first run completed, so its first chunk is good.
        assert(chunk_good(c));
        let a2 = a.skip(ct);
        assert(s.skip(ct) =~= a2 + b);
        assert(a2.len() == a.len() - ct);
        assert(a2.len() % (ct as nat) == 0) by (nonlinear_arith)
            requires
                a.len() % (ct as nat) == 0,
                a.len() >= ct,
                ct >= 1,
                a2.len() == a.len() - ct,
        ;
        lemma_headers_reentry(a2, b, ct, sp, progress_after(
            a,
            ct,
            cur,
        ) as u64);
        let wp = latest_written(oks(c));
        let cur2: u64 = if cur >= (if wp is Some { wp->Some_0 } else { 0 }) {
            cur
        } else {
            if wp is Some { wp->Some_0 } else { 0 }
        };
        lemma_headers_reentry(a2, b, ct, sp, cur2);
        assert(chunks_written(s, ct) == chunks_written(a2 + b, ct) + oks(c));
        assert(chunks_written(a, ct) == chunks_written(a2, ct) + oks(c));
        assert(chunks_written(a2 + b, ct) == chunks_written(b, ct) + chunks_written(a2, ct));
        assert((chunks_written(b, ct) + chunks_written(a2, ct)) + oks(c) =~= chunks_written(b, ct)
            + (chunks_written(a2, ct) + oks(c)));
        assert(progress_after(a, ct, cur) == progress_after(a2, ct, cur2));
        assert(progress_after(s, ct, cur) == progress_after(a2 + b, ct, cur2));
    }
}

/// Unwind idempotence for the sender-recovery stage: a run that added
/// rows only at or above `next`, unwound back to just below `next`,
/// leaves the senders table entry for entry as it was, provided it held
/// nothing at or above `next` to begin with.
pub proof fn lemma_senders_unwind_restores(
    pre: Seq<(u64, u64)>,
    mid: Seq<(u64, u64)>,
    post: Seq<(u64, u64)>,
    next: u64,
)
    requires
        seq_sorted(pre),
        seq_sorted(post),
        forall|k: u64| k >= next ==> !#[trigger] seq_has_key(pre, k),
        forall|k: u64| k < next ==> #[trigger] seq_get(mid, k) == seq_get(pre, k),
        forall|k: u64| k < next ==> #[trigger] seq_get(post, k) == seq_get(mid, k),
        forall|k: u64| k >= next ==> #[trigger] seq_get(post, k) is None,
    ensures
        post == pre,
{
    assert forall|k: u64| #[trigger] seq_get(post, k) == seq_get(pre, k) by {
        if k >= next {
            assert(seq_get(pre, k) is None);
        }
    }
    crate::kv::lemma_pointwise_eq(post, pre);
}

/// A write pass that holds no entry with number `n` leaves the canonical
/// binding of `n` alone.
proof fn lemma_canon_lookup_miss(hs: Seq<SealedHeader>, prior: Option<u64>, n: u64)
    requires
        forall|i: int| 0 <= i < hs.len() ==> (#[trigger] hs[i]).header.number != n,
    ensures
        canon_lookup(hs, prior, n) == prior,
    decreases hs.len(),
{
    if hs.len() > 0 {
        assert(hs[0].header.number != n);
        assert forall|i: int| 0 <= i < hs.drop_first().len() implies (#[trigger] hs.drop_first()[i]).header.number
            != n by {
            assert(hs.drop_first()[i] == hs[i + 1]);
        }
        lemma_canon_lookup_miss(hs.drop_first(), prior, n);
    }
}

/// A write pass that holds no entry with hash `h` leaves the reverse
/// binding of `h` alone.
proof fn lemma_hn_lookup_miss(hs: Seq<SealedHeader>, prior: Option<u64>, h: u64)
    requires
        forall|i: int| 0 <= i < hs.len() ==> (#[trigger] hs[i]).hash != h,
    ensures
        hn_lookup(hs, prior, h) == prior,
    decreases hs.len(),
{
    if hs.len() > 0 {
        assert forall|i: int| 0 <= i < hs.drop_first().len() implies (#[trigger] hs.drop_first()[i]).hash
            != h by {
            assert(hs.drop_first()[i] == hs[i + 1]);
        }
        lemma_hn_lookup_miss(hs.drop_first(), prior, h);
    }
}

/// A write pass that holds no entry with the composite key `k` leaves its
/// headers binding alone.
proof fn lemma_hdr_lookup_miss(
    hs: Seq<SealedHeader>,
    prior: Option<crate::primitives::Header>,
    k: BlockNumHash,
)
    requires
        forall|i: int| 0 <= i < hs.len() ==> (#[trigger] hs[i]).header.number != k.number,
    ensures
        hdr_lookup(hs, prior, k) == prior,
    decreases hs.len(),
{
    if hs.len() > 0 {
        assert forall|i: int| 0 <= i < hs.drop_first().len() implies (#[trigger] hs.drop_first()[i]).header.number
            != k.number by {
            assert(hs.drop_first()[i] == hs[i + 1]);
        }
        lemma_hdr_lookup_miss(hs.drop_first(), prior, k);
    }
}

/// With numbers distinct across the pass, the canonical binding of a
/// written non-genesis number is that entry's hash.
proof fn lemma_canon_lookup_hit(hs: Seq<SealedHeader>, prior: Option<u64>, i: int)
    requires
        0 <= i < hs.len(),
        hs[i].header.number != 0,
        forall|p: int, q: int|
            0 <= p < q < hs.len() ==> (#[trigger] hs[p]).header.number != (#[trigger] hs[q]).header.number,
    ensures
        canon_lookup(hs, prior, hs[i].header.number) == Some(hs[i].hash),
    decreases hs.len(),
{
    let n = hs[i].header.number;
    if hs[0].header.number == n {
        assert(i == 0) by {
            if i > 0 {
                assert(hs[0].header.number != hs[i].header.number);
            }
        }
    } else {
        assert(i > 0);
        let t = hs.drop_first();
        assert forall|p: int, q: int|
            0 <= p < q < t.len() implies (#[trigger] t[p]).header.number
            != (#[trigger] t[q]).header.number by {
            assert(t[p] == hs[p + 1] && t[q] == hs[q + 1]);
        }
        assert(t[i - 1] == hs[i]);
        lemma_canon_lookup_hit(t, prior, i - 1);
    }
}

/// With hashes distinct across the pass, the reverse binding of a written
/// non-genesis hash is that entry's number.
proof fn lemma_hn_lookup_hit(hs: Seq<SealedHeader>, prior: Option<u64>, i: int)
    requires
        0 <= i < hs.len(),
        hs[i].header.number != 0,
        forall|p: int, q: int|
            0 <= p < q < hs.len() ==> (#[trigger] hs[p]).hash != (#[trigger] hs[q]).hash,
        forall|p: int| 0 <= p < hs.len() ==> (#[trigger] hs[p]).header.number != 0,
    ensures
        hn_lookup(hs, prior, hs[i].hash) == Some(hs[i].header.number),
    decreases hs.len(),
{
    let h = hs[i].hash;
    if hs[0].hash == h {
        assert(i == 0) by {
            if i > 0 {
                assert(hs[0].hash != hs[i].hash);
            }
        }
    } else {
        assert(i > 0);
        let t = hs.drop_first();
        assert forall|p: int, q: int|
            0 <= p < q < t.len() implies (#[trigger] t[p]).hash != (#[trigger] t[q]).hash by {
            assert(t[p] == hs[p + 1] && t[q] == hs[q + 1]);
        }
        assert forall|p: int| 0 <= p < t.len() implies (#[trigger] t[p]).header.number != 0 by {
            assert(t[p] == hs[p + 1]);
        }
        assert(t[i - 1] == hs[i]);
        lemma_hn_lookup_hit(t, prior, i - 1);
    }
}

/// The canonical binding after a pass is either the prior binding or the
/// hash of some written entry with that number.
proof fn lemma_canon_lookup_cases(hs: Seq<SealedHeader>, prior: Option<u64>, n: u64)
    ensures
        canon_lookup(hs, prior, n) == prior || exists|i: int|
            0 <= i < hs.len() && (#[trigger] hs[i]).header.number == n && hs[i].header.number != 0
                && canon_lookup(hs, prior, n) == Some(hs[i].hash),
    decreases hs.len(),
{
    if hs.len() > 0 {
        if hs[0].header.number == n && hs[0].header.number != 0 {
            assert(canon_lookup(hs, prior, n) == Some(hs[0].hash));
        } else {
            lemma_canon_lookup_cases(hs.drop_first(), prior, n);
            if canon_lookup(hs, prior, n) != prior {
                let t = hs.drop_first();
                let i = choose|i: int|
                    0 <= i < t.len() && (#[trigger] t[i]).header.number == n && t[i].header.number
                        != 0 && canon_lookup(t, prior, n) == Some(t[i].hash);
                assert(hs[i + 1] == t[i]);
            }
        }
    }
}

/// Unwind idempotence for the headers stage: a run that wrote a fresh
/// batch of headers above the stage's progress, unwound back to that
/// progress, restores all four header tables entry for entry — provided
/// nothing stood above the progress before the run.
pub proof fn lemma_headers_unwind_restores(
    pre: &Tx,
    mid: &Tx,
    post: &Tx,
    written: Seq<SealedHeader>,
    sp: u64,
)
    requires
        pre.wf(),
        mid.wf(),
        post.wf(),
        // what the run wrote
        forall|h: u64|
            #[trigger] mid.header_numbers.get_spec(h) == hn_lookup(
                written,
                pre.header_numbers.get_spec(h),
                h,
            ),
        forall|n: u64|
            #[trigger] mid.canonical_headers.get_spec(n) == canon_lookup(
                written,
                pre.canonical_headers.get_spec(n),
                n,
            ),
        forall|k: BlockNumHash|
            #[trigger] mid.headers.get_spec(k) == hdr_lookup(written, pre.headers.get_spec(k), k),
        forall|k: BlockNumHash|
            k.number <= sp ==> #[trigger] mid.header_td.get_spec(k) == pre.header_td.get_spec(k),
        // the batch stays above the progress, with fresh, distinct headers
        forall|i: int| 0 <= i < written.len() ==> (#[trigger] written[i]).header.number > sp,
        forall|i: int, j: int|
            0 <= i < j < written.len() ==> (#[trigger] written[i]).header.number
                != (#[trigger] written[j]).header.number,
        forall|i: int, j: int|
            0 <= i < j < written.len() ==> (#[trigger] written[i]).hash
                != (#[trigger] written[j]).hash,
        forall|i: int|
            0 <= i < written.len() ==> #[trigger] pre.header_numbers.get_spec(
                written[i].hash,
            ) is None,
        // nothing stood above the progress before the run
        forall|n: u64| n > sp ==> #[trigger] pre.canonical_headers.get_spec(n) is None,
        forall|k: BlockNumHash| k.number > sp ==> #[trigger] pre.headers.get_spec(k) is None,
        forall|k: BlockNumHash| k.number > sp ==> #[trigger] pre.header_td.get_spec(k) is None,
        // the unwind's effect at `unwind_to == sp`
        forall|n: u64|
            n <= sp ==> #[trigger] post.canonical_headers.get_spec(n)
                == mid.canonical_headers.get_spec(n),
        forall|n: u64| n > sp ==> #[trigger] post.canonical_headers.get_spec(n) is None,
        forall|k: BlockNumHash|
            k.number <= sp ==> #[trigger] post.headers.get_spec(k) == mid.headers.get_spec(k),
        forall|k: BlockNumHash| k.number > sp ==> #[trigger] post.headers.get_spec(k) is None,
        forall|k: BlockNumHash|
            k.number <= sp ==> #[trigger] post.header_td.get_spec(k) == mid.header_td.get_spec(k),
        forall|k: BlockNumHash| k.number > sp ==> #[trigger] post.header_td.get_spec(k) is None,
        forall|h: u64|
            (exists|n: u64|
                n > sp && #[trigger] mid.canonical_headers.get_spec(n) == Some(h))
                ==> #[trigger] post.header_numbers.get_spec(h) is None,
        forall|h: u64|
            (forall|n: u64|
                n > sp ==> #[trigger] mid.canonical_headers.get_spec(n) != Some(h))
                ==> #[trigger] post.header_numbers.get_spec(h) == mid.header_numbers.get_spec(h),
    ensures
        post.canonical_headers@ == pre.canonical_headers@,
        post.headers@ == pre.headers@,
        post.header_td@ == pre.header_td@,
        post.header_numbers@ == pre.header_numbers@,
{
    // Canonical index.
    assert forall|n: u64|
        #[trigger] post.canonical_headers.get_spec(n) == pre.canonical_headers.get_spec(n) by {
        if n <= sp {
            assert forall|i: int| 0 <= i < written.len() implies (#[trigger] written[i]).header.number
                != n by {}
            lemma_canon_lookup_miss(written, pre.canonical_headers.get_spec(n), n);
        }
    }
    assert forall|k: u64|
        #[trigger] seq_get(post.canonical_headers@, k) == seq_get(pre.canonical_headers@, k) by {
        assert(post.canonical_headers.get_spec(k) == pre.canonical_headers.get_spec(k));
    }
    crate::kv::lemma_pointwise_eq(post.canonical_headers@, pre.canonical_headers@);

    // Headers table.
    assert forall|k: BlockNumHash| #[trigger] post.headers.get_spec(k) == pre.headers.get_spec(
        k,
    ) by {
        if k.number <= sp {
            assert forall|i: int| 0 <= i < written.len() implies (#[trigger] written[i]).header.number
                != k.number by {}
            lemma_hdr_lookup_miss(written, pre.headers.get_spec(k), k);
        }
    }
    assert forall|k: BlockNumHash|
        #[trigger] crate::kv_numhash::bnh_get(post.headers@, k) == crate::kv_numhash::bnh_get(
        pre.headers@,
        k,
    ) by {
        assert(post.headers.get_spec(k) == pre.headers.get_spec(k));
    }
    crate::kv_numhash::lemma_bnh_pointwise_eq(post.headers@, pre.headers@);

    // Total difficulty.
    assert forall|k: BlockNumHash| #[trigger] post.header_td.get_spec(k) == pre.header_td.get_spec(
        k,
    ) by {}
    assert forall|k: BlockNumHash|
        #[trigger] crate::kv_numhash::bnh_get(post.header_td@, k) == crate::kv_numhash::bnh_get(
        pre.header_td@,
        k,
    ) by {
        assert(post.header_td.get_spec(k) == pre.header_td.get_spec(k));
    }
    crate::kv_numhash::lemma_bnh_pointwise_eq(post.header_td@, pre.header_td@);

    // Reverse lookups.
    assert forall|h: u64|
        #[trigger] post.header_numbers.get_spec(h) == pre.header_numbers.get_spec(h) by {
        if exists|i: int| 0 <= i < written.len() && (#[trigger] written[i]).hash == h {
            let i = choose|i: int| 0 <= i < written.len() && (#[trigger] written[i]).hash == h;
            assert(written[i].header.number > sp);
            lemma_canon_lookup_hit(written, pre.canonical_headers.get_spec(written[i].header.number), i);
            assert(mid.canonical_headers.get_spec(written[i].header.number) == Some(h));
            assert(exists|n: u64| n > sp && #[trigger] mid.canonical_headers.get_spec(n) == Some(h));
            assert(post.header_numbers.get_spec(h) is None);
            assert(pre.header_numbers.get_spec(h) is None);
        } else {
            assert forall|i: int| 0 <= i < written.len() implies (#[trigger] written[i]).hash
                != h by {}
            lemma_hn_lookup_miss(written, pre.header_numbers.get_spec(h), h);
            assert(mid.header_numbers.get_spec(h) == pre.header_numbers.get_spec(h));
            assert forall|n: u64| n > sp implies #[trigger] mid.canonical_headers.get_spec(n)
                != Some(h) by {
                lemma_canon_lookup_cases(written, pre.canonical_headers.get_spec(n), n);
                if mid.canonical_headers.get_spec(n) != pre.canonical_headers.get_spec(n) {
                    let i = choose|i: int|
                        0 <= i < written.len() && (#[trigger] written[i]).header.number == n
                            && written[i].header.number != 0 && canon_lookup(
                            written,
                            pre.canonical_headers.get_spec(n),
                            n,
                        ) == Some(written[i].hash);
                    assert(written[i].hash != h);
                }
            }
            assert(post.header_numbers.get_spec(h) == mid.header_numbers.get_spec(h));
        }
    }
    assert forall|k: u64|
        #[trigger] seq_get(post.header_numbers@, k) == seq_get(pre.header_numbers@, k) by {
        assert(post.header_numbers.get_spec(k) == pre.header_numbers.get_spec(k));
    }
    crate::kv::lemma_pointwise_eq(post.header_numbers@, pre.header_numbers@);
}

} // verus!
