//! Stage tests: the headers stage's error paths, range lookup and happy
//! path, and the sender-recovery stage's intermediate commit.

use staged_sync::db::Tx;
use staged_sync::error::{DatabaseIntegrityError, DownloadError, RequestError, StageError};
use staged_sync::headers::HeaderStage;
use staged_sync::kv_numhash::BlockNumHash;
use staged_sync::pipeline::{PipelineAction, PipelineState};
use staged_sync::primitives::{ForkchoiceState, Header, SealedHeader, TransactionSigned};
use staged_sync::senders::SendersStage;
use staged_sync::stage::{ExecInput, StageId, UnwindInput};

fn hash_of(n: u64) -> u64 {
    n + 500_000
}

fn header_at(n: u64) -> Header {
    Header {
        number: n,
        parent_hash: if n == 0 { 0 } else { hash_of(n - 1) },
        difficulty: 1,
    }
}

fn sealed_at(n: u64) -> SealedHeader {
    SealedHeader::new(header_at(n), hash_of(n))
}

/// Seeds the canonical index, headers table and total difficulty for a
/// single head block.
fn seed_head(tx: &mut Tx, n: u64, td: u128) {
    let key = BlockNumHash { number: n, hash: hash_of(n) };
    tx.canonical_headers.put(n, hash_of(n));
    tx.header_numbers.put(hash_of(n), n);
    tx.headers.put(key, header_at(n));
    tx.header_td.put(key, td);
}

fn headers_runner() -> HeaderStage {
    HeaderStage { commit_threshold: 100 }
}

/// The stage id tags.
#[test]
fn stage_ids() {
    let StageId(h) = headers_runner().id();
    assert_eq!(h, "Headers");
    let senders = SendersStage { batch_size: 100, commit_threshold: 1000 };
    let StageId(s) = senders.id();
    assert_eq!(s, "Senders");
}

/// A timeout from the downloader is recoverable and leaves the database
/// unchanged.
#[test]
fn execute_timeout() {
    let (previous_stage, stage_progress) = (500, 100);
    let mut tx = Tx::new();
    seed_head(&mut tx, stage_progress, 100);
    let input = ExecInput {
        previous_stage: Some((StageId("Bodies"), previous_stage)),
        stage_progress: Some(stage_progress),
    };
    let downloaded = vec![Err(DownloadError::Timeout)];
    let result = headers_runner().execute(&mut tx, input, 1, downloaded);
    assert!(matches!(result, Err(StageError::Recoverable(DownloadError::Timeout))));
    // Nothing above the progress was written.
    assert_eq!(tx.canonical_headers.len(), 1);
    assert_eq!(tx.headers.len(), 1);
    assert_eq!(tx.header_td.len(), 1);
}

/// A header that failed the downloader's validation unwinds to the
/// stage's progress.
#[test]
fn execute_validation_error() {
    let (stage_progress, previous_stage) = (1000, 1200);
    let mut tx = Tx::new();
    seed_head(&mut tx, stage_progress, 1000);
    let input = ExecInput {
        previous_stage: Some((StageId("Bodies"), previous_stage)),
        stage_progress: Some(stage_progress),
    };
    let bad = hash_of(1100);
    let downloaded = vec![Err(DownloadError::HeaderValidation { hash: bad })];
    let result = headers_runner().execute(&mut tx, input, hash_of(1200), downloaded);
    assert!(matches!(
        result,
        Err(StageError::Validation { block: 1000, hash }) if hash == bad
    ));
    assert_eq!(tx.canonical_headers.len(), 1);
}

/// Unexpected download errors are caught and recoverable.
#[test]
fn execute_download_error() {
    let (stage_progress, previous_stage) = (1000, 1200);
    let mut tx = Tx::new();
    seed_head(&mut tx, stage_progress, 1000);
    let input = ExecInput {
        previous_stage: Some((StageId("Bodies"), previous_stage)),
        stage_progress: Some(stage_progress),
    };
    let downloaded = vec![Err(DownloadError::RequestFailed(RequestError::BadResponse))];
    let result = headers_runner().execute(&mut tx, input, hash_of(1200), downloaded);
    assert!(matches!(result, Err(StageError::Recoverable(_))));
    assert_eq!(tx.canonical_headers.len(), 1);
}

/// The happy path: a linked descending batch from the tip down to the
/// head advances the stage to the tip, with monotonic total difficulty.
#[test]
fn execute_with_linear_downloader() {
    let (stage_progress, previous_stage) = (1000u64, 1200u64);
    let mut tx = Tx::new();
    seed_head(&mut tx, stage_progress, 1000);
    let input = ExecInput {
        previous_stage: Some((StageId("Bodies"), previous_stage)),
        stage_progress: Some(stage_progress),
    };
    // The downloader streams in descending order from the tip.
    let mut downloaded = Vec::new();
    for n in ((stage_progress + 1)..=previous_stage).rev() {
        downloaded.push(Ok(sealed_at(n)));
    }
    let result = headers_runner().execute(&mut tx, input, hash_of(1200), downloaded);
    match result {
        Ok(out) => {
            assert!(out.done);
            assert!(out.reached_tip);
            assert_eq!(out.stage_progress, 1200);
        }
        Err(e) => panic!("validation failed: {:?}", e),
    }
    // All headers written and total difficulty accumulates by one per
    // block from the seeded head.
    for n in (stage_progress + 1)..=previous_stage {
        let key = BlockNumHash { number: n, hash: hash_of(n) };
        assert_eq!(tx.canonical_headers.get(n).copied(), Some(hash_of(n)));
        assert_eq!(tx.header_numbers.get(hash_of(n)).copied(), Some(n));
        assert_eq!(tx.headers.get(key).copied(), Some(header_at(n)));
        assert_eq!(tx.header_td.get(key).copied(), Some(1000 + (n - 1000) as u128));
    }
}

/// Executing against an empty database reports the missing canonical
/// head.
#[test]
fn execute_empty_db() {
    let mut tx = Tx::new();
    let input = ExecInput { previous_stage: None, stage_progress: Some(0) };
    let result = headers_runner().execute(&mut tx, input, 7, vec![]);
    assert_eq!(
        result,
        Err(StageError::DatabaseIntegrity(DatabaseIntegrityError::CanonicalHeader { number: 0 }))
    );
}

/// A chunk whose adjacent headers do not link stops the stage with the
/// broken child's hash.
#[test]
fn execute_broken_linkage() {
    let (stage_progress, previous_stage) = (1000, 1003);
    let mut tx = Tx::new();
    seed_head(&mut tx, stage_progress, 1000);
    let input = ExecInput {
        previous_stage: Some((StageId("Bodies"), previous_stage)),
        stage_progress: Some(stage_progress),
    };
    // 1003 claims a parent that is not 1002's hash.
    let mut broken = sealed_at(1003);
    broken.header.parent_hash = 12345;
    let downloaded = vec![Ok(broken), Ok(sealed_at(1002)), Ok(sealed_at(1001))];
    let result = headers_runner().execute(&mut tx, input, hash_of(1003), downloaded);
    assert_eq!(result, Err(StageError::Download { hash: hash_of(1003) }));
}

/// A head without a recorded total difficulty stops the status
/// broadcast.
#[test]
fn execute_missing_head_td() {
    let mut tx = Tx::new();
    tx.canonical_headers.put(100, hash_of(100));
    tx.headers.put(BlockNumHash { number: 100, hash: hash_of(100) }, header_at(100));
    let input = ExecInput {
        previous_stage: Some((StageId("Bodies"), 500)),
        stage_progress: Some(100),
    };
    let result = headers_runner().execute(&mut tx, input, 1, vec![]);
    assert_eq!(
        result,
        Err(StageError::DatabaseIntegrity(DatabaseIntegrityError::TotalDifficulty {
            number: 100
        }))
    );
}

/// A canonical hash without its header is an integrity failure of the
/// headers table.
#[test]
fn lookup_missing_header() {
    let mut tx = Tx::new();
    tx.canonical_headers.put(3, hash_of(3));
    let result = headers_runner().get_head_and_tip(&tx, 3, 1);
    assert_eq!(
        result,
        Err(StageError::DatabaseIntegrity(DatabaseIntegrityError::Header {
            number: 3,
            hash: hash_of(3)
        }))
    );
}

/// The forkchoice scan takes the first published state whose head is
/// real and different from the local head.
#[test]
fn forkchoice_scan() {
    let stage = headers_runner();
    let unset = ForkchoiceState { head_block_hash: 0, safe_block_hash: 0, finalized_block_hash: 0 };
    let ours = ForkchoiceState { head_block_hash: 5, safe_block_hash: 0, finalized_block_hash: 0 };
    let tip = ForkchoiceState { head_block_hash: 9, safe_block_hash: 1, finalized_block_hash: 2 };
    assert_eq!(stage.next_fork_choice_state(&vec![unset, ours, tip], 5), Some(tip));
    assert_eq!(stage.next_fork_choice_state(&vec![unset, ours], 5), None);
}

/// The head and tip range lookup: empty database, consensus tip, gap
/// above the head, and gap closed.
#[test]
fn head_and_tip_lookup() {
    let mut tx = Tx::new();
    let stage = headers_runner();
    let consensus_tip = 777;
    let stage_progress = 0;

    // Empty database.
    assert!(matches!(
        stage.get_head_and_tip(&tx, stage_progress, consensus_tip),
        Err(StageError::DatabaseIntegrity(DatabaseIntegrityError::CanonicalHeader { number }))
            if number == stage_progress
    ));

    // Checkpoint and no gap: the tip comes from consensus.
    let head = sealed_at(0);
    let gap_fill = sealed_at(1);
    let gap_tip = sealed_at(2);
    tx.canonical_headers.put(head.header.number, head.hash());
    tx.headers.put(head.num_hash(), head.unseal());
    match stage.get_head_and_tip(&tx, stage_progress, consensus_tip) {
        Ok((h, t)) => {
            assert_eq!(h, head);
            assert_eq!(t, consensus_tip);
        }
        Err(e) => panic!("failed to look up the range: {:?}", e),
    }

    // Checkpoint and gap: the tip is the gap's parent.
    tx.canonical_headers.put(gap_tip.header.number, gap_tip.hash());
    tx.headers.put(gap_tip.num_hash(), gap_tip.unseal());
    match stage.get_head_and_tip(&tx, stage_progress, consensus_tip) {
        Ok((h, t)) => {
            assert_eq!(h, head);
            assert_eq!(t, gap_tip.header.parent_hash);
        }
        Err(e) => panic!("failed to look up the range: {:?}", e),
    }

    // Checkpoint and gap closed: no work is available.
    tx.canonical_headers.put(gap_fill.header.number, gap_fill.hash());
    tx.headers.put(gap_fill.num_hash(), gap_fill.unseal());
    assert!(matches!(
        stage.get_head_and_tip(&tx, stage_progress, consensus_tip),
        Err(StageError::StageProgress(progress)) if progress == stage_progress
    ));
}

/// Seeds bodies and transactions for blocks `from..=to`, one transaction
/// per block, with senders recovered up to `senders_to` inclusive.
fn seed_body_range(tx: &mut Tx, from: u64, to: u64, senders_to: u64) {
    for n in from..=to {
        let id = n - from;
        tx.canonical_headers.put(n, hash_of(n));
        tx.block_bodies.put(
            BlockNumHash { number: n, hash: hash_of(n) },
            staged_sync::primitives::StoredBlockBody { start_tx_id: id, tx_count: 1 },
        );
        tx.transactions.put(id, TransactionSigned { signer: n + 9, signature_valid: true });
        if n <= senders_to {
            tx.tx_senders.put(id, n + 9);
        }
    }
}

/// The senders stage yields at its commit threshold and resumes to
/// completion on re-entry.
#[test]
fn execute_intermediate_commit() {
    let threshold = 50;
    let (stage_progress, previous_stage) = (1000, 1100);
    let mut tx = Tx::new();
    // Seed only once with the full input range.
    seed_body_range(&mut tx, stage_progress, previous_stage, stage_progress);
    let runner = SendersStage { batch_size: 100, commit_threshold: threshold };

    // Execute first time.
    let first_input = ExecInput {
        previous_stage: Some((StageId("Bodies"), previous_stage)),
        stage_progress: Some(stage_progress),
    };
    let result = runner.execute(&mut tx, first_input).expect("validation failed");
    let expected_progress = stage_progress + threshold;
    assert!(!result.done);
    assert!(!result.reached_tip);
    assert_eq!(result.stage_progress, expected_progress);

    // Execute second time.
    let second_input = ExecInput {
        previous_stage: Some((StageId("Bodies"), previous_stage)),
        stage_progress: Some(expected_progress),
    };
    let result = runner.execute(&mut tx, second_input).expect("validation failed");
    assert!(result.done);
    assert!(result.reached_tip);
    assert_eq!(result.stage_progress, previous_stage);

    // Every transaction in the range has its signer.
    for id in 0..=(previous_stage - stage_progress) {
        assert_eq!(tx.tx_senders.get(id).copied(), Some(stage_progress + id + 9));
    }
}

/// An unrecoverable signature in the walked range is fatal, naming the
/// corrupt transaction.
#[test]
fn senders_recovery_failure() {
    let (stage_progress, previous_stage) = (10, 12);
    let mut tx = Tx::new();
    seed_body_range(&mut tx, stage_progress, previous_stage, stage_progress);
    // Corrupt the second walked transaction.
    tx.transactions.put(2, TransactionSigned { signer: 0, signature_valid: false });
    let runner = SendersStage { batch_size: 100, commit_threshold: 1000 };
    let input = ExecInput {
        previous_stage: Some((StageId("Bodies"), previous_stage)),
        stage_progress: Some(stage_progress),
    };
    let result = runner.execute(&mut tx, input);
    assert_eq!(
        result,
        Err(StageError::Fatal(staged_sync::error::SendersStageError::SenderRecovery { tx: 2 }))
    );
}

/// A missing body for the next block is an integrity failure.
#[test]
fn senders_missing_body() {
    let mut tx = Tx::new();
    let runner = SendersStage { batch_size: 100, commit_threshold: 1000 };
    let input = ExecInput {
        previous_stage: Some((StageId("Bodies"), 5)),
        stage_progress: Some(0),
    };
    let result = runner.execute(&mut tx, input);
    assert_eq!(
        result,
        Err(StageError::DatabaseIntegrity(DatabaseIntegrityError::CanonicalHeader { number: 1 }))
    );
}

/// An out-of-order senders table refuses the first append.
#[test]
fn senders_append_conflict() {
    let (stage_progress, previous_stage) = (10, 12);
    let mut tx = Tx::new();
    seed_body_range(&mut tx, stage_progress, previous_stage, stage_progress);
    // A stray row at a later index than the walk's start.
    tx.tx_senders.put(50, 1);
    let runner = SendersStage { batch_size: 100, commit_threshold: 1000 };
    let input = ExecInput {
        previous_stage: Some((StageId("Bodies"), previous_stage)),
        stage_progress: Some(stage_progress),
    };
    let result = runner.execute(&mut tx, input);
    assert_eq!(
        result,
        Err(StageError::Database(staged_sync::kv::KvError::OutOfOrderAppend))
    );
}

/// Executing then unwinding back to the original progress restores every
/// header table to its pre-execute contents.
#[test]
fn headers_unwind_restores() {
    let (stage_progress, previous_stage) = (100u64, 120u64);
    let mut tx = Tx::new();
    seed_head(&mut tx, stage_progress, 55);
    let before: Vec<(u64, u64)> = snapshot_canonical(&tx);
    let before_headers = snapshot_headers(&tx);
    let before_td = snapshot_td(&tx);
    let before_numbers = snapshot_numbers(&tx);

    let input = ExecInput {
        previous_stage: Some((StageId("Bodies"), previous_stage)),
        stage_progress: Some(stage_progress),
    };
    let mut downloaded = Vec::new();
    for n in ((stage_progress + 1)..=previous_stage).rev() {
        downloaded.push(Ok(sealed_at(n)));
    }
    let stage = headers_runner();
    let out = stage.execute(&mut tx, input, hash_of(120), downloaded).expect("validation failed");
    assert_eq!(out.stage_progress, 120);

    stage
        .unwind(&mut tx, UnwindInput { unwind_to: stage_progress })
        .expect("unwind failed");
    assert_eq!(snapshot_canonical(&tx), before);
    assert_eq!(snapshot_headers(&tx), before_headers);
    assert_eq!(snapshot_td(&tx), before_td);
    assert_eq!(snapshot_numbers(&tx), before_numbers);
}

/// Running the senders stage in two commit-bounded steps leaves the same
/// table as one uninterrupted run.
#[test]
fn senders_reentry_equivalence() {
    let (stage_progress, previous_stage) = (10, 30);

    let mut interrupted = Tx::new();
    seed_body_range(&mut interrupted, stage_progress, previous_stage, stage_progress);
    let small = SendersStage { batch_size: 4, commit_threshold: 10 };
    let first = ExecInput {
        previous_stage: Some((StageId("Bodies"), previous_stage)),
        stage_progress: Some(stage_progress),
    };
    let out = small.execute(&mut interrupted, first).expect("validation failed");
    assert!(!out.done);
    let second = ExecInput {
        previous_stage: Some((StageId("Bodies"), previous_stage)),
        stage_progress: Some(out.stage_progress),
    };
    small.execute(&mut interrupted, second).expect("validation failed");

    let mut straight = Tx::new();
    seed_body_range(&mut straight, stage_progress, previous_stage, stage_progress);
    let big = SendersStage { batch_size: 4, commit_threshold: 1000 };
    big.execute(&mut straight, first).expect("validation failed");

    assert_eq!(snapshot_senders(&interrupted), snapshot_senders(&straight));
}

/// Interrupting the headers stage at a commit boundary and re-entering
/// with the remaining results leaves the same tables as one run.
#[test]
fn headers_reentry_equivalence() {
    let (stage_progress, previous_stage) = (200u64, 240u64);
    let boundary = 220u64;

    let mut interrupted = Tx::new();
    seed_head(&mut interrupted, stage_progress, 10);
    let stage = HeaderStage { commit_threshold: 10 };
    let first = ExecInput {
        previous_stage: Some((StageId("Bodies"), previous_stage)),
        stage_progress: Some(stage_progress),
    };
    let mut part_one = Vec::new();
    for n in ((stage_progress + 1)..=boundary).rev() {
        part_one.push(Ok(sealed_at(n)));
    }
    let out = stage
        .execute(&mut interrupted, first, hash_of(boundary), part_one)
        .expect("validation failed");
    assert_eq!(out.stage_progress, boundary);
    let second = ExecInput {
        previous_stage: Some((StageId("Bodies"), previous_stage)),
        stage_progress: Some(boundary),
    };
    let mut part_two = Vec::new();
    for n in ((boundary + 1)..=previous_stage).rev() {
        part_two.push(Ok(sealed_at(n)));
    }
    stage
        .execute(&mut interrupted, second, hash_of(previous_stage), part_two)
        .expect("validation failed");

    let mut straight = Tx::new();
    seed_head(&mut straight, stage_progress, 10);
    let mut all = Vec::new();
    for n in ((stage_progress + 1)..=previous_stage).rev() {
        all.push(Ok(sealed_at(n)));
    }
    stage
        .execute(&mut straight, first, hash_of(previous_stage), all)
        .expect("validation failed");

    assert_eq!(snapshot_canonical(&interrupted), snapshot_canonical(&straight));
    assert_eq!(snapshot_numbers(&interrupted), snapshot_numbers(&straight));
    assert_eq!(snapshot_headers(&interrupted), snapshot_headers(&straight));
    assert_eq!(snapshot_td(&interrupted), snapshot_td(&straight));
}

/// The executor advances on completion, re-enters on a yield, retries on
/// transient failures, unwinds on validation failures, and halts on
/// fatal ones.
#[test]
fn pipeline_control() {
    let mut state = PipelineState::new(2);

    // A yield re-enters the same stage.
    let yielded = Ok(staged_sync::stage::ExecOutput {
        stage_progress: 10,
        reached_tip: false,
        done: false,
    });
    assert_eq!(state.step(&yielded), PipelineAction::Run);
    assert_eq!(state.current, 0);

    // Completion advances to the next stage.
    let done = Ok(staged_sync::stage::ExecOutput {
        stage_progress: 10,
        reached_tip: true,
        done: true,
    });
    assert_eq!(state.step(&done), PipelineAction::Run);
    assert_eq!(state.current, 1);

    // The last stage reaching the tip idles the pipeline at the first
    // stage.
    assert_eq!(state.step(&done), PipelineAction::Idle);
    assert_eq!(state.current, 0);

    // Transient errors retry the same stage.
    let timeout = Err(StageError::Recoverable(DownloadError::Timeout));
    assert_eq!(state.step(&timeout), PipelineAction::Retry);
    assert_eq!(state.current, 0);

    // A validation failure unwinds to one before the offending block.
    state.step(&done);
    assert_eq!(state.current, 1);
    let bad = Err(StageError::Validation { block: 1000, hash: 5 });
    assert_eq!(state.step(&bad), PipelineAction::Unwind { to: 999 });
    assert_eq!(state.current, 0);

    // Integrity violations halt.
    let fatal = Err(StageError::DatabaseIntegrity(
        DatabaseIntegrityError::CanonicalHeader { number: 0 },
    ));
    assert_eq!(state.step(&fatal), PipelineAction::Halt);
}

fn snapshot_canonical(tx: &Tx) -> Vec<(u64, u64)> {
    let mut v = Vec::new();
    for i in 0..tx.canonical_headers.len() {
        v.push(*tx.canonical_headers.entry_at(i));
    }
    v
}

fn snapshot_numbers(tx: &Tx) -> Vec<(u64, u64)> {
    let mut v = Vec::new();
    for i in 0..tx.header_numbers.len() {
        v.push(*tx.header_numbers.entry_at(i));
    }
    v
}

fn snapshot_headers(tx: &Tx) -> Vec<(BlockNumHash, Header)> {
    let mut v = Vec::new();
    for i in 0..tx.headers.len() {
        v.push(*tx.headers.entry_at(i));
    }
    v
}

fn snapshot_td(tx: &Tx) -> Vec<(BlockNumHash, u128)> {
    let mut v = Vec::new();
    for i in 0..tx.header_td.len() {
        v.push(*tx.header_td.entry_at(i));
    }
    v
}

fn snapshot_senders(tx: &Tx) -> Vec<(u64, u64)> {
    let mut v = Vec::new();
    for i in 0..tx.tx_senders.len() {
        v.push(*tx.tx_senders.entry_at(i));
    }
    v
}
