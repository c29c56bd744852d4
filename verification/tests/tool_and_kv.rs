//! Tests of the database tool, the table primitives, and the error
//! taxonomy helpers.

use staged_sync::client::TestBodiesClient;
use staged_sync::db::Tx;
use staged_sync::error::RequestError;
use staged_sync::primitives::{BlockBody, WithPeerId};
use staged_sync::kv::{KvError, KvTable};
use staged_sync::kv_numhash::BlockNumHash;
use staged_sync::tool::{DbTool, ListArgs, TableListing, ToolError};

/// A body record names its first, last and one-past-last transaction.
#[test]
fn body_record_tx_range() {
    let body = staged_sync::primitives::StoredBlockBody { start_tx_id: 10, tx_count: 3 };
    assert_eq!(body.last_tx_index(), 12);
    assert_eq!(body.next_tx_index(), 13);
}

/// Which request errors are worth retrying.
#[test]
fn retryable_request_errors() {
    assert!(RequestError::Timeout.is_retryable());
    assert!(RequestError::ConnectionDropped.is_retryable());
    assert!(!RequestError::ChannelClosed.is_retryable());
    assert!(!RequestError::NotConnected.is_retryable());
    assert!(!RequestError::UnsupportedCapability.is_retryable());
    assert!(!RequestError::BadResponse.is_retryable());
}

/// Point writes, lookups, appends and unwinds on a plain table.
#[test]
fn kv_table_basics() {
    let mut t: KvTable<u64> = KvTable::new();
    t.put(5, 50);
    t.put(1, 10);
    t.put(5, 55);
    assert_eq!(t.len(), 2);
    assert_eq!(t.get(5).copied(), Some(55));
    assert_eq!(t.get(1).copied(), Some(10));
    assert_eq!(t.get(2), None);

    // Appends must be strictly ascending.
    assert_eq!(t.append(9, 90), Ok(()));
    assert_eq!(t.append(9, 91), Err(KvError::OutOfOrderAppend));
    assert_eq!(t.append(3, 30), Err(KvError::OutOfOrderAppend));
    assert_eq!(t.get(9).copied(), Some(90));

    // Unwind removes everything above the cut.
    t.unwind_above(5);
    assert_eq!(t.len(), 2);
    assert_eq!(t.get(9), None);
    assert_eq!(t.get(5).copied(), Some(55));

    assert!(t.delete(1));
    assert!(!t.delete(1));
    assert_eq!(t.len(), 1);
}

/// Composite keys sort primarily by number, ties broken by hash.
#[test]
fn numhash_table_ordering() {
    let mut t = staged_sync::kv_numhash::NumHashTable::new();
    t.put(BlockNumHash { number: 2, hash: 5 }, 25u64);
    t.put(BlockNumHash { number: 1, hash: 9 }, 19);
    t.put(BlockNumHash { number: 2, hash: 1 }, 21);
    assert_eq!(t.len(), 3);
    assert_eq!(t.entry_at(0).0, BlockNumHash { number: 1, hash: 9 });
    assert_eq!(t.entry_at(1).0, BlockNumHash { number: 2, hash: 1 });
    assert_eq!(t.entry_at(2).0, BlockNumHash { number: 2, hash: 5 });

    t.unwind_num_above(1);
    assert_eq!(t.len(), 1);
    assert_eq!(t.get(BlockNumHash { number: 1, hash: 9 }).copied(), Some(19));
}

/// Seeding writes a linked chain with unit difficulty; stats counts the
/// entries; the lists page through the tables.
#[test]
fn seed_stats_and_list() {
    let mut tool = DbTool::new(Tx::new());
    tool.seed(5);

    let counts = tool.stats();
    assert_eq!(counts, vec![5, 5, 5, 5, 5, 5, 0]);

    // The chain links and the totals accumulate one per block.
    let listing = tool
        .list(&ListArgs { table: String::from("headers"), start: 0, len: 10 })
        .expect("headers are listable");
    match listing {
        TableListing::Headers(page) => {
            assert_eq!(page.len(), 5);
            for (i, (key, header)) in page.iter().enumerate() {
                assert_eq!(key.number, i as u64);
                assert_eq!(header.number, i as u64);
                assert_eq!(header.difficulty, 1);
                if i > 0 {
                    assert_eq!(header.parent_hash, page[i - 1].0.hash);
                }
            }
        }
        other => panic!("unexpected listing: {:?}", other),
    }

    // Paging clips to the table.
    let listing = tool
        .list(&ListArgs { table: String::from("txs"), start: 3, len: 10 })
        .expect("txs are listable");
    match listing {
        TableListing::Transactions(page) => {
            assert_eq!(page.len(), 2);
            assert_eq!(page[0].0, 3);
            assert!(page[0].1.signature_valid);
        }
        other => panic!("unexpected listing: {:?}", other),
    }

    // Unknown tables are refused.
    let err = tool.list(&ListArgs { table: String::from("bodies"), start: 0, len: 1 });
    assert_eq!(err, Err(ToolError::UnknownTable));
}

/// The seeded database is consistent: the senders stage can run over it.
#[test]
fn seed_then_recover_senders() {
    let mut tool = DbTool::new(Tx::new());
    tool.seed(4);
    let mut tx = tool.db;
    let runner = staged_sync::senders::SendersStage { batch_size: 2, commit_threshold: 100 };
    let input = staged_sync::stage::ExecInput {
        previous_stage: Some((staged_sync::stage::StageId("Bodies"), 3)),
        stage_progress: Some(0),
    };
    let out = runner.execute(&mut tx, input).expect("validation failed");
    assert!(out.done);
    assert_eq!(out.stage_progress, 3);
    // Blocks 1..=3 hold transactions 1..=3; each signer is index + 1.
    for id in 1..=3u64 {
        assert_eq!(tx.tx_senders.get(id).copied(), Some(id + 1));
    }
}

/// The test bodies client hands requests to its responder.
#[test]
fn test_bodies_client_responds() {
    let client = TestBodiesClient {
        responder: |hashes: Vec<u64>| {
            let mut bodies = Vec::new();
            for _ in 0..hashes.len() {
                bodies.push(BlockBody { transactions: Vec::new() });
            }
            Ok(WithPeerId { peer_id: 42, value: bodies })
        },
    };
    let response = client.get_block_body(vec![1, 2, 3]).expect("responder failed");
    assert_eq!(response.peer_id, 42);
    assert_eq!(response.value.len(), 3);
}
