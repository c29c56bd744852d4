//! Parked-pool tests: insertion, removal, ordering, the FIFO tie-break
//! and the bijection between the two indexes.

use staged_sync::pool::{BasefeeOrd, ParkedPool, QueuedOrd, ValidPoolTransaction};

fn tx(id: u64, fee: Option<u128>) -> ValidPoolTransaction {
    ValidPoolTransaction { id, max_fee_per_gas: fee }
}

/// Insertion and removal keep both indexes in step.
#[test]
fn pool_bijection() {
    let mut pool: ParkedPool<BasefeeOrd> = ParkedPool::new();
    assert_eq!(pool.len(), 0);
    pool.add_transaction(tx(1, Some(100)));
    pool.add_transaction(tx(2, Some(50)));
    pool.add_transaction(tx(3, None));
    assert_eq!(pool.len(), 3);

    assert!(pool.contains(2));
    let removed = pool.remove_transaction(2);
    assert_eq!(removed, Some(tx(2, Some(50))));
    assert_eq!(pool.len(), 2);
    assert!(!pool.contains(2));

    // Removing an absent id changes nothing.
    assert_eq!(pool.remove_transaction(2), None);
    assert_eq!(pool.len(), 2);

    let removed = pool.remove_transaction(1);
    assert_eq!(removed, Some(tx(1, Some(100))));
    let removed = pool.remove_transaction(3);
    assert_eq!(removed, Some(tx(3, None)));
    assert_eq!(pool.len(), 0);
    assert!(pool.peek_best().is_none());
}

/// The base-fee ordering puts missing fees first, then ascending fees.
#[test]
fn basefee_ordering() {
    let mut pool: ParkedPool<BasefeeOrd> = ParkedPool::new();
    pool.add_transaction(tx(10, Some(300)));
    pool.add_transaction(tx(11, Some(100)));
    pool.add_transaction(tx(12, None));
    pool.add_transaction(tx(13, Some(200)));

    let best = pool.peek_best().expect("pool is empty");
    assert_eq!(best.transaction.0, tx(12, None));

    pool.remove_transaction(12);
    let best = pool.peek_best().expect("pool is empty");
    assert_eq!(best.transaction.0, tx(11, Some(100)));
}

/// Equal priorities stay in submission order: the queued ordering is
/// pure FIFO.
#[test]
fn queued_fifo_tie_break() {
    let mut pool: ParkedPool<QueuedOrd> = ParkedPool::new();
    pool.add_transaction(tx(7, Some(5)));
    pool.add_transaction(tx(4, Some(9)));
    pool.add_transaction(tx(9, None));

    let best = pool.peek_best().expect("pool is empty");
    assert_eq!(best.transaction.0, tx(7, Some(5)));
    assert_eq!(best.submission_id, 0);

    pool.remove_transaction(7);
    let best = pool.peek_best().expect("pool is empty");
    assert_eq!(best.transaction.0, tx(4, Some(9)));
    assert_eq!(best.submission_id, 1);
}

/// Ties on the base fee also fall back to submission order.
#[test]
fn basefee_fifo_among_equal_fees() {
    let mut pool: ParkedPool<BasefeeOrd> = ParkedPool::new();
    pool.add_transaction(tx(21, Some(100)));
    pool.add_transaction(tx(22, Some(100)));
    let best = pool.peek_best().expect("pool is empty");
    assert_eq!(best.transaction.0, tx(21, Some(100)));
}
