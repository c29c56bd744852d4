//! Error taxonomy of the sync pipeline.
//!
//! Four user-visible failure classes: recoverable (transient network
//! conditions), validation (data inconsistency attributable to a block),
//! database-integrity (a table invariant was violated), and fatal.

use vstd::prelude::*;

verus! {

/// Error variants that can happen when sending requests to a peer session.
#[derive(Clone, Copy, Debug, PartialEq, Eq, Structural)]
pub enum RequestError {
    /// Closed channel to the peer.
    ChannelClosed,
    /// Not connected to the peer.
    NotConnected,
    /// Connection to a peer dropped while handling the request.
    ConnectionDropped,
    /// Capability message is not supported by the remote peer.
    UnsupportedCapability,
    /// Request timed out while awaiting a response.
    Timeout,
    /// Received a bad response.
    BadResponse,
}

impl RequestError {
    /// Indicates whether this error is retryable or fatal.
    pub fn is_retryable(&self) -> (r: bool)
        ensures
            r == (*self == RequestError::Timeout || *self == RequestError::ConnectionDropped),
    {
        matches!(self, RequestError::Timeout | RequestError::ConnectionDropped)
    }
}

/// Failures a header downloader surfaces while streaming.
#[derive(Clone, Copy, Debug, PartialEq, Eq, Structural)]
pub enum DownloadError {
    /// No response arrived in time.
    Timeout,
    /// A downloaded header failed the downloader's validation.
    HeaderValidation {
        /// Hash of the offending header.
        hash: u64,
    },
    /// The underlying peer request failed.
    RequestFailed(RequestError),
}

/// A violation of the table invariants: the data cannot be trusted.
#[derive(Clone, Copy, Debug, PartialEq, Eq, Structural)]
pub enum DatabaseIntegrityError {
    /// The canonical index has no entry for this number.
    CanonicalHeader {
        /// The missing block number.
        number: u64,
    },
    /// The headers table has no entry for this canonical key.
    Header {
        /// The block number of the missing header.
        number: u64,
        /// The hash of the missing header.
        hash: u64,
    },
    /// The total-difficulty table has no entry for this number, or the
    /// accumulated difficulty does not fit its representation.
    TotalDifficulty {
        /// The affected block number.
        number: u64,
    },
    /// The body index has no entry for this number.
    BlockBody {
        /// The missing block number.
        number: u64,
    },
}

/// The sender-recovery stage's own failure: a corrupt transaction record.
#[derive(Clone, Copy, Debug, PartialEq, Eq, Structural)]
pub enum SendersStageError {
    /// Sender recovery failed for the transaction at this index.
    SenderRecovery {
        /// Index of the unrecoverable transaction.
        tx: u64,
    },
}

/// A stage operation's failure, classified by its propagation policy.
#[derive(Clone, Copy, Debug, PartialEq, Eq, Structural)]
pub enum StageError {
    /// Transient: the pipeline retries the same stage after a delay.
    Recoverable(DownloadError),
    /// Data inconsistency attributable to a block: the pipeline unwinds to
    /// one before it and retries.
    Validation {
        /// The stage's progress when the bad header surfaced.
        block: u64,
        /// Hash of the header that failed validation.
        hash: u64,
    },
    /// A downloaded response contradicted itself: parent linkage between
    /// adjacent headers was broken at this header.
    Download {
        /// Hash of the child header whose linkage was broken.
        hash: u64,
    },
    /// The stage refuses to continue: the database state for this block
    /// contradicts its expectations.
    StageProgress(u64),
    /// A table invariant was violated; fatal.
    DatabaseIntegrity(DatabaseIntegrityError),
    /// A table primitive refused a write.
    Database(crate::kv::KvError),
    /// Bug-class error; the pipeline halts.
    Fatal(SendersStageError),
}

impl From<SendersStageError> for StageError {
    /// Sender-recovery failures are fatal: they imply a corrupt
    /// transactions table.
    fn from(error: SendersStageError) -> (r: Self) {
        StageError::Fatal(error)
    }
}

impl vstd::std_specs::convert::FromSpecImpl<SendersStageError> for StageError {
    open spec fn obeys_from_spec() -> bool {
        true
    }

    open spec fn from_spec(error: SendersStageError) -> Self {
        StageError::Fatal(error)
    }
}

impl From<DatabaseIntegrityError> for StageError {
    /// Integrity violations surface unchanged through the stage contract.
    fn from(error: DatabaseIntegrityError) -> (r: Self) {
        StageError::DatabaseIntegrity(error)
    }
}

impl vstd::std_specs::convert::FromSpecImpl<DatabaseIntegrityError> for StageError {
    open spec fn obeys_from_spec() -> bool {
        true
    }

    open spec fn from_spec(error: DatabaseIntegrityError) -> Self {
        StageError::DatabaseIntegrity(error)
    }
}

} // verus!
