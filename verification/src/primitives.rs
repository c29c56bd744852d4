//! Plain-value models of the chain primitives the stages operate on.
//!
//! Hashes and addresses are held as `u64` values; a header carries exactly
//! the fields the sync logic reads: its number, its parent's hash and its
//! difficulty. A sealed header is a header together with its hash.

use vstd::prelude::*;
use crate::kv_numhash::BlockNumHash;

verus! {

/// A block header, reduced to the fields the pipeline reads.
#[derive(Clone, Copy, Debug, PartialEq, Eq, Structural)]
pub struct Header {
    /// Block number.
    pub number: u64,
    /// Hash of the parent header.
    pub parent_hash: u64,
    /// Proof-of-work difficulty of this block.
    pub difficulty: u64,
}

/// A header together with its own hash.
#[derive(Clone, Copy, Debug, PartialEq, Eq, Structural)]
pub struct SealedHeader {
    /// The header.
    pub header: Header,
    /// The hash the header seals to.
    pub hash: u64,
}

impl SealedHeader {
    /// Seals `header` with `hash`.
    pub fn new(header: Header, hash: u64) -> (s: Self)
        ensures
            s.header == header,
            s.hash == hash,
    {
        SealedHeader { header, hash }
    }

    /// The hash of the sealed header.
    pub fn hash(&self) -> (h: u64)
        ensures
            h == self.hash,
    {
        self.hash
    }

    /// The composite table key of this header.
    pub fn num_hash(&self) -> (k: BlockNumHash)
        ensures
            k == (BlockNumHash { number: self.header.number, hash: self.hash }),
    {
        BlockNumHash { number: self.header.number, hash: self.hash }
    }

    /// Drops the seal.
    pub fn unseal(self) -> (h: Header)
        ensures
            h == self.header,
    {
        self.header
    }
}

/// The body index record: where a block's transactions start in the flat
/// transaction log, and how many there are.
#[derive(Clone, Copy, Debug, PartialEq, Eq, Structural)]
pub struct StoredBlockBody {
    /// Index of the block's first transaction.
    pub start_tx_id: u64,
    /// Number of transactions in the block.
    pub tx_count: u64,
}

impl StoredBlockBody {
    /// One past the index of the block's last transaction.
    pub open spec fn next_tx_spec(&self) -> int {
        self.start_tx_id + self.tx_count
    }

    /// Index of the block's last transaction.
    pub fn last_tx_index(&self) -> (r: u64)
        requires
            self.tx_count >= 1,
            self.start_tx_id + self.tx_count <= u64::MAX,
        ensures
            r == self.start_tx_id + self.tx_count - 1,
    {
        self.start_tx_id + self.tx_count - 1
    }

    /// One past the index of the block's last transaction.
    pub fn next_tx_index(&self) -> (r: u64)
        requires
            self.start_tx_id + self.tx_count <= u64::MAX,
        ensures
            r == self.next_tx_spec(),
    {
        self.start_tx_id + self.tx_count
    }
}

/// A signed transaction, reduced to what sender recovery reads: the address
/// the signature resolves to, and whether the signature is recoverable at
/// all.
#[derive(Clone, Copy, Debug, PartialEq, Eq, Structural)]
pub struct TransactionSigned {
    /// The address the signature recovers to when it is valid.
    pub signer: u64,
    /// Whether the signature admits recovery.
    pub signature_valid: bool,
}

impl TransactionSigned {
    /// The signer this transaction recovers to, if any.
    pub open spec fn recover_spec(&self) -> Option<u64> {
        if self.signature_valid {
            Some(self.signer)
        } else {
            None
        }
    }

    /// Recover the transaction's signer; `None` when the signature is
    /// malformed.
    pub fn recover_signer(&self) -> (r: Option<u64>)
        ensures
            r == self.recover_spec(),
    {
        if self.signature_valid {
            Some(self.signer)
        } else {
            None
        }
    }
}

/// The forkchoice triplet the consensus layer publishes.
#[derive(Clone, Copy, Debug, PartialEq, Eq, Structural)]
pub struct ForkchoiceState {
    /// The consensus head; zero means unset.
    pub head_block_hash: u64,
    /// The safe block.
    pub safe_block_hash: u64,
    /// The finalized block.
    pub finalized_block_hash: u64,
}

/// A block body as a peer delivers it.
#[derive(Clone, Debug, PartialEq, Eq)]
pub struct BlockBody {
    /// The transactions of the block.
    pub transactions: Vec<TransactionSigned>,
}

/// A response value tagged with the peer that produced it.
#[derive(Clone, Copy, Debug, PartialEq, Eq, Structural)]
pub struct WithPeerId<T> {
    /// The responding peer.
    pub peer_id: u64,
    /// The payload.
    pub value: T,
}

} // verus!
