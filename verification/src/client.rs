//! The typed request/response interfaces the headers stage consumes, and
//! the test client for body requests.

use vstd::prelude::*;
use crate::error::RequestError;
use crate::primitives::{BlockBody, Header, WithPeerId};

verus! {

/// Either a hash or a number naming a block.
#[derive(Clone, Copy, Debug, PartialEq, Eq, Structural)]
pub enum BlockHashOrNumber {
    /// A block named by its header hash.
    Hash(u64),
    /// A block named by its number.
    Number(u64),
}

/// The direction in which a peer should return headers.
#[derive(Clone, Copy, Debug, PartialEq, Eq, Structural)]
pub enum HeadersDirection {
    /// Ascending block numbers.
    Rising,
    /// Descending block numbers.
    Falling,
}

/// The header request sent to connected peers, asking them to stream the
/// requested headers back.
#[derive(Clone, Copy, Debug, PartialEq, Eq, Structural)]
pub struct HeadersRequest {
    /// The starting block.
    pub start: BlockHashOrNumber,
    /// The response's maximum size.
    pub limit: u64,
    /// The direction in which the headers should be returned.
    pub direction: HeadersDirection,
}

/// The block headers downloader client. The network stack outside this
/// crate implements it; the stage consumes its output as plain values.
pub trait HeadersClient {
    /// Update the node's status message used during new handshakes.
    fn update_status(&self, height: u64, hash: u64, td: u128);

    /// Send the header request to the network and return a peer's
    /// response.
    fn get_headers(&self, request: HeadersRequest) -> Result<WithPeerId<Vec<Header>>, RequestError>;
}

/// A test client for fetching bodies: answers every request by calling
/// the configured responder.
pub struct TestBodiesClient<F> {
    /// The function that is called on each body request.
    pub responder: F,
}

impl<F: Fn(Vec<u64>) -> Result<WithPeerId<Vec<BlockBody>>, RequestError>> TestBodiesClient<F> {
    /// Answer a body request for the given block hashes with whatever the
    /// responder produces.
    pub fn get_block_body(&self, hashes: Vec<u64>) -> (r: Result<
        WithPeerId<Vec<BlockBody>>,
        RequestError,
    >)
        requires
            call_requires(self.responder, (hashes,)),
        ensures
            call_ensures(self.responder, (hashes,), r),
    {
        (self.responder)(hashes)
    }
}

} // verus!
