//! Gossip topics and the message-size rule of the publish path.
//!
//! The transport itself lives outside the library; what belongs to the
//! logic is the closed set of topics, their wire names, and the size bound
//! a payload must meet before it may be published.

use vstd::prelude::*;

verus! {

/// The largest payload the publish path accepts, in bytes.
pub const MAX_MESSAGE_SIZE: usize = 50_000_000;

/// The transmit ceiling handed to the transport: a tenth above the payload
/// bound.
pub const MAX_TRANSMIT_SIZE: usize = 55_000_000;

/// The closed set of gossip topics.
#[derive(Debug, Clone, Copy, Hash, Eq, PartialEq, Structural)]
pub enum PubSubTopic {
    TxProposal,
    BlockProposal,
}

impl PubSubTopic {
    /// The topic's wire name.
    pub fn topic_name(self) -> (r: &'static str)
        ensures
            self == PubSubTopic::TxProposal ==> r@ == "tx_proposal"@,
            self == PubSubTopic::BlockProposal ==> r@ == "block_proposal"@,
    {
        match self {
            PubSubTopic::TxProposal => "tx_proposal",
            PubSubTopic::BlockProposal => "block_proposal",
        }
    }
}

/// A message received from gossip, already decoded.
#[derive(Debug)]
pub enum PubSubEvent<TxProp, BlockProp> {
    TxProposal(TxProp),
    BlockProposal(BlockProp),
}

/// May a payload of `len` bytes be published?
pub fn message_within_limit(len: usize) -> (r: bool)
    ensures
        r == (len < MAX_MESSAGE_SIZE),
{
    len < MAX_MESSAGE_SIZE
}

} // verus!
