use vstd::prelude::*;
use crate::ledger::block::{Block, BlockView};

verus! {

/// The messages of a PBFT round.
pub enum ConsensusMessage {
    /// The leader proposes a block.
    PrePrepare { block: Block, view: u32 },
    /// A node found the proposed block valid.
    Prepare { block_hash: String, node_id: u32 },
    /// A node saw a quorum of prepares for the block.
    Commit { block_hash: String, node_id: u32 },
}

/// The mathematical value of a [`ConsensusMessage`].
pub enum MessageView {
    PrePrepare { block: BlockView, view: u32 },
    Prepare { block_hash: Seq<char>, node_id: u32 },
    Commit { block_hash: Seq<char>, node_id: u32 },
}

impl View for ConsensusMessage {
    type V = MessageView;

    open spec fn view(&self) -> MessageView {
        match self {
            ConsensusMessage::PrePrepare { block, view } => MessageView::PrePrepare { block: block@, view: *view },
            ConsensusMessage::Prepare { block_hash, node_id } => MessageView::Prepare {
                block_hash: block_hash@,
                node_id: *node_id,
            },
            ConsensusMessage::Commit { block_hash, node_id } => MessageView::Commit {
                block_hash: block_hash@,
                node_id: *node_id,
            },
        }
    }
}

/// The views of a list of messages.
pub open spec fn msgs_view(msgs: Seq<ConsensusMessage>) -> Seq<MessageView> {
    msgs.map_values(|m: ConsensusMessage| m@)
}

/// The view of an optional message.
pub open spec fn opt_msg_view(m: Option<ConsensusMessage>) -> Option<MessageView> {
    match m {
        Some(msg) => Some(msg@),
        None => None,
    }
}

impl Clone for ConsensusMessage {
    fn clone(&self) -> (r: Self)
        ensures
            r@ == self@,
    {
        match self {
            ConsensusMessage::PrePrepare { block, view } => ConsensusMessage::PrePrepare {
                block: block.clone(),
                view: *view,
            },
            ConsensusMessage::Prepare { block_hash, node_id } => ConsensusMessage::Prepare {
                block_hash: block_hash.clone(),
                node_id: *node_id,
            },
            ConsensusMessage::Commit { block_hash, node_id } => ConsensusMessage::Commit {
                block_hash: block_hash.clone(),
                node_id: *node_id,
            },
        }
    }
}

} // verus!
