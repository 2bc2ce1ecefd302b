//! What a participant needs of the chain and of its sessions.

use vstd::prelude::*;

verus! {

/// The number of a session.
#[derive(Debug, Clone, Copy, PartialEq, Eq, Structural)]
pub struct SessionId(pub u32);

/// Minimal abstraction of the block.
pub trait Block {
    type Number: std::fmt::Debug + PartialOrd + Copy;

    type Hash: std::fmt::Debug;
}

/// Abstraction of the chain state.
pub trait ChainState<B: Block> {
    /// The number of the best block.
    fn best_block_number(&self) -> <B as Block>::Number;

    /// The number of the last finalized block.
    fn finalized_number(&self) -> <B as Block>::Number;
}

/// Abstraction of the state of synchronisation.
pub trait SyncState<B: Block> {
    /// Whether the chain is being downloaded.
    fn is_major_syncing(&self) -> bool;
}

/// Abstraction of the session boundaries.
pub trait SessionInfo<B: Block> {
    /// The session that the block with number `n` belongs to.
    fn session_id_from_block_num(&self, n: B::Number) -> SessionId;

    /// The number of the last block of the session.
    fn last_block_of_session(&self, session_id: SessionId) -> B::Number;

    /// The number of the first block of the session.
    fn first_block_of_session(&self, session_id: SessionId) -> B::Number;
}

} // verus!
