//! From ordered data to blocks to finalize.
//!
//! What the chain says of a proposal is found by whoever owns the chain; the
//! interpreter is handed that finding and decides which blocks are to be
//! finalized, keeping track of the last of them.

use vstd::prelude::*;
use crate::primitives::BlockNumber;

verus! {

pub type BlockHash = [u8; 32];

/// A block, by digest and number.
#[derive(Debug, Clone, Copy, PartialEq, Eq)]
pub struct BlockHashNum {
    pub hash: BlockHash,
    pub num: BlockNumber,
}

/// The first and the last block of a session.
#[derive(Debug, Clone, Copy, PartialEq, Eq, Structural)]
pub struct SessionBoundaries {
    first_block: BlockNumber,
    last_block: BlockNumber,
}

impl SessionBoundaries {
    pub closed spec fn spec_first_block(self) -> BlockNumber {
        self.first_block
    }

    pub closed spec fn spec_last_block(self) -> BlockNumber {
        self.last_block
    }

    /// The boundaries of the session from `first_block` to `last_block`;
    /// none where the last comes before the first.
    pub fn new(first_block: BlockNumber, last_block: BlockNumber) -> (made: Option<
        SessionBoundaries,
    >)
        ensures
            made.is_some() == (first_block <= last_block),
            match made {
                Some(b) => b.spec_first_block() == first_block && b.spec_last_block()
                    == last_block,
                None => true,
            },
    {
        if first_block <= last_block {
            Some(SessionBoundaries { first_block, last_block })
        } else {
            None
        }
    }

    pub fn first_block(&self) -> (n: BlockNumber)
        ensures
            n == self.spec_first_block(),
    {
        self.first_block
    }

    pub fn last_block(&self) -> (n: BlockNumber)
        ensures
            n == self.spec_last_block(),
    {
        self.last_block
    }
}

/// The number of the block that was finalized last before the session: the
/// last block of the session before, or the genesis block where the session
/// is the first.
pub open spec fn spec_last_block_prev_session(first_block: BlockNumber) -> int {
    if first_block > 0 {
        first_block - 1
    } else {
        0
    }
}

/// The number of the block that must have been finalized before the session
/// with the given boundaries starts.
pub fn get_last_block_prev_session(session_boundaries: SessionBoundaries) -> (num: BlockNumber)
    ensures
        num == spec_last_block_prev_session(session_boundaries.spec_first_block()),
{
    if session_boundaries.first_block() > 0 {
        session_boundaries.first_block() - 1
    } else {
        0
    }
}

/// What the chain says of a proposal that passed the data availability.
#[derive(Debug)]
pub enum ProposalStatus {
    /// The proposal is out of the session's bounds.
    OutOfBounds,
    /// The blocks are to be finalized, in this order.
    Finalize(Vec<BlockHashNum>),
    /// The proposal asks for nothing new.
    Ignore,
    /// The chain cannot tell yet. No proposal in ordered data is in this
    /// state: data is ordered only once it is available.
    Pending,
}

/// The blocks that a proposal with the given status asks to finalize.
pub open spec fn blocks_of(status: ProposalStatus) -> Seq<BlockHashNum> {
    match status {
        ProposalStatus::Finalize(blocks) => blocks@,
        _ => Seq::empty(),
    }
}

/// The block finalized last after `blocks` were finalized in order, `before`
/// having been the last before them.
pub open spec fn last_after(before: BlockHashNum, blocks: Seq<BlockHashNum>) -> BlockHashNum {
    if blocks.len() > 0 {
        blocks.last()
    } else {
        before
    }
}

/// Takes ordered data and says which blocks are to be finalized for it.
pub struct OrderedDataInterpreter {
    last_finalized_by_stance: BlockHashNum,
    session_boundaries: SessionBoundaries,
}

impl OrderedDataInterpreter {
    /// The block that the ordering has finalized last.
    pub closed spec fn last_finalized(&self) -> BlockHashNum {
        self.last_finalized_by_stance
    }

    /// The boundaries of the session.
    pub closed spec fn boundaries(&self) -> SessionBoundaries {
        self.session_boundaries
    }

    /// An interpreter for the session with the given boundaries.
    /// `last_block_prev_session` is the block whose number
    /// `get_last_block_prev_session` gives for them.
    pub fn new(
        last_block_prev_session: BlockHashNum,
        session_boundaries: SessionBoundaries,
    ) -> (made: Self)
        ensures
            made.last_finalized() == last_block_prev_session,
            made.boundaries() == session_boundaries,
    {
        OrderedDataInterpreter {
            last_finalized_by_stance: last_block_prev_session,
            session_boundaries,
        }
    }

    /// The block that the ordering has finalized last.
    pub fn last_finalized_by_stance(&self) -> (block: BlockHashNum)
        ensures
            block == self.last_finalized(),
    {
        self.last_finalized_by_stance
    }

    pub fn session_boundaries(&self) -> (b: SessionBoundaries)
        ensures
            b == self.boundaries(),
    {
        self.session_boundaries
    }

    /// The blocks to finalize for a proposal of the given status: those that
    /// the status names, and none for a proposal that is out of bounds or to
    /// be ignored. A pending proposal in ordered data is a defect of the
    /// caller.
    pub fn blocks_to_finalize_from_data(&self, status: ProposalStatus) -> (blocks: Vec<
        BlockHashNum,
    >)
        requires
            !(status is Pending),
        ensures
            blocks@ == blocks_of(status),
    {
        match status {
            ProposalStatus::Finalize(blocks) => blocks,
            _ => Vec::new(),
        }
    }

    /// Ordered data with a proposal of the given status was finalized.
    /// Answers the blocks to hand on for signing, in order, and remembers the
    /// last of them.
    pub fn data_finalized(&mut self, status: ProposalStatus) -> (blocks: Vec<BlockHashNum>)
        requires
            !(status is Pending),
        ensures
            blocks@ == blocks_of(status),
            final(self).last_finalized() == last_after(old(self).last_finalized(), blocks@),
            final(self).boundaries() == old(self).boundaries(),
    {
        let blocks = self.blocks_to_finalize_from_data(status);
        if blocks.len() > 0 {
            self.last_finalized_by_stance = blocks[blocks.len() - 1];
        }
        blocks
    }
}

} // verus!
