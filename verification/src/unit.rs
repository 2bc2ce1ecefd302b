//! Units: the vertices of the DAG.

use vstd::prelude::*;

verus! {

/// Index of a committee member, in `[0, n)`.
pub type NodeIndex = usize;

/// Generation counter of a unit.
pub type Round = u32;

/// Content digest of a unit; it is the unit's identity.
pub type UnitHash = u64;

/// The mathematical content of a unit's header.
pub struct Node {
    pub creator: nat,
    pub round: nat,
    pub parents: Seq<Option<UnitHash>>,
    pub hash: UnitHash,
}

/// What the DAG needs to know of a unit: who made it, in which round, on top
/// of which units of the round before, and under which digest it is known.
#[derive(Debug)]
pub struct Header {
    pub creator: NodeIndex,
    pub round: Round,
    /// Slot `i` holds the digest of member `i`'s unit taken as a parent, if any.
    pub parents: Vec<Option<UnitHash>>,
    pub hash: UnitHash,
}

impl View for Header {
    type V = Node;

    open spec fn view(&self) -> Node {
        Node {
            creator: self.creator as nat,
            round: self.round as nat,
            parents: self.parents@,
            hash: self.hash,
        }
    }
}

impl Header {
    /// An independent copy of this header.
    pub fn duplicate(&self) -> (copy: Header)
        ensures
            copy@ == self@,
            copy.creator == self.creator,
            copy.round == self.round,
            copy.hash == self.hash,
    {
        Header {
            creator: self.creator,
            round: self.round,
            parents: self.parents.clone(),
            hash: self.hash,
        }
    }
}

/// A unit as it travels between participants: its header, the application
/// data it carries and its creator's signature over the digest.
#[derive(Debug)]
pub struct Unit {
    pub header: Header,
    pub payload: Vec<u8>,
    pub signature: Vec<u8>,
}

/// The mathematical content of a unit.
pub struct UnitContent {
    pub header: Node,
    pub payload: Seq<u8>,
    pub signature: Seq<u8>,
}

impl View for Unit {
    type V = UnitContent;

    open spec fn view(&self) -> UnitContent {
        UnitContent { header: self.header@, payload: self.payload@, signature: self.signature@ }
    }
}

impl Unit {
    /// An independent copy of this unit.
    pub fn duplicate(&self) -> (copy: Unit)
        ensures
            copy@ == self@,
            copy.header@ == self.header@,
            copy.header.creator == self.header.creator,
            copy.header.round == self.header.round,
            copy.header.hash == self.header.hash,
            copy.payload@ == self.payload@,
            copy.signature@ == self.signature@,
    {
        Unit {
            header: self.header.duplicate(),
            payload: self.payload.clone(),
            signature: self.signature.clone(),
        }
    }
}

/// A unit before it is hashed and signed.
#[derive(Debug)]
pub struct PreUnit {
    pub creator: NodeIndex,
    pub round: Round,
    pub parents: Vec<Option<UnitHash>>,
}

} // verus!
