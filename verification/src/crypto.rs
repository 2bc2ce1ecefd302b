//! The cryptographic capabilities that the engine is handed.

use vstd::prelude::*;
use crate::unit::{NodeIndex, Round, UnitHash};

verus! {

/// Hashing and signing, as the engine uses them. The engine asks nothing of
/// an implementation but answers: what it proves holds whatever is answered.
pub trait Keychain {
    /// The digest of a unit's content.
    fn digest(
        &self,
        creator: NodeIndex,
        round: Round,
        parents: &Vec<Option<UnitHash>>,
        payload: &Vec<u8>,
    ) -> UnitHash;

    /// This participant's signature over `digest`.
    fn sign(&self, digest: UnitHash) -> Vec<u8>;

    /// Whether `signature` is `signer`'s signature over `digest`.
    fn verify(&self, digest: UnitHash, signature: &Vec<u8>, signer: NodeIndex) -> bool;
}

/// Signing of the items that sessions of reliable broadcast are about. As
/// with `Keychain`, nothing is asked of an implementation but answers.
pub trait MultiKeychain<H> {
    /// This participant's partial signature over `item`.
    fn sign(&self, item: &H) -> Vec<u8>;

    /// Whether `signature` is `signer`'s partial signature over `item`.
    fn verify(&self, item: &H, signature: &Vec<u8>, signer: NodeIndex) -> bool;
}

} // verus!
