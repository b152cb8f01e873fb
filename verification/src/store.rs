//! The block store that a graph is read from and written to.

use vstd::prelude::*;
use cid::Cid;

verus! {

/// The multihash code of SHA2-256.
pub const SHA2_256: u64 = 0x12;

/// The multihash code of BLAKE2b with 256 bits of output.
pub const BLAKE2B_256: u64 = 0xb220;

/// What a store holds, as a mathematical map. Code never computes a value of
/// this type: an implementation outside verified code gives `blocks` a body
/// that is never run.
pub type Blocks = Map<Cid, Seq<u8>>;

/// A store of encoded blocks, each under its content identifier.
///
/// The contracts are what an implementation owes: a block that is read is the
/// one that the store holds, and a block that is written is held from then on
/// under the identifier that is handed back. Neither call is owed to succeed.
pub trait IpldStore {
    /// What the store fails with.
    type Error;

    /// The blocks that the store holds.
    spec fn blocks(&self) -> Blocks;

    /// The bytes of the block stored under `cid`.
    fn read(&self, cid: &Cid) -> (res: Result<Vec<u8>, Self::Error>)
        ensures
            res matches Ok(bytes) ==> self.blocks().contains_key(*cid) && bytes@
                == self.blocks()[*cid],
    ;

    /// Stores `bytes` under the identifier that the hash function with the
    /// multihash code `hash` gives them, and returns that identifier.
    fn write(&mut self, bytes: Vec<u8>, hash: u64) -> (res: Result<Cid, Self::Error>)
        ensures
            res matches Ok(cid) ==> final(self).blocks() == old(self).blocks().insert(cid, bytes@),
    ;
}

} // verus!
