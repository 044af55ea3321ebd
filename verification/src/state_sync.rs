//! State snapshots exchanged for fast synchronisation.
use vstd::prelude::*;
use crate::hashing::BlockHash;

verus! {

/// A serialised state with the root and block it belongs to.
#[derive(Debug, Clone)]
pub struct StateSnapshot {
    pub state_root: [u8; 32],
    pub block_height: u64,
    pub block_hash: BlockHash,
    pub state_data: Vec<u8>,
}

impl StateSnapshot {
    /// The size of the serialised state, in bytes.
    pub fn size_bytes(&self) -> (r: usize)
        ensures
            r == self.state_data@.len(),
    {
        self.state_data.len()
    }
}

} // verus!
