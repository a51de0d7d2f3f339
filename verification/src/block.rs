use vstd::prelude::*;

verus! {

/// A voxel's type tag; `0` means air.
#[derive(Clone, Copy, PartialEq, Eq, Structural, Debug)]
pub struct Block {
    pub block_type: u16,
}

impl Block {
    /// A block occludes light and faces exactly when its type is non-zero.
    pub fn is_full_block(&self) -> (r: bool)
        ensures
            r == (self.block_type > 0),
    {
        self.block_type > 0
    }
}

} // verus!
