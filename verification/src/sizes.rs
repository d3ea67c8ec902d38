//! Size parameters that a primitive declares.
use vstd::prelude::*;

verus! {

/// A primitive that works on blocks of one fixed size.
pub trait BlockSizeUser {
    /// The size of a block in bytes.
    spec fn spec_block_size(&self) -> nat;

    /// The size of a block in bytes.
    fn block_size(&self) -> (n: usize)
        ensures
            n == self.spec_block_size(),
    ;
}

/// A primitive that can process several blocks side by side.
pub trait ParBlocksSizeUser: BlockSizeUser {
    /// The lane width: how many blocks make one lane group.
    spec fn spec_par_blocks_size(&self) -> nat;

    /// The lane width, which is at least one.
    fn par_blocks_size(&self) -> (n: usize)
        ensures
            n == self.spec_par_blocks_size(),
            n >= 1,
    ;
}

/// A primitive that is set up with an initialization vector of one fixed
/// size.
pub trait IvSizeUser {
    /// The size of the initialization vector in bytes.
    spec fn spec_iv_size(&self) -> nat;

    /// The size of the initialization vector in bytes.
    fn iv_size(&self) -> (n: usize)
        ensures
            n == self.spec_iv_size(),
    ;
}

/// Access to the current initialization-vector state.
pub trait IvState: IvSizeUser {
    /// The current initialization-vector state.
    spec fn spec_iv_state(&self) -> Seq<u8>;

    /// Returns the current initialization-vector state.
    fn iv_state(&self) -> (iv: Vec<u8>)
        ensures
            iv@ == self.spec_iv_state(),
            iv@.len() == self.spec_iv_size(),
    ;
}

} // verus!
