use vstd::prelude::*;

verus! {

/// The two kinds of blocks: macro blocks close a batch and are final, micro
/// blocks are provisional and may be reverted.
#[derive(Clone, Copy, Debug, PartialEq, Eq, Structural)]
pub enum BlockType {
    Macro,
    Micro,
}

/// What the header signature check, the justification check and the ledger
/// replay say of a block. The signature checks are made by the verifier
/// against the intended slot owner before the block reaches this crate; the
/// ledger replay is consulted only when the block is applied to the main chain.
#[derive(Clone, Copy, Debug, PartialEq, Eq, Structural)]
pub enum Validity {
    Valid,
    BadHeader,
    BadJustification,
    BadState,
}

/// A block, identified by its content hash.
#[derive(Clone, Copy, Debug, PartialEq, Eq, Structural)]
pub struct Block {
    pub hash: u64,
    pub parent_hash: u64,
    pub block_number: u32,
    pub view_number: u32,
    pub ty: BlockType,
    pub validity: Validity,
}

impl Block {
    /// A micro block that passes every check.
    pub fn new(hash: u64, parent_hash: u64, block_number: u32, view_number: u32) -> (r: Block)
        ensures
            r == (Block {
                hash,
                parent_hash,
                block_number,
                view_number,
                ty: BlockType::Micro,
                validity: Validity::Valid,
            }),
    {
        Block { hash, parent_hash, block_number, view_number, ty: BlockType::Micro, validity: Validity::Valid }
    }

    /// The same block with another type.
    pub fn with_type(self, ty: BlockType) -> (r: Block)
        ensures
            r == (Block { ty, ..self }),
    {
        Block { ty, ..self }
    }

    /// The same block with another check outcome.
    pub fn with_validity(self, validity: Validity) -> (r: Block)
        ensures
            r == (Block { validity, ..self }),
    {
        Block { validity, ..self }
    }

    pub fn hash(&self) -> (r: u64)
        ensures
            r == self.hash,
    {
        self.hash
    }

    pub fn parent_hash(&self) -> (r: u64)
        ensures
            r == self.parent_hash,
    {
        self.parent_hash
    }

    pub fn block_number(&self) -> (r: u32)
        ensures
            r == self.block_number,
    {
        self.block_number
    }

    pub fn view_number(&self) -> (r: u32)
        ensures
            r == self.view_number,
    {
        self.view_number
    }

    pub fn is_macro(&self) -> (r: bool)
        ensures
            r == (self.ty == BlockType::Macro),
    {
        match self.ty {
            BlockType::Macro => true,
            BlockType::Micro => false,
        }
    }
}

} // verus!
