//! Newtypes that keep block ids, sequence ids and slot offsets apart.

use vstd::prelude::*;

use crate::text::{self, append_decimal};

verus! {

/// Index of a *physical* block in the cache pool.
///
/// A newtype rather than a bare `u32`: logical block indices, physical block
/// ids, slot offsets and token positions are all small integers, and mixing
/// them up is the easiest bug to write here.
#[derive(Debug, Clone, Copy, PartialEq, Eq, PartialOrd, Ord, Hash, Structural)]
pub struct BlockId(pub u32);

impl BlockId {
    /// The id as an index into per-block arrays.
    pub fn index(self) -> (i: usize)
        ensures
            i == self.0,
    {
        self.0 as usize
    }

    /// How a block id reads in messages: `#` and its number.
    pub open spec fn label(self) -> Seq<char> {
        "#"@ + text::decimal(self.0 as nat)
    }

    /// Render the id as it appears in messages.
    pub fn to_string(&self) -> (s: String)
        ensures
            s@ == self.label(),
    {
        let mut s = "#".to_string();
        append_decimal(&mut s, self.0 as u64);
        s
    }
}

/// Identifier of a live sequence: one decoding request, or one beam.
#[derive(Debug, Clone, Copy, PartialEq, Eq, PartialOrd, Ord, Hash, Structural)]
pub struct SeqId(pub u64);

impl SeqId {
    /// How a sequence id reads in messages: `seq` and its number.
    pub open spec fn label(self) -> Seq<char> {
        "seq"@ + text::decimal(self.0 as nat)
    }

    /// Render the id as it appears in messages.
    pub fn to_string(&self) -> (s: String)
        ensures
            s@ == self.label(),
    {
        let mut s = "seq".to_string();
        append_decimal(&mut s, self.0);
        s
    }
}

/// A fully resolved physical address for one token's entry: which physical
/// block, and which slot within it.
#[derive(Debug, Clone, Copy, PartialEq, Eq, Structural)]
pub struct PhysicalSlot {
    pub block: BlockId,
    pub slot: usize,
}

impl PhysicalSlot {
    pub fn new(block: BlockId, slot: usize) -> (at: Self)
        ensures
            at.block == block,
            at.slot == slot,
    {
        Self { block, slot }
    }

    /// How an address reads in messages: the block, then the slot in brackets.
    pub open spec fn label(self) -> Seq<char> {
        self.block.label() + "["@ + text::decimal(self.slot as nat) + "]"@
    }

    /// Render the address as it appears in messages.
    pub fn to_string(&self) -> (s: String)
        ensures
            s@ == self.label(),
    {
        let mut s = self.block.to_string();
        s.append("[");
        append_decimal(&mut s, self.slot as u64);
        s.append("]");
        s
    }
}

} // verus!
