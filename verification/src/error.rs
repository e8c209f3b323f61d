//! Errors surfaced by the cache layer.

use vstd::prelude::*;

use crate::text::{self, append_decimal};
use crate::types::{BlockId, SeqId};

verus! {

/// Everything that can go wrong between a caller and the pool.
#[derive(Debug, Clone, PartialEq, Eq)]
pub enum CacheError {
    /// The free list is empty. The caller must evict, preempt, or reject.
    OutOfBlocks { requested: usize, available: usize },
    /// Block id is outside `0..num_blocks`.
    InvalidBlock { id: BlockId, num_blocks: usize },
    /// Operation requires a live block but this one has refcount 0.
    BlockNotAllocated { id: BlockId },
    /// Refcount would exceed the width of the counter: a fork storm.
    RefCountOverflow { id: BlockId, max: u32 },
    /// A slot index was >= `block_size`.
    SlotOutOfRange { slot: usize, block_size: usize },
    /// A K or V tensor whose length is not `num_kv_heads * head_dim`.
    ShapeMismatch { expected: usize, actual: usize },
    /// Layer index was >= `num_layers`.
    InvalidLayer { layer: usize, num_layers: usize },
    /// A scheduler operation named a sequence that is not running.
    UnknownSequence { id: SeqId },
    /// An error of a device backend, carried as a message so that this crate
    /// needs no backend's own error types.
    Device(String),
}

impl CacheError {
    /// The sentence that describes the error.
    pub open spec fn text(self) -> Seq<char> {
        match self {
            CacheError::OutOfBlocks { requested, available } => {
                "out of KV blocks: requested "@ + text::decimal(requested as nat) + ", only "@ + text::decimal(
                    available as nat,
                ) + " free"@
            },
            CacheError::InvalidBlock { id, num_blocks } => {
                "invalid block "@ + id.label() + ": pool holds "@ + text::decimal(num_blocks as nat)
                    + " blocks"@
            },
            CacheError::BlockNotAllocated { id } => {
                "block "@ + id.label() + " is not allocated (refcount 0)"@
            },
            CacheError::RefCountOverflow { id, max } => {
                "refcount overflow on block "@ + id.label() + " (max "@ + text::decimal(max as nat) + ")"@
            },
            CacheError::SlotOutOfRange { slot, block_size } => {
                "slot "@ + text::decimal(slot as nat) + " out of range for block size "@ + text::decimal(
                    block_size as nat,
                )
            },
            CacheError::ShapeMismatch { expected, actual } => {
                "shape mismatch: expected "@ + text::decimal(expected as nat) + " elements, got "@
                    + text::decimal(actual as nat)
            },
            CacheError::InvalidLayer { layer, num_layers } => {
                "invalid layer "@ + text::decimal(layer as nat) + ": model has "@ + text::decimal(
                    num_layers as nat,
                ) + " layers"@
            },
            CacheError::UnknownSequence { id } => {
                "no sequence with id "@ + id.label() + " is running or waiting"@
            },
            CacheError::Device(msg) => "device error: "@ + msg@,
        }
    }

    /// Render the error as a sentence.
    pub fn to_string(&self) -> (s: String)
        ensures
            s@ == self.text(),
    {
        match self {
            CacheError::OutOfBlocks { requested, available } => {
                let mut s = "out of KV blocks: requested ".to_string();
                append_decimal(&mut s, *requested as u64);
                s.append(", only ");
                append_decimal(&mut s, *available as u64);
                s.append(" free");
                s
            },
            CacheError::InvalidBlock { id, num_blocks } => {
                let mut s = "invalid block ".to_string();
                s.append(id.to_string().as_str());
                s.append(": pool holds ");
                append_decimal(&mut s, *num_blocks as u64);
                s.append(" blocks");
                s
            },
            CacheError::BlockNotAllocated { id } => {
                let mut s = "block ".to_string();
                s.append(id.to_string().as_str());
                s.append(" is not allocated (refcount 0)");
                s
            },
            CacheError::RefCountOverflow { id, max } => {
                let mut s = "refcount overflow on block ".to_string();
                s.append(id.to_string().as_str());
                s.append(" (max ");
                append_decimal(&mut s, *max as u64);
                s.append(")");
                s
            },
            CacheError::SlotOutOfRange { slot, block_size } => {
                let mut s = "slot ".to_string();
                append_decimal(&mut s, *slot as u64);
                s.append(" out of range for block size ");
                append_decimal(&mut s, *block_size as u64);
                s
            },
            CacheError::ShapeMismatch { expected, actual } => {
                let mut s = "shape mismatch: expected ".to_string();
                append_decimal(&mut s, *expected as u64);
                s.append(" elements, got ");
                append_decimal(&mut s, *actual as u64);
                s
            },
            CacheError::InvalidLayer { layer, num_layers } => {
                let mut s = "invalid layer ".to_string();
                append_decimal(&mut s, *layer as u64);
                s.append(": model has ");
                append_decimal(&mut s, *num_layers as u64);
                s.append(" layers");
                s
            },
            CacheError::UnknownSequence { id } => {
                let mut s = "no sequence with id ".to_string();
                s.append(id.to_string().as_str());
                s.append(" is running or waiting");
                s
            },
            CacheError::Device(msg) => {
                let mut s = "device error: ".to_string();
                s.append(msg.as_str());
                s
            },
        }
    }
}

} // verus!
