//! Where a token entry lies in a flat plane, and which addresses exist.
//!
//! Both K and V are stored as one flat plane with layers, blocks and slots
//! folded into the index:
//!
//! ```text
//! index = ((layer * num_blocks + block) * block_size + slot) * entry_elems + i
//! ```
//!
//! Block-major within a layer: copying a block then touches one contiguous run
//! per layer instead of striding across the whole pool.

use vstd::prelude::*;

use crate::config::CacheConfig;
use crate::error::CacheError;
use crate::types::{BlockId, PhysicalSlot};

verus! {

/// The place of one token entry: a slot of a block in a layer.
pub struct Cell {
    pub layer: int,
    pub block: int,
    pub slot: int,
}

impl CacheConfig {
    /// All lengths and offsets within a plane fit a machine word.
    pub open spec fn addressable(self) -> bool {
        &&& self.entry_len() <= usize::MAX
        &&& self.block_len() <= usize::MAX
        &&& self.layer_len() <= usize::MAX
        &&& self.plane_len() <= usize::MAX
        &&& self.num_layers * self.num_blocks <= usize::MAX
    }

    /// Whether the cell exists.
    pub open spec fn has_cell(self, c: Cell) -> bool {
        &&& 0 <= c.layer < self.num_layers
        &&& 0 <= c.block < self.num_blocks
        &&& 0 <= c.slot < self.block_size
    }

    /// The number of cells before this one in a plane.
    pub open spec fn rank(self, c: Cell) -> int {
        (c.layer * self.num_blocks + c.block) * self.block_size + c.slot
    }

    /// Offset of a block's first element within a plane.
    pub open spec fn run_start(self, layer: int, block: int) -> int {
        (layer * self.num_blocks + block) * self.block_len()
    }

    /// Offset of a cell's first element within a plane.
    pub open spec fn start(self, c: Cell) -> int {
        self.run_start(c.layer, c.block) + c.slot * self.entry_len()
    }

    /// Why `block` is not a block of the pool, if it is not.
    pub open spec fn block_error(self, block: BlockId) -> Option<CacheError> {
        if block.0 >= self.num_blocks {
            Some(CacheError::InvalidBlock { id: block, num_blocks: self.num_blocks })
        } else {
            None
        }
    }

    /// Why there is no such cell, if there is none: the layer is looked at
    /// first, then the block, then the slot.
    pub open spec fn slot_error(self, layer: usize, at: PhysicalSlot) -> Option<CacheError> {
        if layer >= self.num_layers {
            Some(CacheError::InvalidLayer { layer, num_layers: self.num_layers })
        } else if self.block_error(at.block) is Some {
            self.block_error(at.block)
        } else if at.slot >= self.block_size {
            Some(CacheError::SlotOutOfRange { slot: at.slot, block_size: self.block_size })
        } else {
            None
        }
    }

    /// Why K and V entries of these lengths cannot be moved to or from the
    /// cell, if they cannot: the address is looked at first, then K, then V.
    pub open spec fn entry_error(
        self,
        layer: usize,
        at: PhysicalSlot,
        k_len: nat,
        v_len: nat,
    ) -> Option<CacheError> {
        if self.slot_error(layer, at) is Some {
            self.slot_error(layer, at)
        } else if k_len != self.entry_len() {
            Some(
                CacheError::ShapeMismatch {
                    expected: self.entry_len() as usize,
                    actual: k_len as usize,
                },
            )
        } else if v_len != self.entry_len() {
            Some(
                CacheError::ShapeMismatch {
                    expected: self.entry_len() as usize,
                    actual: v_len as usize,
                },
            )
        } else {
            None
        }
    }

    /// Why block `src` cannot be copied to block `dst`, if it cannot.
    pub open spec fn copy_error(self, src: BlockId, dst: BlockId) -> Option<CacheError> {
        if self.block_error(src) is Some {
            self.block_error(src)
        } else {
            self.block_error(dst)
        }
    }

    /// Whether all lengths and offsets within a plane fit a machine word.
    pub fn is_addressable(&self) -> (b: bool)
        ensures
            b == self.addressable(),
    {
        let entry: usize = match self.num_kv_heads.checked_mul(self.head_dim) {
            Some(n) => n,
            None => {
                return false;
            },
        };
        let block: usize = match self.block_size.checked_mul(entry) {
            Some(n) => n,
            None => {
                return false;
            },
        };
        let layer: usize = match self.num_blocks.checked_mul(block) {
            Some(n) => n,
            None => {
                return false;
            },
        };
        self.num_layers.checked_mul(layer).is_some() && self.num_layers.checked_mul(
            self.num_blocks,
        ).is_some()
    }

    /// Whether the size of the pool in bytes can be computed in machine words.
    pub fn has_byte_count(&self) -> (b: bool)
        requires
            self.addressable(),
        ensures
            b == self.bytes_fit(),
    {
        let layers: usize = match self.num_layers.checked_mul(2) {
            Some(n) => n,
            None => {
                return false;
            },
        };
        proof {
            let l = self.num_layers as int;
            let e = self.layer_len() as int;
            assert(2 * l * e == 2 * (l * e)) by (nonlinear_arith);
        }
        match layers.checked_mul(self.layer_elems()) {
            Some(n) => n.checked_mul(self.dtype_bytes).is_some(),
            None => false,
        }
    }

    /// Check that `block` is a block of the pool.
    pub fn validate_block(&self, block: BlockId) -> (r: Result<(), CacheError>)
        ensures
            match r {
                Ok(_) => self.block_error(block) is None,
                Err(e) => self.block_error(block) == Some(e),
            },
    {
        if block.index() >= self.num_blocks {
            return Err(CacheError::InvalidBlock { id: block, num_blocks: self.num_blocks });
        }
        Ok(())
    }

    /// Check that the slot exists in this layer.
    pub fn validate(&self, layer: usize, at: PhysicalSlot) -> (r: Result<(), CacheError>)
        ensures
            match r {
                Ok(_) => self.slot_error(layer, at) is None,
                Err(e) => self.slot_error(layer, at) == Some(e),
            },
    {
        if layer >= self.num_layers {
            return Err(CacheError::InvalidLayer { layer, num_layers: self.num_layers });
        }
        match self.validate_block(at.block) {
            Ok(_) => {},
            Err(e) => {
                return Err(e);
            },
        }
        if at.slot >= self.block_size {
            return Err(
                CacheError::SlotOutOfRange { slot: at.slot, block_size: self.block_size },
            );
        }
        Ok(())
    }

    /// Check an address together with the lengths of a K and a V entry.
    pub fn validate_entry(
        &self,
        layer: usize,
        at: PhysicalSlot,
        k_len: usize,
        v_len: usize,
    ) -> (r: Result<(), CacheError>)
        requires
            self.entry_len() <= usize::MAX,
        ensures
            match r {
                Ok(_) => self.entry_error(layer, at, k_len as nat, v_len as nat) is None,
                Err(e) => self.entry_error(layer, at, k_len as nat, v_len as nat) == Some(e),
            },
    {
        match self.validate(layer, at) {
            Ok(_) => {},
            Err(e) => {
                return Err(e);
            },
        }
        let n: usize = self.entry_elems();
        match check_len(n, k_len) {
            Ok(_) => {},
            Err(e) => {
                return Err(e);
            },
        }
        check_len(n, v_len)
    }

    /// Offset of the start of `block`'s data within `layer`.
    pub fn block_offset(&self, layer: usize, block: BlockId) -> (offset: usize)
        requires
            self.addressable(),
            layer < self.num_layers,
            block.0 < self.num_blocks,
        ensures
            offset == self.run_start(layer as int, block.0 as int),
            offset + self.block_len() <= self.plane_len(),
    {
        proof {
            self.lemma_run(layer as int, block.0 as int);
        }
        (layer * self.num_blocks + block.index()) * self.block_elems()
    }

    /// Offset of one token entry.
    pub fn slot_offset(&self, layer: usize, at: PhysicalSlot) -> (offset: usize)
        requires
            self.addressable(),
            self.slot_error(layer, at) is None,
        ensures
            offset == self.start(at.cell(layer as int)),
            offset + self.entry_len() <= self.plane_len(),
    {
        proof {
            self.lemma_run(layer as int, at.block.0 as int);
            self.lemma_in_run(at.slot as int);
        }
        self.block_offset(layer, at.block) + at.slot * self.entry_elems()
    }
}

/// Check a length against the one that is due.
pub fn check_len(expected: usize, actual: usize) -> (r: Result<(), CacheError>)
    ensures
        match r {
            Ok(_) => expected == actual,
            Err(e) => expected != actual && e == (CacheError::ShapeMismatch { expected, actual }),
        },
{
    if expected != actual {
        return Err(CacheError::ShapeMismatch { expected, actual });
    }
    Ok(())
}

impl PhysicalSlot {
    /// The cell that this slot has in `layer`.
    pub open spec fn cell(self, layer: int) -> Cell {
        Cell { layer, block: self.block.0 as int, slot: self.slot as int }
    }
}

/// Facts about addresses.
impl CacheConfig {
    /// A block's run of elements lies in the plane.
    pub proof fn lemma_run(self, layer: int, block: int)
        requires
            0 <= layer < self.num_layers,
            0 <= block < self.num_blocks,
        ensures
            0 <= layer * self.num_blocks + block < self.num_layers * self.num_blocks,
            0 <= layer * self.num_blocks <= layer * self.num_blocks + block,
            0 <= self.run_start(layer, block),
            self.run_start(layer, block) + self.block_len() <= self.plane_len(),
    {
        let l = self.num_layers as int;
        let n = self.num_blocks as int;
        let e = self.block_len() as int;
        let i = layer * n + block;
        assert(0 <= layer * n && i + 1 <= l * n) by (nonlinear_arith)
            requires
                0 <= layer <= l - 1,
                0 <= block < n,
                i == layer * n + block,
        ;
        assert(0 <= i * e && i * e + e <= l * (n * e)) by (nonlinear_arith)
            requires
                0 <= i,
                i + 1 <= l * n,
                e >= 0,
        ;
    }

    /// A cell's elements lie in its block's run.
    pub proof fn lemma_in_run(self, slot: int)
        requires
            0 <= slot < self.block_size,
        ensures
            0 <= slot * self.entry_len(),
            slot * self.entry_len() + self.entry_len() <= self.block_len(),
    {
        let b = self.block_size as int;
        let e = self.entry_len() as int;
        assert(0 <= slot * e && slot * e + e <= b * e) by (nonlinear_arith)
            requires
                0 <= slot <= b - 1,
                e >= 0,
        ;
    }

    /// The runs of different blocks do not overlap.
    pub proof fn lemma_runs_disjoint(self, layer: int, block: int, layer2: int, block2: int)
        requires
            0 <= layer < self.num_layers,
            0 <= block < self.num_blocks,
            0 <= layer2 < self.num_layers,
            0 <= block2 < self.num_blocks,
            layer != layer2 || block != block2,
        ensures
            self.run_start(layer, block) + self.block_len() <= self.run_start(layer2, block2)
                || self.run_start(layer2, block2) + self.block_len() <= self.run_start(
                layer,
                block,
            ),
    {
        let n = self.num_blocks as int;
        let e = self.block_len() as int;
        let i = layer * n + block;
        let j = layer2 * n + block2;
        vstd::arithmetic::div_mod::lemma_fundamental_div_mod_converse(i, n, layer, block);
        vstd::arithmetic::div_mod::lemma_fundamental_div_mod_converse(j, n, layer2, block2);
        if i < j {
            assert(i * e + e <= j * e) by (nonlinear_arith)
                requires
                    i + 1 <= j,
                    e >= 0,
            ;
        } else {
            assert(j * e + e <= i * e) by (nonlinear_arith)
                requires
                    j + 1 <= i,
                    e >= 0,
            ;
        }
    }

    /// The address formula: an entry starts at its cell's rank times the length
    /// of an entry.
    pub proof fn entries_lie_in_rank_order(self, c: Cell)
        ensures
            self.start(c) == self.rank(c) * self.entry_len(),
    {
        let i = c.layer * self.num_blocks + c.block;
        let b = self.block_size as int;
        let e = self.entry_len() as int;
        let s = c.slot;
        assert(i * (b * e) + s * e == (i * b + s) * e) by (nonlinear_arith);
    }

    /// Different cells have different ranks.
    pub proof fn lemma_rank_injective(self, c: Cell, d: Cell)
        requires
            self.has_cell(c),
            self.has_cell(d),
            self.rank(c) == self.rank(d),
        ensures
            c == d,
    {
        let b = self.block_size as int;
        let n = self.num_blocks as int;
        let i = c.layer * n + c.block;
        let j = d.layer * n + d.block;
        vstd::arithmetic::div_mod::lemma_fundamental_div_mod_converse(
            self.rank(c),
            b,
            i,
            c.slot,
        );
        vstd::arithmetic::div_mod::lemma_fundamental_div_mod_converse(
            self.rank(d),
            b,
            j,
            d.slot,
        );
        vstd::arithmetic::div_mod::lemma_fundamental_div_mod_converse(i, n, c.layer, c.block);
        vstd::arithmetic::div_mod::lemma_fundamental_div_mod_converse(j, n, d.layer, d.block);
    }

    /// Entries do not overlap, and all lie in the plane.
    pub proof fn entries_do_not_overlap(self, c: Cell, d: Cell)
        requires
            self.has_cell(c),
            self.has_cell(d),
            c != d,
        ensures
            0 <= self.start(c),
            self.start(c) + self.entry_len() <= self.plane_len(),
            self.start(c) + self.entry_len() <= self.start(d) || self.start(d) + self.entry_len()
                <= self.start(c),
    {
        self.lemma_run(c.layer, c.block);
        self.lemma_in_run(c.slot);
        self.entries_lie_in_rank_order(c);
        self.entries_lie_in_rank_order(d);
        if self.rank(c) == self.rank(d) {
            self.lemma_rank_injective(c, d);
        }
        let x = self.rank(c);
        let y = self.rank(d);
        let e = self.entry_len() as int;
        if x < y {
            assert(x * e + e <= y * e) by (nonlinear_arith)
                requires
                    x + 1 <= y,
                    e >= 0,
            ;
        } else {
            assert(y * e + e <= x * e) by (nonlinear_arith)
                requires
                    y + 1 <= x,
                    e >= 0,
            ;
        }
    }
}

} // verus!
