//! What a device backend hands to its kernels.
//!
//! Planning a launch is plain arithmetic on the geometry and the addresses; the
//! device backend only moves the planned values to the device and launches.

use vstd::prelude::*;

use crate::address::check_len;
use crate::config::CacheConfig;
use crate::error::CacheError;
use crate::text::{self, append_decimal};
use crate::types::{BlockId, PhysicalSlot};

verus! {

/// Threads in each block of a launch.
pub const THREADS_PER_BLOCK: u32 = 256;

/// A launch of the kernel that scatters token entries into the pool: one block
/// of threads per token.
#[derive(Debug, Clone)]
pub struct WriteLaunch {
    /// For each token, block times block size plus slot.
    pub slot_mapping: Vec<i64>,
    pub layer: i32,
    pub num_blocks: i32,
    pub block_size: i32,
    pub entry_elems: i32,
    pub grid: u32,
}

/// A launch of the kernel that copies blocks: one block of threads per pair and
/// layer.
#[derive(Debug, Clone)]
pub struct CopyLaunch {
    /// Source and destination of each pair, one pair after the other.
    pub pairs: Vec<i64>,
    pub num_pairs: i32,
    pub num_layers: i32,
    pub num_blocks: i32,
    pub block_elems: i32,
    pub grid: u32,
}

/// A launch of the kernel that zeroes a block: one block of threads per layer.
#[derive(Debug, Clone)]
pub struct ZeroLaunch {
    pub block: i32,
    pub num_layers: i32,
    pub num_blocks: i32,
    pub block_elems: i32,
    pub grid: u32,
}

impl CacheConfig {
    /// The place of a slot in a layer, counting slots through all blocks.
    pub open spec fn slot_index(self, at: PhysicalSlot) -> int {
        at.block.0 * self.block_size + at.slot
    }

    /// The first slot in the batch that does not exist, as an error.
    pub open spec fn is_first_slot_error(
        self,
        layer: usize,
        dsts: Seq<PhysicalSlot>,
        e: CacheError,
    ) -> bool {
        exists|i: int|
            {
                &&& 0 <= i < dsts.len()
                &&& self.slot_error(layer, #[trigger] dsts[i]) == Some(e)
                &&& forall|j: int|
                    0 <= j < i ==> self.slot_error(layer, #[trigger] dsts[j]) is None
            }
    }

    /// The first block in the pairs that does not exist, as an error.
    pub open spec fn is_first_copy_error(
        self,
        pairs: Seq<(BlockId, BlockId)>,
        e: CacheError,
    ) -> bool {
        exists|i: int|
            {
                &&& 0 <= i < pairs.len()
                &&& self.copy_error((#[trigger] pairs[i]).0, pairs[i].1) == Some(e)
                &&& forall|j: int|
                    0 <= j < i ==> self.copy_error((#[trigger] pairs[j]).0, pairs[j].1) is None
            }
    }

    /// Plan to write a batch of token entries into one layer. `k_len` and
    /// `v_len` are the lengths of all K and all V entries together. An empty
    /// batch needs no launch.
    pub fn plan_write(
        &self,
        layer: usize,
        dsts: &[PhysicalSlot],
        k_len: usize,
        v_len: usize,
    ) -> (r: Result<Option<WriteLaunch>, CacheError>)
        requires
            self.entry_len() <= usize::MAX,
            dsts@.len() * self.entry_len() <= usize::MAX,
            self.num_blocks * self.block_size <= i64::MAX,
        ensures
            ({
                let expected = (dsts@.len() * self.entry_len()) as usize;
                match r {
                    Err(e) => if k_len != expected {
                        e == (CacheError::ShapeMismatch { expected, actual: k_len })
                    } else if v_len != expected {
                        e == (CacheError::ShapeMismatch { expected, actual: v_len })
                    } else {
                        self.is_first_slot_error(layer, dsts@, e)
                    },
                    Ok(plan) => {
                        &&& k_len == expected
                        &&& v_len == expected
                        &&& forall|i: int|
                            0 <= i < dsts@.len() ==> self.slot_error(
                                layer,
                                #[trigger] dsts@[i],
                            ) is None
                        &&& plan is None <==> dsts@.len() == 0
                        &&& plan matches Some(l) ==> {
                            &&& l.slot_mapping@.len() == dsts@.len()
                            &&& forall|i: int|
                                0 <= i < dsts@.len() ==> #[trigger] l.slot_mapping@[i]
                                    == self.slot_index(dsts@[i])
                            &&& l.layer == layer as i32
                            &&& l.num_blocks == self.num_blocks as i32
                            &&& l.block_size == self.block_size as i32
                            &&& l.entry_elems == self.entry_len() as i32
                            &&& l.grid == dsts@.len() as u32
                        }
                    },
                }
            }),
    {
        let n: usize = self.entry_elems();
        let expected: usize = dsts.len() * n;
        match check_len(expected, k_len) {
            Ok(_) => {},
            Err(e) => {
                return Err(e);
            },
        }
        match check_len(expected, v_len) {
            Ok(_) => {},
            Err(e) => {
                return Err(e);
            },
        }
        if dsts.len() == 0 {
            return Ok(None);
        }
        let mut i: usize = 0;
        while i < dsts.len()
            invariant
                i <= dsts@.len(),
                expected == dsts@.len() * self.entry_len(),
                k_len == expected,
                v_len == expected,
                forall|j: int| 0 <= j < i ==> self.slot_error(layer, #[trigger] dsts@[j]) is None,
            decreases dsts@.len() - i,
        {
            match self.validate(layer, dsts[i]) {
                Ok(_) => {},
                Err(e) => {
                    assert(self.slot_error(layer, dsts@[i as int]) == Some(e));
                    return Err(e);
                },
            }
            i = i + 1;
        }
        let mut slot_mapping: Vec<i64> = Vec::new();
        let mut i: usize = 0;
        while i < dsts.len()
            invariant
                i <= dsts@.len(),
                self.num_blocks * self.block_size <= i64::MAX,
                forall|j: int|
                    0 <= j < dsts@.len() ==> self.slot_error(layer, #[trigger] dsts@[j]) is None,
                slot_mapping@.len() == i,
                forall|j: int|
                    0 <= j < i ==> #[trigger] slot_mapping@[j] == self.slot_index(dsts@[j]),
            decreases dsts@.len() - i,
        {
            let s = dsts[i];
            proof {
                assert(self.slot_error(layer, dsts@[i as int]) is None);
                self.lemma_slot_index(s);
            }
            let at: i64 = s.block.index() as i64 * self.block_size as i64 + s.slot as i64;
            slot_mapping.push(at);
            i = i + 1;
        }
        Ok(
            Some(
                WriteLaunch {
                    slot_mapping,
                    layer: layer as i32,
                    num_blocks: self.num_blocks as i32,
                    block_size: self.block_size as i32,
                    entry_elems: n as i32,
                    grid: dsts.len() as u32,
                },
            ),
        )
    }

    /// Plan to copy blocks. No pairs need no launch.
    pub fn plan_copy(&self, pairs: &[(BlockId, BlockId)]) -> (r: Result<
        Option<CopyLaunch>,
        CacheError,
    >)
        requires
            self.entry_len() <= usize::MAX,
            self.block_len() <= usize::MAX,
            pairs@.len() * self.num_layers <= usize::MAX,
        ensures
            match r {
                Err(e) => self.is_first_copy_error(pairs@, e),
                Ok(plan) => {
                    &&& forall|i: int|
                        0 <= i < pairs@.len() ==> self.copy_error(
                            (#[trigger] pairs@[i]).0,
                            pairs@[i].1,
                        ) is None
                    &&& plan is None <==> pairs@.len() == 0
                    &&& plan matches Some(l) ==> {
                        &&& l.pairs@.len() == 2 * pairs@.len()
                        &&& forall|i: int|
                            0 <= i < pairs@.len() ==> l.pairs@[2 * i] == (#[trigger] pairs@[i]).0.0
                                && l.pairs@[2 * i + 1] == pairs@[i].1.0
                        &&& l.num_pairs == pairs@.len() as i32
                        &&& l.num_layers == self.num_layers as i32
                        &&& l.num_blocks == self.num_blocks as i32
                        &&& l.block_elems == self.block_len() as i32
                        &&& l.grid == (pairs@.len() * self.num_layers) as u32
                    }
                },
            },
    {
        if pairs.len() == 0 {
            return Ok(None);
        }
        let mut i: usize = 0;
        while i < pairs.len()
            invariant
                i <= pairs@.len(),
                forall|j: int|
                    0 <= j < i ==> self.copy_error((#[trigger] pairs@[j]).0, pairs@[j].1) is None,
            decreases pairs@.len() - i,
        {
            let (src, dst) = pairs[i];
            match self.validate_block(src) {
                Ok(_) => {},
                Err(e) => {
                    assert(self.copy_error(pairs@[i as int].0, pairs@[i as int].1) == Some(e));
                    return Err(e);
                },
            }
            match self.validate_block(dst) {
                Ok(_) => {},
                Err(e) => {
                    assert(self.copy_error(pairs@[i as int].0, pairs@[i as int].1) == Some(e));
                    return Err(e);
                },
            }
            i = i + 1;
        }
        let mut flat: Vec<i64> = Vec::new();
        let mut i: usize = 0;
        while i < pairs.len()
            invariant
                i <= pairs@.len(),
                flat@.len() == 2 * i,
                forall|j: int|
                    0 <= j < i ==> flat@[2 * j] == (#[trigger] pairs@[j]).0.0 && flat@[2 * j + 1]
                        == pairs@[j].1.0,
            decreases pairs@.len() - i,
        {
            let (src, dst) = pairs[i];
            flat.push(src.0 as i64);
            flat.push(dst.0 as i64);
            i = i + 1;
        }
        Ok(
            Some(
                CopyLaunch {
                    pairs: flat,
                    num_pairs: pairs.len() as i32,
                    num_layers: self.num_layers as i32,
                    num_blocks: self.num_blocks as i32,
                    block_elems: self.block_elems() as i32,
                    grid: (pairs.len() * self.num_layers) as u32,
                },
            ),
        )
    }

    /// Plan to zero a block.
    pub fn plan_zero(&self, block: BlockId) -> (r: Result<ZeroLaunch, CacheError>)
        requires
            self.entry_len() <= usize::MAX,
            self.block_len() <= usize::MAX,
        ensures
            match r {
                Err(e) => self.block_error(block) == Some(e),
                Ok(l) => {
                    &&& self.block_error(block) is None
                    &&& l.block == block.0 as i32
                    &&& l.num_layers == self.num_layers as i32
                    &&& l.num_blocks == self.num_blocks as i32
                    &&& l.block_elems == self.block_len() as i32
                    &&& l.grid == self.num_layers as u32
                },
            },
    {
        match self.validate_block(block) {
            Ok(_) => {},
            Err(e) => {
                return Err(e);
            },
        }
        Ok(
            ZeroLaunch {
                block: block.index() as i32,
                num_layers: self.num_layers as i32,
                num_blocks: self.num_blocks as i32,
                block_elems: self.block_elems() as i32,
                grid: self.num_layers as u32,
            },
        )
    }

    /// A slot's index within its layer.
    pub proof fn lemma_slot_index(self, at: PhysicalSlot)
        requires
            at.block.0 < self.num_blocks,
            at.slot < self.block_size,
        ensures
            0 <= at.block.0 * self.block_size,
            self.slot_index(at) < self.num_blocks * self.block_size,
            self.block_size <= self.num_blocks * self.block_size,
    {
        let n = self.num_blocks as int;
        let b = self.block_size as int;
        let i = at.block.0 as int;
        assert(0 <= i * b && i * b + b <= n * b && b <= n * b) by (nonlinear_arith)
            requires
                0 <= i <= n - 1,
                b >= 0,
        ;
    }

    /// The kernel finds the same address as the host: the index it is given
    /// splits back into block and slot, and leads to the element where the
    /// entry starts.
    pub proof fn slot_mapping_leads_to_the_entry(self, layer: int, at: PhysicalSlot)
        requires
            at.block.0 < self.num_blocks,
            at.slot < self.block_size,
        ensures
            self.slot_index(at) / self.block_size as int == at.block.0,
            self.slot_index(at) % self.block_size as int == at.slot,
            (layer * self.num_blocks * self.block_size + self.slot_index(at)) * self.entry_len()
                == self.start(at.cell(layer)),
    {
        let b = self.block_size as int;
        let n = self.num_blocks as int;
        let i = at.block.0 as int;
        vstd::arithmetic::div_mod::lemma_fundamental_div_mod_converse(
            self.slot_index(at),
            b,
            i,
            at.slot as int,
        );
        self.entries_lie_in_rank_order(at.cell(layer));
        assert(layer * n * b + i * b == (layer * n + i) * b) by (nonlinear_arith);
    }

    /// The grid of a copy covers every pair in every layer exactly once: the
    /// index of a block of threads splits back into the two.
    pub proof fn copy_grid_covers_pairs_and_layers(self, pair: int, layer: int)
        requires
            0 <= pair,
            0 <= layer < self.num_layers,
        ensures
            (pair * self.num_layers + layer) / self.num_layers as int == pair,
            (pair * self.num_layers + layer) % self.num_layers as int == layer,
    {
        vstd::arithmetic::div_mod::lemma_fundamental_div_mod_converse(
            pair * self.num_layers + layer,
            self.num_layers as int,
            pair,
            layer,
        );
    }
}

/// What the device that holds a pool of `bytes` bytes is called: the size is in
/// whole mebibytes.
pub open spec fn device_label(bytes: usize) -> Seq<char> {
    "cuda:0 ("@ + text::decimal((bytes / 1048576) as nat) + " MiB pool)"@
}

/// Name of the device that holds a pool of `bytes` bytes.
pub fn cuda_device_name(bytes: usize) -> (name: String)
    ensures
        name@ == device_label(bytes),
        name@ == "cuda:0 ("@ + text::decimal((bytes / 1048576) as nat) + " MiB pool)"@,
{
    let mut name = "cuda:0 (".to_string();
    append_decimal(&mut name, (bytes / 1048576) as u64);
    name.append(" MiB pool)");
    name
}

} // verus!
