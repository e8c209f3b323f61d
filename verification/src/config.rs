//! Geometry of the cache pool.

use vstd::prelude::*;

verus! {

/// Quotient of `a` by `b`, rounded up.
pub open spec fn ceil_div(a: nat, b: nat) -> nat
    recommends
        b > 0,
{
    ((a + b - 1) / b as int) as nat
}

/// `ceil_div(a, b)` is the least `q` with `q * b >= a`.
pub proof fn lemma_ceil_div(a: nat, b: nat)
    requires
        b > 0,
    ensures
        ceil_div(a, b) * b >= a,
        ceil_div(a, b) * b < a + b,
        forall|q: nat| #[trigger] (q * b) >= a ==> q >= ceil_div(a, b),
{
    let n = a + b - 1;
    let q = n / b as int;
    assert(q * b + n % b as int == n && 0 <= n % (b as int) < b && q >= 0) by (nonlinear_arith)
        requires
            n >= 0,
            b > 0,
            q == n / b as int,
    ;
    assert forall|p: nat| #[trigger] (p * b) >= a implies p >= ceil_div(a, b) by {
        assert(p >= q) by (nonlinear_arith)
            requires
                p * b >= a,
                q * b < a + b,
                b > 0,
        ;
    }
}

/// A number that rounds up correctly is the rounded-up quotient.
pub proof fn lemma_ceil_div_unique(a: nat, b: nat, q: nat)
    requires
        b > 0,
        q * b >= a,
        q * b < a + b,
    ensures
        q == ceil_div(a, b),
{
    lemma_ceil_div(a, b);
    let c = ceil_div(a, b);
    assert(c >= q) by (nonlinear_arith)
        requires
            c * b >= a,
            q * b < a + b,
            b > 0,
    ;
}

/// Quotient rounded up, for a nonzero divisor.
pub(crate) fn div_ceil(a: usize, b: usize) -> (q: usize)
    requires
        b > 0,
    ensures
        q == ceil_div(a as nat, b as nat),
{
    let q: usize = a / b;
    let r: usize = a % b;
    proof {
        assert(q * b + r == a && r < b && q <= a) by (nonlinear_arith)
            requires
                b > 0,
                q == a / b,
                r == a % b,
        ;
        if r == 0 {
            lemma_ceil_div_unique(a as nat, b as nat, q as nat);
        } else {
            assert((q + 1) * b == q * b + b) by (nonlinear_arith);
            lemma_ceil_div_unique(a as nat, b as nat, (q + 1) as nat);
            assert(q < a) by (nonlinear_arith)
                requires
                    q * b + r == a,
                    r > 0,
                    b > 0,
            ;
        }
    }
    if r == 0 {
        q
    } else {
        q + 1
    }
}

/// Geometry of the KV cache pool.
///
/// `block_size` is measured in **tokens**. The physical footprint of one block
/// is `block_size * num_kv_heads * head_dim * dtype_bytes * 2 * num_layers`,
/// where the factor of 2 covers K and V.
#[derive(Debug, Clone, PartialEq, Eq, Structural)]
pub struct CacheConfig {
    /// Total physical blocks in the pool.
    pub num_blocks: usize,
    /// Tokens per block.
    pub block_size: usize,
    /// KV heads.
    pub num_kv_heads: usize,
    /// Dimension per head.
    pub head_dim: usize,
    /// Transformer layers. Each layer keeps its own K and V planes.
    pub num_layers: usize,
    /// Bytes per element (4 for f32, 2 for f16/bf16, 1 for fp8).
    pub dtype_bytes: usize,
}

impl CacheConfig {
    /// Elements in one token's K (or V) entry of one layer.
    pub open spec fn entry_len(self) -> nat {
        (self.num_kv_heads * self.head_dim) as nat
    }

    /// Elements in one block's K (or V) plane for one layer.
    pub open spec fn block_len(self) -> nat {
        self.block_size as nat * self.entry_len()
    }

    /// Elements in one layer's K (or V) plane across the whole pool.
    pub open spec fn layer_len(self) -> nat {
        self.num_blocks as nat * self.block_len()
    }

    /// Elements in one K (or V) plane across every layer.
    pub open spec fn plane_len(self) -> nat {
        self.num_layers as nat * self.layer_len()
    }

    /// Total elements of the pool, counting K and V.
    pub open spec fn pool_len(self) -> nat {
        2 * self.plane_len()
    }

    /// Total bytes of the pool.
    pub open spec fn pool_bytes(self) -> nat {
        self.pool_len() * self.dtype_bytes as nat
    }

    /// Bytes of one token's K and V over all layers.
    pub open spec fn token_bytes(self) -> nat {
        2 * self.num_layers as nat * self.entry_len() * self.dtype_bytes as nat
    }

    /// The size of the pool in bytes can be computed in machine words.
    pub open spec fn bytes_fit(self) -> bool {
        &&& 2 * self.num_layers <= usize::MAX
        &&& self.entry_len() <= usize::MAX
        &&& self.block_len() <= usize::MAX
        &&& self.layer_len() <= usize::MAX
        &&& self.pool_len() <= usize::MAX
        &&& self.pool_bytes() <= usize::MAX
    }

    /// The shape of Llama-3.2-1B over `num_blocks` blocks.
    pub open spec fn llama_shape(num_blocks: usize) -> CacheConfig {
        CacheConfig {
            num_blocks,
            block_size: 16,
            num_kv_heads: 8,
            head_dim: 64,
            num_layers: 16,
            dtype_bytes: 2,
        }
    }

    /// A small shape over `num_blocks` blocks.
    pub open spec fn tiny_shape(num_blocks: usize) -> CacheConfig {
        CacheConfig {
            num_blocks,
            block_size: 4,
            num_kv_heads: 2,
            head_dim: 4,
            num_layers: 2,
            dtype_bytes: 4,
        }
    }

    /// Config matching Llama-3.2-1B, useful as a test and benchmark default.
    pub fn llama_3_2_1b(num_blocks: usize) -> (cfg: Self)
        ensures
            cfg == (CacheConfig {
                num_blocks,
                block_size: 16,
                num_kv_heads: 8,
                head_dim: 64,
                num_layers: 16,
                dtype_bytes: 2,
            }),
            cfg == CacheConfig::llama_shape(num_blocks),
    {
        Self {
            num_blocks,
            block_size: 16,
            num_kv_heads: 8,
            head_dim: 64,
            num_layers: 16,
            dtype_bytes: 2,
        }
    }

    /// Small config for unit tests, where big allocations only slow things down.
    pub fn tiny(num_blocks: usize) -> (cfg: Self)
        ensures
            cfg == (CacheConfig {
                num_blocks,
                block_size: 4,
                num_kv_heads: 2,
                head_dim: 4,
                num_layers: 2,
                dtype_bytes: 4,
            }),
            cfg == CacheConfig::tiny_shape(num_blocks),
    {
        Self {
            num_blocks,
            block_size: 4,
            num_kv_heads: 2,
            head_dim: 4,
            num_layers: 2,
            dtype_bytes: 4,
        }
    }

    /// Elements in one token's K (or V) entry, across all heads of one layer.
    pub fn entry_elems(&self) -> (n: usize)
        requires
            self.entry_len() <= usize::MAX,
        ensures
            n == self.entry_len(),
    {
        self.num_kv_heads * self.head_dim
    }

    /// Elements in one block's K (or V) plane for one layer.
    pub fn block_elems(&self) -> (n: usize)
        requires
            self.entry_len() <= usize::MAX,
            self.block_len() <= usize::MAX,
        ensures
            n == self.block_len(),
    {
        self.block_size * self.entry_elems()
    }

    /// Elements in one layer's K (or V) plane across the whole pool.
    pub fn layer_elems(&self) -> (n: usize)
        requires
            self.entry_len() <= usize::MAX,
            self.block_len() <= usize::MAX,
            self.layer_len() <= usize::MAX,
        ensures
            n == self.layer_len(),
    {
        self.num_blocks * self.block_elems()
    }

    /// Total elements held by the pool, counting K and V and every layer.
    pub fn total_elems(&self) -> (n: usize)
        requires
            2 * self.num_layers <= usize::MAX,
            self.entry_len() <= usize::MAX,
            self.block_len() <= usize::MAX,
            self.layer_len() <= usize::MAX,
            self.pool_len() <= usize::MAX,
        ensures
            n == self.pool_len(),
    {
        proof {
            let l = self.num_layers as int;
            let e = self.layer_len() as int;
            assert(2 * l * e == 2 * (l * e)) by (nonlinear_arith);
        }
        2 * self.num_layers * self.layer_elems()
    }

    /// Total bytes the pool occupies on device.
    pub fn total_bytes(&self) -> (n: usize)
        requires
            self.bytes_fit(),
        ensures
            n == self.pool_bytes(),
    {
        self.total_elems() * self.dtype_bytes
    }

    /// Bytes of KV cache consumed per token, across all layers.
    ///
    /// This is the number that decides how many concurrent sequences fit in a
    /// given amount of memory.
    pub fn bytes_per_token(&self) -> (n: usize)
        requires
            2 * self.num_layers <= usize::MAX,
            self.entry_len() <= usize::MAX,
            2 * self.num_layers * self.entry_len() <= usize::MAX,
            self.token_bytes() <= usize::MAX,
        ensures
            n == self.token_bytes(),
    {
        2 * self.num_layers * self.entry_elems() * self.dtype_bytes
    }

    /// How many blocks a sequence of `num_tokens` tokens needs.
    pub fn blocks_for_tokens(&self, num_tokens: usize) -> (n: usize)
        requires
            self.block_size > 0,
        ensures
            n == ceil_div(num_tokens as nat, self.block_size as nat),
    {
        div_ceil(num_tokens, self.block_size)
    }

    /// Split a logical token position into (logical block index, slot).
    pub fn split_position(&self, position: usize) -> (at: (usize, usize))
        requires
            self.block_size > 0,
        ensures
            at.0 == position / self.block_size,
            at.1 == position % self.block_size,
    {
        (position / self.block_size, position % self.block_size)
    }
}

} // verus!
