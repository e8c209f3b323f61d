//! The cache pool in host memory.

use vstd::prelude::*;

use crate::address::Cell;
use crate::backend::KvBackend;
use crate::config::CacheConfig;
use crate::error::CacheError;
use crate::store::{Entry, Store};
use crate::types::{BlockId, PhysicalSlot};

verus! {

/// Host-memory implementation of [`KvBackend`].
///
/// Storage is one flat plane each for K and V, addressed as described in
/// [`address`](crate::address), which is the layout that a device uses as well.
///
/// The element type is free and `config.dtype_bytes` plays no part: this
/// backend exists to validate addressing and lifetimes, not numerics.
#[derive(Debug, Clone)]
pub struct CpuBackend<E> {
    config: CacheConfig,
    k: Vec<E>,
    v: Vec<E>,
    zero: E,
}

impl<E: Copy> CpuBackend<E> {
    /// The entry at `c`.
    closed spec fn entry_at(&self, c: Cell) -> Entry<E> {
        let at = self.config.start(c);
        let n = self.config.entry_len();
        Entry { k: self.k@.subrange(at, at + n), v: self.v@.subrange(at, at + n) }
    }

    closed spec fn contents(&self) -> Store<E> {
        Store {
            config: self.config,
            cells: Map::new(|c: Cell| self.config.has_cell(c), |c: Cell| self.entry_at(c)),
        }
    }

    closed spec fn planes_ok(&self) -> bool {
        &&& self.config.addressable()
        &&& self.k@.len() == self.config.plane_len()
        &&& self.v@.len() == self.config.plane_len()
    }
}

impl<E: Copy> CpuBackend<E> {
    /// Every slot of every block in every layer has a K and a V entry of the
    /// right length.
    pub proof fn every_slot_has_an_entry(&self)
        requires
            self.wf(),
        ensures
            self.store().wf(),
    {
        assert forall|c: Cell| self.config.has_cell(c) implies (
        #[trigger] self.contents().cells[c]).k.len() == self.config.entry_len()
            && self.contents().cells[c].v.len() == self.config.entry_len() by {
            self.config.lemma_run(c.layer, c.block);
            self.config.lemma_in_run(c.slot);
            assert(self.contents().cells[c] == self.entry_at(c));
        }
    }
}

impl<E: Copy> CpuBackend<E> {
    /// Host memory does not fail: a call is refused only for what it asks.
    pub proof fn host_memory_does_not_fail(&self)
        ensures
            !self.can_fail(),
    {
    }
}

impl<E: Copy + Default> CpuBackend<E> {
    /// A pool whose slots all hold the default element.
    pub fn new(config: CacheConfig) -> (b: Self)
        requires
            config.addressable(),
        ensures
            b.wf(),
            b.store() == Store::filled(config, b.zero()),
            call_ensures(E::default, (), b.zero()),
    {
        let zero = E::default();
        let plane: usize = config.num_layers * config.layer_elems();
        let k = filled(zero, plane);
        let v = filled(zero, plane);
        let b = Self { config, k, v, zero };
        proof {
            let s = Store::filled(b.config, b.zero);
            assert forall|c: Cell| b.config.has_cell(c) implies #[trigger] b.entry_at(c)
                == Store::blank(b.config, b.zero) by {
                b.config.lemma_run(c.layer, c.block);
                b.config.lemma_in_run(c.slot);
                assert(b.entry_at(c) =~= Store::blank(b.config, b.zero));
            }
            assert(b.contents().cells =~= s.cells);
        }
        b
    }
}

impl<E: Copy> KvBackend<E> for CpuBackend<E> {
    closed spec fn store(&self) -> Store<E> {
        self.contents()
    }

    closed spec fn zero(&self) -> E {
        self.zero
    }

    open spec fn can_fail(&self) -> bool {
        false
    }

    closed spec fn wf(&self) -> bool {
        self.planes_ok()
    }

    fn config(&self) -> (config: &CacheConfig) {
        &self.config
    }

    fn write_kv(&mut self, layer: usize, dst: PhysicalSlot, k: &[E], v: &[E]) -> (r: Result<
        (),
        CacheError,
    >) {
        match self.config.validate_entry(layer, dst, k.len(), v.len()) {
            Ok(_) => {},
            Err(e) => {
                return Err(e);
            },
        }
        let off: usize = self.config.slot_offset(layer, dst);
        put(&mut self.k, off, k);
        put(&mut self.v, off, v);
        proof {
            let n = self.config.entry_len() as int;
            let at = dst.cell(layer as int);
            let s = old(self).store().written(layer as int, dst, k@, v@);
            assert forall|c: Cell| self.config.has_cell(c) implies #[trigger] self.entry_at(c)
                == s.cells[c] by {
                if c == at {
                    assert(self.entry_at(c) =~= Entry { k: k@, v: v@ });
                } else {
                    self.config.entries_do_not_overlap(c, at);
                    assert(self.entry_at(c) =~= old(self).entry_at(c));
                }
            }
            assert(self.contents().cells =~= s.cells);
        }
        Ok(())
    }

    fn read_kv(&self, layer: usize, src: PhysicalSlot, k_out: &mut [E], v_out: &mut [E]) -> (r:
        Result<(), CacheError>) {
        match self.config.validate_entry(layer, src, k_out.len(), v_out.len()) {
            Ok(_) => {},
            Err(e) => {
                return Err(e);
            },
        }
        let off: usize = self.config.slot_offset(layer, src);
        get(&self.k, off, k_out);
        get(&self.v, off, v_out);
        Ok(())
    }

    fn copy_block(&mut self, src: BlockId, dst: BlockId) -> (r: Result<(), CacheError>) {
        match self.config.validate_block(src) {
            Ok(_) => {},
            Err(e) => {
                return Err(e);
            },
        }
        match self.config.validate_block(dst) {
            Ok(_) => {},
            Err(e) => {
                return Err(e);
            },
        }
        if src == dst {
            proof {
                self.store().self_copy_changes_nothing(src);
            }
            return Ok(());
        }
        let n: usize = self.config.block_elems();
        let mut layer: usize = 0;
        while layer < self.config.num_layers
            invariant
                layer <= self.config.num_layers,
                self.config == old(self).config,
                self.zero == old(self).zero,
                self.planes_ok(),
                n == self.config.block_len(),
                src != dst,
                src.0 < self.config.num_blocks,
                dst.0 < self.config.num_blocks,
                forall|c: Cell|
                    self.config.has_cell(c) ==> #[trigger] self.entry_at(c) == if c.block == dst.0
                        && c.layer < layer {
                        old(self).entry_at(Cell { block: src.0 as int, ..c })
                    } else {
                        old(self).entry_at(c)
                    },
            decreases self.config.num_layers - layer,
        {
            let s: usize = self.config.block_offset(layer, src);
            let d: usize = self.config.block_offset(layer, dst);
            let ghost before = *self;
            proof {
                self.config.lemma_runs_disjoint(
                    layer as int,
                    src.0 as int,
                    layer as int,
                    dst.0 as int,
                );
            }
            copy_run(&mut self.k, s, d, n);
            copy_run(&mut self.v, s, d, n);
            proof {
                let l = layer as int;
                assert forall|c: Cell| self.config.has_cell(c) implies #[trigger] self.entry_at(c)
                    == if c.block == dst.0 && c.layer == l {
                    before.entry_at(Cell { block: src.0 as int, ..c })
                } else {
                    before.entry_at(c)
                } by {
                    self.config.lemma_run(c.layer, c.block);
                    self.config.lemma_in_run(c.slot);
                    if c.block == dst.0 && c.layer == l {
                        let o = Cell { block: src.0 as int, ..c };
                        self.config.lemma_run(o.layer, o.block);
                        assert(self.entry_at(c) =~= before.entry_at(o));
                    } else {
                        self.config.lemma_runs_disjoint(c.layer, c.block, l, dst.0 as int);
                        assert(self.entry_at(c) =~= before.entry_at(c));
                    }
                }
                assert forall|c: Cell| self.config.has_cell(c) implies #[trigger] self.entry_at(c)
                    == if c.block == dst.0 && c.layer < layer + 1 {
                    old(self).entry_at(Cell { block: src.0 as int, ..c })
                } else {
                    old(self).entry_at(c)
                } by {
                    let o = Cell { block: src.0 as int, ..c };
                    assert(self.config.has_cell(o));
                    assert(before.entry_at(o) == old(self).entry_at(o));
                    assert(before.entry_at(c) == if c.block == dst.0 && c.layer < layer {
                        old(self).entry_at(o)
                    } else {
                        old(self).entry_at(c)
                    });
                }
            }
            layer = layer + 1;
        }
        proof {
            let s = old(self).store().copied(src, dst);
            assert forall|c: Cell| self.config.has_cell(c) implies #[trigger] self.entry_at(c)
                == s.cells[c] by {
                let o = Cell { block: src.0 as int, ..c };
                assert(self.config.has_cell(o));
                assert(old(self).store().cells.contains_key(c));
            }
            assert(self.contents().cells =~= s.cells);
        }
        Ok(())
    }

    fn zero_block(&mut self, block: BlockId) -> (r: Result<(), CacheError>) {
        match self.config.validate_block(block) {
            Ok(_) => {},
            Err(e) => {
                return Err(e);
            },
        }
        let n: usize = self.config.block_elems();
        let zero = self.zero;
        let mut layer: usize = 0;
        while layer < self.config.num_layers
            invariant
                layer <= self.config.num_layers,
                self.config == old(self).config,
                self.zero == old(self).zero,
                zero == self.zero,
                self.planes_ok(),
                n == self.config.block_len(),
                block.0 < self.config.num_blocks,
                forall|c: Cell|
                    self.config.has_cell(c) ==> #[trigger] self.entry_at(c) == if c.block
                        == block.0 && c.layer < layer {
                        Store::blank(self.config, zero)
                    } else {
                        old(self).entry_at(c)
                    },
            decreases self.config.num_layers - layer,
        {
            let off: usize = self.config.block_offset(layer, block);
            let ghost before = *self;
            fill_run(&mut self.k, off, n, zero);
            fill_run(&mut self.v, off, n, zero);
            proof {
                let l = layer as int;
                assert forall|c: Cell| self.config.has_cell(c) implies #[trigger] self.entry_at(c)
                    == if c.block == block.0 && c.layer < layer + 1 {
                    Store::blank(self.config, zero)
                } else {
                    old(self).entry_at(c)
                } by {
                    self.config.lemma_run(c.layer, c.block);
                    self.config.lemma_in_run(c.slot);
                    assert(before.entry_at(c) == if c.block == block.0 && c.layer < layer {
                        Store::blank(self.config, zero)
                    } else {
                        old(self).entry_at(c)
                    });
                    if c.block == block.0 && c.layer == l {
                        assert(self.entry_at(c) =~= Store::blank(self.config, zero));
                    } else {
                        self.config.lemma_runs_disjoint(c.layer, c.block, l, block.0 as int);
                        assert(self.entry_at(c) =~= before.entry_at(c));
                    }
                }
            }
            layer = layer + 1;
        }
        proof {
            let s = old(self).store().zeroed(block, zero);
            assert forall|c: Cell| self.config.has_cell(c) implies #[trigger] self.entry_at(c)
                == s.cells[c] by {
                assert(old(self).store().cells.contains_key(c));
            }
            assert(self.contents().cells =~= s.cells);
        }
        Ok(())
    }

    fn device_name(&self) -> (name: String)
        ensures
            name@ == "cpu (host memory reference backend)"@,
    {
        "cpu (host memory reference backend)".to_string()
    }
}

/// `n` copies of `x`.
fn filled<E: Copy>(x: E, n: usize) -> (s: Vec<E>)
    ensures
        s@ == Seq::new(n as nat, |i: int| x),
{
    let mut s: Vec<E> = Vec::with_capacity(n);
    let mut i: usize = 0;
    while i < n
        invariant
            i <= n,
            s@ == Seq::new(i as nat, |j: int| x),
        decreases n - i,
    {
        s.push(x);
        i = i + 1;
        assert(s@ =~= Seq::new(i as nat, |j: int| x));
    }
    s
}

/// Overwrite the elements from `at` on with `data`.
fn put<E: Copy>(plane: &mut Vec<E>, at: usize, data: &[E])
    requires
        at + data@.len() <= old(plane)@.len(),
    ensures
        final(plane)@.len() == old(plane)@.len(),
        forall|i: int|
            0 <= i < old(plane)@.len() ==> #[trigger] final(plane)@[i] == if at <= i < at
                + data@.len() {
                data@[i - at]
            } else {
                old(plane)@[i]
            },
{
    let mut i: usize = 0;
    while i < data.len()
        invariant
            i <= data@.len(),
            at + data@.len() <= plane@.len(),
            plane@.len() == old(plane)@.len(),
            forall|j: int|
                0 <= j < plane@.len() ==> #[trigger] plane@[j] == if at <= j < at + i {
                    data@[j - at]
                } else {
                    old(plane)@[j]
                },
        decreases data@.len() - i,
    {
        assert(plane.len() == plane@.len());
        plane[at + i] = data[i];
        i = i + 1;
    }
}

/// Copy the elements from `at` on into `out`.
fn get<E: Copy>(plane: &Vec<E>, at: usize, out: &mut [E])
    requires
        at + old(out)@.len() <= plane@.len(),
    ensures
        final(out)@ == plane@.subrange(at as int, at + old(out)@.len()),
{
    let n: usize = out.len();
    let mut i: usize = 0;
    while i < n
        invariant
            i <= n,
            n == out@.len(),
            n == old(out)@.len(),
            at + n <= plane@.len(),
            forall|j: int| 0 <= j < i ==> #[trigger] out@[j] == plane@[at + j],
        decreases n - i,
    {
        assert(plane.len() == plane@.len());
        out[i] = plane[at + i];
        i = i + 1;
    }
    assert(out@ =~= plane@.subrange(at as int, at + n));
}

/// Copy `n` elements from `from` on to `to` on, where the two runs do not
/// overlap.
fn copy_run<E: Copy>(plane: &mut Vec<E>, from: usize, to: usize, n: usize)
    requires
        from + n <= old(plane)@.len(),
        to + n <= old(plane)@.len(),
        from + n <= to || to + n <= from,
    ensures
        final(plane)@.len() == old(plane)@.len(),
        forall|i: int|
            0 <= i < old(plane)@.len() ==> #[trigger] final(plane)@[i] == if to <= i < to + n {
                old(plane)@[i - to + from]
            } else {
                old(plane)@[i]
            },
{
    let mut i: usize = 0;
    while i < n
        invariant
            i <= n,
            from + n <= plane@.len(),
            to + n <= plane@.len(),
            from + n <= to || to + n <= from,
            plane@.len() == old(plane)@.len(),
            forall|j: int|
                0 <= j < plane@.len() ==> #[trigger] plane@[j] == if to <= j < to + i {
                    old(plane)@[j - to + from]
                } else {
                    old(plane)@[j]
                },
        decreases n - i,
    {
        assert(plane.len() == plane@.len());
        let x = plane[from + i];
        plane[to + i] = x;
        i = i + 1;
    }
}

/// Set `n` elements from `at` on to `x`.
fn fill_run<E: Copy>(plane: &mut Vec<E>, at: usize, n: usize, x: E)
    requires
        at + n <= old(plane)@.len(),
    ensures
        final(plane)@.len() == old(plane)@.len(),
        forall|i: int|
            0 <= i < old(plane)@.len() ==> #[trigger] final(plane)@[i] == if at <= i < at + n {
                x
            } else {
                old(plane)@[i]
            },
{
    let mut i: usize = 0;
    while i < n
        invariant
            i <= n,
            at + n <= plane@.len(),
            plane@.len() == old(plane)@.len(),
            forall|j: int|
                0 <= j < plane@.len() ==> #[trigger] plane@[j] == if at <= j < at + i {
                    x
                } else {
                    old(plane)@[j]
                },
        decreases n - i,
    {
        assert(plane.len() == plane@.len());
        plane[at + i] = x;
        i = i + 1;
    }
}

} // verus!
