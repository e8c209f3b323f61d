//! The contents of a cache pool as a mathematical value.

use vstd::prelude::*;

use crate::address::Cell;
use crate::config::CacheConfig;
use crate::error::CacheError;
use crate::scheduler::DecodedToken;
use crate::types::{BlockId, PhysicalSlot, SeqId};

verus! {

/// One token's K and V for one layer.
#[verifier::ext_equal]
pub struct Entry<E> {
    pub k: Seq<E>,
    pub v: Seq<E>,
}

/// What a cache pool holds: an entry for every slot of every block in every
/// layer.
#[verifier::ext_equal]
pub struct Store<E> {
    pub config: CacheConfig,
    pub cells: Map<Cell, Entry<E>>,
}

impl<E> Store<E> {
    /// Every cell of the pool has an entry of the right length, and no other
    /// cell has one.
    pub open spec fn wf(self) -> bool {
        &&& forall|c: Cell| #[trigger] self.cells.contains_key(c) <==> self.config.has_cell(c)
        &&& forall|c: Cell|
            self.config.has_cell(c) ==> (#[trigger] self.cells[c]).k.len()
                == self.config.entry_len() && self.cells[c].v.len() == self.config.entry_len()
    }

    /// A pool that holds `zero` everywhere.
    pub open spec fn filled(config: CacheConfig, zero: E) -> Store<E> {
        Store {
            config,
            cells: Map::new(
                |c: Cell| config.has_cell(c),
                |c: Cell| Store::blank(config, zero),
            ),
        }
    }

    /// An entry that holds `zero` everywhere.
    pub open spec fn blank(config: CacheConfig, zero: E) -> Entry<E> {
        Entry {
            k: Seq::new(config.entry_len(), |i: int| zero),
            v: Seq::new(config.entry_len(), |i: int| zero),
        }
    }

    /// The entry at `at` in `layer`.
    pub open spec fn entry(self, layer: int, at: PhysicalSlot) -> Entry<E> {
        self.cells[at.cell(layer)]
    }

    /// The pool after an entry was written at `at` in `layer`.
    pub open spec fn written(self, layer: int, at: PhysicalSlot, k: Seq<E>, v: Seq<E>) -> Store<E> {
        Store { cells: self.cells.insert(at.cell(layer), Entry { k, v }), ..self }
    }

    /// The pool after all of `src` was copied to `dst`, slot by slot, in every
    /// layer.
    pub open spec fn copied(self, src: BlockId, dst: BlockId) -> Store<E> {
        Store {
            cells: Map::new(
                |c: Cell| self.cells.contains_key(c),
                |c: Cell|
                    if c.block == dst.0 {
                        self.cells[Cell { block: src.0 as int, ..c }]
                    } else {
                        self.cells[c]
                    },
            ),
            ..self
        }
    }

    /// Copy each pair's first block to its second, in order, stopping at the
    /// first pair that names no block.
    pub open spec fn copy_each(self, pairs: Seq<(BlockId, BlockId)>) -> (
        Store<E>,
        Option<CacheError>,
    )
        decreases pairs.len(),
    {
        if pairs.len() == 0 {
            (self, None)
        } else {
            let (s, e) = self.copy_each(pairs.drop_last());
            let (src, dst) = pairs.last();
            if e is Some {
                (s, e)
            } else if self.config.copy_error(src, dst) is Some {
                (s, self.config.copy_error(src, dst))
            } else {
                (s.copied(src, dst), None)
            }
        }
    }

    /// The pool after a token's entries were written at `at` in the first `n`
    /// layers.
    pub open spec fn layers_written(
        self,
        at: PhysicalSlot,
        values: spec_fn(int) -> Entry<E>,
        n: nat,
    ) -> Store<E>
        decreases n,
    {
        if n == 0 {
            self
        } else {
            let l = (n - 1) as nat;
            let e = values(l as int);
            self.layers_written(at, values, l).written(l as int, at, e.k, e.v)
        }
    }

    /// The pool after a decoded token was dealt with: the copy it owes first,
    /// then its entries, one per layer.
    pub open spec fn token_applied(
        self,
        d: DecodedToken,
        values: spec_fn(int) -> Entry<E>,
    ) -> Store<E> {
        let s = match d.cow {
            Some(c) => self.copied(c.src, c.dst),
            None => self,
        };
        s.layers_written(d.slot, values, self.config.num_layers as nat)
    }

    /// The pool after all decoded tokens of a step were dealt with, in order.
    pub open spec fn step_applied(
        self,
        decoded: Seq<DecodedToken>,
        values: spec_fn(SeqId, int) -> Entry<E>,
    ) -> Store<E>
        decreases decoded.len(),
    {
        if decoded.len() == 0 {
            self
        } else {
            let d = decoded.last();
            self.step_applied(decoded.drop_last(), values).token_applied(
                d,
                |layer: int| values(d.id, layer),
            )
        }
    }

    /// The pool after every slot of `block` was set to `zero`, in every layer.
    pub open spec fn zeroed(self, block: BlockId, zero: E) -> Store<E> {
        Store {
            cells: Map::new(
                |c: Cell| self.cells.contains_key(c),
                |c: Cell|
                    if c.block == block.0 {
                        Store::blank(self.config, zero)
                    } else {
                        self.cells[c]
                    },
            ),
            ..self
        }
    }
}

/// No block is written twice, and none is both read and written: the order of
/// the copies does not matter.
pub open spec fn independent(pairs: Seq<(BlockId, BlockId)>) -> bool {
    &&& forall|i: int, j: int|
        #![trigger pairs[i], pairs[j]]
        0 <= i < j < pairs.len() ==> pairs[i].1 != pairs[j].1
    &&& forall|i: int, j: int|
        #![trigger pairs[i], pairs[j]]
        0 <= i < pairs.len() && 0 <= j < pairs.len() && i != j ==> pairs[i].0 != pairs[j].1
}

/// What cache pools promise as a whole.
impl<E> Store<E> {
    /// A failure among the first pairs is the outcome of the whole run.
    pub proof fn lemma_copy_each_stops(self, pairs: Seq<(BlockId, BlockId)>, n: int)
        requires
            0 <= n <= pairs.len(),
            self.copy_each(pairs.take(n)).1 is Some,
        ensures
            self.copy_each(pairs) == self.copy_each(pairs.take(n)),
        decreases pairs.len(),
    {
        if n == pairs.len() {
            assert(pairs.take(n) =~= pairs);
        } else {
            assert(pairs.drop_last().take(n) =~= pairs.take(n));
            self.lemma_copy_each_stops(pairs.drop_last(), n);
        }
    }

    /// Copying keeps the geometry.
    pub proof fn lemma_copy_each_config(self, pairs: Seq<(BlockId, BlockId)>)
        ensures
            self.copy_each(pairs).0.config == self.config,
        decreases pairs.len(),
    {
        if pairs.len() > 0 {
            self.lemma_copy_each_config(pairs.drop_last());
        }
    }

    /// What a token's entries in the first `n` layers change.
    pub proof fn lemma_layers_written(
        self,
        at: PhysicalSlot,
        values: spec_fn(int) -> Entry<E>,
        n: nat,
        layer: int,
        other: PhysicalSlot,
    )
        requires
            self.wf(),
            n <= self.config.num_layers,
            self.config.has_cell(at.cell(0)) || n == 0,
            forall|l: int|
                0 <= l < n ==> (#[trigger] values(l)).k.len() == self.config.entry_len() && values(
                    l,
                ).v.len() == self.config.entry_len(),
        ensures
            self.layers_written(at, values, n).wf(),
            self.layers_written(at, values, n).config == self.config,
            self.layers_written(at, values, n).entry(layer, other) == if other == at && 0 <= layer
                < n {
                values(layer)
            } else {
                self.entry(layer, other)
            },
        decreases n,
    {
        if n > 0 {
            let l = (n - 1) as nat;
            let s = self.layers_written(at, values, l);
            let t = self.layers_written(at, values, n);
            self.lemma_layers_written(at, values, l, layer, other);
            let e = values(l as int);
            assert(t == s.written(l as int, at, e.k, e.v));
            assert(self.config.has_cell(at.cell(l as int)));
            assert forall|c: Cell| #[trigger] t.cells.contains_key(c) <==> t.config.has_cell(c) by {
                assert(s.cells.contains_key(c) <==> s.config.has_cell(c));
            }
            assert forall|c: Cell| t.config.has_cell(c) implies (#[trigger] t.cells[c]).k.len()
                == t.config.entry_len() && t.cells[c].v.len() == t.config.entry_len() by {
                if c != at.cell(l as int) {
                    assert(s.cells[c].k.len() == s.config.entry_len());
                }
            }
            if layer == l && other == at {
                assert(e =~= Entry { k: e.k, v: e.v });
            } else {
                s.writes_do_not_bleed(l as int, at, e.k, e.v, layer, other);
            }
        }
    }

    /// What dealing with a decoded token changes: the slot it was written to
    /// holds its entries, the rest of a copy's destination holds what the
    /// source held, and everything else is as it was.
    pub proof fn lemma_token_applied(
        self,
        d: DecodedToken,
        values: spec_fn(int) -> Entry<E>,
        layer: int,
        at: PhysicalSlot,
    )
        requires
            self.wf(),
            self.config.has_cell(d.slot.cell(0)) || self.config.num_layers == 0,
            d.cow is Some ==> self.config.copy_error(d.cow.unwrap().src, d.cow.unwrap().dst)
                is None,
            forall|l: int|
                0 <= l < self.config.num_layers ==> (#[trigger] values(l)).k.len()
                    == self.config.entry_len() && values(l).v.len() == self.config.entry_len(),
            self.config.has_cell(at.cell(layer)),
        ensures
            self.token_applied(d, values).wf(),
            self.token_applied(d, values).config == self.config,
            self.token_applied(d, values).entry(layer, at) == if at == d.slot {
                values(layer)
            } else if d.cow is Some && at.block == d.cow.unwrap().dst {
                self.entry(layer, PhysicalSlot { block: d.cow.unwrap().src, slot: at.slot })
            } else {
                self.entry(layer, at)
            },
    {
        let n = self.config.num_layers as nat;
        match d.cow {
            Some(c) => {
                self.copy_duplicates_a_block(c.src, c.dst, layer, at);
                self.copied(c.src, c.dst).lemma_layers_written(d.slot, values, n, layer, at);
            },
            None => {
                self.lemma_layers_written(d.slot, values, n, layer, at);
            },
        }
    }

    /// A fresh pool is blank: every slot reads as zeros.
    pub proof fn fresh_pool_is_blank(config: CacheConfig, zero: E, layer: int, at: PhysicalSlot)
        requires
            config.has_cell(at.cell(layer)),
        ensures
            Store::filled(config, zero).wf(),
            Store::filled(config, zero).entry(layer, at) == Store::blank(config, zero),
    {
        let s = Store::filled(config, zero);
        assert forall|c: Cell| s.config.has_cell(c) implies (#[trigger] s.cells[c]).k.len()
            == s.config.entry_len() && s.cells[c].v.len() == s.config.entry_len() by {
            assert(s.cells.contains_key(c));
        }
        assert(s.cells.contains_key(at.cell(layer)));
    }

    /// What was written is what is read back.
    pub proof fn reading_returns_what_was_written(
        self,
        layer: int,
        at: PhysicalSlot,
        k: Seq<E>,
        v: Seq<E>,
    )
        ensures
            self.written(layer, at, k, v).entry(layer, at) == (Entry { k, v }),
    {
    }

    /// A write changes no other slot, block or layer.
    pub proof fn writes_do_not_bleed(
        self,
        layer: int,
        at: PhysicalSlot,
        k: Seq<E>,
        v: Seq<E>,
        other_layer: int,
        other: PhysicalSlot,
    )
        requires
            other_layer != layer || other != at,
        ensures
            self.written(layer, at, k, v).entry(other_layer, other) == self.entry(
                other_layer,
                other,
            ),
    {
        assert(other.cell(other_layer) != at.cell(layer));
    }

    /// A copy duplicates every slot of every layer and leaves the other blocks
    /// alone, the source included.
    pub proof fn copy_duplicates_a_block(
        self,
        src: BlockId,
        dst: BlockId,
        layer: int,
        at: PhysicalSlot,
    )
        requires
            self.wf(),
            self.config.copy_error(src, dst) is None,
            self.config.has_cell(at.cell(layer)),
        ensures
            at.block == dst ==> self.copied(src, dst).entry(layer, at) == self.entry(
                layer,
                PhysicalSlot { block: src, slot: at.slot },
            ),
            at.block != dst ==> self.copied(src, dst).entry(layer, at) == self.entry(layer, at),
            self.copied(src, dst).wf(),
    {
        self.lemma_copied_wf(src, dst);
        let c = at.cell(layer);
        assert(self.cells.contains_key(c));
        assert(Cell { block: src.0 as int, ..c } == (PhysicalSlot {
            block: src,
            slot: at.slot,
        }).cell(layer));
    }

    /// Copying keeps every entry in place.
    pub proof fn lemma_copied_wf(self, src: BlockId, dst: BlockId)
        requires
            self.wf(),
            self.config.copy_error(src, dst) is None,
        ensures
            self.copied(src, dst).wf(),
    {
        let s = self.copied(src, dst);
        assert forall|c: Cell| s.config.has_cell(c) implies (#[trigger] s.cells[c]).k.len()
            == s.config.entry_len() && s.cells[c].v.len() == s.config.entry_len() by {
            assert(self.cells.contains_key(c));
            let d = Cell { block: src.0 as int, ..c };
            assert(self.config.has_cell(d));
            assert(self.cells[d].k.len() == self.config.entry_len());
            assert(self.cells[c].k.len() == self.config.entry_len());
        }
    }

    /// A copy is a snapshot, not an alias: writing to the source afterwards
    /// does not change the copy.
    pub proof fn copy_is_a_snapshot(
        self,
        src: BlockId,
        dst: BlockId,
        layer: int,
        slot: usize,
        k: Seq<E>,
        v: Seq<E>,
    )
        requires
            self.wf(),
            self.config.copy_error(src, dst) is None,
            src != dst,
            self.config.has_cell(Cell { layer, block: src.0 as int, slot: slot as int }),
        ensures
            self.copied(src, dst).written(
                layer,
                PhysicalSlot { block: src, slot },
                k,
                v,
            ).entry(layer, PhysicalSlot { block: dst, slot }) == self.entry(
                layer,
                PhysicalSlot { block: src, slot },
            ),
    {
        let at = PhysicalSlot { block: dst, slot };
        self.copy_duplicates_a_block(src, dst, layer, at);
        self.copied(src, dst).writes_do_not_bleed(
            layer,
            PhysicalSlot { block: src, slot },
            k,
            v,
            layer,
            at,
        );
    }

    /// Copying a block onto itself changes nothing.
    pub proof fn self_copy_changes_nothing(self, block: BlockId)
        ensures
            self.copied(block, block) == self,
    {
        let s = self.copied(block, block);
        assert forall|c: Cell| #[trigger] self.cells.contains_key(c) implies s.cells[c]
            == self.cells[c] by {
            if c.block == block.0 {
                assert(Cell { block: block.0 as int, ..c } == c);
            }
        }
        assert(s.cells =~= self.cells);
    }

    /// Zeroing clears every slot of the block in every layer, and no other.
    pub proof fn zeroing_clears_one_block(
        self,
        block: BlockId,
        zero: E,
        layer: int,
        at: PhysicalSlot,
    )
        requires
            self.wf(),
            self.config.has_cell(at.cell(layer)),
        ensures
            self.zeroed(block, zero).entry(layer, at) == if at.block == block {
                Store::blank(self.config, zero)
            } else {
                self.entry(layer, at)
            },
    {
        assert(self.cells.contains_key(at.cell(layer)));
    }

    /// Independent copies all read what was there before any of them: the block
    /// that a pair names second ends up with what the block it names first
    /// held, and every other block is left alone.
    pub proof fn independent_copies_do_not_interfere(
        self,
        pairs: Seq<(BlockId, BlockId)>,
        layer: int,
        at: PhysicalSlot,
    )
        requires
            self.wf(),
            independent(pairs),
            self.copy_each(pairs).1 is None,
            self.config.has_cell(at.cell(layer)),
        ensures
            self.copy_each(pairs).0.wf(),
            forall|i: int|
                0 <= i < pairs.len() && (#[trigger] pairs[i]).1 == at.block ==> self.copy_each(
                    pairs,
                ).0.entry(layer, at) == self.entry(
                    layer,
                    PhysicalSlot { block: pairs[i].0, slot: at.slot },
                ),
            (forall|i: int| 0 <= i < pairs.len() ==> (#[trigger] pairs[i]).1 != at.block)
                ==> self.copy_each(pairs).0.entry(layer, at) == self.entry(layer, at),
        decreases pairs.len(),
    {
        if pairs.len() > 0 {
            let front = pairs.drop_last();
            let n = pairs.len() - 1;
            let (src, dst) = pairs[n];
            assert(pairs.last() == pairs[n]);
            assert forall|i: int| 0 <= i < front.len() implies #[trigger] front[i] == pairs[i] by {}
            let s = self.copy_each(front).0;
            self.lemma_copy_each_config(front);
            let from = PhysicalSlot { block: src, slot: at.slot };
            assert(self.config.has_cell(from.cell(layer)));
            self.independent_copies_do_not_interfere(front, layer, at);
            self.independent_copies_do_not_interfere(front, layer, from);
            s.copy_duplicates_a_block(src, dst, layer, at);
            let t = self.copy_each(pairs).0;
            assert(t == s.copied(src, dst));
            if at.block == dst {
                assert forall|i: int| 0 <= i < front.len() implies (#[trigger] front[i]).1
                    != src by {
                    assert(pairs[n].0 != pairs[i].1);
                }
                assert(t.entry(layer, at) == self.entry(layer, from));
            }
            assert forall|i: int|
                0 <= i < pairs.len() && (#[trigger] pairs[i]).1 == at.block implies t.entry(
                layer,
                at,
            ) == self.entry(layer, PhysicalSlot { block: pairs[i].0, slot: at.slot }) by {
                if i < n {
                    assert(front[i].1 == at.block);
                    assert(pairs[i].1 != pairs[n].1);
                }
            }
        }
    }
}

} // verus!
