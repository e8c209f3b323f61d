//! The seam between memory management and physical storage.

use vstd::prelude::*;

use crate::config::CacheConfig;
use crate::error::CacheError;
use crate::store::{self, Store};
use crate::types::{BlockId, PhysicalSlot};

verus! {

/// The seam between memory management and physical storage.
///
/// Everything above this trait (allocation policy, block tables, copy-on-write,
/// eviction, scheduling) knows nothing of devices. Everything below it is a
/// handful of memory movements that are kernels on a GPU and plain copies in
/// host memory. `E` is the element type of the cache.
///
/// Each method maps to exactly one kernel of a device implementation, so the
/// host backend can serve as a reference. A device that can fail may do so at
/// any call, with [`CacheError::Device`]; what it then holds is left open.
pub trait KvBackend<E: Copy> {
    /// What the backend holds.
    spec fn store(&self) -> Store<E>;

    /// The element that a zeroed slot holds.
    spec fn zero(&self) -> E;

    /// Whether the device itself can fail.
    spec fn can_fail(&self) -> bool;

    /// The invariant of the backend.
    spec fn wf(&self) -> bool;

    /// The geometry this backend was built for.
    fn config(&self) -> (config: &CacheConfig)
        ensures
            *config == self.store().config,
    ;

    /// Write one token's K and V into a physical slot, for one layer.
    ///
    /// `k` and `v` must each hold `config().entry_elems()` values, laid out
    /// head-major: head 0's `head_dim` values, then head 1's, and so on.
    fn write_kv(&mut self, layer: usize, dst: PhysicalSlot, k: &[E], v: &[E]) -> (r: Result<
        (),
        CacheError,
    >)
        requires
            old(self).wf(),
        ensures
            final(self).wf(),
            final(self).zero() == old(self).zero(),
            final(self).can_fail() == old(self).can_fail(),
            final(self).store().config == old(self).store().config,
            match r {
                Ok(_) => {
                    &&& old(self).store().config.entry_error(layer, dst, k@.len(), v@.len()) is None
                    &&& final(self).store() == old(self).store().written(layer as int, dst, k@, v@)
                },
                Err(e) => old(self).can_fail() && e is Device || {
                    &&& old(self).store().config.entry_error(layer, dst, k@.len(), v@.len())
                        == Some(e)
                    &&& final(self).store() == old(self).store()
                },
            },
    ;

    /// Read one token's K and V back out of a physical slot.
    ///
    /// Not needed on a serving path, where attention reads the cache on the
    /// device. It exists so that cache contents can be looked at.
    fn read_kv(&self, layer: usize, src: PhysicalSlot, k_out: &mut [E], v_out: &mut [E]) -> (r:
        Result<(), CacheError>)
        requires
            self.wf(),
        ensures
            final(k_out)@.len() == old(k_out)@.len(),
            final(v_out)@.len() == old(v_out)@.len(),
            match r {
                Ok(_) => {
                    &&& self.store().config.entry_error(
                        layer,
                        src,
                        old(k_out)@.len(),
                        old(v_out)@.len(),
                    ) is None
                    &&& final(k_out)@ == self.store().entry(layer as int, src).k
                    &&& final(v_out)@ == self.store().entry(layer as int, src).v
                },
                Err(e) => self.can_fail() && e is Device || {
                    &&& self.store().config.entry_error(
                        layer,
                        src,
                        old(k_out)@.len(),
                        old(v_out)@.len(),
                    ) == Some(e)
                    &&& final(k_out)@ == old(k_out)@
                    &&& final(v_out)@ == old(v_out)@
                },
            },
    ;

    /// Copy the entire contents of one block to another, across every layer and
    /// both K and V planes.
    ///
    /// This is the expensive half of copy-on-write, invoked when a sequence
    /// writes to a block it shares with someone else.
    fn copy_block(&mut self, src: BlockId, dst: BlockId) -> (r: Result<(), CacheError>)
        requires
            old(self).wf(),
        ensures
            final(self).wf(),
            final(self).zero() == old(self).zero(),
            final(self).can_fail() == old(self).can_fail(),
            final(self).store().config == old(self).store().config,
            match r {
                Ok(_) => {
                    &&& old(self).store().config.copy_error(src, dst) is None
                    &&& final(self).store() == old(self).store().copied(src, dst)
                },
                Err(e) => old(self).can_fail() && e is Device || {
                    &&& old(self).store().config.copy_error(src, dst) == Some(e)
                    &&& final(self).store() == old(self).store()
                },
            },
    ;

    /// Copy several blocks in one go.
    ///
    /// A method rather than a loop at the call site because on a device this is
    /// a single launch over all pairs. It may run them in any order, so the
    /// result is fixed only for pairs that do not depend on each other. This
    /// implementation runs them in order and stops at the first that fails.
    fn copy_blocks(&mut self, pairs: &[(BlockId, BlockId)]) -> (r: Result<(), CacheError>)
        requires
            old(self).wf(),
        ensures
            final(self).wf(),
            final(self).zero() == old(self).zero(),
            final(self).can_fail() == old(self).can_fail(),
            final(self).store().config == old(self).store().config,
            match r {
                Ok(_) => {
                    &&& old(self).store().copy_each(pairs@).1 is None
                    &&& store::independent(pairs@) ==> final(self).store() == old(
                        self,
                    ).store().copy_each(pairs@).0
                },
                Err(e) => old(self).can_fail() && e is Device || old(self).store().copy_each(pairs@).1
                    == Some(e),
            },
            pairs@.len() == 0 ==> r is Ok && final(self).store() == old(self).store(),
        default_ensures
            match r {
                Ok(_) => old(self).store().copy_each(pairs@) == (
                    final(self).store(),
                    None::<CacheError>,
                ),
                Err(e) => old(self).can_fail() && e is Device || old(self).store().copy_each(pairs@)
                    == (final(self).store(), Some(e)),
            },
    {
        let mut i: usize = 0;
        let ghost s = self.store();
        let ghost z = self.zero();
        assert(pairs@.take(0) =~= Seq::empty());
        while i < pairs.len()
            invariant
                i <= pairs@.len(),
                s == old(self).store(),
                z == old(self).zero(),
                self.wf(),
                self.zero() == z,
                self.can_fail() == old(self).can_fail(),
                self.store().config == s.config,
                s.copy_each(pairs@.take(i as int)) == (self.store(), None::<CacheError>),
            decreases pairs@.len() - i,
        {
            let (src, dst) = pairs[i];
            proof {
                let next = pairs@.take(i + 1);
                assert(next.drop_last() =~= pairs@.take(i as int));
                assert(next.last() == pairs@[i as int]);
            }
            match self.copy_block(src, dst) {
                Ok(_) => {},
                Err(e) => {
                    proof {
                        if s.copy_each(pairs@.take(i + 1)).1 is Some {
                            s.lemma_copy_each_stops(pairs@, i + 1);
                        }
                    }
                    return Err(e);
                },
            }
            i = i + 1;
        }
        assert(pairs@.take(i as int) =~= pairs@);
        Ok(())
    }

    /// Zero a block. Not required for correctness, since live slots are always
    /// written before they are read, but stale data reads as plausible garbage,
    /// whereas zeros read as obviously wrong.
    fn zero_block(&mut self, block: BlockId) -> (r: Result<(), CacheError>)
        requires
            old(self).wf(),
        ensures
            final(self).wf(),
            final(self).zero() == old(self).zero(),
            final(self).can_fail() == old(self).can_fail(),
            final(self).store().config == old(self).store().config,
            match r {
                Ok(_) => {
                    &&& old(self).store().config.block_error(block) is None
                    &&& final(self).store() == old(self).store().zeroed(block, old(self).zero())
                },
                Err(e) => old(self).can_fail() && e is Device || {
                    &&& old(self).store().config.block_error(block) == Some(e)
                    &&& final(self).store() == old(self).store()
                },
            },
    ;

    /// Bytes this backend has committed for the pool.
    fn allocated_bytes(&self) -> (n: usize)
        requires
            self.store().config.bytes_fit(),
        ensures
            n == self.store().config.pool_bytes(),
    {
        self.config().total_bytes()
    }

    /// Human-readable name, for logs and benchmark output.
    fn device_name(&self) -> (name: String);
}

} // verus!
