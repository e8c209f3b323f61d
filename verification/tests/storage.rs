use paged_kv_cache::launch::{cuda_device_name, THREADS_PER_BLOCK};
use paged_kv_cache::{BlockId, CacheConfig, CacheError, CpuBackend, KvBackend, PhysicalSlot};

fn slot(block: u32, slot: usize) -> PhysicalSlot {
    PhysicalSlot::new(BlockId(block), slot)
}

fn numbered() -> CpuBackend<u64> {
    let cfg = CacheConfig::tiny(4);
    let n = cfg.entry_elems();
    let mut b: CpuBackend<u64> = CpuBackend::new(cfg.clone());
    for layer in 0..cfg.num_layers {
        for block in 0..4 {
            for s in 0..cfg.block_size {
                let tag = (layer * 100 + block as usize * 10 + s) as u64;
                b.write_kv(layer, slot(block, s), &vec![tag; n], &vec![tag + 1000; n]).unwrap();
            }
        }
    }
    b
}

fn tags(b: &CpuBackend<u64>, layer: usize, block: u32) -> Vec<u64> {
    let n = b.config().entry_elems();
    let mut found = Vec::new();
    for s in 0..b.config().block_size {
        let (mut k, mut v) = (vec![0; n], vec![0; n]);
        b.read_kv(layer, slot(block, s), &mut k, &mut v).unwrap();
        assert!(k.iter().all(|x| *x == k[0]));
        assert!(v.iter().all(|x| *x == v[0]));
        if k[0] != 0 || v[0] != 0 {
            assert_eq!(v[0], k[0] + 1000);
        }
        found.push(k[0]);
    }
    found
}

#[test]
fn fresh_pool_is_blank() {
    let b: CpuBackend<u64> = CpuBackend::new(CacheConfig::tiny(4));
    for layer in 0..2 {
        for block in 0..4 {
            assert_eq!(tags(&b, layer, block), vec![0, 0, 0, 0]);
        }
    }
}

#[test]
fn copy_blocks_copies_every_pair() {
    let mut b = numbered();
    b.copy_blocks(&[(BlockId(0), BlockId(2)), (BlockId(1), BlockId(3))]).unwrap();
    for layer in 0..2 {
        assert_eq!(tags(&b, layer, 2), tags(&b, layer, 0));
        assert_eq!(tags(&b, layer, 3), tags(&b, layer, 1));
    }
    assert_eq!(tags(&b, 1, 0), vec![100, 101, 102, 103]);
    assert_eq!(tags(&b, 1, 1), vec![110, 111, 112, 113]);
}

#[test]
fn copy_blocks_runs_in_order_and_stops_at_the_first_failure() {
    let mut b = numbered();
    let error = b
        .copy_blocks(&[
            (BlockId(0), BlockId(1)),
            (BlockId(1), BlockId(2)),
            (BlockId(3), BlockId(4)),
            (BlockId(3), BlockId(0)),
        ])
        .unwrap_err();
    assert_eq!(error, CacheError::InvalidBlock { id: BlockId(4), num_blocks: 4 });
    assert_eq!(tags(&b, 0, 1), vec![0, 1, 2, 3]);
    assert_eq!(tags(&b, 0, 2), vec![0, 1, 2, 3]);
    assert_eq!(tags(&b, 0, 0), vec![0, 1, 2, 3]);
    assert_eq!(tags(&b, 0, 3), vec![30, 31, 32, 33]);
}

#[test]
fn copying_no_blocks_is_fine() {
    let mut b = numbered();
    b.copy_blocks(&[]).unwrap();
    assert_eq!(tags(&b, 0, 3), vec![30, 31, 32, 33]);
}

#[test]
fn zeroing_clears_one_block_only() {
    let mut b = numbered();
    b.zero_block(BlockId(2)).unwrap();
    for layer in 0..2 {
        assert_eq!(tags(&b, layer, 2), vec![0, 0, 0, 0]);
    }
    assert_eq!(tags(&b, 1, 1), vec![110, 111, 112, 113]);
    assert_eq!(tags(&b, 1, 3), vec![130, 131, 132, 133]);
}

#[test]
fn copies_and_zeroing_reject_foreign_blocks() {
    let mut b = numbered();
    let bad = BlockId(9);
    let error = CacheError::InvalidBlock { id: bad, num_blocks: 4 };
    assert_eq!(b.copy_block(bad, BlockId(0)).unwrap_err(), error);
    assert_eq!(b.copy_block(BlockId(0), bad).unwrap_err(), error);
    assert_eq!(b.copy_block(bad, bad).unwrap_err(), error);
    assert_eq!(b.zero_block(bad).unwrap_err(), error);
}

#[test]
fn reads_reject_bad_addresses_and_leave_the_output_alone() {
    let b = numbered();
    let n = b.config().entry_elems();
    let (mut k, mut v) = (vec![7; n], vec![7; n - 1]);
    assert_eq!(
        b.read_kv(0, slot(0, 0), &mut k, &mut v).unwrap_err(),
        CacheError::ShapeMismatch { expected: n, actual: n - 1 }
    );
    assert_eq!(
        b.read_kv(2, slot(9, 9), &mut k, &mut v).unwrap_err(),
        CacheError::InvalidLayer { layer: 2, num_layers: 2 }
    );
    assert_eq!(k, vec![7; n]);
    assert_eq!(v, vec![7; n - 1]);
}

#[test]
fn host_backend_has_a_name() {
    let b = numbered();
    assert_eq!(b.device_name(), "cpu (host memory reference backend)");
    assert_eq!(b.allocated_bytes(), 2048);
}

#[test]
fn entries_lie_in_rank_order() {
    let cfg = CacheConfig::tiny(4);
    let n = cfg.entry_elems();
    let mut next = 0;
    for layer in 0..cfg.num_layers {
        for block in 0..4 {
            for s in 0..cfg.block_size {
                assert_eq!(cfg.slot_offset(layer, slot(block, s)), next);
                let rank = (layer * cfg.num_blocks + block as usize) * cfg.block_size + s;
                assert_eq!(next, rank * n);
                next += n;
            }
        }
    }
    assert_eq!(next, cfg.num_layers * cfg.layer_elems());
    assert_eq!(cfg.block_offset(1, BlockId(2)), (4 + 2) * cfg.block_elems());
}

#[test]
fn write_plan_maps_tokens_to_slots() {
    let cfg = CacheConfig::tiny(8);
    let dsts = [slot(0, 0), slot(0, 1), slot(3, 2)];
    let plan = cfg.plan_write(1, &dsts, 24, 24).unwrap().unwrap();
    assert_eq!(plan.slot_mapping, vec![0, 1, 14]);
    assert_eq!(plan.layer, 1);
    assert_eq!(plan.num_blocks, 8);
    assert_eq!(plan.block_size, 4);
    assert_eq!(plan.entry_elems, 8);
    assert_eq!(plan.grid, 3);
    for (i, dst) in dsts.iter().enumerate() {
        let index = plan.slot_mapping[i];
        assert_eq!(index / 4, dst.block.0 as i64);
        assert_eq!(index % 4, dst.slot as i64);
        assert_eq!((8 * 4 + index as usize) * 8, cfg.slot_offset(1, *dst));
    }
}

#[test]
fn write_plan_checks_shapes_before_addresses() {
    let cfg = CacheConfig::tiny(8);
    assert_eq!(
        cfg.plan_write(9, &[slot(0, 0)], 7, 8).unwrap_err(),
        CacheError::ShapeMismatch { expected: 8, actual: 7 }
    );
    assert_eq!(
        cfg.plan_write(9, &[slot(0, 0)], 8, 9).unwrap_err(),
        CacheError::ShapeMismatch { expected: 8, actual: 9 }
    );
    assert_eq!(
        cfg.plan_write(9, &[slot(0, 0)], 8, 8).unwrap_err(),
        CacheError::InvalidLayer { layer: 9, num_layers: 2 }
    );
    assert_eq!(
        cfg.plan_write(0, &[slot(0, 0), slot(0, 4), slot(9, 0)], 24, 24).unwrap_err(),
        CacheError::SlotOutOfRange { slot: 4, block_size: 4 }
    );
    assert!(cfg.plan_write(0, &[], 0, 0).unwrap().is_none());
}

#[test]
fn copy_plan_lists_pairs_and_covers_layers() {
    let cfg = CacheConfig::tiny(8);
    let plan = cfg
        .plan_copy(&[(BlockId(2), BlockId(5)), (BlockId(0), BlockId(7))])
        .unwrap()
        .unwrap();
    assert_eq!(plan.pairs, vec![2, 5, 0, 7]);
    assert_eq!(plan.num_pairs, 2);
    assert_eq!(plan.num_layers, 2);
    assert_eq!(plan.num_blocks, 8);
    assert_eq!(plan.block_elems, 32);
    assert_eq!(plan.grid, 4);
    assert!(cfg.plan_copy(&[]).unwrap().is_none());
    assert_eq!(
        cfg.plan_copy(&[(BlockId(2), BlockId(5)), (BlockId(0), BlockId(8))]).unwrap_err(),
        CacheError::InvalidBlock { id: BlockId(8), num_blocks: 8 }
    );
}

#[test]
fn zero_plan_covers_layers() {
    let cfg = CacheConfig::tiny(8);
    let plan = cfg.plan_zero(BlockId(6)).unwrap();
    assert_eq!(plan.block, 6);
    assert_eq!(plan.num_layers, 2);
    assert_eq!(plan.num_blocks, 8);
    assert_eq!(plan.block_elems, 32);
    assert_eq!(plan.grid, 2);
    assert_eq!(
        cfg.plan_zero(BlockId(8)).unwrap_err(),
        CacheError::InvalidBlock { id: BlockId(8), num_blocks: 8 }
    );
    assert_eq!(THREADS_PER_BLOCK, 256);
}

#[test]
fn device_name_tells_the_pool_size() {
    assert_eq!(cuda_device_name(512 * 1024 * 1024), "cuda:0 (512 MiB pool)");
    assert_eq!(cuda_device_name(1048575), "cuda:0 (0 MiB pool)");
}
