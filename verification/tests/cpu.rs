use paged_kv_cache::{BlockId, CacheConfig, CacheError, CpuBackend, KvBackend, PhysicalSlot};

fn entry(seed: f32, n: usize) -> Vec<f32> {
    (0..n).map(|i| seed + i as f32 * 0.25).collect()
}

fn backend() -> CpuBackend<f32> {
    CpuBackend::new(CacheConfig::tiny(8))
}

#[test]
fn write_then_read_round_trips() {
    let mut b = backend();
    let n = b.config().entry_elems();
    let (k, v) = (entry(1.0, n), entry(100.0, n));
    let at = PhysicalSlot::new(BlockId(3), 2);

    b.write_kv(1, at, &k, &v).unwrap();

    let (mut ko, mut vo) = (vec![0.0; n], vec![0.0; n]);
    b.read_kv(1, at, &mut ko, &mut vo).unwrap();
    assert_eq!(ko, k);
    assert_eq!(vo, v);
}

#[test]
fn writes_do_not_bleed_across_slots_blocks_or_layers() {
    let mut b = backend();
    let n = b.config().entry_elems();
    let (k, v) = (entry(7.0, n), entry(70.0, n));
    let at = PhysicalSlot::new(BlockId(3), 2);
    b.write_kv(1, at, &k, &v).unwrap();

    let neighbours = [
        (1, PhysicalSlot::new(BlockId(3), 1)), // slot before
        (1, PhysicalSlot::new(BlockId(3), 3)), // slot after
        (1, PhysicalSlot::new(BlockId(2), 2)), // block before
        (1, PhysicalSlot::new(BlockId(4), 2)), // block after
        (0, PhysicalSlot::new(BlockId(3), 2)), // other layer
    ];

    let (mut ko, mut vo) = (vec![0.0; n], vec![0.0; n]);
    for (layer, slot) in neighbours {
        b.read_kv(layer, slot, &mut ko, &mut vo).unwrap();
        assert!(ko.iter().all(|&x| x == 0.0), "K bled into {layer}:{}", slot.to_string());
        assert!(vo.iter().all(|&x| x == 0.0), "V bled into {layer}:{}", slot.to_string());
    }
}

#[test]
fn copy_block_duplicates_every_slot_and_layer() {
    let mut b = backend();
    let cfg = b.config().clone();
    let n = cfg.entry_elems();

    // Fill every slot of block 0 across all layers with distinct data.
    for layer in 0..cfg.num_layers {
        for slot in 0..cfg.block_size {
            let seed = (layer * 100 + slot) as f32;
            b.write_kv(
                layer,
                PhysicalSlot::new(BlockId(0), slot),
                &entry(seed, n),
                &entry(seed + 0.5, n),
            )
            .unwrap();
        }
    }

    b.copy_block(BlockId(0), BlockId(5)).unwrap();

    let (mut ko, mut vo) = (vec![0.0; n], vec![0.0; n]);
    for layer in 0..cfg.num_layers {
        for slot in 0..cfg.block_size {
            let seed = (layer * 100 + slot) as f32;
            b.read_kv(layer, PhysicalSlot::new(BlockId(5), slot), &mut ko, &mut vo)
                .unwrap();
            assert_eq!(ko, entry(seed, n), "K mismatch at {layer}:{slot}");
            assert_eq!(vo, entry(seed + 0.5, n), "V mismatch at {layer}:{slot}");
        }
    }
}

#[test]
fn copy_is_a_snapshot_not_an_alias() {
    // This is the property copy-on-write depends on: after the copy, the
    // two blocks must be independent.
    let mut b = backend();
    let n = b.config().entry_elems();
    let at = PhysicalSlot::new(BlockId(0), 0);

    b.write_kv(0, at, &entry(1.0, n), &entry(2.0, n)).unwrap();
    b.copy_block(BlockId(0), BlockId(1)).unwrap();

    // Mutate the original.
    b.write_kv(0, at, &entry(9.0, n), &entry(9.0, n)).unwrap();

    let (mut ko, mut vo) = (vec![0.0; n], vec![0.0; n]);
    b.read_kv(0, PhysicalSlot::new(BlockId(1), 0), &mut ko, &mut vo)
        .unwrap();
    assert_eq!(ko, entry(1.0, n), "copy tracked a later write to the source");
    assert_eq!(vo, entry(2.0, n));
}

#[test]
fn zero_block_clears_all_layers() {
    let mut b = backend();
    let n = b.config().entry_elems();
    for layer in 0..b.config().num_layers {
        b.write_kv(
            layer,
            PhysicalSlot::new(BlockId(2), 1),
            &entry(5.0, n),
            &entry(5.0, n),
        )
        .unwrap();
    }

    b.zero_block(BlockId(2)).unwrap();

    let (mut ko, mut vo) = (vec![0.0; n], vec![0.0; n]);
    for layer in 0..b.config().num_layers {
        b.read_kv(layer, PhysicalSlot::new(BlockId(2), 1), &mut ko, &mut vo)
            .unwrap();
        assert!(ko.iter().chain(vo.iter()).all(|&x| x == 0.0));
    }
}

#[test]
fn self_copy_is_a_no_op_not_a_corruption() {
    let mut b = backend();
    let n = b.config().entry_elems();
    let at = PhysicalSlot::new(BlockId(1), 0);
    b.write_kv(0, at, &entry(3.0, n), &entry(4.0, n)).unwrap();

    b.copy_block(BlockId(1), BlockId(1)).unwrap();

    let (mut ko, mut vo) = (vec![0.0; n], vec![0.0; n]);
    b.read_kv(0, at, &mut ko, &mut vo).unwrap();
    assert_eq!(ko, entry(3.0, n));
    assert_eq!(vo, entry(4.0, n));
}

#[test]
fn bad_addresses_and_shapes_are_rejected() {
    let mut b = backend();
    let cfg = b.config().clone();
    let n = cfg.entry_elems();
    let (k, v) = (entry(0.0, n), entry(0.0, n));

    assert_eq!(
        b.write_kv(99, PhysicalSlot::new(BlockId(0), 0), &k, &v)
            .unwrap_err(),
        CacheError::InvalidLayer {
            layer: 99,
            num_layers: cfg.num_layers
        }
    );
    assert_eq!(
        b.write_kv(0, PhysicalSlot::new(BlockId(99), 0), &k, &v)
            .unwrap_err(),
        CacheError::InvalidBlock {
            id: BlockId(99),
            num_blocks: cfg.num_blocks
        }
    );
    assert_eq!(
        b.write_kv(0, PhysicalSlot::new(BlockId(0), 99), &k, &v)
            .unwrap_err(),
        CacheError::SlotOutOfRange {
            slot: 99,
            block_size: cfg.block_size
        }
    );
    assert_eq!(
        b.write_kv(0, PhysicalSlot::new(BlockId(0), 0), &k[..n - 1], &v)
            .unwrap_err(),
        CacheError::ShapeMismatch {
            expected: n,
            actual: n - 1
        }
    );
}

#[test]
fn allocated_bytes_tracks_config() {
    let b = CpuBackend::<f32>::new(CacheConfig::llama_3_2_1b(512));
    // 512 blocks * 16 tokens * 32 KiB per token.
    assert_eq!(b.allocated_bytes(), 512 * 16 * 32 * 1024);
}
