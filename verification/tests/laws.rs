use paged_kv_cache::{
    BlockAllocator, BlockId, BlockTable, CacheConfig, CacheError, CpuBackend, KvBackend,
    PhysicalSlot, Scheduler, SeqId,
};

fn config(num_blocks: usize, block_size: usize) -> CacheConfig {
    CacheConfig {
        num_blocks,
        block_size,
        num_kv_heads: 1,
        head_dim: 1,
        num_layers: 1,
        dtype_bytes: 4,
    }
}

#[test]
fn labels_name_blocks_sequences_and_slots() {
    assert_eq!(BlockId(0).to_string(), "#0");
    assert_eq!(BlockId(4294967295).to_string(), "#4294967295");
    assert_eq!(SeqId(17).to_string(), "seq17");
    assert_eq!(SeqId(18446744073709551615).to_string(), "seq18446744073709551615");
    assert_eq!(PhysicalSlot::new(BlockId(12), 3).to_string(), "#12[3]");
    assert_eq!(BlockId(9).index(), 9);
}

#[test]
fn errors_read_as_sentences() {
    let id = BlockId(7);
    assert_eq!(
        CacheError::OutOfBlocks { requested: 5, available: 4 }.to_string(),
        "out of KV blocks: requested 5, only 4 free"
    );
    assert_eq!(
        CacheError::InvalidBlock { id, num_blocks: 2 }.to_string(),
        "invalid block #7: pool holds 2 blocks"
    );
    assert_eq!(
        CacheError::BlockNotAllocated { id }.to_string(),
        "block #7 is not allocated (refcount 0)"
    );
    assert_eq!(
        CacheError::RefCountOverflow { id, max: 65535 }.to_string(),
        "refcount overflow on block #7 (max 65535)"
    );
    assert_eq!(
        CacheError::SlotOutOfRange { slot: 9, block_size: 4 }.to_string(),
        "slot 9 out of range for block size 4"
    );
    assert_eq!(
        CacheError::ShapeMismatch { expected: 8, actual: 10 }.to_string(),
        "shape mismatch: expected 8 elements, got 10"
    );
    assert_eq!(
        CacheError::InvalidLayer { layer: 3, num_layers: 2 }.to_string(),
        "invalid layer 3: model has 2 layers"
    );
    assert_eq!(
        CacheError::UnknownSequence { id: SeqId(4) }.to_string(),
        "no sequence with id seq4 is running or waiting"
    );
    assert_eq!(
        CacheError::Device("out of memory".to_string()).to_string(),
        "device error: out of memory"
    );
}

#[test]
fn geometry_formulas_have_exact_values() {
    let cfg = CacheConfig::tiny(8);
    assert_eq!(cfg.entry_elems(), 8);
    assert_eq!(cfg.block_elems(), 32);
    assert_eq!(cfg.layer_elems(), 256);
    assert_eq!(cfg.total_elems(), 1024);
    assert_eq!(cfg.total_bytes(), 4096);
    assert_eq!(cfg.bytes_per_token(), 128);
    // The pool is its blocks, and a block its tokens.
    assert_eq!(cfg.total_bytes(), 8 * (4 * cfg.bytes_per_token()));
}

#[test]
fn positions_fill_blocks_in_order() {
    let cfg = CacheConfig::tiny(64);
    for tokens in 1..20 {
        let blocks = cfg.blocks_for_tokens(tokens);
        for position in 0..tokens {
            let (block, slot) = cfg.split_position(position);
            assert_eq!(block * cfg.block_size + slot, position);
            assert!(block < blocks);
        }
        assert!((blocks - 1) * cfg.block_size < tokens);
    }
}

#[test]
fn empty_pool_is_not_in_use() {
    let a = BlockAllocator::new(0);
    assert_eq!(a.utilization(), (0, 1));
    assert_eq!(a.num_blocks(), 0);
    a.check_invariants().unwrap();
}

#[test]
fn fresh_pool_hands_out_the_lowest_id_first() {
    let mut a = BlockAllocator::new(3);
    let ids = a.allocate_many(3).unwrap();
    assert_eq!(ids, vec![BlockId(0), BlockId(1), BlockId(2)]);
    assert_eq!(a.total_allocated(), 3);
    assert_eq!(a.utilization(), (3, 3));
}

#[test]
fn freeing_undoes_allocating() {
    let mut a = BlockAllocator::new(4);
    let first = a.allocate().unwrap();
    let next = a.allocate().unwrap();
    a.decref(next).unwrap();
    assert_eq!(a.num_free(), 3);
    assert_eq!(a.allocate().unwrap(), next);
    assert_eq!(a.ref_count(first).unwrap(), 1);
    assert_eq!(a.total_allocated(), 3);
}

#[test]
fn dropping_undoes_adding_an_owner() {
    let mut a = BlockAllocator::new(2);
    let id = a.allocate().unwrap();
    assert_eq!(a.incref(id).unwrap(), 2);
    assert_eq!(a.decref(id).unwrap(), 1);
    assert_eq!(a.ref_count(id).unwrap(), 1);
    assert_eq!(a.num_free(), 1);
}

#[test]
fn owner_counter_does_not_overflow() {
    let mut a = BlockAllocator::new(1);
    let id = a.allocate().unwrap();
    for owners in 2..=65535 {
        assert_eq!(a.incref(id).unwrap(), owners);
    }
    assert_eq!(a.incref(id).unwrap_err(), CacheError::RefCountOverflow { id, max: 65535 });
    assert_eq!(a.ref_count(id).unwrap(), 65535);
}

#[test]
fn every_query_rejects_a_foreign_block() {
    let mut a = BlockAllocator::new(2);
    let id = BlockId(2);
    let error = CacheError::InvalidBlock { id, num_blocks: 2 };
    assert_eq!(a.incref(id).unwrap_err(), error);
    assert_eq!(a.decref(id).unwrap_err(), error);
    assert_eq!(a.is_shared(id).unwrap_err(), error);
    assert_eq!(a.is_allocated(id).unwrap_err(), error);
}

#[test]
fn decref_many_stops_at_the_first_failure() {
    let mut a = BlockAllocator::new(3);
    let ids = a.allocate_many(3).unwrap();
    a.decref_many(&ids[..2]).unwrap();
    assert_eq!(a.num_free(), 2);
    let error = a.decref_many(&[ids[2], ids[0], ids[1]]).unwrap_err();
    assert_eq!(error, CacheError::BlockNotAllocated { id: ids[0] });
    assert_eq!(a.num_free(), 3);
    a.check_invariants().unwrap();
}

#[test]
fn failed_append_many_gives_back_a_replaced_tail() {
    let mut a = BlockAllocator::new(3);
    let mut parent = BlockTable::new(4);
    parent.append_many(&mut a, 2).unwrap();
    let shared = parent.physical_blocks()[0];
    let mut child = parent.fork(&mut a).unwrap();

    // The first token replaces the shared tail, a later one finds no block.
    let error = child.append_many(&mut a, 11).unwrap_err();
    assert_eq!(error, CacheError::OutOfBlocks { requested: 1, available: 0 });

    assert_eq!(child.num_tokens(), 2);
    assert_eq!(child.physical_blocks(), &[shared]);
    assert_eq!(a.ref_count(shared).unwrap(), 2);
    assert_eq!(a.num_free(), 2);
    a.check_invariants().unwrap();

    parent.free(&mut a).unwrap();
    child.free(&mut a).unwrap();
    assert_eq!(a.num_free(), 3);
}

#[test]
fn append_many_reports_the_copy_of_a_shared_tail_once() {
    let mut a = BlockAllocator::new(8);
    let mut parent = BlockTable::new(4);
    parent.append_many(&mut a, 6).unwrap();
    let mut child = parent.fork(&mut a).unwrap();

    let (slots, copies) = child.append_many(&mut a, 5).unwrap();
    assert_eq!(copies.len(), 1);
    assert_eq!(copies[0].src, parent.physical_blocks()[1]);
    assert_eq!(copies[0].dst, child.physical_blocks()[1]);
    assert_eq!(slots[0], PhysicalSlot::new(copies[0].dst, 2));
    assert_eq!(child.physical_blocks()[0], parent.physical_blocks()[0]);
    assert_eq!(child.num_blocks(), 3);
    assert_eq!(a.ref_count(copies[0].dst).unwrap(), 1);
    assert_eq!(a.ref_count(copies[0].src).unwrap(), 1);
    assert_eq!(a.ref_count(parent.physical_blocks()[0]).unwrap(), 2);
    for (i, slot) in slots.iter().enumerate() {
        assert_eq!(child.resolve(6 + i).unwrap(), *slot);
    }
}

#[test]
fn resolve_names_the_position_and_the_length() {
    let mut a = BlockAllocator::new(2);
    let mut t = BlockTable::for_config(&CacheConfig::tiny(2));
    assert_eq!(t.block_size(), 4);
    t.append_many(&mut a, 3).unwrap();
    assert_eq!(
        t.resolve(5).unwrap_err(),
        CacheError::SlotOutOfRange { slot: 5, block_size: 3 }
    );
}

#[test]
fn appending_zero_tokens_changes_nothing() {
    let mut a = BlockAllocator::new(2);
    let mut t = BlockTable::new(4);
    let (slots, copies) = t.append_many(&mut a, 0).unwrap();
    assert!(slots.is_empty() && copies.is_empty());
    assert_eq!(t.num_blocks(), 0);
    assert_eq!(a.num_free(), 2);
}

#[test]
fn copy_on_write_loses_nothing() {
    let cfg = CacheConfig::tiny(8);
    let n = cfg.entry_elems();
    let mut a = BlockAllocator::new(8);
    let mut backend: CpuBackend<u32> = CpuBackend::new(cfg);
    let mut parent = BlockTable::new(4);
    let (slots, _) = parent.append_many(&mut a, 6).unwrap();
    for (i, slot) in slots.iter().enumerate() {
        let entry = vec![i as u32 + 1; n];
        backend.write_kv(0, *slot, &entry, &entry).unwrap();
    }
    let mut child = parent.fork(&mut a).unwrap();
    let (slots, copies) = child.append_many(&mut a, 1).unwrap();
    let pairs: Vec<(BlockId, BlockId)> = copies.iter().map(|c| (c.src, c.dst)).collect();
    backend.copy_blocks(&pairs).unwrap();
    backend.write_kv(0, slots[0], &vec![99; n], &vec![99; n]).unwrap();

    let (mut k, mut v) = (vec![0; n], vec![0; n]);
    for position in 0..6 {
        for table in [&parent, &child] {
            backend.read_kv(0, table.resolve(position).unwrap(), &mut k, &mut v).unwrap();
            assert_eq!(k, vec![position as u32 + 1; n]);
            assert_eq!(v, vec![position as u32 + 1; n]);
        }
    }
    backend.read_kv(0, child.resolve(6).unwrap(), &mut k, &mut v).unwrap();
    assert_eq!(k, vec![99; n]);
}

#[test]
fn admission_does_not_skip_ahead() {
    let mut s = Scheduler::new(&config(4, 2), 4);
    s.add_request(SeqId(1), 4, 2).unwrap();
    s.add_request(SeqId(2), 6, 1).unwrap();
    s.add_request(SeqId(3), 1, 1).unwrap();
    let o = s.step().unwrap();
    // Sequence 3 would fit, but 2 is ahead of it and does not.
    assert_eq!(o.admitted, vec![SeqId(1)]);
    assert_eq!(s.num_waiting(), 2);
}

#[test]
fn newest_yields_first() {
    let mut s = Scheduler::new(&config(4, 1), 4);
    for i in 1..=3 {
        s.add_request(SeqId(i), 1, 2).unwrap();
    }
    // Three sequences hold a block each and one is free: the first token takes
    // it, and every further token costs the newest sequence its place.
    let o = s.step().unwrap();
    assert_eq!(o.admitted, vec![SeqId(1), SeqId(2), SeqId(3)]);
    assert_eq!(o.preempted, vec![SeqId(3)]);
    let decoded: Vec<SeqId> = o.decoded.iter().map(|d| d.id).collect();
    assert_eq!(decoded, vec![SeqId(1), SeqId(2)]);
    assert_eq!(s.num_running(), 2);
    assert_eq!(s.num_waiting(), 1);
}

#[test]
fn everyone_finishes_once_within_the_work_ahead() {
    let mut s = Scheduler::new(&config(5, 2), 3);
    let mut work = 0;
    for i in 0..7u64 {
        let (prompt_len, max_new_tokens) = (1 + (i as usize * 3) % 5, 1 + (i as usize * 2) % 4);
        work += max_new_tokens;
        s.add_request(SeqId(i), prompt_len, max_new_tokens).unwrap();
    }
    let mut finished = Vec::new();
    for _ in 0..work {
        finished.extend(s.step().unwrap().finished);
    }
    assert!(s.is_idle());
    finished.sort();
    assert_eq!(finished, (0..7).map(SeqId).collect::<Vec<SeqId>>());
    assert_eq!(s.pool_utilization(), (0, 5));
    assert!(s.block_snapshot().iter().all(|b| b.ref_count == 0));
}

#[test]
fn places_in_line_are_kept() {
    let mut s = Scheduler::new(&config(3, 2), 2);
    s.add_request(SeqId(1), 2, 2).unwrap();
    s.add_request(SeqId(2), 2, 2).unwrap();
    s.add_request(SeqId(3), 1, 1).unwrap();
    let o = s.step().unwrap();
    assert_eq!(o.preempted, vec![SeqId(2)]);
    // Sequence 2 is at the head of the queue again, before 3.
    let o = s.step().unwrap();
    assert_eq!(o.admitted[0], SeqId(2));
}

#[test]
fn snapshots_show_owners_and_tables() {
    let mut s = Scheduler::new(&config(4, 4), 2);
    s.add_request(SeqId(5), 5, 3).unwrap();
    s.step().unwrap();
    s.fork_sequence(SeqId(5), SeqId(6), 2).unwrap();

    let running = s.running_snapshot();
    assert_eq!(running.len(), 2);
    assert_eq!(running[0].id, SeqId(5));
    assert_eq!(running[0].tokens, 6);
    assert_eq!(running[0].generated, 1);
    assert_eq!(running[0].max_new_tokens, 3);
    assert_eq!(running[0].blocks, vec![BlockId(0), BlockId(1)]);
    assert_eq!(running[1].id, SeqId(6));
    assert_eq!(running[1].generated, 0);
    assert_eq!(running[1].blocks, running[0].blocks);

    let owners: Vec<u32> = s.block_snapshot().iter().map(|b| b.ref_count).collect();
    assert_eq!(owners, vec![2, 2, 0, 0]);
    assert_eq!(s.block_snapshot()[3].id, BlockId(3));
    assert_eq!(s.num_blocks(), 4);
    assert_eq!(s.total_allocated(), 2);
}

#[test]
fn waiting_sequence_cannot_be_forked() {
    let mut s = Scheduler::new(&config(8, 4), 2);
    s.add_request(SeqId(1), 3, 2).unwrap();
    let error = s.fork_sequence(SeqId(1), SeqId(2), 1).unwrap_err();
    assert_eq!(error, CacheError::UnknownSequence { id: SeqId(1) });
    assert_eq!(s.num_running(), 0);
}

#[test]
fn oversized_request_names_the_blocks_it_would_need() {
    let mut s = Scheduler::new(&config(4, 2), 4);
    assert_eq!(
        s.add_request(SeqId(1), 5, 4).unwrap_err(),
        CacheError::OutOfBlocks { requested: 5, available: 4 }
    );
    s.add_request(SeqId(1), 4, 4).unwrap();
}

#[test]
fn empty_request_still_writes_one_token() {
    let mut s = Scheduler::new(&config(4, 2), 4);
    s.add_request(SeqId(1), 0, 0).unwrap();
    let o = s.step().unwrap();
    assert_eq!(o.decoded.len(), 1);
    assert_eq!(o.decoded[0].slot, PhysicalSlot::new(BlockId(0), 0));
    assert_eq!(o.finished, vec![SeqId(1)]);
    assert!(s.is_idle());
}

#[test]
fn addresses_are_distinct() {
    let mut a = BlockAllocator::new(6);
    let mut t = BlockTable::new(4);
    t.append_many(&mut a, 21).unwrap();
    for i in 0..21 {
        for j in 0..i {
            assert_ne!(t.resolve(i).unwrap(), t.resolve(j).unwrap());
        }
    }
    assert_eq!(t.num_blocks(), 6);
}

#[test]
fn sequences_never_write_over_each_other() {
    let mut s = Scheduler::new(&config(16, 4), 4);
    s.add_request(SeqId(1), 6, 8).unwrap();
    s.step().unwrap();
    s.fork_sequence(SeqId(1), SeqId(2), 7).unwrap();
    s.fork_sequence(SeqId(1), SeqId(3), 7).unwrap();
    for _ in 0..6 {
        let o = s.step().unwrap();
        let running = s.running_snapshot();
        for d in &o.decoded {
            for r in running.iter().filter(|r| r.id != d.id) {
                assert!(!r.blocks.contains(&d.slot.block));
            }
        }
    }
}

#[test]
fn fork_for_the_rest_of_the_budget_finishes_too() {
    let mut s = Scheduler::new(&config(4, 2), 2);
    s.add_request(SeqId(1), 3, 5).unwrap();
    s.step().unwrap();
    s.fork_sequence(SeqId(1), SeqId(2), 4).unwrap();
    let mut finished = Vec::new();
    for _ in 0..8 {
        finished.extend(s.step().unwrap().finished);
    }
    assert!(s.is_idle());
    finished.sort();
    assert_eq!(finished, vec![SeqId(1), SeqId(2)]);
    assert_eq!(s.pool_utilization(), (0, 4));
}

#[test]
fn oversized_geometry_is_noticed() {
    let mut cfg = CacheConfig::tiny(8);
    assert!(cfg.is_addressable());
    assert!(cfg.has_byte_count());
    cfg.dtype_bytes = usize::MAX;
    assert!(cfg.is_addressable());
    assert!(!cfg.has_byte_count());
    cfg.num_blocks = usize::MAX;
    assert!(!cfg.is_addressable());
    cfg.num_kv_heads = 0;
    cfg.num_layers = 1;
    assert!(cfg.is_addressable());
    cfg.num_layers = 2;
    assert!(!cfg.is_addressable());
}

#[test]
fn request_beyond_the_range_of_numbers_is_rejected() {
    let mut s = Scheduler::new(&config(4, 2), 4);
    let error = s.add_request(SeqId(1), usize::MAX, 1).unwrap_err();
    assert_eq!(
        error,
        CacheError::OutOfBlocks { requested: usize::MAX / 2 + 1, available: 4 }
    );
    let error = s.add_request(SeqId(1), usize::MAX, usize::MAX).unwrap_err();
    assert_eq!(error, CacheError::OutOfBlocks { requested: usize::MAX, available: 4 });
    assert_eq!(s.num_waiting(), 0);

    // With blocks of one token the number of blocks is out of range too.
    let mut s = Scheduler::new(&config(4, 1), 4);
    let error = s.add_request(SeqId(1), usize::MAX, 1).unwrap_err();
    assert_eq!(error, CacheError::OutOfBlocks { requested: usize::MAX, available: 4 });
    assert!(s.is_idle());
}

#[test]
fn owner_counts_are_the_tables_that_hold_a_block() {
    let mut a = BlockAllocator::new(12);
    let mut tables: Vec<BlockTable> = Vec::new();
    let mut seed: u64 = 7;
    for _ in 0..500 {
        seed = seed.wrapping_mul(6364136223846793005).wrapping_add(1);
        let roll = (seed >> 33) % 5;
        let pick = (seed >> 13) as usize;
        if tables.is_empty() || roll == 0 {
            tables.push(BlockTable::new(3));
        } else {
            let i = pick % tables.len();
            match roll {
                1 => {
                    let child = tables[i].fork(&mut a).unwrap();
                    tables.push(child);
                }
                2 => tables.swap_remove(i).free(&mut a).unwrap(),
                _ => {
                    let n = tables[i].num_tokens();
                    if let Ok((slots, _)) = tables[i].append_many(&mut a, pick % 4) {
                        for (k, slot) in slots.iter().enumerate() {
                            assert_eq!(a.ref_count(slot.block).unwrap(), 1);
                            assert_eq!(tables[i].resolve(n + k).unwrap(), *slot);
                            for (j, t) in tables.iter().enumerate() {
                                assert!(j == i || !t.physical_blocks().contains(&slot.block));
                            }
                        }
                    }
                }
            }
        }
        for b in 0..12 {
            let id = BlockId(b);
            let held = tables.iter().filter(|t| t.physical_blocks().contains(&id)).count();
            assert_eq!(a.ref_count(id).unwrap() as usize, held);
        }
        for t in &tables {
            assert_eq!(t.num_blocks(), (t.num_tokens() + 2) / 3);
        }
        a.check_invariants().unwrap();
    }
}

#[test]
fn budgets_are_kept_to_the_token() {
    let mut s = Scheduler::new(&config(6, 2), 3);
    let budgets = [3, 0, 5, 1, 4, 2];
    for (i, n) in budgets.iter().enumerate() {
        s.add_request(SeqId(i as u64), 1 + i, *n).unwrap();
    }
    let mut decoded = [0; 6];
    let mut finished = [false; 6];
    while !s.is_idle() {
        let before = s.num_running() + s.num_waiting();
        let o = s.step().unwrap();
        for d in &o.decoded {
            assert!(!finished[d.id.0 as usize]);
            decoded[d.id.0 as usize] += 1;
        }
        let mut done = Vec::new();
        let mut running = Vec::new();
        for d in &o.decoded {
            let i = d.id.0 as usize;
            if decoded[i] == budgets[i].max(1) {
                finished[i] = true;
                done.push(d.id);
            } else {
                running.push(d.id);
            }
        }
        assert_eq!(o.finished, done);
        let ids: Vec<SeqId> = s.running_snapshot().iter().map(|r| r.id).collect();
        assert_eq!(ids, running);
        assert_eq!(s.num_running() + s.num_waiting() + o.finished.len(), before);
    }
    assert_eq!(decoded, [3, 1, 5, 1, 4, 2]);
}

#[test]
fn step_loses_nothing_in_the_cache() {
    let cfg = CacheConfig { num_kv_heads: 1, head_dim: 1, num_layers: 2, ..config(5, 3) };
    let mut s = Scheduler::new(&cfg, 4);
    let mut backend: CpuBackend<u64> = CpuBackend::new(cfg);
    s.add_request(SeqId(1), 2, 9).unwrap();
    let mut next = 1;
    let mut forked = 1;
    for step in 0..12 {
        if step % 3 == 1 && s.num_running() > 0 {
            forked += 1;
            let parent = s.running_snapshot()[0].id;
            s.fork_sequence(parent, SeqId(forked), 4).unwrap();
        }
        let before = s.running_snapshot();
        let read = |b: &CpuBackend<u64>, block: BlockId, slot: usize| {
            let (mut k, mut v) = ([0], [0]);
            b.read_kv(1, PhysicalSlot::new(block, slot), &mut k, &mut v).unwrap();
            (k[0], v[0])
        };
        let texts: Vec<Vec<(u64, u64)>> = before
            .iter()
            .map(|r| (0..r.tokens).map(|p| read(&backend, r.blocks[p / 3], p % 3)).collect())
            .collect();
        let o = s.step().unwrap();
        for d in &o.decoded {
            if let Some(c) = d.cow {
                assert_eq!(c.dst, d.slot.block);
                backend.copy_block(c.src, c.dst).unwrap();
            }
            for layer in 0..2 {
                backend.write_kv(layer, d.slot, &[next], &[next + 1000]).unwrap();
            }
            next += 1;
        }
        for (i, d) in o.decoded.iter().enumerate() {
            for e in &o.decoded[..i] {
                assert_ne!(d.slot.block, e.slot.block);
            }
        }
        for r in s.running_snapshot() {
            if let Some(i) = before.iter().position(|b| b.id == r.id) {
                let now: Vec<(u64, u64)> = (0..before[i].tokens)
                    .map(|p| read(&backend, r.blocks[p / 3], p % 3))
                    .collect();
                assert_eq!(now, texts[i]);
            }
        }
    }
    assert!(next > 12);
}
