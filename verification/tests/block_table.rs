use paged_kv_cache::{BlockAllocator, BlockTable, CacheError};

fn setup(num_blocks: usize, block_size: usize) -> (BlockAllocator, BlockTable) {
    (BlockAllocator::new(num_blocks), BlockTable::new(block_size))
}

#[test]
fn append_allocates_lazily_and_fills_one_block_before_growing() {
    let (mut a, mut t) = setup(8, 4);
    assert_eq!(t.num_blocks(), 0);

    for i in 0..4 {
        let (slot, cow) = t.append(&mut a).unwrap();
        assert!(cow.is_none());
        assert_eq!(slot.slot, i);
        assert_eq!(t.num_blocks(), 1, "should still be one block at token {i}");
    }

    // Fifth token must grow to a second block.
    let (slot, cow) = t.append(&mut a).unwrap();
    assert!(cow.is_none());
    assert_eq!(slot.slot, 0);
    assert_eq!(t.num_blocks(), 2);
    assert_eq!(t.num_tokens(), 5);
    assert_eq!(a.num_used(), 2);
}

#[test]
fn resolve_matches_the_slots_append_handed_out() {
    let (mut a, mut t) = setup(8, 4);
    let mut slots = Vec::new();
    for _ in 0..10 {
        slots.push(t.append(&mut a).unwrap().0);
    }
    for (pos, expected) in slots.iter().enumerate() {
        assert_eq!(t.resolve(pos).unwrap(), *expected);
    }
}

#[test]
fn resolve_rejects_unwritten_positions() {
    let (mut a, mut t) = setup(8, 4);
    t.append(&mut a).unwrap();
    assert!(t.resolve(0).is_ok());
    assert!(t.resolve(1).is_err(), "position 1 was never written");
}

#[test]
fn fork_shares_blocks_without_copying() {
    let (mut a, mut t) = setup(8, 4);
    for _ in 0..6 {
        t.append(&mut a).unwrap(); // 2 blocks
    }
    assert_eq!(a.num_used(), 2);

    let child = t.fork(&mut a).unwrap();

    // Same physical blocks, refcount 2 each, no new allocations.
    assert_eq!(child.physical_blocks(), t.physical_blocks());
    assert_eq!(a.num_used(), 2, "fork must not allocate new blocks");
    for &b in t.physical_blocks() {
        assert_eq!(a.ref_count(b).unwrap(), 2);
    }

    t.free(&mut a).unwrap();
    child.free(&mut a).unwrap();
    assert_eq!(a.num_free(), 8);
}

#[test]
fn writing_to_a_forked_sequence_triggers_cow_on_the_shared_tail_only() {
    let (mut a, mut t) = setup(8, 4);
    for _ in 0..3 {
        t.append(&mut a).unwrap(); // one partially-full block
    }
    let parent_block = t.physical_blocks()[0];

    let mut child = t.fork(&mut a).unwrap();
    assert_eq!(a.ref_count(parent_block).unwrap(), 2);

    // Child writes its 4th token — lands in the same (shared) block.
    let (slot, cow) = child.append(&mut a).unwrap();
    let cow = cow.expect("appending into a shared block must trigger CoW");
    assert_eq!(cow.src, parent_block);
    assert_ne!(cow.dst, parent_block, "CoW must produce a fresh block");
    assert_eq!(slot.block, cow.dst);
    assert_eq!(slot.slot, 3);

    // Parent's block must be untouched and now solely owned again.
    assert_eq!(t.physical_blocks()[0], parent_block);
    assert_eq!(a.ref_count(parent_block).unwrap(), 1);
    assert_eq!(a.ref_count(cow.dst).unwrap(), 1);

    // Parent can still append its own 4th token into the original block,
    // independent of the child.
    let (parent_slot, parent_cow) = t.append(&mut a).unwrap();
    assert!(parent_cow.is_none(), "sole owner should not trigger CoW");
    assert_eq!(parent_slot.block, parent_block);
    assert_eq!(parent_slot.slot, 3);

    t.free(&mut a).unwrap();
    child.free(&mut a).unwrap();
    assert_eq!(a.num_free(), 8);
}

#[test]
fn cow_only_touches_the_tail_block_earlier_blocks_stay_shared() {
    let (mut a, mut t) = setup(16, 2); // block_size 2, so blocks fill fast
    for _ in 0..6 {
        t.append(&mut a).unwrap(); // 3 full blocks
    }
    let original_blocks = t.physical_blocks().to_vec();

    let mut child = t.fork(&mut a).unwrap();
    // Child grows a 4th block — new allocation, not a CoW copy, since the
    // tail (block 3) didn't exist yet for the parent.
    let (_, cow) = child.append(&mut a).unwrap();
    assert!(cow.is_none(), "growing onto a new block is not CoW");

    // The three original blocks remain shared (refcount 2) and identical
    // between parent and child.
    for (i, &b) in original_blocks.iter().enumerate() {
        assert_eq!(a.ref_count(b).unwrap(), 2, "block {i} should still be shared");
        assert_eq!(child.physical_blocks()[i], b);
    }

    t.free(&mut a).unwrap();
    child.free(&mut a).unwrap();
    assert_eq!(a.num_free(), 16);
}

#[test]
fn append_many_matches_repeated_append() {
    let (mut a1, mut t1) = setup(16, 4);
    let (mut a2, mut t2) = setup(16, 4);

    let mut slots1 = Vec::new();
    for _ in 0..11 {
        slots1.push(t1.append(&mut a1).unwrap().0);
    }

    let (slots2, _) = t2.append_many(&mut a2, 11).unwrap();

    assert_eq!(slots1, slots2);
    assert_eq!(t1.physical_blocks().len(), t2.physical_blocks().len());
    assert_eq!(a1.num_used(), a2.num_used());
}

#[test]
fn append_many_rolls_back_cleanly_on_exhaustion() {
    let (mut a, mut t) = setup(2, 4); // room for 8 tokens total
    let err = t.append_many(&mut a, 20).unwrap_err();
    assert!(matches!(err, CacheError::OutOfBlocks { .. }));

    // Table must be back to empty, allocator back to fully free.
    assert_eq!(t.num_tokens(), 0);
    assert_eq!(t.num_blocks(), 0);
    assert_eq!(a.num_free(), 2);
    a.check_invariants().unwrap();
}

#[test]
fn free_releases_every_block_and_is_safe_on_an_empty_table() {
    let (mut a, mut t) = setup(4, 4);
    for _ in 0..9 {
        t.append(&mut a).unwrap();
    }
    assert_eq!(a.num_used(), 3);
    t.free(&mut a).unwrap();
    assert_eq!(a.num_free(), 4);

    let empty = BlockTable::new(4);
    empty.free(&mut a).unwrap(); // must not panic or error
    a.check_invariants().unwrap();
}

#[test]
fn three_way_fork_shares_correctly_and_last_writer_pays_the_copy() {
    // Beam search with width 3: one parent forks into three beams that
    // all initially share everything, then each writes independently.
    let (mut a, mut t) = setup(16, 4);
    for _ in 0..4 {
        t.append(&mut a).unwrap(); // exactly one full block
    }
    let original = t.physical_blocks()[0];

    let mut beam_a = t.fork(&mut a).unwrap();
    let mut beam_b = t.fork(&mut a).unwrap();
    // t itself + beam_a + beam_b = 3 owners.
    assert_eq!(a.ref_count(original).unwrap(), 3);

    // Each beam grows a fresh block for its next token — none of these
    // touch the shared block 0, so no CoW yet.
    let (_, cow_a) = beam_a.append(&mut a).unwrap();
    let (_, cow_b) = beam_b.append(&mut a).unwrap();
    assert!(cow_a.is_none());
    assert!(cow_b.is_none());
    assert_eq!(a.ref_count(original).unwrap(), 3, "block 0 still shared 3 ways");

    t.free(&mut a).unwrap();
    beam_a.free(&mut a).unwrap();
    beam_b.free(&mut a).unwrap();
    assert_eq!(a.num_free(), 16);
}
