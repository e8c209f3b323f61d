use paged_kv_cache::{BlockAllocator, BlockId, CacheError};

fn fraction(ratio: (usize, usize)) -> f64 {
    ratio.0 as f64 / ratio.1 as f64
}

#[test]
fn fresh_pool_is_entirely_free() {
    let a = BlockAllocator::new(8);
    assert_eq!(a.num_free(), 8);
    assert_eq!(a.num_used(), 0);
    assert_eq!(fraction(a.utilization()), 0.0);
    a.check_invariants().unwrap();
}

#[test]
fn allocate_hands_out_distinct_blocks_with_refcount_one() {
    let mut a = BlockAllocator::new(4);
    let ids: Vec<_> = (0..4).map(|_| a.allocate().unwrap()).collect();

    let mut sorted = ids.clone();
    sorted.sort();
    sorted.dedup();
    assert_eq!(sorted.len(), 4, "allocator handed out a duplicate");

    for id in ids {
        assert_eq!(a.ref_count(id).unwrap(), 1);
    }
    assert_eq!(a.num_free(), 0);
    assert_eq!(fraction(a.utilization()), 1.0);
    a.check_invariants().unwrap();
}

#[test]
fn exhausted_pool_reports_out_of_blocks() {
    let mut a = BlockAllocator::new(2);
    a.allocate().unwrap();
    a.allocate().unwrap();
    assert_eq!(
        a.allocate().unwrap_err(),
        CacheError::OutOfBlocks {
            requested: 1,
            available: 0
        }
    );
}

#[test]
fn allocate_many_is_all_or_nothing() {
    let mut a = BlockAllocator::new(4);
    let err = a.allocate_many(5).unwrap_err();
    assert_eq!(
        err,
        CacheError::OutOfBlocks {
            requested: 5,
            available: 4
        }
    );
    // The failed request must not have consumed anything.
    assert_eq!(a.num_free(), 4);
    assert_eq!(a.total_allocated(), 0);
    a.check_invariants().unwrap();
}

#[test]
fn decref_to_zero_returns_block_to_the_pool() {
    let mut a = BlockAllocator::new(2);
    let id = a.allocate().unwrap();
    assert_eq!(a.num_free(), 1);

    assert_eq!(a.decref(id).unwrap(), 0);
    assert_eq!(a.num_free(), 2);
    assert!(!a.is_allocated(id).unwrap());
    a.check_invariants().unwrap();
}

#[test]
fn shared_block_survives_one_owner_leaving() {
    let mut a = BlockAllocator::new(2);
    let id = a.allocate().unwrap();

    // Parent forks twice: three owners total.
    assert_eq!(a.incref(id).unwrap(), 2);
    assert_eq!(a.incref(id).unwrap(), 3);
    assert!(a.is_shared(id).unwrap());

    assert_eq!(a.decref(id).unwrap(), 2);
    assert!(a.is_shared(id).unwrap());
    assert_eq!(a.num_free(), 1, "block freed while still shared");

    assert_eq!(a.decref(id).unwrap(), 1);
    assert!(!a.is_shared(id).unwrap(), "sole owner should not be shared");
    assert!(a.is_allocated(id).unwrap());

    assert_eq!(a.decref(id).unwrap(), 0);
    assert_eq!(a.num_free(), 2);
    a.check_invariants().unwrap();
}

#[test]
fn double_free_is_an_error_not_a_silent_corruption() {
    let mut a = BlockAllocator::new(2);
    let id = a.allocate().unwrap();
    a.decref(id).unwrap();

    assert_eq!(
        a.decref(id).unwrap_err(),
        CacheError::BlockNotAllocated { id }
    );
    // Critically: the free list must not now contain `id` twice.
    assert_eq!(a.num_free(), 2);
    a.check_invariants().unwrap();
}

#[test]
fn incref_on_a_free_block_is_rejected() {
    let mut a = BlockAllocator::new(2);
    let id = BlockId(0);
    assert_eq!(
        a.incref(id).unwrap_err(),
        CacheError::BlockNotAllocated { id }
    );
}

#[test]
fn out_of_range_block_is_rejected() {
    let a = BlockAllocator::new(2);
    let id = BlockId(7);
    assert_eq!(
        a.ref_count(id).unwrap_err(),
        CacheError::InvalidBlock { id, num_blocks: 2 }
    );
}

#[test]
fn free_list_is_lifo() {
    let mut a = BlockAllocator::new(4);
    let ids = a.allocate_many(4).unwrap();

    a.decref(ids[1]).unwrap();
    a.decref(ids[3]).unwrap();

    // Most recently freed comes back first.
    assert_eq!(a.allocate().unwrap(), ids[3]);
    assert_eq!(a.allocate().unwrap(), ids[1]);
    a.check_invariants().unwrap();
}

#[test]
fn churn_preserves_invariants() {
    // Deterministic pseudo-random churn: allocate, fork, and release in a
    // repeating pattern, checking the free list stays consistent.
    let mut a = BlockAllocator::new(16);
    let mut live: Vec<BlockId> = Vec::new();
    let mut seed: u64 = 0x243F_6A88_85A3_08D3;

    for step in 0..2_000 {
        seed = seed.wrapping_mul(6364136223846793005).wrapping_add(1);
        let roll = (seed >> 33) % 3;

        match roll {
            0 => {
                if let Ok(id) = a.allocate() {
                    live.push(id);
                }
            }
            1 => {
                if !live.is_empty() {
                    let i = (seed >> 13) as usize % live.len();
                    let id = live[i];
                    if a.incref(id).is_ok() {
                        live.push(id);
                    }
                }
            }
            _ => {
                if !live.is_empty() {
                    let i = (seed >> 17) as usize % live.len();
                    let id = live.swap_remove(i);
                    a.decref(id).unwrap();
                }
            }
        }

        a.check_invariants()
            .unwrap_or_else(|e| panic!("invariant broken at step {step}: {e}"));
    }

    // Drain everything; the pool must come back whole.
    for id in live {
        a.decref(id).unwrap();
    }
    assert_eq!(a.num_free(), 16, "blocks leaked during churn");
    a.check_invariants().unwrap();
}
