use paged_kv_cache::{CacheConfig, CacheError, PhysicalSlot, Scheduler, SeqId};

fn fraction(ratio: (usize, usize)) -> f64 {
    ratio.0 as f64 / ratio.1 as f64
}

fn config(num_blocks: usize, block_size: usize) -> CacheConfig {
    CacheConfig {
        num_blocks,
        block_size,
        num_kv_heads: 1,
        head_dim: 1,
        num_layers: 1,
        dtype_bytes: 4,
    }
}

#[test]
fn admits_and_decodes_a_single_sequence_to_completion() {
    // block_size=4, prompt=3: admission leaves one free slot in the
    // tail, so the first decode writes in place; the second decode
    // fills the block exactly and finishes.
    let mut s = Scheduler::new(&config(8, 4), 2);
    s.add_request(SeqId(1), 3, 2).unwrap();

    let o1 = s.step().unwrap();
    assert_eq!(o1.admitted, vec![SeqId(1)]);
    assert_eq!(o1.decoded.len(), 1);
    assert_eq!(o1.decoded[0].slot, PhysicalSlot::new(o1.decoded[0].slot.block, 3));
    assert!(o1.decoded[0].cow.is_none());
    assert!(o1.finished.is_empty());
    assert_eq!(s.num_running(), 1);

    let o2 = s.step().unwrap();
    assert!(o2.admitted.is_empty());
    assert_eq!(o2.decoded.len(), 1);
    assert_eq!(o2.finished, vec![SeqId(1)]);

    assert!(s.is_idle());
    assert_eq!(fraction(s.pool_utilization()), 0.0, "finished sequence must release every block");
}

#[test]
fn batch_size_caps_concurrent_admission() {
    let mut s = Scheduler::new(&config(16, 4), 1);
    s.add_request(SeqId(1), 2, 3).unwrap();
    s.add_request(SeqId(2), 2, 1).unwrap();

    let o1 = s.step().unwrap();
    assert_eq!(o1.admitted, vec![SeqId(1)]);
    assert_eq!(s.num_running(), 1);
    assert_eq!(s.num_waiting(), 1, "seq 2 must wait: batch is full");

    let o2 = s.step().unwrap();
    assert!(o2.admitted.is_empty(), "batch still full, seq 1 not done yet");
    assert_eq!(s.num_waiting(), 1);

    let o3 = s.step().unwrap();
    assert_eq!(o3.finished, vec![SeqId(1)], "seq 1 reaches its 3-token budget");
    assert_eq!(s.num_waiting(), 1, "seq 2 not admitted mid-step even though room just opened");

    let o4 = s.step().unwrap();
    assert_eq!(o4.admitted, vec![SeqId(2)], "now that seq 1 is gone, seq 2 gets its turn");
    assert_eq!(o4.finished, vec![SeqId(2)], "seq 2's budget is 1 token, finishes immediately");

    assert!(s.is_idle());
}

#[test]
fn oversized_request_is_rejected_up_front() {
    let mut s = Scheduler::new(&config(4, 2), 4); // total capacity = 8 tokens
    let err = s.add_request(SeqId(1), 5, 5).unwrap_err(); // needs 10, pool holds 8
    assert!(matches!(err, CacheError::OutOfBlocks { .. }));
    assert_eq!(s.num_waiting(), 0, "rejected request must not sit in the queue");
}

#[test]
fn pool_pressure_forces_preemption_then_both_sequences_complete() {
    // 3 blocks of 2 tokens each = 6 tokens total capacity. Two
    // sequences with prompt=2, budget=2 tokens each (4 tokens final
    // context each) both individually fit, but not with room to spare
    // for both to run concurrently at full size.
    let mut s = Scheduler::new(&config(3, 2), 2);
    s.add_request(SeqId(1), 2, 2).unwrap();
    s.add_request(SeqId(2), 2, 2).unwrap();

    // Step 1: both admitted (1 block each, 1 free block left). Decode:
    // seq 1 grows into the spare block; seq 2 then finds the pool
    // empty and, being the newest arrival, preempts itself.
    let o1 = s.step().unwrap();
    assert_eq!(o1.admitted.len(), 2);
    assert_eq!(o1.preempted, vec![SeqId(2)]);
    assert_eq!(
        o1.decoded.iter().map(|d| d.id).collect::<Vec<_>>(),
        vec![SeqId(1)],
        "seq 2's decode this round must be voided by its own preemption"
    );
    assert_eq!(s.num_running(), 1);
    assert_eq!(s.num_waiting(), 1);

    // Step 2: seq 2 is re-admitted (its context didn't grow, so it
    // costs exactly the block it had before). Seq 1 advances into its
    // now-full tail with room to spare. Seq 2 then hits the same wall
    // and preempts itself again — but seq 1 finishes this same step,
    // fully draining the pool.
    let o2 = s.step().unwrap();
    assert_eq!(o2.admitted, vec![SeqId(2)]);
    assert_eq!(o2.preempted, vec![SeqId(2)]);
    assert_eq!(o2.finished, vec![SeqId(1)]);
    assert_eq!(fraction(s.pool_utilization()), 0.0, "seq 1 finished and seq 2 was fully evicted");

    // From here there's no more contention. Run to completion with a
    // generous bound so a real bug shows up as a failed assertion, not
    // a hang.
    let mut seen_finished = Vec::new();
    for _ in 0..20 {
        if s.is_idle() {
            break;
        }
        let o = s.step().unwrap();
        seen_finished.extend(o.finished);
    }

    assert!(s.is_idle(), "scheduler failed to drain within the step budget");
    assert_eq!(seen_finished, vec![SeqId(2)], "seq 2 must complete on its own after seq 1 finishes");
    assert_eq!(fraction(s.pool_utilization()), 0.0);
}

#[test]
fn fork_shares_the_tail_block_and_the_second_writer_pays_the_cow() {
    // block_size=8 leaves plenty of room in the first block for both
    // the prompt and a couple of generated tokens, so the fork happens
    // while the tail is still shareable instead of already full.
    let mut s = Scheduler::new(&config(16, 8), 4);
    s.add_request(SeqId(1), 3, 5).unwrap();

    let o1 = s.step().unwrap(); // admit + first decode for the parent
    let shared_block = o1.decoded[0].slot.block;

    s.fork_sequence(SeqId(1), SeqId(2), 5).unwrap();
    assert_eq!(s.num_running(), 2);

    let o2 = s.step().unwrap();
    assert_eq!(o2.decoded.len(), 2);

    let parent = o2.decoded.iter().find(|d| d.id == SeqId(1)).unwrap();
    let child = o2.decoded.iter().find(|d| d.id == SeqId(2)).unwrap();

    // Parent is processed first (it was running before the fork) and
    // finds the tail still shared with the child: it pays the copy.
    let cow = parent.cow.expect("parent must trigger CoW on the shared tail");
    assert_eq!(cow.src, shared_block);
    assert_ne!(cow.dst, shared_block);
    assert_eq!(parent.slot.block, cow.dst);

    // By the time the child writes, it is the sole remaining owner of
    // the original block — no copy needed.
    assert!(child.cow.is_none());
    assert_eq!(child.slot.block, shared_block);
}

#[test]
fn fork_of_unknown_sequence_is_rejected() {
    let mut s = Scheduler::new(&config(8, 4), 2);
    let err = s.fork_sequence(SeqId(99), SeqId(100), 1).unwrap_err();
    assert_eq!(err, CacheError::UnknownSequence { id: SeqId(99) });
}

#[test]
fn many_small_sequences_drain_cleanly_with_no_leaks() {
    // Broader randomized-ish smoke test: more requests than fit at once,
    // small budgets, tight pool — run until idle and confirm every
    // block comes back.
    let mut s = Scheduler::new(&config(6, 2), 3);
    for i in 0..10u64 {
        s.add_request(SeqId(i), 2, 2).unwrap();
    }

    let mut finished = Vec::new();
    for _ in 0..200 {
        if s.is_idle() {
            break;
        }
        let o = s.step().unwrap();
        finished.extend(o.finished);
    }

    assert!(s.is_idle(), "did not drain within the step budget");
    finished.sort_by_key(|id| id.0);
    finished.dedup();
    assert_eq!(finished.len(), 10, "every request must finish exactly once");
    assert_eq!(fraction(s.pool_utilization()), 0.0);
}
