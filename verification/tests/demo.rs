use std::collections::BTreeSet;

use paged_kv_cache::demo::{Demo, Event, EventKind};
use paged_kv_cache::{BlockId, CacheError};

#[test]
fn new_demo_is_idle() {
    let demo = Demo::new();
    let s = demo.snapshot();
    assert_eq!(s.tick, 0);
    assert_eq!(s.num_blocks, 64);
    assert_eq!(s.block_size, 8);
    assert_eq!(s.pool_utilization, (0, 64));
    assert_eq!(s.num_waiting, 0);
    assert_eq!(s.num_running, 0);
    assert_eq!(s.blocks.len(), 64);
    assert_eq!(s.blocks[63].id, BlockId(63));
    assert!(s.running.is_empty());
    assert!(s.events.is_empty());
    assert!(demo.has_headroom());
    assert!(demo.has_id());
}

#[test]
fn rejected_request_uses_up_an_id() {
    let mut demo = Demo::new();
    assert_eq!(demo.submit(10, 4).unwrap(), 1);
    assert_eq!(
        demo.submit(500, 20).unwrap_err(),
        CacheError::OutOfBlocks { requested: 65, available: 64 }
    );
    assert_eq!(demo.submit(500, 12).unwrap(), 3);
    assert_eq!(demo.snapshot().num_waiting, 2);
}

#[test]
fn tick_admits_and_decodes() {
    let mut demo = Demo::new();
    demo.submit(10, 2).unwrap();
    demo.advance_with(4, 4, 0);
    let s = demo.snapshot();
    assert_eq!(s.tick, 1);
    assert_eq!(s.num_running, 1);
    assert_eq!(s.running[0].tokens, 11);
    assert_eq!(s.pool_utilization, (2, 64));
    assert_eq!(s.events, vec![Event { seq_id: 1, tick: 1, kind: EventKind::Admitted }]);
    demo.advance_with(4, 4, 0);
    let s = demo.snapshot();
    assert_eq!(s.num_running, 0);
    assert_eq!(s.events[1], Event { seq_id: 1, tick: 2, kind: EventKind::Finished });
    assert_eq!(s.pool_utilization, (0, 64));
}

#[test]
fn every_third_tick_brings_a_request() {
    let mut demo = Demo::new();
    demo.advance_with(20, 9, 0);
    demo.advance_with(20, 9, 0);
    assert_eq!(demo.snapshot().num_running, 0);
    demo.advance_with(20, 9, 0);
    let s = demo.snapshot();
    assert_eq!(s.tick, 3);
    assert_eq!(s.num_running, 1);
    assert_eq!(s.running[0].tokens, 21);
    assert_eq!(s.running[0].generated, 1);
    assert_eq!(s.running[0].max_new_tokens, 9);
}

#[test]
fn every_fifth_tick_forks_and_the_parent_pays_the_copy() {
    let mut demo = Demo::new();
    for _ in 0..4 {
        demo.advance_with(17, 20, 0);
    }
    let before = demo.snapshot();
    assert_eq!(before.num_running, 1);
    let tail = before.running[0].blocks[2];
    demo.advance_with(17, 20, 0);
    let s = demo.snapshot();
    assert_eq!(s.num_running, 2);
    assert_eq!(s.running[1].id.0, 2);
    assert_eq!(s.running[1].max_new_tokens, 18);
    let copied = s.running[0].blocks[2];
    assert_ne!(copied, tail);
    assert_eq!(s.running[1].blocks[2], tail);
    assert_eq!(
        *s.events.last().unwrap(),
        Event {
            seq_id: 1,
            tick: 5,
            kind: EventKind::Cow { src_block: tail.0, dst_block: copied.0 },
        }
    );
    assert_eq!(s.blocks[s.running[0].blocks[0].index()].ref_count, 2);
}

#[test]
fn log_keeps_the_most_recent_events() {
    let mut demo = Demo::new();
    let mut last = 0;
    for _ in 0..150 {
        demo.submit(1, 1).unwrap();
        demo.advance_with(4, 4, 0);
        let s = demo.snapshot();
        assert!(s.events.len() <= 200);
        assert!(s.events.windows(2).all(|w| w[0].tick <= w[1].tick));
        last = s.events.len();
    }
    assert_eq!(last, 200);
    let events = demo.snapshot().events;
    assert_eq!(events.last().unwrap().tick, 150);
    assert!(events[0].tick > 1);
}

#[test]
fn chance_draws_within_its_ranges() {
    let mut prompts = BTreeSet::new();
    let mut budgets = BTreeSet::new();
    for _ in 0..60 {
        let mut demo = Demo::new();
        for _ in 0..3 {
            demo.advance();
        }
        let s = demo.snapshot();
        assert_eq!(s.num_running, 1);
        let prompt = s.running[0].tokens - s.running[0].generated;
        assert!((4..48).contains(&prompt));
        assert!((4..32).contains(&s.running[0].max_new_tokens));
        prompts.insert(prompt);
        budgets.insert(s.running[0].max_new_tokens);
    }
    assert!(prompts.len() > 1);
    assert!(budgets.len() > 1);
}

#[test]
fn long_run_stays_consistent() {
    let mut demo = Demo::new();
    for tick in 1..=600 {
        assert!(demo.has_headroom());
        demo.advance();
        let s = demo.snapshot();
        assert_eq!(s.tick, tick);
        let used = s.blocks.iter().filter(|b| b.ref_count > 0).count();
        assert_eq!(s.pool_utilization, (used, 64));
        for b in &s.blocks {
            let owners = s.running.iter().filter(|r| r.blocks.contains(&b.id)).count();
            assert_eq!(b.ref_count as usize, owners);
        }
        for r in &s.running {
            assert_eq!(r.blocks.len(), (r.tokens + 7) / 8);
        }
    }
    let kinds: Vec<EventKind> = demo.snapshot().events.iter().map(|e| e.kind).collect();
    assert!(kinds.contains(&EventKind::Admitted));
    assert!(kinds.contains(&EventKind::Finished));
}

#[test]
fn oversized_submission_is_turned_away() {
    let mut demo = Demo::new();
    assert!(matches!(
        demo.submit(usize::MAX, usize::MAX).unwrap_err(),
        CacheError::OutOfBlocks { available: 64, .. }
    ));
    assert_eq!(demo.snapshot().num_waiting, 0);
    assert_eq!(demo.submit(1, 1).unwrap(), 2);
}
