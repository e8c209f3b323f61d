use paged_kv_cache::CacheConfig;

#[test]
fn llama_bytes_per_token_is_sane() {
    let cfg = CacheConfig::llama_3_2_1b(1024);
    // 2 (K+V) * 16 layers * 8 heads * 64 dim * 2 bytes = 32768 B = 32 KiB.
    assert_eq!(cfg.bytes_per_token(), 32 * 1024);
}

#[test]
fn blocks_for_tokens_rounds_up() {
    let cfg = CacheConfig::tiny(64); // block_size 4
    assert_eq!(cfg.blocks_for_tokens(0), 0);
    assert_eq!(cfg.blocks_for_tokens(1), 1);
    assert_eq!(cfg.blocks_for_tokens(4), 1);
    assert_eq!(cfg.blocks_for_tokens(5), 2);
}

#[test]
fn split_position_matches_block_size() {
    let cfg = CacheConfig::tiny(64);
    assert_eq!(cfg.split_position(0), (0, 0));
    assert_eq!(cfg.split_position(3), (0, 3));
    assert_eq!(cfg.split_position(4), (1, 0));
    assert_eq!(cfg.split_position(9), (2, 1));
}

#[test]
fn total_bytes_is_consistent_with_per_block_math() {
    let cfg = CacheConfig::llama_3_2_1b(1000);
    let per_block_all_layers =
        2 * cfg.num_layers * cfg.block_elems() * cfg.dtype_bytes;
    assert_eq!(cfg.total_bytes(), per_block_all_layers * cfg.num_blocks);
    // A block holds 16 tokens, so it should equal 16 * bytes_per_token.
    assert_eq!(per_block_all_layers, 16 * cfg.bytes_per_token());
}
