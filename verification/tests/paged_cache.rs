use forge_infer::arith::Ratio;
use forge_infer::paged_cache::{BlockTable, CacheError, PagedKVCache};

#[test]
fn allocate_and_free_round_trips() {
    let mut cache = PagedKVCache::new(8, 4);
    assert_eq!(cache.free_blocks(), 8);

    cache.register(1);
    cache.append(1, 10).unwrap(); // ceil(10/4) = 3 blocks
    assert_eq!(cache.used_blocks(), 3);
    assert_eq!(cache.seq_len(1), 10);

    cache.free(1);
    assert_eq!(cache.free_blocks(), 8, "freeing must return every block");
    assert!(!cache.contains(1));
}

#[test]
fn lazy_growth_only_allocates_when_a_block_fills() {
    let mut cache = PagedKVCache::new(8, 4);
    cache.register(1);

    cache.append(1, 1).unwrap();
    assert_eq!(cache.used_blocks(), 1, "first token needs one block");

    // Three more tokens fit in the same block, no new allocation.
    cache.append(1, 3).unwrap();
    assert_eq!(cache.used_blocks(), 1);

    // The fifth token spills into a second block.
    cache.append(1, 1).unwrap();
    assert_eq!(cache.used_blocks(), 2);
}

#[test]
fn internal_fragmentation_is_bounded_by_block_size() {
    let mut cache = PagedKVCache::new(16, 4);
    for s in 0..3u64 {
        cache.register(s);
        cache.append(s, 5).unwrap(); // 2 blocks, 8 slots, 5 used -> 3 slack
    }
    // Each sequence wastes at most block_size - 1 slots.
    assert!(cache.internal_fragmentation() <= 3 * (4 - 1));
    assert_eq!(cache.internal_fragmentation(), 3 * 3);
}

#[test]
fn out_of_blocks_is_reported_and_leaves_state_intact() {
    let mut cache = PagedKVCache::new(2, 4);
    cache.register(1);
    cache.append(1, 8).unwrap(); // uses both blocks exactly

    cache.register(2);
    let err = cache.append(2, 1).unwrap_err();
    assert_eq!(err, CacheError::OutOfBlocks { needed: 1, free: 0 });
    // The failed sequence must not have grown.
    assert_eq!(cache.seq_len(2), 0);
    assert_eq!(cache.used_blocks(), 2);
}

#[test]
fn no_external_fragmentation_after_interleaved_free() {
    // Allocate three sequences, free the middle one, and show its blocks are
    // immediately reusable by a new sequence.
    let mut cache = PagedKVCache::new(6, 4);
    for s in 1..=3u64 {
        cache.register(s);
        cache.append(s, 4).unwrap();
    }
    assert_eq!(cache.free_blocks(), 3);

    cache.free(2); // returns one block to the middle of the pool
    assert_eq!(cache.free_blocks(), 4);

    cache.register(4);
    // The new sequence happily uses the freed block plus a spare.
    cache.append(4, 8).unwrap();
    assert_eq!(cache.seq_len(4), 8);
    assert_eq!(cache.free_blocks(), 2);
}

#[test]
fn eviction_picks_the_largest_sequence() {
    let mut cache = PagedKVCache::new(16, 4);
    cache.register(1);
    cache.append(1, 4).unwrap(); // 1 block
    cache.register(2);
    cache.append(2, 12).unwrap(); // 3 blocks
    cache.register(3);
    cache.append(3, 8).unwrap(); // 2 blocks

    let victim = cache.evict_largest().unwrap();
    assert_eq!(victim, 2, "the 3-block sequence must be evicted first");
    assert!(!cache.contains(2));
    assert_eq!(cache.free_blocks(), 16 - 1 - 2);
}

#[test]
fn blocks_needed_accounts_for_slack() {
    let mut cache = PagedKVCache::new(16, 4);
    cache.register(1);
    cache.append(1, 2).unwrap(); // 1 block, 2 slack
    assert_eq!(cache.blocks_needed_for(1, 2), 0, "fits in slack");
    assert_eq!(cache.blocks_needed_for(1, 3), 1, "spills by one token");
    assert_eq!(cache.blocks_needed_for(1, 6), 1);
    assert_eq!(cache.blocks_needed_for(1, 7), 2);
}

#[test]
fn unknown_sequence_append_errors() {
    let mut cache = PagedKVCache::new(4, 4);
    assert_eq!(cache.append(99, 1), Err(CacheError::UnknownSequence(99)));
}

#[test]
fn peak_blocks_tracks_the_high_water_mark_not_the_current_use() {
    // Two sequences allocate three blocks at once, then one is freed. The
    // current use drops but the recorded peak holds.
    let mut cache = PagedKVCache::new(8, 4);
    assert_eq!(cache.peak_blocks(), 0);

    cache.register(1);
    cache.append(1, 8).unwrap(); // 2 blocks
    cache.register(2);
    cache.append(2, 4).unwrap(); // 1 block, 3 in use
    assert_eq!(cache.used_blocks(), 3);
    assert_eq!(cache.peak_blocks(), 3);

    cache.free(1); // 1 block in use now
    assert_eq!(cache.used_blocks(), 1);
    assert_eq!(
        cache.peak_blocks(),
        3,
        "peak must not fall when blocks free"
    );

    // A later, smaller burst does not lower the recorded peak.
    cache.append(2, 4).unwrap();
    assert_eq!(cache.peak_blocks(), 3);
}

#[test]
fn blocks_come_off_the_top_of_the_free_stack() {
    let mut cache = PagedKVCache::new(8, 4);
    cache.register(1);
    cache.append(1, 9).unwrap();
    assert_eq!(cache.block_table(1).unwrap().blocks, vec![7, 6, 5]);
    cache.register(2);
    cache.append(2, 1).unwrap();
    assert_eq!(cache.block_table(2).unwrap().blocks, vec![4]);
    cache.free(1);
    // The blocks freed last are used first.
    cache.append(2, 8).unwrap();
    let table = cache.block_table(2).unwrap();
    assert_eq!(table.blocks, vec![4, 5, 6]);
    assert_eq!(table.num_tokens, 9);
    assert!(cache.block_table(1).is_none());
}

#[test]
fn registering_twice_keeps_the_table() {
    let mut cache = PagedKVCache::new(4, 2);
    cache.register(5);
    cache.append(5, 3).unwrap();
    cache.register(5);
    assert_eq!(cache.seq_len(5), 3);
    assert_eq!(cache.used_blocks(), 2);
}

#[test]
fn freeing_twice_or_an_unknown_sequence_changes_nothing() {
    let mut cache = PagedKVCache::new(4, 2);
    cache.register(1);
    cache.append(1, 4).unwrap();
    cache.free(2);
    assert_eq!(cache.used_blocks(), 2);
    cache.free(1);
    cache.free(1);
    assert_eq!(cache.free_blocks(), 4);
    assert_eq!(cache.seq_len(1), 0);
}

#[test]
fn a_failed_append_can_be_retried_after_a_free() {
    let mut cache = PagedKVCache::new(3, 2);
    cache.register(1);
    cache.append(1, 4).unwrap();
    cache.register(2);
    assert_eq!(
        cache.append(2, 5),
        Err(CacheError::OutOfBlocks { needed: 3, free: 1 })
    );
    cache.free(1);
    assert_eq!(cache.append(2, 5), Ok(()));
    assert_eq!(cache.internal_fragmentation(), 1);
}

#[test]
fn an_unknown_sequence_needs_whole_blocks() {
    let cache = PagedKVCache::new(4, 4);
    assert_eq!(cache.blocks_needed_for(9, 0), 0);
    assert_eq!(cache.blocks_needed_for(9, 1), 1);
    assert_eq!(cache.blocks_needed_for(9, 4), 1);
    assert_eq!(cache.blocks_needed_for(9, 9), 3);
}

#[test]
fn appending_nothing_takes_nothing() {
    let mut cache = PagedKVCache::new(0, 4);
    cache.register(1);
    assert_eq!(cache.append(1, 0), Ok(()));
    assert_eq!(
        cache.append(1, 1),
        Err(CacheError::OutOfBlocks { needed: 1, free: 0 })
    );
}

#[test]
fn eviction_of_an_empty_cache_finds_nothing() {
    let mut cache = PagedKVCache::new(4, 4);
    assert_eq!(cache.evict_largest(), None);
}

#[test]
fn utilisation_is_the_share_of_blocks_in_use() {
    let mut cache = PagedKVCache::new(8, 4);
    cache.register(1);
    cache.append(1, 10).unwrap();
    assert_eq!(cache.utilisation(), Ratio { numer: 3, denom: 8 });
    assert_eq!(
        PagedKVCache::new(0, 4).utilisation(),
        Ratio { numer: 0, denom: 1 }
    );
    assert_eq!(cache.block_size(), 4);
    assert_eq!(cache.total_blocks(), 8);
}

#[test]
fn errors_have_messages() {
    let out = CacheError::OutOfBlocks {
        needed: 12,
        free: 3,
    };
    assert_eq!(out.message(), "out of KV blocks: needed 12, 3 free");
    assert_eq!(
        CacheError::UnknownSequence(u64::MAX).message(),
        "unknown sequence 18446744073709551615"
    );
    assert_eq!(
        CacheError::UnknownSequence(0).message(),
        "unknown sequence 0"
    );
}

#[test]
fn a_table_knows_its_capacity_and_slack() {
    let empty = BlockTable::default();
    assert_eq!(empty.capacity(16), 0);
    assert_eq!(empty.slack(16), 0);
    let table = BlockTable {
        blocks: vec![3, 1],
        num_tokens: 17,
    };
    assert_eq!(table.capacity(16), 32);
    assert_eq!(table.slack(16), 15);
}

#[test]
fn a_workload_runs_unchanged_in_a_cache_of_its_peak() {
    // (sequence, tokens); zero tokens frees the sequence.
    let ops: [(u64, usize); 7] = [(1, 6), (2, 3), (1, 0), (3, 5), (2, 4), (3, 0), (4, 2)];
    let mut big = PagedKVCache::new(64, 4);
    for (seq, tokens) in ops {
        if tokens == 0 {
            big.free(seq);
        } else {
            big.register(seq);
            big.append(seq, tokens).unwrap();
        }
    }
    assert_eq!(big.peak_blocks(), 4);
    let mut small = PagedKVCache::new(big.peak_blocks(), 4);
    for (seq, tokens) in ops {
        if tokens == 0 {
            small.free(seq);
        } else {
            small.register(seq);
            small.append(seq, tokens).unwrap();
        }
    }
    assert_eq!(small.used_blocks(), big.used_blocks());
    assert_eq!(small.peak_blocks(), big.peak_blocks());
    assert_eq!(small.seq_len(2), 7);
    assert_eq!(small.seq_len(4), 2);
}

#[test]
fn no_cache_smaller_than_the_peak_serves_the_workload() {
    // (sequence, tokens); zero tokens frees the sequence. The peak is four.
    let ops: [(u64, usize); 7] = [(1, 6), (2, 3), (1, 0), (3, 5), (2, 4), (3, 0), (4, 2)];
    for blocks in 0..6 {
        let mut cache = PagedKVCache::new(blocks, 4);
        let mut refused = 0;
        for (seq, tokens) in ops {
            if tokens == 0 {
                cache.free(seq);
            } else {
                cache.register(seq);
                if cache.append(seq, tokens).is_err() {
                    refused += 1;
                }
            }
        }
        assert_eq!(refused > 0, blocks < 4, "{blocks} blocks");
    }
}
