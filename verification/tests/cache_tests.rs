use ipfrs::cache::{BlockCache, TieredBlockCache};
use ipfrs::cid::{Block, Cid};

fn block(tag: u8) -> Block {
    Block::from_parts(Cid::from_bytes(vec![0x01, 0x55, tag]), vec![tag; 4])
}

#[test]
fn test_block_cache_put_get() {
    let mut cache = BlockCache::new(2);
    assert!(cache.is_empty());
    cache.put(block(1));
    cache.put(block(2));
    assert_eq!(cache.len(), 2);
    let got = cache.get(block(1).cid()).unwrap();
    assert_eq!(got.data, vec![1; 4]);
    // block 2 is now least recently used and leaves for block 3
    cache.put(block(3));
    assert!(cache.get(block(2).cid()).is_none());
    assert!(cache.get(block(1).cid()).is_some());
    assert!(cache.get(block(3).cid()).is_some());
    let stats = cache.stats();
    assert_eq!(stats.hits, 3);
    assert_eq!(stats.misses, 1);
    assert_eq!(stats.size, 2);
    assert_eq!(stats.capacity, 2);
}

#[test]
fn test_block_cache_remove_clear_and_zero_capacity() {
    let mut cache = BlockCache::new(0);
    assert_eq!(cache.stats().capacity, 0);
    for t in 0..50 {
        cache.put(block(t));
    }
    // a zero capacity means 1000 blocks
    assert_eq!(cache.len(), 50);
    cache.remove(block(7).cid());
    assert!(cache.get(block(7).cid()).is_none());
    assert_eq!(cache.len(), 49);
    cache.clear();
    assert!(cache.is_empty());
    let stats = cache.stats();
    assert_eq!((stats.hits, stats.misses), (0, 0));
}

#[test]
fn test_tiered_cache_promotion_and_demotion() {
    let mut cache = TieredBlockCache::new(1, 4);
    cache.put(block(1));
    // block 1 leaves L1 for L2 when block 2 arrives
    cache.put(block(2));
    let stats = cache.stats();
    assert_eq!((stats.l1_size, stats.l2_size), (1, 1));
    // block 1 is found in L2 and copied back into L1
    assert_eq!(cache.get(block(1).cid()).unwrap().data, vec![1; 4]);
    let stats = cache.stats();
    assert_eq!((stats.l1_hits, stats.l2_hits, stats.misses), (0, 1, 0));
    // now an L1 hit
    assert!(cache.get(block(1).cid()).is_some());
    assert_eq!(cache.stats().l1_hits, 1);
    assert!(cache.get(block(9).cid()).is_none());
    assert_eq!(cache.stats().misses, 1);
    cache.remove(block(1).cid());
    assert!(cache.get(block(1).cid()).is_none());
    cache.clear();
    let stats = cache.stats();
    assert_eq!((stats.l1_size, stats.l2_size, stats.l1_hits, stats.l2_hits, stats.misses), (0, 0, 0, 0, 0));
    assert_eq!((stats.l1_capacity, stats.l2_capacity), (1, 4));
}

#[test]
fn test_tiered_cache_rewrite_moves_old_value_down() {
    let mut cache = TieredBlockCache::new(2, 2);
    cache.put(block(1));
    let newer = Block::from_parts(block(1).cid().clone(), vec![9, 9]);
    cache.put(newer);
    // L1 holds the new value, the old one went to L2
    assert_eq!(cache.get(block(1).cid()).unwrap().data, vec![9, 9]);
    let stats = cache.stats();
    assert_eq!((stats.l1_size, stats.l2_size), (1, 1));
}
