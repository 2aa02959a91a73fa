use online_algorithms::cache::{Cache, CacheType};

fn serve(cache: &mut Cache, pages: &[usize]) -> Vec<usize> {
    let mut rng = rand::thread_rng();
    pages.iter().map(|p| cache.get_page(*p, &mut rng)).collect()
}

#[test]
fn cache_type_names() {
    assert_eq!(CacheType::Fifo.name(), "FIFO");
    assert_eq!(CacheType::Fwf.name(), "FWF");
    assert_eq!(CacheType::Lru.name(), "LRU");
    assert_eq!(CacheType::Lfu.name(), "LFU");
    assert_eq!(CacheType::Rand.name(), "RAND");
    assert_eq!(CacheType::Rma.name(), "RMA");
}

#[test]
fn fifo_evicts_oldest_arrival() {
    let mut cache = Cache::new(10, 2, CacheType::Fifo);
    assert_eq!(serve(&mut cache, &[1, 2, 1, 3, 1, 3, 2, 1]), vec![1, 1, 0, 1, 1, 0, 1, 0]);
    assert!(cache.is_cached(1) && cache.is_cached(2) && !cache.is_cached(3));
}

#[test]
fn flush_when_full() {
    let mut cache = Cache::new(10, 2, CacheType::Fwf);
    assert_eq!(serve(&mut cache, &[1, 2, 3, 1, 3, 2, 3]), vec![1, 1, 1, 1, 0, 1, 1]);
    assert_eq!(cache.cached_count(), 2);
}

#[test]
fn lru_evicts_least_recent() {
    let mut cache = Cache::new(10, 2, CacheType::Lru);
    assert_eq!(serve(&mut cache, &[1, 2, 1, 3, 1, 2, 3, 2]), vec![1, 1, 0, 1, 0, 1, 1, 0]);
}

#[test]
fn lfu_evicts_least_frequent() {
    let mut cache = Cache::new(10, 2, CacheType::Lfu);
    assert_eq!(serve(&mut cache, &[1, 1, 2, 3, 2, 3, 2, 3]), vec![1, 0, 1, 1, 1, 1, 0, 0]);
    assert!(!cache.is_cached(1));
}

#[test]
fn random_eviction_keeps_capacity() {
    let mut cache = Cache::new(10, 3, CacheType::Rand);
    assert_eq!(serve(&mut cache, &[1, 2, 3]), vec![1, 1, 1]);
    for page in 4..10 {
        assert_eq!(serve(&mut cache, &[page, page]), vec![1, 0]);
        assert_eq!(cache.cached_count(), 3);
        assert!(cache.is_cached(page));
    }
}

#[test]
fn random_marking_keeps_marked_pages() {
    let mut cache = Cache::new(10, 2, CacheType::Rma);
    assert_eq!(serve(&mut cache, &[1, 2, 1]), vec![1, 1, 0]);
    // 1 is marked and 2 is not: 2 leaves
    assert_eq!(serve(&mut cache, &[3]), vec![1]);
    assert!(cache.is_cached(1) && cache.is_cached(3) && !cache.is_cached(2));
    for round in 0..20 {
        let page = 4 + round % 5;
        serve(&mut cache, &[page]);
        assert_eq!(cache.cached_count(), 2);
        assert!(cache.is_cached(page));
    }
}
