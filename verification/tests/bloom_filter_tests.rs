use dslab::bloom_filter::BloomFilter;

#[test]
fn bloom_finds_inserted_values() {
    let mut filter = BloomFilter::new(1024, 3);
    filter.insert("hello");
    filter.insert("world");
    assert!(filter.contains("hello"));
    assert!(filter.contains("world"));
}

#[test]
fn fresh_bloom_contains_nothing() {
    let filter = BloomFilter::new(64, 3);
    assert!(!filter.contains("anything"));
    assert!(!filter.contains(""));
}

#[test]
fn bloom_single_bit_row_still_works() {
    let mut filter = BloomFilter::new(1, 2);
    filter.insert("x");
    assert!(filter.contains("x"));
    // With a single slot every probe collides, so everything is found.
    assert!(filter.contains("y"));
}
