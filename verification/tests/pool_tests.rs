use dwp_strings::PackageStringTable;

#[test]
fn repeated_insert_returns_same_offset_and_length() {
    let mut pool = PackageStringTable::new();
    let first = pool.get_or_insert(b"abc");
    let len_after_first = pool.buffer_len();
    let second = pool.get_or_insert(b"abc");
    assert_eq!(first, second);
    assert_eq!(pool.buffer_len(), len_after_first);
}

#[test]
fn insertion_order_offsets() {
    let mut pool = PackageStringTable::new();
    let o1 = pool.get_or_insert(b"a");
    let o2 = pool.get_or_insert(b"bc");
    let o3 = pool.get_or_insert(b"d");
    assert_eq!(o1.0, 0);
    assert_eq!(o2.0, 2);
    assert_eq!(o3.0, 5);
}

#[test]
fn scenario_dedup() {
    let mut pool = PackageStringTable::new();
    let o1 = pool.get_or_insert(b"abc");
    let o2 = pool.get_or_insert(b"def");
    let o3 = pool.get_or_insert(b"abc");
    assert_eq!(o1.0, 0);
    assert_eq!(o2.0, 4);
    assert_eq!(o3.0, 0);
    assert_eq!(pool.buffer_len(), 8);
    let merged = pool.finish();
    assert_eq!(merged, b"abc\0def\0".to_vec());
}

#[test]
fn empty_string_is_interned() {
    let mut pool = PackageStringTable::new();
    let o1 = pool.get_or_insert(b"");
    let o2 = pool.get_or_insert(b"x");
    let o3 = pool.get_or_insert(b"");
    assert_eq!(o1.0, 0);
    assert_eq!(o2.0, 1);
    assert_eq!(o3.0, 0);
    assert_eq!(pool.finish(), vec![0, b'x', 0]);
}

#[test]
fn empty_pool_has_empty_buffer() {
    let pool = PackageStringTable::new();
    assert_eq!(pool.buffer_len(), 0);
    assert_eq!(pool.finish(), Vec::<u8>::new());
}
