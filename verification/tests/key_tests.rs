use mini_lsm::key::{common_prefix_len, key_equal, key_less};
use mini_lsm::lsm_storage::flush_needed;
use mini_lsm::workload::{absent_key_of, key_of, lookup_key};

#[test]
fn keys_order_bytewise_then_by_length() {
    assert!(key_less(b"a", b"b"));
    assert!(key_less(b"a", b"ab"));
    assert!(!key_less(b"ab", b"a"));
    assert!(!key_less(b"a", b"a"));
    assert!(key_less(b"", b"a"));
    assert!(key_less(b"az", b"b"));
    assert!(key_less(&[0x7f], &[0x80]));
}

#[test]
fn keys_compare_equal() {
    assert!(key_equal(b"abc", b"abc"));
    assert!(!key_equal(b"abc", b"abd"));
    assert!(!key_equal(b"abc", b"ab"));
}

#[test]
fn common_prefix() {
    assert_eq!(common_prefix_len(b"apple", b"apricot"), 2);
    assert_eq!(common_prefix_len(b"same", b"same"), 4);
    assert_eq!(common_prefix_len(b"", b"x"), 0);
    assert_eq!(common_prefix_len(b"ab", b"abc"), 2);
}

#[test]
fn workload_keys_are_zero_padded() {
    assert_eq!(key_of(0), b"key00000000".to_vec());
    assert_eq!(key_of(42), b"key00000042".to_vec());
    assert_eq!(key_of(123456789), b"key123456789".to_vec());
    assert_eq!(absent_key_of(7), b"absent00000007".to_vec());
    assert_eq!(key_of(99999999), format!("key{:08}", 99999999usize).into_bytes());
}

#[test]
fn workload_keys_follow_entry_order() {
    assert!(key_of(5) < key_of(17));
    assert!(key_of(9) < key_of(10));
    assert!(key_of(12345678) < key_of(99999999));
    assert!(absent_key_of(99999999) < key_of(0));
    assert_ne!(key_of(3), absent_key_of(3));
}

#[test]
fn flush_needed_when_memtables_exceed_limit() {
    assert!(!flush_needed(0, 1));
    assert!(flush_needed(1, 1));
    assert!(!flush_needed(6, 8));
    assert!(flush_needed(8, 8));
}

#[test]
fn lookup_keys_cycle_over_loaded_entries() {
    assert_eq!(lookup_key(0, true, 3), b"key00000000".to_vec());
    assert_eq!(lookup_key(7, true, 3), b"key00000001".to_vec());
    assert_eq!(lookup_key(7, false, 3), b"absent00000007".to_vec());
    assert_eq!(lookup_key(5, false, 0), b"absent00000005".to_vec());
}
