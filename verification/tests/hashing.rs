use net_tools::hashing::{hash32, low32};
use std::collections::hash_map::DefaultHasher;
use std::hash::{Hash, Hasher};

fn expected(key: &str) -> u32 {
    let mut hasher = DefaultHasher::new();
    key.hash(&mut hasher);
    (hasher.finish() & 0xffff_ffff) as u32
}

#[test]
fn low_half_of_a_hash() {
    assert_eq!(low32(0x1234_5678_9abc_def0), 0x9abc_def0);
    assert_eq!(low32(0xffff_ffff_0000_0000), 0);
    assert_eq!(low32(u64::MAX), u32::MAX);
}

#[test]
fn hash_is_the_low_half_of_the_default_hasher() {
    for key in ["", "10.0.0.1", "http://localhost:8001#0", "http://localhost:8001#99", "\u{e9}"] {
        assert_eq!(hash32(key), expected(key));
    }
}

#[test]
fn hash_depends_on_the_key() {
    assert_ne!(hash32("10.0.0.1"), hash32("10.0.0.2"));
    assert_eq!(hash32("10.0.0.1"), hash32("10.0.0.1"));
}
