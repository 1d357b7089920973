//! The hash of host names.

use std::collections::HashSet;
use std::hash::Hasher;

use lb::lb_core::hash::{FxHashMap, FxHasher};

fn hash(bytes: &[u8]) -> u64 {
    let mut h = FxHasher::default();
    h.write(bytes);
    h.finish()
}

#[test]
fn deterministic_and_length_sensitive() {
    assert_eq!(hash(b"api.example.com"), hash(b"api.example.com"));
    assert_ne!(hash(b"api.example.com"), hash(b"api.example.co"));
    assert_ne!(hash(b"abcdefgh"), hash(b"abcdefg"));
    assert_ne!(hash(b""), hash(b"\0"));
    assert_ne!(hash(b"\0"), hash(b"\0\0"));
    assert_ne!(hash(b""), 0, "an empty input must not hash to zero");
}

#[test]
fn no_collisions_across_realistic_hostnames() {
    let mut seen = HashSet::new();
    for i in 0..5_000 {
        let host = format!("svc-{i}.namespace-{}.svc.cluster.local", i % 97);
        assert!(seen.insert(hash(host.as_bytes())), "collision at {host}");
    }
}

#[test]
fn works_as_a_hashmap_hasher() {
    let mut m: FxHashMap<String, u32> = FxHashMap::default();
    for i in 0..1_000u32 {
        m.insert(format!("host-{i}.example.com"), i);
    }
    assert_eq!(m.len(), 1_000);
    assert_eq!(m.get("host-512.example.com"), Some(&512));
    assert_eq!(m.get("absent.example.com"), None);
}
