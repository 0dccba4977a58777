//! Hashing of discovery keys.

use prometheus_scrape_rs::hash::{hash_pair, FxHasher, PairMap};

fn hash(parts: &[&[u8]]) -> u64 {
    let mut hasher = FxHasher::default();
    for part in parts {
        hasher.write(part);
    }
    hasher.finish()
}

#[test]
fn distinguishes_boundaries_and_padding() {
    // Zero-padded tails must not collide with explicit zero bytes.
    assert_ne!(hash(&[b"a"]), hash(&[b"a\0"]));
    assert_ne!(hash(&[b"a"]), hash(&[b"a\0\0\0\0\0\0\0"]));
    // Same bytes, different chunk alignment.
    assert_ne!(hash(&[b"abcdefgh", b"i"]), hash(&[b"abcdefghi"]));
    // Deterministic.
    assert_eq!(hash(&[b"abcdefghi"]), hash(&[b"abcdefghi"]));
    assert_ne!(hash(&[b""]), hash(&[b"x"]));
}

#[test]
fn a_pair_hashes_like_its_parts() {
    assert_eq!(hash_pair("default", "web"), hash(&[b"default", b"web"]));
    assert_ne!(hash_pair("a", "bc"), hash_pair("ab", "c"));
}

#[test]
fn a_pair_map_keeps_the_last_value() {
    let map = PairMap::new()
        .with("default".to_owned(), "web".to_owned(), 1)
        .with("default".to_owned(), "db".to_owned(), 2)
        .with("default".to_owned(), "web".to_owned(), 3);
    assert_eq!(map.get("default", "web"), Some(&3));
    assert_eq!(map.get("default", "db"), Some(&2));
    assert_eq!(map.get("other", "web"), None);
    assert!(map.contains_key("default", "db"));
    assert!(!map.contains_key("db", "default"));
}

#[test]
fn one_word_is_mixed_as_documented() {
    // rotl(0, 5) ^ word, times the seed; then the length the same way.
    let seed = 0x517c_c1b7_2722_0a95_u64;
    let word = u64::from(b'a').wrapping_mul(seed);
    let expected = (word.rotate_left(5) ^ 1).wrapping_mul(seed);
    assert_eq!(hash(&[b"a"]), expected);
}
