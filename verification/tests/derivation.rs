//! Tests of the key-derivation engine and the encoding layer.

use skele::base32;
use skele::canonical::{format_key, split_groups, to_canonical, upcase_first};
use skele::compute_fingerprint;
use skele::keys::{prepare_skeleton_key, KeySource, PREPARED_SKELETON_KEY_SIZE};

#[test]
fn it_works() {
    let mut key = [0u8; PREPARED_SKELETON_KEY_SIZE];
    let rc = prepare_skeleton_key("\"Mom\" is \"\u{e4}iti\" in Finnish", &mut key);
    assert!(rc == Ok(()));
    let correct = [
        0x17, 0xA8, 0xEA, 0x56, 0x34, 0xAD, 0x5E, 0x06, 0x0F, 0xAC, 0xAB, 0x88, 0x44, 0x3A, 0xF9,
        0x81, 0x1D, 0x5D, 0x5A, 0x94, 0x77, 0x42, 0x7F, 0x53, 0x3D, 0xA9, 0x93, 0xDB, 0x82, 0xAD,
        0x93, 0x4C,
    ];
    assert!(key == correct);
}

#[test]
fn test_key_generation() {
    let key_source = KeySource::new("secret skeleton passphrase");
    let mut key_iter = key_source.keys("domain", "identity");
    let key = key_iter.next().unwrap();
    let mut base32_key = vec![0u8; 16];
    base32::encode(&key, &mut base32_key);
    let key_str = base32::to_crockford(&base32_key);
    assert_eq!(key_str, "5wscx2mzcsnc4vgc");
    let key_str_2 = to_canonical(&key_str);
    assert_eq!(key_str_2, "5Wsc-X2mz-Csnc-4Vgc");
}

#[test]
fn prepare_is_deterministic() {
    let mut key1 = [0u8; PREPARED_SKELETON_KEY_SIZE];
    let mut key2 = [0u8; PREPARED_SKELETON_KEY_SIZE];
    assert!(prepare_skeleton_key("some passphrase", &mut key1) == Ok(()));
    assert!(prepare_skeleton_key("some passphrase", &mut key2) == Ok(()));
    assert_eq!(key1, key2);
}

#[test]
fn key_sequence_is_restartable() {
    let source = KeySource::new("a passphrase");
    let mut it1 = source.keys("example.org", "alice");
    let mut it2 = source.keys("example.org", "alice");
    for _ in 0..5 {
        assert_eq!(it1.next().unwrap(), it2.next().unwrap());
    }
}

#[test]
fn domain_and_identity_change_the_sequence() {
    let source = KeySource::new("a passphrase");
    let k_base = source.keys("example.org", "alice").next().unwrap();
    let k_domain = source.keys("example.com", "alice").next().unwrap();
    let k_identity = source.keys("example.org", "bob").next().unwrap();
    let k_other_pass = KeySource::new("b passphrase").keys("example.org", "alice").next().unwrap();
    assert_ne!(k_base, k_domain);
    assert_ne!(k_base, k_identity);
    assert_ne!(k_base, k_other_pass);
}

#[test]
fn fingerprint_is_stable_and_five_bytes() {
    let source = KeySource::new("a passphrase");
    let f1 = source.fingerprint();
    let f2 = source.fingerprint();
    assert_eq!(f1.len(), 5);
    assert_eq!(f1, f2);
    let d1 = format_key(&f1, 8);
    let d2 = format_key(&f2, 8);
    assert_eq!(d1, d2);
    assert_eq!(d1, compute_fingerprint("a passphrase"));
    // 5 bytes pack into 8 symbols; a group size of 8 leaves one group and
    // no separator.
    assert_eq!(d1.len(), 8);
    assert_ne!(compute_fingerprint("a passphrase"), compute_fingerprint("b passphrase"));
}

#[test]
fn encoding_has_fixed_expansion() {
    let input = vec![1u8, 2, 3, 4, 5, 6, 7, 8, 9, 10];
    let mut packed = vec![0u8; 16];
    base32::encode(&input, &mut packed);
    assert_eq!(packed.len(), 8 * input.len() / 5);
    let display = base32::to_crockford(&packed);
    assert_eq!(display.len(), 8 * input.len() / 5);
}

#[test]
fn format_key_matches_the_documented_example() {
    let key = KeySource::new("secret skeleton passphrase")
        .keys("domain", "identity")
        .next()
        .unwrap();
    assert_eq!(format_key(&key, 4), "5Wsc-X2mz-Csnc-4Vgc");
}

#[test]
fn upcase_first_converts_only_the_first_lowercase_letter() {
    assert_eq!(upcase_first("abc"), "Abc");
    assert_eq!(upcase_first("1abc"), "1Abc");
    assert_eq!(upcase_first("ABC"), "ABC");
    assert_eq!(upcase_first(""), "");
    assert_eq!(upcase_first("\u{e4}bc"), "\u{c4}bc");
}

#[test]
fn split_groups_chunks_a_string() {
    let mut it = split_groups("abcdefg", 3);
    assert_eq!(it.next(), Some("abc"));
    assert_eq!(it.next(), Some("def"));
    assert_eq!(it.next(), Some("g"));
    assert_eq!(it.next(), None);
    let mut empty = split_groups("", 3);
    assert_eq!(empty.next(), None);
    let mut zero = split_groups("abc", 0);
    assert_eq!(zero.next(), None);
}

#[test]
fn to_canonical_groups_by_four() {
    assert_eq!(to_canonical("abcdefgh"), "Abcd-Efgh");
    assert_eq!(to_canonical(""), "");
    assert_eq!(to_canonical("ab"), "Ab");
}
