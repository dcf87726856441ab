use jef::hash::{
    get_hash, get_hashset, get_possible_hashes, last_chars_until_forward_slash, stack_hash,
    starts_with_prefix_simd, try_get_hash,
};

#[test]
fn test_last_chars_until_forward_slash() {
    let result = last_chars_until_forward_slash("apple/banana/orange/grape");
    assert_eq!(result, "grape");

    let result = last_chars_until_forward_slash("./src/main.rs");
    assert_eq!(result, "main.rs");

    let result = last_chars_until_forward_slash("apple/banana/orange");
    assert_eq!(result, "orange");

    let result = last_chars_until_forward_slash("apple-banana-orange");
    assert_eq!(result, "apple-banana-orange");

    let result = last_chars_until_forward_slash("");
    assert_eq!(result, "");

    let result = last_chars_until_forward_slash("/");
    assert_eq!(result, "");
}

#[test]
fn test_starts_with_prefix_simd() {
    let result = starts_with_prefix_simd("apple/banana/orange", "apple");
    assert_eq!(result, true);

    let result = starts_with_prefix_simd("apple-banana-orange", "banana");
    assert_eq!(result, false);
}

#[test]
fn prefix_check_is_case_insensitive() {
    assert!(starts_with_prefix_simd("HELLO", "he"));
    assert!(starts_with_prefix_simd("MainFile.RS", "mainfile"));
    assert!(starts_with_prefix_simd("mainfile.rs", "MAIN"));
    assert!(starts_with_prefix_simd("anything", ""));
    assert!(!starts_with_prefix_simd("short", "longer than the text"));
}

#[test]
fn hash_is_deterministic() {
    let a = get_hash("MainFile.RS");
    let b = get_hash("MainFile.RS");
    assert_eq!(a, b);
    // lowercasing happens inside, so case does not matter
    let c = get_hash("mainfile.rs");
    assert_eq!(a, c);
}

#[test]
fn hash_is_prefix_stable() {
    // the k-th key a name is indexed under equals the terminal hash of its
    // k-character prefix, combined with the same depth
    let depth: u16 = 3;
    let keys = get_hashset(depth, "main");
    assert_eq!(keys.len(), 4);
    for (k, prefix) in ["m", "ma", "mai", "main"].iter().enumerate() {
        let (num_c, rolling) = get_hash(prefix);
        assert_eq!(keys[k], stack_hash(depth, num_c, rolling));
    }
}

#[test]
fn try_get_hash_agrees_with_get_hash() {
    assert_eq!(try_get_hash("Some Name"), Some(get_hash("Some Name")));
    assert_eq!(try_get_hash(""), Some(get_hash("")));
}

#[test]
fn hash_formula_exact_values() {
    // "a": num_c = 0x61 << 8 = 24832; rolling = (2 + 24832) % 255 = 99
    assert_eq!(get_hash("a"), (24832, 99));
    // "ab": num_c = (0x62 << 8) | 24832 = 0x6300 = 25344 (the OR merges the
    // whole previous register); rolling = (99 + 25344) % 256 = 99
    assert_eq!(get_hash("ab"), (25344, 99));
    assert_eq!(get_hash("AB"), (25344, 99));
}

#[test]
fn empty_name_hash_state() {
    // no characters consumed: bigram register 0, rolling sum still 2
    assert_eq!(get_hash(""), (0, 2));
}

#[test]
fn stack_hash_packs_the_fields() {
    assert_eq!(stack_hash(1, 2, 3), (1u64 << 48) | (2u64 << 32) | 3);
    assert_eq!(stack_hash(0, 0, 0), 0);
    assert_eq!(stack_hash(0xFFFF, 0xFFFF, 0xFFFF_FFFF), u64::MAX);

    // the packing loses nothing: every field is recoverable
    let h = stack_hash(517, 40961, 123_456_789);
    assert_eq!(h >> 48, 517);
    assert_eq!((h >> 32) & 0xFFFF, 40961);
    assert_eq!(h & 0xFFFF_FFFF, 123_456_789);
}

#[test]
fn possible_hashes_fan_out_by_depth() {
    // one key per depth from 0 up to and including the recorded maximum
    let (num_c, rolling) = get_hash("query");
    let hashes = get_possible_hashes(4, "query");
    assert_eq!(hashes.len(), 5);
    for (d, h) in hashes.iter().enumerate() {
        assert_eq!(*h, stack_hash(d as u16, num_c, rolling));
    }
    assert_eq!(get_possible_hashes(0, "query").len(), 1);
}
