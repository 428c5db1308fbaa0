use rs_simple_blockchain::hash;

#[test]
fn zero_hash_has_every_difficulty() {
    let h = hash::Hash::zeroes();
    assert!(h.has_difficulty(0));
    assert!(h.has_difficulty(1));
    assert!(h.has_difficulty(128));
    assert!(h.has_difficulty(255));
}

#[test]
fn difficulty_counts_leading_zero_bits() {
    let mut bytes = [0u8; 32];
    bytes[0] = 0x00;
    bytes[1] = 0x1f;
    let h = hash::Hash(bytes);
    assert!(h.has_difficulty(0));
    assert!(h.has_difficulty(8));
    assert!(h.has_difficulty(11));
    assert!(!h.has_difficulty(12));
    assert!(!h.has_difficulty(16));
    let mut first = [0u8; 32];
    first[0] = 0x80;
    assert!(hash::Hash(first).has_difficulty(0));
    assert!(!hash::Hash(first).has_difficulty(1));
    let mut last = [0u8; 32];
    last[31] = 1;
    assert!(hash::Hash(last).has_difficulty(255));
}

#[test]
fn sha256_of_known_text() {
    let h = hash::Hash::sha256(b"abc");
    assert_eq!(
        h.0[..4],
        [0xba, 0x78, 0x16, 0xbf]
    );
    assert_eq!(h.0[28..], [0xf2, 0x00, 0x15, 0xad]);
    assert_ne!(hash::Hash::sha256(b"abc"), hash::Hash::sha256(b"abd"));
    assert_ne!(hash::Hash::sha256(b""), hash::Hash::zeroes());
}

#[test]
fn hex_display_does_not_pad_bytes() {
    assert_eq!(hash::Hash::zeroes().display_hex(), "0".repeat(32));
    let mut bytes = [0u8; 32];
    bytes[0] = 0xab;
    bytes[1] = 0x0c;
    bytes[31] = 0x10;
    let expected = format!("abc{}10", "0".repeat(29));
    assert_eq!(hash::Hash(bytes).display_hex(), expected);
    assert_eq!(hash::Hash([0xff; 32]).display_hex(), "ff".repeat(32));
}

#[test]
fn base58_display_uses_the_bitcoin_alphabet() {
    assert_eq!(hash::Hash::zeroes().display_base58(), "1".repeat(32));
    let mut bytes = [0u8; 32];
    bytes[31] = 58;
    assert_eq!(hash::Hash(bytes).display_base58(), format!("{}21", "1".repeat(31)));
    assert_ne!(hash::Hash([1u8; 32]).display_base58(), hash::Hash([1u8; 32]).display_hex());
}

#[test]
fn same_compares_bytes() {
    let a = hash::Hash::sha256(b"a");
    let b = hash::Hash::sha256(b"b");
    assert!(a.same(&a));
    assert!(!a.same(&b));
}
