use rs_simple_blockchain::amount::Amount;
use rs_simple_blockchain::hash;
use rs_simple_blockchain::transaction::TransactionInput;
use rs_simple_blockchain::transaction::TransactionOutput;
use rs_simple_blockchain::wallet::Wallet;
use rs_simple_blockchain::wire::decode_transaction;

#[test]
fn decoded_transaction_has_the_same_hash() {
    let w = Wallet::new().unwrap();
    let inputs = vec![
        TransactionInput { transaction_hash: hash::Hash::sha256(b"x"), output_index: 0x0102 },
        TransactionInput { transaction_hash: hash::Hash::sha256(b"y"), output_index: 65535 },
    ];
    let outputs = vec![
        TransactionOutput { amount: Amount(5), recipient_hash: hash::Hash::sha256(b"a") },
        TransactionOutput { amount: Amount(u64::MAX), recipient_hash: hash::Hash::sha256(b"b") },
    ];
    let t = w.create_raw_transaction(inputs, outputs).unwrap();
    let bytes = t.to_wire_form();
    let back = decode_transaction(&bytes).unwrap();
    assert_eq!(back.transaction_hash(), t.transaction_hash());
    assert_eq!(back, t);
    assert!(back.verify_signature());
    let mut longer = bytes.clone();
    longer.extend_from_slice(b"more");
    assert_eq!(decode_transaction(&longer).unwrap(), t);
}

#[test]
fn decoding_agrees_with_bincode() {
    let w = Wallet::new().unwrap();
    let t = w.create_reward().unwrap();
    let bytes = t.to_wire_form();
    let plain: (Vec<u8>, Vec<([u8; 32], u16)>, Vec<(u64, [u8; 32])>, Vec<u8>) = bincode::deserialize(&bytes).unwrap();
    assert_eq!(plain.0, t.payer().0);
    assert!(plain.1.is_empty());
    assert_eq!(plain.2, vec![(1_000_000_000, w.public_key_hash().0)]);
    assert_eq!(plain.3, t.signature().0);
    let empty = w.create_raw_transaction(vec![], vec![]).unwrap();
    assert_eq!(decode_transaction(&empty.to_wire_form()).unwrap(), empty);
}

#[test]
fn cut_bytes_carry_no_transaction() {
    let w = Wallet::new().unwrap();
    let t = w
        .create_raw_transaction(
            vec![TransactionInput { transaction_hash: hash::Hash::sha256(b"x"), output_index: 1 }],
            vec![TransactionOutput { amount: Amount(5), recipient_hash: hash::Hash::sha256(b"a") }],
        )
        .unwrap();
    let bytes = t.to_wire_form();
    for cut in 0..bytes.len() {
        assert!(decode_transaction(&bytes[..cut]).is_none(), "cut at {}", cut);
    }
    assert!(decode_transaction(&[]).is_none());
    assert!(decode_transaction(&[0xff; 8]).is_none());
    let mut huge = vec![0u8; 16];
    huge[8..16].copy_from_slice(&u64::MAX.to_le_bytes());
    assert!(decode_transaction(&huge).is_none());
    let nothing = [0u8; 32];
    let t0 = decode_transaction(&nothing).unwrap();
    assert_eq!(t0.input_count(), 0);
    assert_eq!(t0.output_count(), 0);
    assert!(t0.payer().0.is_empty());
    assert!(!t0.verify_signature());
}
