use elrond_codec::ext_mock::{bytes_to_bytes32, StorageMap, TxMutableContext, TxResult};
use elrond_codec::nested_ser::dep_encode_to_vec;
use elrond_codec::signed_be::{i64_to_signed_bytes_be, signed_be_to_i64};
use elrond_codec::storage_key::{storage_key_bytes, with_storage_key};
use num_bigint::BigInt;
use num_traits::cast::ToPrimitive;

fn fresh_context() -> TxMutableContext {
    TxMutableContext {
        contract_storage: StorageMap::new(),
        result: TxResult::empty(),
    }
}

#[test]
fn test_tx_result_empty() {
    let r = TxResult::empty();
    assert_eq!(r.result_status, 0);
    assert!(r.result_message.is_empty());
    assert!(r.result_values.is_empty());
}

#[test]
fn test_storage_store_load() {
    let mut ctx = fresh_context();
    ctx.storage_store(b"key", b"value");
    assert_eq!(ctx.storage_load(b"key"), b"value".to_vec());
    // missing key reads as the empty byte string, not an error
    assert_eq!(ctx.storage_load(b"other"), Vec::<u8>::new());
    assert_eq!(ctx.storage_load_len(b"key"), 5);
    assert_eq!(ctx.storage_load_len(b"other"), 0);
    // the last write wins
    ctx.storage_store(b"key", b"second");
    assert_eq!(ctx.storage_load(b"key"), b"second".to_vec());
}

#[test]
fn test_storage_bytes32() {
    let mut ctx = fresh_context();
    let mut value = [0u8; 32];
    value[31] = 9;
    ctx.storage_store_bytes32(b"k", &value);
    assert_eq!(ctx.storage_load_bytes32(b"k"), value);

    // a shorter stored value comes back right-aligned, zero-padded
    ctx.storage_store(b"short", &[1, 2, 3]);
    let loaded = ctx.storage_load_bytes32(b"short");
    let mut expected = [0u8; 32];
    expected[29] = 1;
    expected[30] = 2;
    expected[31] = 3;
    assert_eq!(loaded, expected);
}

#[test]
fn test_bytes_to_bytes32_boundaries() {
    assert_eq!(bytes_to_bytes32(&[]), [0u8; 32]);
    let full: Vec<u8> = (0u8..32).collect();
    let arr = bytes_to_bytes32(full.as_slice());
    assert_eq!(arr.to_vec(), full);
}

#[test]
fn test_storage_i64_round_trip() {
    let mut ctx = fresh_context();
    for v in [0i64, 1, -1, 255, 256, -255, -256, i64::MAX, i64::MIN] {
        ctx.storage_store_i64(b"n", v);
        assert_eq!(ctx.storage_load_i64(b"n"), Some(v));
    }
    // a missing key reads as zero
    assert_eq!(ctx.storage_load_i64(b"missing"), Some(0));
    // a stored value beyond 64 bits does not fit
    ctx.storage_store(b"big", &[1, 0, 0, 0, 0, 0, 0, 0, 0]);
    assert_eq!(ctx.storage_load_i64(b"big"), None);
}

#[test]
fn test_signed_be_bytes_match_big_int() {
    // the shortest two's complement form agrees with the reference
    // big-integer library, byte for byte
    for v in [0i64, 1, -1, 127, 128, -128, -129, 255, 1125, -1125, i64::MAX, i64::MIN] {
        let ours = i64_to_signed_bytes_be(v);
        let theirs = BigInt::from(v).to_signed_bytes_be();
        assert_eq!(ours, theirs, "value {}", v);
    }
}

#[test]
fn test_signed_be_to_i64_matches_big_int() {
    let cases: &[&[u8]] = &[
        &[],
        &[0],
        &[0, 255],
        &[255, 255],
        &[251, 155],
        &[0, 0, 0, 5],
        &[128, 0, 0, 0, 0, 0, 0, 0],
        &[0, 128, 0, 0, 0, 0, 0, 0, 0],
        &[255, 255, 255, 255, 255, 255, 255, 255, 255],
    ];
    for bytes in cases {
        let ours = signed_be_to_i64(bytes);
        let theirs = BigInt::from_signed_bytes_be(bytes).to_i64();
        assert_eq!(ours, theirs, "bytes {:?}", bytes);
    }
}

#[test]
fn test_finish_values() {
    let mut ctx = fresh_context();
    ctx.finish_slice_u8(&[1, 2, 3]);
    ctx.finish_bytes32(&[7u8; 32]);
    ctx.finish_i64(-1);
    assert_eq!(ctx.result.result_values.len(), 3);
    assert_eq!(ctx.result.result_values[0], vec![1, 2, 3]);
    assert_eq!(ctx.result.result_values[1], vec![7u8; 32]);
    assert_eq!(ctx.result.result_values[2], vec![255]);
}

#[test]
fn test_storage_key_const_width() {
    // identical identifier and identical constant-width arguments on
    // two separate calls produce byte-identical keys
    let key1 = storage_key_bytes(b"balance", &(7u32, 3u16));
    let key2 = storage_key_bytes(b"balance", &(7u32, 3u16));
    assert_eq!(key1, key2);
    let mut expected = b"balance".to_vec();
    expected.extend_from_slice(&[0, 0, 0, 7, 0, 3]);
    assert_eq!(key1, expected);
}

#[test]
fn test_storage_key_variable_width() {
    // a variable-width argument falls back to the growable path and
    // still matches the concatenation rule
    let arg: Vec<u8> = vec![9, 8, 7];
    let key = storage_key_bytes(b"entry", &arg);
    let mut expected = b"entry".to_vec();
    expected.extend_from_slice(dep_encode_to_vec(&arg).unwrap().as_slice());
    assert_eq!(key, expected);
    let again = storage_key_bytes(b"entry", &arg);
    assert_eq!(key, again);
}

#[test]
fn test_with_storage_key() {
    let collected = with_storage_key(b"id", &5u8, |key| key.to_vec());
    assert_eq!(collected, vec![b'i', b'd', 5]);
}

#[test]
fn test_storage_with_key_accessors() {
    let mut ctx = fresh_context();
    assert!(ctx.storage_is_empty_with_key(b"owner", &(1u32,)));
    ctx.storage_store_with_key(b"owner", &(1u32,), b"alice");
    assert!(!ctx.storage_is_empty_with_key(b"owner", &(1u32,)));
    assert_eq!(ctx.storage_load_with_key(b"owner", &(1u32,)), b"alice".to_vec());
    // a different key argument addresses a different slot
    assert!(ctx.storage_is_empty_with_key(b"owner", &(2u32,)));
    // the slot is addressed by the same bytes the key builder produces
    let raw = ctx.storage_load(storage_key_bytes(b"owner", &(1u32,)).as_slice());
    assert_eq!(raw, b"alice".to_vec());
}
