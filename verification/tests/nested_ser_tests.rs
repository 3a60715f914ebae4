use elrond_codec::nested_ser::{dep_encode_to_vec, NestedEncode};
use elrond_codec::test_struct::{Test, E};

fn ser_ok<V: NestedEncode>(element: V, expected_bytes: &[u8]) {
    let bytes = dep_encode_to_vec(&element).unwrap();
    assert_eq!(bytes.as_slice(), expected_bytes);
}

#[test]
fn test_dep_encode_numbers() {
    // unsigned positive
    ser_ok(5u8, &[5]);
    ser_ok(5u16, &[0, 5]);
    ser_ok(5u32, &[0, 0, 0, 5]);
    ser_ok(5usize, &[0, 0, 0, 5]);
    ser_ok(5u64, &[0, 0, 0, 0, 0, 0, 0, 5]);
    // signed positive
    ser_ok(5i8, &[5]);
    ser_ok(5i16, &[0, 5]);
    ser_ok(5i32, &[0, 0, 0, 5]);
    ser_ok(5isize, &[0, 0, 0, 5]);
    ser_ok(5i64, &[0, 0, 0, 0, 0, 0, 0, 5]);
    // signed negative
    ser_ok(-5i8, &[251]);
    ser_ok(-5i16, &[255, 251]);
    ser_ok(-5i32, &[255, 255, 255, 251]);
    ser_ok(-5isize, &[255, 255, 255, 251]);
    ser_ok(-5i64, &[255, 255, 255, 255, 255, 255, 255, 251]);
}

#[test]
fn test_dep_encode_bool() {
    ser_ok(true, &[1]);
    ser_ok(false, &[0]);
}

#[test]
fn test_dep_encode_empty_bytes() {
    let empty_byte_slice: &[u8] = &[];
    ser_ok(empty_byte_slice, &[0, 0, 0, 0]);
}

#[test]
fn test_dep_encode_bytes() {
    ser_ok(&[1u8, 2u8, 3u8][..], &[0, 0, 0, 3, 1u8, 2u8, 3u8]);
}

#[test]
fn test_dep_encode_vec_u8() {
    let some_vec = [1u8, 2u8, 3u8].to_vec();
    ser_ok(some_vec, &[0, 0, 0, 3, 1u8, 2u8, 3u8]);
}

#[test]
fn test_dep_encode_vec_i32() {
    let some_vec = [1i32, 2i32, 3i32].to_vec();
    let expected: &[u8] = &[0, 0, 0, 3, 0, 0, 0, 1, 0, 0, 0, 2, 0, 0, 0, 3];
    ser_ok(some_vec, expected);
}

#[test]
fn test_struct() {
    let test = Test {
        int: 1,
        seq: [5, 6].to_vec(),
        another_byte: 7,
    };

    ser_ok(test, &[0, 1, 0, 0, 0, 2, 5, 6, 7]);
}

#[test]
fn test_tuple() {
    ser_ok((7u32, -2i16), &[0, 0, 0, 7, 255, 254]);
}

#[test]
fn test_unit() {
    ser_ok((), &[]);
}

#[test]
fn test_enum() {
    let u = E::Unit;
    let expected: &[u8] = &[/*variant index*/ 0, 0, 0, 0];
    ser_ok(u, expected);

    let n = E::Newtype(1);
    let expected: &[u8] = &[/*variant index*/ 0, 0, 0, 1, /*data*/ 0, 0, 0, 1];
    ser_ok(n, expected);

    let t = E::Tuple(1, 2);
    let expected: &[u8] = &[
        /*variant index*/ 0, 0, 0, 2, /*(*/ 0, 0, 0, 1, /*,*/ 0, 0, 0,
        2, /*)*/
    ];
    ser_ok(t, expected);

    let s = E::Struct { a: 1 };
    let expected: &[u8] = &[/*variant index*/ 0, 0, 0, 3, /*data*/ 0, 0, 0, 1];
    ser_ok(s, expected);
}

#[test]
fn test_fixed_repr_len() {
    assert!(<u8 as NestedEncode>::has_const_encode_len());
    assert!(<u16 as NestedEncode>::has_const_encode_len());
    assert!(<u32 as NestedEncode>::has_const_encode_len());
    assert!(<u32 as NestedEncode>::has_const_encode_len());

    assert_eq!(<u8 as NestedEncode>::const_encode_len(), 1);
    assert_eq!(<u16 as NestedEncode>::const_encode_len(), 2);
    assert_eq!(<u32 as NestedEncode>::const_encode_len(), 4);
    assert_eq!(<u64 as NestedEncode>::const_encode_len(), 8);

    assert!(<(u32, u8) as NestedEncode>::has_const_encode_len());
    assert_eq!(<(u32, u8) as NestedEncode>::const_encode_len(), 4 + 1);
    assert!(<(u32, u8, u16) as NestedEncode>::has_const_encode_len());
    assert_eq!(<(u32, u8, u16) as NestedEncode>::const_encode_len(), 4 + 1 + 2);

    // no fixed size representation
    assert!(!<Vec<u32> as NestedEncode>::has_const_encode_len());
    assert_eq!(<Vec<u32> as NestedEncode>::const_encode_len(), 0);
}

#[test]
fn test_dep_encode_array() {
    // no length prefix: the size is part of the type
    ser_ok([5u8, 6, 7], &[5, 6, 7]);
    ser_ok([1u32, 2], &[0, 0, 0, 1, 0, 0, 0, 2]);
}

#[test]
fn test_dep_encode_boxed_slice() {
    let boxed: Box<[u8]> = vec![1u8, 2, 3].into_boxed_slice();
    ser_ok(boxed, &[0, 0, 0, 3, 1, 2, 3]);
    let boxed_value: Box<u16> = Box::new(5u16);
    ser_ok(boxed_value, &[0, 5]);
}
