use elrond_codec::codec_err::{DecodeError, EncodeError};
use elrond_codec::laws::{encode_then_decode, encode_twice_agrees};
use elrond_codec::nested_de::NestedDecode;
use elrond_codec::nested_ser::{dep_encode_to_vec, NestedEncode, NestedEncodeNoErr};
use elrond_codec::test_struct::{Test, E};

fn round_trip<V: NestedEncode + NestedDecode + PartialEq + core::fmt::Debug>(element: V) {
    let bytes = dep_encode_to_vec(&element).unwrap();
    let mut pos: usize = 0;
    let decoded = V::dep_decode(bytes.as_slice(), &mut pos).unwrap();
    assert_eq!(decoded, element);
    assert_eq!(pos, bytes.len());
}

#[test]
fn test_dep_decode_numbers() {
    round_trip(0u8);
    round_trip(255u8);
    round_trip(5u16);
    round_trip(5u32);
    round_trip(5u64);
    round_trip(u64::MAX);
    round_trip(5usize);
    round_trip(-5i8);
    round_trip(-5i16);
    round_trip(-5i32);
    round_trip(-5i64);
    round_trip(-5isize);
    round_trip(i64::MIN);
    round_trip(i64::MAX);
}

#[test]
fn test_dep_decode_bool_and_unit() {
    round_trip(true);
    round_trip(false);
    round_trip(());
}

#[test]
fn test_dep_decode_composites() {
    round_trip([1u8, 2, 3].to_vec());
    round_trip([1i32, 2, 3].to_vec());
    round_trip(Vec::<u32>::new());
    round_trip(Option::<u32>::None);
    round_trip(Some(77u16));
    round_trip(Box::new(42u32));
    round_trip((7u32, -2i16));
    round_trip((1u8, 2u16, 3u32));
    round_trip((9u64,));
    round_trip(E::Unit);
    round_trip(E::Newtype(1));
    round_trip(E::Tuple(1, 2));
    round_trip(E::Struct { a: 1 });
}

#[test]
fn test_dep_decode_struct() {
    let test = Test {
        int: 1,
        seq: [5, 6].to_vec(),
        another_byte: 7,
    };
    let bytes = dep_encode_to_vec(&test).unwrap();
    let mut pos: usize = 0;
    let decoded = Test::dep_decode(bytes.as_slice(), &mut pos).unwrap();
    assert_eq!(decoded.int, 1);
    assert_eq!(decoded.seq, [5, 6].to_vec());
    assert_eq!(decoded.another_byte, 7);
    assert_eq!(pos, bytes.len());
}

#[test]
fn test_dep_decode_input_too_short() {
    let mut pos: usize = 0;
    assert_eq!(
        u32::dep_decode(&[0, 0, 1], &mut pos),
        Err(DecodeError::InputTooShort)
    );
    let mut pos: usize = 0;
    assert_eq!(
        u8::dep_decode(&[], &mut pos),
        Err(DecodeError::InputTooShort)
    );
    let mut pos: usize = 0;
    // length prefix declares three elements, data holds two
    assert_eq!(
        Vec::<u8>::dep_decode(&[0, 0, 0, 3, 1, 2], &mut pos),
        Err(DecodeError::InputTooShort)
    );
}

#[test]
fn test_dep_decode_invalid_value() {
    let mut pos: usize = 0;
    assert_eq!(
        bool::dep_decode(&[2], &mut pos),
        Err(DecodeError::InvalidValue)
    );
    let mut pos: usize = 0;
    // option tag outside {0, 1}
    assert_eq!(
        Option::<u8>::dep_decode(&[7, 1], &mut pos),
        Err(DecodeError::InvalidValue)
    );
    let mut pos: usize = 0;
    // variant index beyond the known variant count
    assert_eq!(
        E::dep_decode(&[0, 0, 0, 9], &mut pos),
        Err(DecodeError::InvalidValue)
    );
}

#[test]
fn test_decode_consumes_exactly_the_encoding() {
    // decoding stops at the value's end even with trailing bytes
    let mut bytes = dep_encode_to_vec(&(3u16, true)).unwrap();
    bytes.push(0xAA);
    bytes.push(0xBB);
    let mut pos: usize = 0;
    let decoded = <(u16, bool)>::dep_decode(bytes.as_slice(), &mut pos).unwrap();
    assert_eq!(decoded, (3u16, true));
    assert_eq!(pos, 3);
}

#[test]
fn test_encode_then_decode_law() {
    assert_eq!(encode_then_decode(&12345u32).unwrap(), 12345u32);
    assert_eq!(
        encode_then_decode(&[10u16, 20, 30].to_vec()).unwrap(),
        [10u16, 20, 30].to_vec()
    );
    assert_eq!(encode_then_decode(&Some(-7i32)).unwrap(), Some(-7i32));
    assert_eq!(encode_then_decode(&E::Tuple(8, 9)).unwrap(), E::Tuple(8, 9));
}

#[test]
fn test_encode_deterministic_law() {
    let (first, second) = encode_twice_agrees(&(1u32, [2u8, 3].to_vec(), false));
    assert_eq!(first, second);
    let (first, second) = encode_twice_agrees(&E::Newtype(99));
    assert_eq!(first, second);
    assert_eq!(second, dep_encode_to_vec(&E::Newtype(99)).unwrap());
}

#[test]
fn test_dep_encode_in_place() {
    let mut target = vec![0xEEu8; 8];
    let r = 7u32.dep_encode_in_place(&mut target, 2);
    assert_eq!(r, Ok(()));
    assert_eq!(target, vec![0xEE, 0xEE, 0, 0, 0, 7, 0xEE, 0xEE]);

    let mut target = vec![0u8; 5];
    let r = (0x0102u16, 3u8, true).dep_encode_in_place(&mut target, 1);
    assert_eq!(r, Ok(()));
    assert_eq!(target, vec![0, 1, 2, 3, 1]);

    // in-place encoding of a type without a constant width is an
    // unsupported operation and leaves the buffer untouched
    let mut target = vec![9u8; 4];
    let r = [1u8, 2].to_vec().dep_encode_in_place(&mut target, 0);
    assert_eq!(r, Err(EncodeError::UnsupportedOperation));
    assert_eq!(target, vec![9u8; 4]);
}

#[test]
fn test_dep_encode_no_err() {
    let mut dest: Vec<u8> = Vec::new();
    5u16.dep_encode_no_err(&mut dest);
    (-1i8).dep_encode_no_err(&mut dest);
    assert_eq!(dest, vec![0, 5, 255]);
}
