use vstd::prelude::*;
use crate::be_bytes::{
    lemma_u32_be_round_trip, lemma_u32_from_be_round_trip, read_u32_be, u32_be, u32_from_be,
};
use crate::codec_err::{DecodeError, EncodeError};
use crate::nested_de::NestedDecode;
use crate::nested_ser::{NestedEncode, TypeInfo};
use crate::nested_ser::{lemma_concat_cancel};
use crate::nested_ser_output::NestedEncodeOutput;

verus! {

broadcast use vstd::seq::group_seq_axioms;

/// A small aggregate exercising the wire rules for structs: its encoding
/// is the concatenation of its fields' nested encodings, in declared
/// order, exactly as for a tuple of the field types.
pub struct Test {
    pub int: u16,
    pub seq: Vec<u8>,
    pub another_byte: u8,
}

/// The mathematical value of a `Test`: plain fields, the buffer as a
/// byte sequence.
pub struct TestView {
    pub int: u16,
    pub seq: Seq<u8>,
    pub another_byte: u8,
}

impl DeepView for Test {
    type V = TestView;

    open spec fn deep_view(&self) -> TestView {
        TestView { int: self.int, seq: self.seq@, another_byte: self.another_byte }
    }
}

impl NestedEncode for Test {
    open spec fn type_info() -> TypeInfo {
        TypeInfo::Unknown
    }

    open spec fn encoding(&self) -> Seq<u8> {
        self.int.encoding() + self.seq.encoding() + self.another_byte.encoding()
    }

    open spec fn encodable(&self) -> bool {
        self.seq.encodable()
    }

    open spec fn spec_has_const_encode_len() -> bool {
        false
    }

    open spec fn spec_const_encode_len() -> nat {
        0
    }

    fn has_const_encode_len() -> (r: bool) {
        false
    }

    fn const_encode_len() -> (r: usize) {
        0
    }

    proof fn lemma_const_encode_len(&self) {
    }

    proof fn lemma_encoding_unambiguous(a: &Self, b: &Self, tail_a: Seq<u8>, tail_b: Seq<u8>) {
        let ra0 = a.seq.encoding() + (a.another_byte.encoding() + tail_a);
        let rb0 = b.seq.encoding() + (b.another_byte.encoding() + tail_b);
        assert(a.int.encoding() + ra0 =~= a.encoding() + tail_a);
        assert(b.int.encoding() + rb0 =~= b.encoding() + tail_b);
        <u16 as NestedEncode>::lemma_encoding_unambiguous(&a.int, &b.int, ra0, rb0);
        lemma_concat_cancel(a.int.encoding(), ra0, rb0);
        let ra1 = a.another_byte.encoding() + tail_a;
        let rb1 = b.another_byte.encoding() + tail_b;
        <Vec<u8> as NestedEncode>::lemma_encoding_unambiguous(&a.seq, &b.seq, ra1, rb1);
        lemma_concat_cancel(a.seq.encoding(), ra1, rb1);
        <u8 as NestedEncode>::lemma_encoding_unambiguous(
            &a.another_byte,
            &b.another_byte,
            tail_a,
            tail_b,
        );
        assert(a.encoding() =~= b.encoding());
        assert(a.seq.deep_view() == b.seq.deep_view());
        assert(a.seq.deep_view().len() == a.seq@.len());
        assert(b.seq.deep_view().len() == b.seq@.len());
        assert(a.seq@.len() == b.seq@.len());
        assert forall|i: int| 0 <= i < a.seq@.len() implies a.seq@[i] == b.seq@[i] by {
            assert(a.seq.deep_view()[i] == a.seq@[i].deep_view());
            assert(b.seq.deep_view()[i] == b.seq@[i].deep_view());
        }
        assert(a.seq@ =~= b.seq@);
    }

    fn dep_encode<O: NestedEncodeOutput>(&self, dest: &mut O) -> (r: Result<(), EncodeError>) {
        let _ = self.int.dep_encode(dest);
        let _ = self.seq.dep_encode(dest);
        let _ = self.another_byte.dep_encode(dest);
        proof {
            assert(old(dest).bytes() + self.int.encoding() + self.seq.encoding()
                + self.another_byte.encoding() =~= old(dest).bytes() + self.encoding());
        }
        Ok(())
    }

    fn dep_encode_in_place(&self, target: &mut Vec<u8>, offset: usize) -> (r: Result<
        (),
        EncodeError,
    >) {
        Err(EncodeError::UnsupportedOperation)
    }
}

impl NestedDecode for Test {
    open spec fn decodable(s: Seq<u8>) -> bool {
        let s1 = s.skip(<u16 as NestedDecode>::decoded_len(s) as int);
        <u16 as NestedDecode>::decodable(s) && <Vec<u8> as NestedDecode>::decodable(s1) && <
        u8 as NestedDecode>::decodable(s1.skip(<Vec<u8> as NestedDecode>::decoded_len(s1) as int))
    }

    open spec fn decoded_len(s: Seq<u8>) -> nat {
        let s1 = s.skip(<u16 as NestedDecode>::decoded_len(s) as int);
        <u16 as NestedDecode>::decoded_len(s) + <Vec<u8> as NestedDecode>::decoded_len(s1) + <
        u8 as NestedDecode>::decoded_len(s1.skip(<Vec<u8> as NestedDecode>::decoded_len(s1) as int))
    }

    open spec fn decode_err(s: Seq<u8>) -> DecodeError {
        let s1 = s.skip(<u16 as NestedDecode>::decoded_len(s) as int);
        if !<u16 as NestedDecode>::decodable(s) {
            <u16 as NestedDecode>::decode_err(s)
        } else if !<Vec<u8> as NestedDecode>::decodable(s1) {
            <Vec<u8> as NestedDecode>::decode_err(s1)
        } else {
            <u8 as NestedDecode>::decode_err(
                s1.skip(<Vec<u8> as NestedDecode>::decoded_len(s1) as int),
            )
        }
    }

    proof fn lemma_decoded_len_le(s: Seq<u8>) {
        let s1 = s.skip(<u16 as NestedDecode>::decoded_len(s) as int);
        <u16 as NestedDecode>::lemma_decoded_len_le(s);
        <Vec<u8> as NestedDecode>::lemma_decoded_len_le(s1);
        <u8 as NestedDecode>::lemma_decoded_len_le(
            s1.skip(<Vec<u8> as NestedDecode>::decoded_len(s1) as int),
        );
    }

    proof fn lemma_encoding_decodable(&self, tail: Seq<u8>) {
        let s = self.encoding() + tail;
        let rest1 = self.seq.encoding() + (self.another_byte.encoding() + tail);
        let rest2 = self.another_byte.encoding() + tail;
        assert(self.int.encoding() + rest1 =~= s);
        <u16 as NestedDecode>::lemma_encoding_decodable(&self.int, rest1);
        let s1 = s.skip(<u16 as NestedDecode>::decoded_len(s) as int);
        assert(s1 =~= rest1);
        <Vec<u8> as NestedDecode>::lemma_encoding_decodable(&self.seq, rest2);
        assert(s1.skip(<Vec<u8> as NestedDecode>::decoded_len(s1) as int) =~= rest2);
        <u8 as NestedDecode>::lemma_encoding_decodable(&self.another_byte, tail);
    }

    fn dep_decode(input: &[u8], pos: &mut usize) -> (r: Result<Self, DecodeError>) {
        let ghost p0 = *old(pos) as int;
        let ghost s = input@.skip(p0);
        let int_field = match <u16 as NestedDecode>::dep_decode(input, pos) {
            Ok(v) => v,
            Err(e) => {
                return Err(e);
            },
        };
        let ghost p1 = *pos as int;
        let ghost s1 = s.skip(<u16 as NestedDecode>::decoded_len(s) as int);
        proof {
            assert(input@.skip(p1) =~= s1);
        }
        let seq = match <Vec<u8> as NestedDecode>::dep_decode(input, pos) {
            Ok(v) => v,
            Err(e) => {
                return Err(e);
            },
        };
        let ghost p2 = *pos as int;
        proof {
            assert(input@.skip(p2) =~= s1.skip(<Vec<u8> as NestedDecode>::decoded_len(s1) as int));
        }
        let another_byte = match <u8 as NestedDecode>::dep_decode(input, pos) {
            Ok(v) => v,
            Err(e) => {
                return Err(e);
            },
        };
        proof {
            assert(input@.subrange(p0, *pos as int) =~= input@.subrange(p0, p1) + input@.subrange(
                p1,
                p2,
            ) + input@.subrange(p2, *pos as int));
        }
        Ok(Test { int: int_field, seq, another_byte })
    }
}

/// A small sum type exercising the wire rules for enums: a 4-byte
/// big-endian variant index in declaration order, then the nested
/// encodings of the variant's payload fields in declared order.
#[derive(Clone, Copy, Debug, PartialEq, Eq, Structural)]
pub enum E {
    Unit,
    Newtype(u32),
    Tuple(u32, u32),
    Struct { a: u32 },
}

impl DeepView for E {
    type V = E;

    open spec fn deep_view(&self) -> E {
        *self
    }
}

impl NestedEncode for E {
    open spec fn type_info() -> TypeInfo {
        TypeInfo::Unknown
    }

    open spec fn encoding(&self) -> Seq<u8> {
        match self {
            E::Unit => u32_be(0),
            E::Newtype(x) => u32_be(1) + u32_be(*x),
            E::Tuple(x, y) => u32_be(2) + u32_be(*x) + u32_be(*y),
            E::Struct { a } => u32_be(3) + u32_be(*a),
        }
    }

    open spec fn encodable(&self) -> bool {
        true
    }

    open spec fn spec_has_const_encode_len() -> bool {
        false
    }

    open spec fn spec_const_encode_len() -> nat {
        0
    }

    fn has_const_encode_len() -> (r: bool) {
        false
    }

    fn const_encode_len() -> (r: usize) {
        0
    }

    proof fn lemma_const_encode_len(&self) {
    }

    proof fn lemma_encoding_unambiguous(a: &Self, b: &Self, tail_a: Seq<u8>, tail_b: Seq<u8>) {
        let ca = a.encoding() + tail_a;
        let cb = b.encoding() + tail_b;
        assert forall|i: int| 0 <= i < 4 implies a.encoding()[i] == b.encoding()[i] by {
            assert(ca[i] == a.encoding()[i]);
            assert(cb[i] == b.encoding()[i]);
        }
        let ia = e_variant_index(a);
        let ib = e_variant_index(b);
        assert(a.encoding().subrange(0, 4) =~= u32_be(ia));
        assert(b.encoding().subrange(0, 4) =~= u32_be(ib));
        lemma_u32_be_round_trip(ia);
        lemma_u32_be_round_trip(ib);
        assert(ia == ib);
        match (a, b) {
            (E::Unit, E::Unit) => {
                assert(a.encoding() =~= b.encoding());
            },
            (E::Newtype(xa), E::Newtype(xb)) => {
                lemma_e_payload_eq(ca, cb, *xa, *xb);
                assert(a.encoding() =~= b.encoding());
            },
            (E::Struct { a: xa }, E::Struct { a: xb }) => {
                lemma_e_payload_eq(ca, cb, *xa, *xb);
                assert(a.encoding() =~= b.encoding());
            },
            (E::Tuple(xa, ya), E::Tuple(xb, yb)) => {
                lemma_e_payload_eq(ca, cb, *xa, *xb);
                assert forall|i: int| 0 <= i < 4 implies u32_be(*ya)[i] == u32_be(*yb)[i] by {
                    assert(ca[8 + i] == a.encoding()[8 + i]);
                    assert(cb[8 + i] == b.encoding()[8 + i]);
                    assert(a.encoding()[8 + i] == u32_be(*ya)[i]) by {
                        assert(a.encoding() == (u32_be(2) + u32_be(*xa)) + u32_be(*ya));
                    }
                    assert(b.encoding()[8 + i] == u32_be(*yb)[i]) by {
                        assert(b.encoding() == (u32_be(2) + u32_be(*xb)) + u32_be(*yb));
                    }
                }
                assert(u32_be(*ya) =~= u32_be(*yb));
                lemma_u32_be_round_trip(*ya);
                lemma_u32_be_round_trip(*yb);
                assert(a.encoding() =~= b.encoding());
            },
            _ => {
                assert(false);
            },
        }
    }

    fn dep_encode<O: NestedEncodeOutput>(&self, dest: &mut O) -> (r: Result<(), EncodeError>) {
        match self {
            E::Unit => {
                crate::be_bytes::write_u32_be(dest, 0);
            },
            E::Newtype(x) => {
                crate::be_bytes::write_u32_be(dest, 1);
                crate::be_bytes::write_u32_be(dest, *x);
                proof {
                    assert(old(dest).bytes() + u32_be(1) + u32_be(*x) =~= old(dest).bytes() + (
                    u32_be(1) + u32_be(*x)));
                }
            },
            E::Tuple(x, y) => {
                crate::be_bytes::write_u32_be(dest, 2);
                crate::be_bytes::write_u32_be(dest, *x);
                crate::be_bytes::write_u32_be(dest, *y);
                proof {
                    assert(old(dest).bytes() + u32_be(2) + u32_be(*x) + u32_be(*y) =~= old(
                        dest,
                    ).bytes() + (u32_be(2) + u32_be(*x) + u32_be(*y)));
                }
            },
            E::Struct { a } => {
                crate::be_bytes::write_u32_be(dest, 3);
                crate::be_bytes::write_u32_be(dest, *a);
                proof {
                    assert(old(dest).bytes() + u32_be(3) + u32_be(*a) =~= old(dest).bytes() + (
                    u32_be(3) + u32_be(*a)));
                }
            },
        }
        Ok(())
    }

    fn dep_encode_in_place(&self, target: &mut Vec<u8>, offset: usize) -> (r: Result<
        (),
        EncodeError,
    >) {
        Err(EncodeError::UnsupportedOperation)
    }
}

impl NestedDecode for E {
    open spec fn decodable(s: Seq<u8>) -> bool {
        s.len() >= 4 && {
            let idx = u32_from_be(s.subrange(0, 4));
            ||| idx == 0
            ||| ((idx == 1 || idx == 3) && s.len() >= 8)
            ||| (idx == 2 && s.len() >= 12)
        }
    }

    open spec fn decoded_len(s: Seq<u8>) -> nat {
        let idx = u32_from_be(s.subrange(0, 4));
        if idx == 0 {
            4
        } else if idx == 1 || idx == 3 {
            8
        } else {
            12
        }
    }

    open spec fn decode_err(s: Seq<u8>) -> DecodeError {
        if s.len() < 4 {
            DecodeError::InputTooShort
        } else if u32_from_be(s.subrange(0, 4)) > 3 {
            DecodeError::InvalidValue
        } else {
            DecodeError::InputTooShort
        }
    }

    proof fn lemma_decoded_len_le(s: Seq<u8>) {
    }

    proof fn lemma_encoding_decodable(&self, tail: Seq<u8>) {
        let s = self.encoding() + tail;
        let idx = e_variant_index(self);
        assert(s.subrange(0, 4) =~= u32_be(idx)) by {
            match self {
                E::Unit => {},
                E::Newtype(x) => {},
                E::Tuple(x, y) => {
                    assert(self.encoding() == (u32_be(2) + u32_be(*x)) + u32_be(*y));
                },
                E::Struct { a } => {},
            }
        }
        lemma_u32_be_round_trip(idx);
    }

    fn dep_decode(input: &[u8], pos: &mut usize) -> (r: Result<Self, DecodeError>) {
        let ghost p0 = *old(pos) as int;
        let ghost s = input@.skip(p0);
        proof {
            assert(s.len() == input@.len() - p0);
        }
        if input.len() - *pos < 4 {
            return Err(DecodeError::InputTooShort);
        }
        let idx = read_u32_be(input, *pos);
        proof {
            assert(s.subrange(0, 4) =~= input@.subrange(p0, p0 + 4));
            lemma_u32_from_be_round_trip(s.subrange(0, 4));
        }
        *pos = *pos + 4;
        if idx == 0 {
            proof {
                assert(input@.subrange(p0, *pos as int) =~= s.subrange(0, 4));
            }
            Ok(E::Unit)
        } else if idx == 1 || idx == 3 {
            if input.len() - *pos < 4 {
                return Err(DecodeError::InputTooShort);
            }
            let x = read_u32_be(input, *pos);
            proof {
                lemma_u32_from_be_round_trip(input@.subrange(*pos as int, *pos + 4));
            }
            *pos = *pos + 4;
            proof {
                assert(input@.subrange(p0, *pos as int) =~= input@.subrange(p0, p0 + 4)
                    + input@.subrange(p0 + 4, *pos as int));
            }
            if idx == 1 {
                Ok(E::Newtype(x))
            } else {
                Ok(E::Struct { a: x })
            }
        } else if idx == 2 {
            if input.len() - *pos < 8 {
                return Err(DecodeError::InputTooShort);
            }
            let x = read_u32_be(input, *pos);
            proof {
                lemma_u32_from_be_round_trip(input@.subrange(*pos as int, *pos + 4));
            }
            *pos = *pos + 4;
            let y = read_u32_be(input, *pos);
            proof {
                lemma_u32_from_be_round_trip(input@.subrange(*pos as int, *pos + 4));
            }
            *pos = *pos + 4;
            proof {
                assert(input@.subrange(p0, *pos as int) =~= (input@.subrange(p0, p0 + 4)
                    + input@.subrange(p0 + 4, p0 + 8)) + input@.subrange(p0 + 8, *pos as int));
            }
            Ok(E::Tuple(x, y))
        } else {
            Err(DecodeError::InvalidValue)
        }
    }
}

/// The 0-based declaration-order index of a variant of `E`.
pub open spec fn e_variant_index(e: &E) -> u32 {
    match e {
        E::Unit => 0,
        E::Newtype(_) => 1,
        E::Tuple(_, _) => 2,
        E::Struct { .. } => 3,
    }
}

/// Equal bytes under equal 4-byte prefixes carry equal 4-byte payloads.
proof fn lemma_e_payload_eq(ca: Seq<u8>, cb: Seq<u8>, xa: u32, xb: u32)
    requires
        ca == cb,
        ca.len() >= 8,
        forall|i: int| 0 <= i < 4 ==> ca[4 + i] == u32_be(xa)[i],
        forall|i: int| 0 <= i < 4 ==> cb[4 + i] == u32_be(xb)[i],
    ensures
        xa == xb,
        u32_be(xa) == u32_be(xb),
{
    assert(u32_be(xa) =~= u32_be(xb));
    lemma_u32_be_round_trip(xa);
    lemma_u32_be_round_trip(xb);
}

} // verus!
