use vstd::prelude::*;
use crate::codec_err::DecodeError;
use crate::nested_de::NestedDecode;
use crate::nested_ser::{dep_encode_to_vec, NestedEncode};

verus! {

broadcast use vstd::seq::group_seq_axioms;

/// Round-trip law, spec level: two values with the same encoding are the
/// same value (up to view), so an encoding determines its value.
pub proof fn lemma_encoding_injective<T: NestedEncode>(a: &T, b: &T)
    requires
        a.encodable(),
        b.encodable(),
        a.encoding() == b.encoding(),
    ensures
        a.deep_view() == b.deep_view(),
{
    assert(a.encoding() + Seq::<u8>::empty() =~= b.encoding() + Seq::<u8>::empty());
    T::lemma_encoding_unambiguous(a, b, Seq::empty(), Seq::empty());
}

/// Round-trip law, executable form: decoding the bytes that encode
/// produced succeeds, consumes all of them, and yields the value back.
pub fn encode_then_decode<T: NestedDecode>(value: &T) -> (r: Result<T, DecodeError>)
    requires
        value.encodable(),
    ensures
        r matches Ok(w) && w.deep_view() == value.deep_view() && w.encodable(),
{
    let bytes = match dep_encode_to_vec(value) {
        Ok(b) => b,
        Err(_) => unreached(),
    };
    let mut pos: usize = 0;
    proof {
        T::lemma_encoding_decodable(value, Seq::empty());
        assert(bytes@.skip(0) =~= value.encoding() + Seq::<u8>::empty());
    }
    match T::dep_decode(bytes.as_slice(), &mut pos) {
        Ok(w) => {
            proof {
                assert(bytes@.subrange(0, pos as int) =~= bytes@);
                assert(w.encoding() == value.encoding());
                lemma_encoding_injective(&w, value);
            }
            Ok(w)
        },
        Err(_) => unreached(),
    }
}

/// Determinism law: two separate encode runs of the same value produce
/// byte-identical output, which is exactly the value's `encoding`.
pub fn encode_twice_agrees<T: NestedEncode>(value: &T) -> (r: (Vec<u8>, Vec<u8>))
    ensures
        r.0@ == r.1@,
        r.0@ == value.encoding(),
{
    let first = match dep_encode_to_vec(value) {
        Ok(b) => b,
        Err(_) => unreached(),
    };
    let second = match dep_encode_to_vec(value) {
        Ok(b) => b,
        Err(_) => unreached(),
    };
    (first, second)
}

/// Fixed-width law: a type that declares a constant encode length
/// produces exactly that many bytes for every value.
pub proof fn lemma_const_width<T: NestedEncode>(value: &T)
    requires
        T::spec_has_const_encode_len(),
    ensures
        value.encoding().len() == T::spec_const_encode_len(),
{
    T::lemma_const_encode_len(value);
}

/// Composite width law for pairs: the constant width of a pair is the
/// sum of its members' constant widths, when defined. (The width is
/// recognized as constant only while the sum stays below the 4-byte
/// range the wire format works in.)
pub proof fn lemma_pair_width<T0: NestedEncode, T1: NestedEncode>()
    ensures
        <(T0, T1)>::spec_has_const_encode_len() <==> (T0::spec_has_const_encode_len()
            && T1::spec_has_const_encode_len() && T0::spec_const_encode_len()
            + T1::spec_const_encode_len() < 0x1_0000_0000),
        <(T0, T1)>::spec_has_const_encode_len() ==> <(T0, T1)>::spec_const_encode_len()
            == T0::spec_const_encode_len() + T1::spec_const_encode_len(),
{
}

/// Composite width law for triples.
pub proof fn lemma_triple_width<T0: NestedEncode, T1: NestedEncode, T2: NestedEncode>()
    ensures
        <(T0, T1, T2)>::spec_has_const_encode_len() <==> (T0::spec_has_const_encode_len()
            && T1::spec_has_const_encode_len() && T2::spec_has_const_encode_len()
            && T0::spec_const_encode_len() + T1::spec_const_encode_len()
            + T2::spec_const_encode_len() < 0x1_0000_0000),
        <(T0, T1, T2)>::spec_has_const_encode_len() ==> <(T0, T1, T2)>::spec_const_encode_len()
            == T0::spec_const_encode_len() + T1::spec_const_encode_len()
            + T2::spec_const_encode_len(),
{
}

} // verus!
