use vstd::prelude::*;
use crate::be_bytes::{
    exec_u16_as_i16, exec_u32_as_i32, exec_u64_as_i64, exec_u8_as_i8, lemma_i16_u16_round_trip,
    lemma_i32_u32_round_trip, lemma_i64_u64_round_trip, lemma_i8_u8_round_trip,
    lemma_u16_from_be_round_trip, lemma_u32_be_round_trip, lemma_u32_from_be_round_trip,
    lemma_u64_from_be_round_trip, read_u16_be, read_u32_be, read_u64_be, u32_be, u32_from_be,
};
use crate::codec_err::DecodeError;
use crate::nested_ser::{
    len_prefix, seq_encodable, seq_encoding, lemma_seq_encoding_snoc, NestedEncode,
};

verus! {

broadcast use vstd::seq::group_seq_axioms;

/// Reconstruction of a typed value from a byte cursor: the exact inverse
/// of `NestedEncode`. Decoding consumes precisely the bytes the matching
/// encode would have produced, advancing the cursor by that amount, and
/// reports a structured error on malformed input: `decodable` says on
/// which inputs a value is found, `decoded_len` how many bytes it takes,
/// and `decode_err` which error any other input earns.
pub trait NestedDecode: NestedEncode {
    /// Whether some value's encoding opens the byte string `s`.
    spec fn decodable(s: Seq<u8>) -> bool;

    /// How many bytes that value's encoding takes, when `decodable(s)`.
    spec fn decoded_len(s: Seq<u8>) -> nat;

    /// The error decoding reports on `s`, when not `decodable(s)`.
    spec fn decode_err(s: Seq<u8>) -> DecodeError;

    /// Decoding never reads past the end of the input.
    proof fn lemma_decoded_len_le(s: Seq<u8>)
        requires
            Self::decodable(s),
        ensures
            Self::decoded_len(s) <= s.len(),
    ;

    /// Whatever encode produced is decodable, and decoding stops exactly
    /// at the end of the encoding: one half of the round-trip law.
    proof fn lemma_encoding_decodable(&self, tail: Seq<u8>)
        requires
            self.encodable(),
        ensures
            Self::decodable(self.encoding() + tail),
            Self::decoded_len(self.encoding() + tail) == self.encoding().len(),
    ;

    /// Decode one value from `input`, starting at `*pos`. On success the
    /// cursor has advanced over exactly the returned value's encoding;
    /// on failure the error is the classification `decode_err` gives.
    fn dep_decode(input: &[u8], pos: &mut usize) -> (r: Result<Self, DecodeError>)
        requires
            *old(pos) <= input@.len(),
        ensures
            *old(pos) <= *final(pos) <= input@.len(),
            (r is Ok) == Self::decodable(input@.skip(*old(pos) as int)),
            r matches Ok(v) ==> {
                &&& v.encodable()
                &&& *final(pos) == *old(pos) + Self::decoded_len(
                    input@.skip(*old(pos) as int),
                )
                &&& input@.subrange(*old(pos) as int, *final(pos) as int) == v.encoding()
            },
            r matches Err(e) ==> e == Self::decode_err(input@.skip(*old(pos) as int)),
    ;
}

// Decoding a run of values one after another, as the elements of a
// sequence are decoded: `n` values, each starting where the previous
// one stopped.

pub open spec fn seq_decodable<T: NestedDecode>(s: Seq<u8>, n: nat) -> bool
    decreases n,
{
    if n == 0 {
        true
    } else {
        T::decodable(s) && seq_decodable::<T>(
            s.skip(T::decoded_len(s) as int),
            (n - 1) as nat,
        )
    }
}

pub open spec fn seq_decoded_len<T: NestedDecode>(s: Seq<u8>, n: nat) -> nat
    decreases n,
{
    if n == 0 {
        0
    } else {
        T::decoded_len(s) + seq_decoded_len::<T>(
            s.skip(T::decoded_len(s) as int),
            (n - 1) as nat,
        )
    }
}

pub open spec fn seq_decode_err<T: NestedDecode>(s: Seq<u8>, n: nat) -> DecodeError
    decreases n,
{
    if n == 0 {
        arbitrary()
    } else if !T::decodable(s) {
        T::decode_err(s)
    } else {
        seq_decode_err::<T>(s.skip(T::decoded_len(s) as int), (n - 1) as nat)
    }
}


/// A run of decoded values never reads past the end of the input.
pub proof fn lemma_seq_decoded_len_le<T: NestedDecode>(s: Seq<u8>, n: nat)
    requires
        seq_decodable::<T>(s, n),
    ensures
        seq_decoded_len::<T>(s, n) <= s.len(),
    decreases n,
{
    if n > 0 {
        T::lemma_decoded_len_le(s);
        lemma_seq_decoded_len_le::<T>(s.skip(T::decoded_len(s) as int), (n - 1) as nat);
    }
}

/// After `i` values have been decoded, finding one more extends the run.
pub proof fn lemma_seq_decode_extend<T: NestedDecode>(s: Seq<u8>, i: nat)
    requires
        seq_decodable::<T>(s, i),
        T::decodable(s.skip(seq_decoded_len::<T>(s, i) as int)),
    ensures
        seq_decodable::<T>(s, i + 1),
        seq_decoded_len::<T>(s, i + 1) == seq_decoded_len::<T>(s, i) + T::decoded_len(
            s.skip(seq_decoded_len::<T>(s, i) as int),
        ),
    decreases i,
{
    if i == 0 {
        assert(s.skip(0) =~= s);
        assert(seq_decoded_len::<T>(s, 0) == 0);
        assert(T::decodable(s));
        assert(seq_decodable::<T>(s.skip(T::decoded_len(s) as int), 0));
        assert(seq_decoded_len::<T>(s.skip(T::decoded_len(s) as int), 0) == 0);
        assert(seq_decodable::<T>(s, 1));
        assert(seq_decoded_len::<T>(s, 1) == T::decoded_len(s));
    } else {
        T::lemma_decoded_len_le(s);
        let d0 = T::decoded_len(s) as int;
        let s1 = s.skip(d0);
        lemma_seq_decoded_len_le::<T>(s1, (i - 1) as nat);
        let d1 = seq_decoded_len::<T>(s1, (i - 1) as nat) as int;
        assert(s1.skip(d1) =~= s.skip(d0 + d1));
        assert(seq_decoded_len::<T>(s, i) == d0 + d1);
        lemma_seq_decode_extend::<T>(s1, (i - 1) as nat);
        assert(((i - 1) + 1) as nat == i);
        assert(seq_decodable::<T>(s1, i));
        assert(((i + 1) - 1) as nat == i);
        assert(seq_decodable::<T>(s, i + 1));
        assert(seq_decoded_len::<T>(s, i + 1) == d0 + seq_decoded_len::<T>(s1, i));
    }
}

/// After `i` values have been decoded, a failure on the next one fails
/// every longer run, with that same error.
pub proof fn lemma_seq_decode_fail<T: NestedDecode>(s: Seq<u8>, i: nat, n: nat)
    requires
        seq_decodable::<T>(s, i),
        !T::decodable(s.skip(seq_decoded_len::<T>(s, i) as int)),
        i < n,
    ensures
        !seq_decodable::<T>(s, n),
        seq_decode_err::<T>(s, n) == T::decode_err(s.skip(seq_decoded_len::<T>(s, i) as int)),
    decreases i,
{
    if i == 0 {
        assert(s.skip(0) =~= s);
    } else {
        T::lemma_decoded_len_le(s);
        let d0 = T::decoded_len(s) as int;
        let s1 = s.skip(d0);
        lemma_seq_decoded_len_le::<T>(s1, (i - 1) as nat);
        let d1 = seq_decoded_len::<T>(s1, (i - 1) as nat) as int;
        assert(s1.skip(d1) =~= s.skip(d0 + d1));
        lemma_seq_decode_fail::<T>(s1, (i - 1) as nat, (n - 1) as nat);
    }
}

impl NestedDecode for () {
    open spec fn decodable(s: Seq<u8>) -> bool {
        true
    }

    open spec fn decoded_len(s: Seq<u8>) -> nat {
        0
    }

    open spec fn decode_err(s: Seq<u8>) -> DecodeError {
        arbitrary()
    }

    proof fn lemma_decoded_len_le(s: Seq<u8>) {
    }

    proof fn lemma_encoding_decodable(&self, tail: Seq<u8>) {
    }

    fn dep_decode(input: &[u8], pos: &mut usize) -> (r: Result<Self, DecodeError>) {
        proof {
            assert(input@.subrange(*pos as int, *pos as int) =~= Seq::<u8>::empty());
        }
        Ok(())
    }
}

impl NestedDecode for u8 {
    open spec fn decodable(s: Seq<u8>) -> bool {
        s.len() >= 1
    }

    open spec fn decoded_len(s: Seq<u8>) -> nat {
        1
    }

    open spec fn decode_err(s: Seq<u8>) -> DecodeError {
        DecodeError::InputTooShort
    }

    proof fn lemma_decoded_len_le(s: Seq<u8>) {
    }

    proof fn lemma_encoding_decodable(&self, tail: Seq<u8>) {
    }

    fn dep_decode(input: &[u8], pos: &mut usize) -> (r: Result<Self, DecodeError>) {
        if *pos < input.len() {
            let b = input[*pos];
            proof {
                assert(input@.skip(*pos as int)[0] == input@[*pos as int]);
                assert(input@.subrange(*pos as int, *pos + 1) =~= seq![b]);
            }
            *pos = *pos + 1;
            Ok(b)
        } else {
            Err(DecodeError::InputTooShort)
        }
    }
}

impl NestedDecode for bool {
    open spec fn decodable(s: Seq<u8>) -> bool {
        s.len() >= 1 && (s[0] == 0 || s[0] == 1)
    }

    open spec fn decoded_len(s: Seq<u8>) -> nat {
        1
    }

    open spec fn decode_err(s: Seq<u8>) -> DecodeError {
        if s.len() < 1 {
            DecodeError::InputTooShort
        } else {
            DecodeError::InvalidValue
        }
    }

    proof fn lemma_decoded_len_le(s: Seq<u8>) {
    }

    proof fn lemma_encoding_decodable(&self, tail: Seq<u8>) {
        assert((self.encoding() + tail)[0] == self.encoding()[0]);
    }

    fn dep_decode(input: &[u8], pos: &mut usize) -> (r: Result<Self, DecodeError>) {
        if *pos < input.len() {
            let b = input[*pos];
            proof {
                assert(input@.skip(*pos as int)[0] == input@[*pos as int]);
            }
            if b == 0 {
                proof {
                    assert(input@.subrange(*pos as int, *pos + 1) =~= seq![b]);
                }
                *pos = *pos + 1;
                Ok(false)
            } else if b == 1 {
                proof {
                    assert(input@.subrange(*pos as int, *pos + 1) =~= seq![b]);
                }
                *pos = *pos + 1;
                Ok(true)
            } else {
                Err(DecodeError::InvalidValue)
            }
        } else {
            Err(DecodeError::InputTooShort)
        }
    }
}

impl NestedDecode for u16 {
    open spec fn decodable(s: Seq<u8>) -> bool {
        s.len() >= 2
    }

    open spec fn decoded_len(s: Seq<u8>) -> nat {
        2
    }

    open spec fn decode_err(s: Seq<u8>) -> DecodeError {
        DecodeError::InputTooShort
    }

    proof fn lemma_decoded_len_le(s: Seq<u8>) {
    }

    proof fn lemma_encoding_decodable(&self, tail: Seq<u8>) {
    }

    fn dep_decode(input: &[u8], pos: &mut usize) -> (r: Result<Self, DecodeError>) {
        if input.len() - *pos >= 2 {
            let x = read_u16_be(input, *pos);
            proof {
                let sub = input@.subrange(*pos as int, *pos + 2);
                lemma_u16_from_be_round_trip(sub);
            }
            *pos = *pos + 2;
            Ok(x)
        } else {
            Err(DecodeError::InputTooShort)
        }
    }
}

impl NestedDecode for u32 {
    open spec fn decodable(s: Seq<u8>) -> bool {
        s.len() >= 4
    }

    open spec fn decoded_len(s: Seq<u8>) -> nat {
        4
    }

    open spec fn decode_err(s: Seq<u8>) -> DecodeError {
        DecodeError::InputTooShort
    }

    proof fn lemma_decoded_len_le(s: Seq<u8>) {
    }

    proof fn lemma_encoding_decodable(&self, tail: Seq<u8>) {
    }

    fn dep_decode(input: &[u8], pos: &mut usize) -> (r: Result<Self, DecodeError>) {
        if input.len() - *pos >= 4 {
            let x = read_u32_be(input, *pos);
            proof {
                let sub = input@.subrange(*pos as int, *pos + 4);
                lemma_u32_from_be_round_trip(sub);
            }
            *pos = *pos + 4;
            Ok(x)
        } else {
            Err(DecodeError::InputTooShort)
        }
    }
}

impl NestedDecode for u64 {
    open spec fn decodable(s: Seq<u8>) -> bool {
        s.len() >= 8
    }

    open spec fn decoded_len(s: Seq<u8>) -> nat {
        8
    }

    open spec fn decode_err(s: Seq<u8>) -> DecodeError {
        DecodeError::InputTooShort
    }

    proof fn lemma_decoded_len_le(s: Seq<u8>) {
    }

    proof fn lemma_encoding_decodable(&self, tail: Seq<u8>) {
    }

    fn dep_decode(input: &[u8], pos: &mut usize) -> (r: Result<Self, DecodeError>) {
        if input.len() - *pos >= 8 {
            let x = read_u64_be(input, *pos);
            proof {
                let sub = input@.subrange(*pos as int, *pos + 8);
                lemma_u64_from_be_round_trip(sub);
            }
            *pos = *pos + 8;
            Ok(x)
        } else {
            Err(DecodeError::InputTooShort)
        }
    }
}

impl NestedDecode for i8 {
    open spec fn decodable(s: Seq<u8>) -> bool {
        s.len() >= 1
    }

    open spec fn decoded_len(s: Seq<u8>) -> nat {
        1
    }

    open spec fn decode_err(s: Seq<u8>) -> DecodeError {
        DecodeError::InputTooShort
    }

    proof fn lemma_decoded_len_le(s: Seq<u8>) {
    }

    proof fn lemma_encoding_decodable(&self, tail: Seq<u8>) {
    }

    fn dep_decode(input: &[u8], pos: &mut usize) -> (r: Result<Self, DecodeError>) {
        if *pos < input.len() {
            let b = input[*pos];
            let v = exec_u8_as_i8(b);
            proof {
                assert(input@.skip(*pos as int)[0] == input@[*pos as int]);
                lemma_i8_u8_round_trip(0, b);
                assert(input@.subrange(*pos as int, *pos + 1) =~= seq![b]);
            }
            *pos = *pos + 1;
            Ok(v)
        } else {
            Err(DecodeError::InputTooShort)
        }
    }
}

impl NestedDecode for i16 {
    open spec fn decodable(s: Seq<u8>) -> bool {
        s.len() >= 2
    }

    open spec fn decoded_len(s: Seq<u8>) -> nat {
        2
    }

    open spec fn decode_err(s: Seq<u8>) -> DecodeError {
        DecodeError::InputTooShort
    }

    proof fn lemma_decoded_len_le(s: Seq<u8>) {
    }

    proof fn lemma_encoding_decodable(&self, tail: Seq<u8>) {
    }

    fn dep_decode(input: &[u8], pos: &mut usize) -> (r: Result<Self, DecodeError>) {
        if input.len() - *pos >= 2 {
            let x = read_u16_be(input, *pos);
            let v = exec_u16_as_i16(x);
            proof {
                lemma_u16_from_be_round_trip(input@.subrange(*pos as int, *pos + 2));
                lemma_i16_u16_round_trip(0, x);
            }
            *pos = *pos + 2;
            Ok(v)
        } else {
            Err(DecodeError::InputTooShort)
        }
    }
}

impl NestedDecode for i32 {
    open spec fn decodable(s: Seq<u8>) -> bool {
        s.len() >= 4
    }

    open spec fn decoded_len(s: Seq<u8>) -> nat {
        4
    }

    open spec fn decode_err(s: Seq<u8>) -> DecodeError {
        DecodeError::InputTooShort
    }

    proof fn lemma_decoded_len_le(s: Seq<u8>) {
    }

    proof fn lemma_encoding_decodable(&self, tail: Seq<u8>) {
    }

    fn dep_decode(input: &[u8], pos: &mut usize) -> (r: Result<Self, DecodeError>) {
        if input.len() - *pos >= 4 {
            let x = read_u32_be(input, *pos);
            let v = exec_u32_as_i32(x);
            proof {
                lemma_u32_from_be_round_trip(input@.subrange(*pos as int, *pos + 4));
                lemma_i32_u32_round_trip(0, x);
            }
            *pos = *pos + 4;
            Ok(v)
        } else {
            Err(DecodeError::InputTooShort)
        }
    }
}

impl NestedDecode for i64 {
    open spec fn decodable(s: Seq<u8>) -> bool {
        s.len() >= 8
    }

    open spec fn decoded_len(s: Seq<u8>) -> nat {
        8
    }

    open spec fn decode_err(s: Seq<u8>) -> DecodeError {
        DecodeError::InputTooShort
    }

    proof fn lemma_decoded_len_le(s: Seq<u8>) {
    }

    proof fn lemma_encoding_decodable(&self, tail: Seq<u8>) {
    }

    fn dep_decode(input: &[u8], pos: &mut usize) -> (r: Result<Self, DecodeError>) {
        if input.len() - *pos >= 8 {
            let x = read_u64_be(input, *pos);
            let v = exec_u64_as_i64(x);
            proof {
                lemma_u64_from_be_round_trip(input@.subrange(*pos as int, *pos + 8));
                lemma_i64_u64_round_trip(0, x);
            }
            *pos = *pos + 8;
            Ok(v)
        } else {
            Err(DecodeError::InputTooShort)
        }
    }
}

impl NestedDecode for usize {
    open spec fn decodable(s: Seq<u8>) -> bool {
        s.len() >= 4
    }

    open spec fn decoded_len(s: Seq<u8>) -> nat {
        4
    }

    open spec fn decode_err(s: Seq<u8>) -> DecodeError {
        DecodeError::InputTooShort
    }

    proof fn lemma_decoded_len_le(s: Seq<u8>) {
    }

    proof fn lemma_encoding_decodable(&self, tail: Seq<u8>) {
        crate::be_bytes::lemma_usize_low_u32_small(*self);
    }

    fn dep_decode(input: &[u8], pos: &mut usize) -> (r: Result<Self, DecodeError>) {
        if input.len() - *pos >= 4 {
            let x = read_u32_be(input, *pos);
            let v = x as usize;
            proof {
                lemma_u32_from_be_round_trip(input@.subrange(*pos as int, *pos + 4));
                crate::be_bytes::lemma_usize_from_u32(x);
            }
            *pos = *pos + 4;
            Ok(v)
        } else {
            Err(DecodeError::InputTooShort)
        }
    }
}

impl NestedDecode for isize {
    open spec fn decodable(s: Seq<u8>) -> bool {
        s.len() >= 4
    }

    open spec fn decoded_len(s: Seq<u8>) -> nat {
        4
    }

    open spec fn decode_err(s: Seq<u8>) -> DecodeError {
        DecodeError::InputTooShort
    }

    proof fn lemma_decoded_len_le(s: Seq<u8>) {
    }

    proof fn lemma_encoding_decodable(&self, tail: Seq<u8>) {
        crate::be_bytes::lemma_isize_low_u32_small(*self);
    }

    fn dep_decode(input: &[u8], pos: &mut usize) -> (r: Result<Self, DecodeError>) {
        if input.len() - *pos >= 4 {
            let x = read_u32_be(input, *pos);
            let v = exec_u32_as_i32(x) as isize;
            proof {
                lemma_u32_from_be_round_trip(input@.subrange(*pos as int, *pos + 4));
                crate::be_bytes::lemma_isize_from_u32(x);
            }
            *pos = *pos + 4;
            Ok(v)
        } else {
            Err(DecodeError::InputTooShort)
        }
    }
}

/// The concatenated encodings of a run of encodable values decode back,
/// one after another, consuming exactly the concatenation.
pub proof fn lemma_seq_encoding_decodable<T: NestedDecode>(es: Seq<T>, tail: Seq<u8>)
    requires
        seq_encodable(es),
    ensures
        seq_decodable::<T>(seq_encoding(es) + tail, es.len()),
        seq_decoded_len::<T>(seq_encoding(es) + tail, es.len()) == seq_encoding(es).len(),
    decreases es.len(),
{
    let s = seq_encoding(es) + tail;
    if es.len() == 0 {
        assert(seq_decodable::<T>(s, 0));
        assert(seq_decoded_len::<T>(s, 0) == 0);
    } else {
        let rest = seq_encoding(es.skip(1)) + tail;
        assert(es[0].encodable());
        T::lemma_encoding_decodable(&es[0], rest);
        assert(es[0].encoding() + rest =~= s);
        assert(T::decodable(s));
        assert(T::decoded_len(s) == es[0].encoding().len());
        assert(s.skip(T::decoded_len(s) as int) =~= rest);
        assert(seq_encodable(es.skip(1))) by {
            assert(forall|i: int|
                0 <= i < es.skip(1).len() ==> #[trigger] es.skip(1)[i] == es[i + 1]);
        }
        lemma_seq_encoding_decodable::<T>(es.skip(1), tail);
        assert(((es.len() - 1) + 1) as nat == es.len());
        assert(seq_decodable::<T>(s, es.len()));
        assert(seq_decoded_len::<T>(s, es.len()) == T::decoded_len(s) + seq_decoded_len::<T>(
            rest,
            (es.len() - 1) as nat,
        ));
    }
}

/// An optional value opens with its presence tag; the payload follows a
/// `1`, nothing follows a `0`, and any other tag byte is invalid.
impl<T: NestedDecode> NestedDecode for Option<T> {
    open spec fn decodable(s: Seq<u8>) -> bool {
        s.len() >= 1 && (s[0] == 0 || (s[0] == 1 && T::decodable(s.skip(1))))
    }

    open spec fn decoded_len(s: Seq<u8>) -> nat {
        if s[0] == 0 {
            1
        } else {
            1 + T::decoded_len(s.skip(1))
        }
    }

    open spec fn decode_err(s: Seq<u8>) -> DecodeError {
        if s.len() < 1 {
            DecodeError::InputTooShort
        } else if s[0] == 0 || s[0] == 1 {
            T::decode_err(s.skip(1))
        } else {
            DecodeError::InvalidValue
        }
    }

    proof fn lemma_decoded_len_le(s: Seq<u8>) {
        if s[0] != 0 {
            T::lemma_decoded_len_le(s.skip(1));
        }
    }

    proof fn lemma_encoding_decodable(&self, tail: Seq<u8>) {
        match self {
            Option::Some(v) => {
                let s = self.encoding() + tail;
                assert(s[0] == 1) by {
                    assert((seq![1u8] + v.encoding())[0] == seq![1u8][0]);
                    assert(s[0] == self.encoding()[0]);
                }
                T::lemma_encoding_decodable(v, tail);
                assert(s.skip(1) =~= v.encoding() + tail);
            },
            Option::None => {
                let s = self.encoding() + tail;
                assert(s[0] == 0) by {
                    assert(s[0] == self.encoding()[0]);
                }
            },
        }
    }

    fn dep_decode(input: &[u8], pos: &mut usize) -> (r: Result<Self, DecodeError>) {
        let ghost s = input@.skip(*old(pos) as int);
        if *pos < input.len() {
            let tag = input[*pos];
            proof {
                assert(s[0] == input@[*old(pos) as int]);
            }
            if tag == 0 {
                proof {
                    assert(input@.subrange(*old(pos) as int, *old(pos) + 1) =~= seq![0u8]);
                }
                *pos = *pos + 1;
                Ok(None)
            } else if tag == 1 {
                *pos = *pos + 1;
                let ghost p1 = *pos;
                proof {
                    assert(input@.skip(p1 as int) =~= s.skip(1));
                }
                match T::dep_decode(input, pos) {
                    Ok(v) => {
                        proof {
                            assert(input@.subrange(*old(pos) as int, *pos as int) =~= seq![1u8]
                                + input@.subrange(p1 as int, *pos as int));
                        }
                        Ok(Some(v))
                    },
                    Err(e) => Err(e),
                }
            } else {
                Err(DecodeError::InvalidValue)
            }
        } else {
            Err(DecodeError::InputTooShort)
        }
    }
}

/// An owned pointer decodes exactly as its pointee.
impl<T: NestedDecode> NestedDecode for Box<T> {
    open spec fn decodable(s: Seq<u8>) -> bool {
        T::decodable(s)
    }

    open spec fn decoded_len(s: Seq<u8>) -> nat {
        T::decoded_len(s)
    }

    open spec fn decode_err(s: Seq<u8>) -> DecodeError {
        T::decode_err(s)
    }

    proof fn lemma_decoded_len_le(s: Seq<u8>) {
        T::lemma_decoded_len_le(s);
    }

    proof fn lemma_encoding_decodable(&self, tail: Seq<u8>) {
        T::lemma_encoding_decodable(&**self, tail);
    }

    fn dep_decode(input: &[u8], pos: &mut usize) -> (r: Result<Self, DecodeError>) {
        match T::dep_decode(input, pos) {
            Ok(v) => Ok(Box::new(v)),
            Err(e) => Err(e),
        }
    }
}

/// A growable sequence decodes its 4-byte big-endian element count, then
/// that many nested element encodings, never reading past the declared
/// run and consuming it precisely.
impl<T: NestedDecode> NestedDecode for Vec<T> {
    open spec fn decodable(s: Seq<u8>) -> bool {
        s.len() >= 4 && seq_decodable::<T>(s.skip(4), u32_from_be(s.subrange(0, 4)) as nat)
    }

    open spec fn decoded_len(s: Seq<u8>) -> nat {
        4 + seq_decoded_len::<T>(s.skip(4), u32_from_be(s.subrange(0, 4)) as nat)
    }

    open spec fn decode_err(s: Seq<u8>) -> DecodeError {
        if s.len() < 4 {
            DecodeError::InputTooShort
        } else {
            seq_decode_err::<T>(s.skip(4), u32_from_be(s.subrange(0, 4)) as nat)
        }
    }

    proof fn lemma_decoded_len_le(s: Seq<u8>) {
        lemma_seq_decoded_len_le::<T>(s.skip(4), u32_from_be(s.subrange(0, 4)) as nat);
    }

    proof fn lemma_encoding_decodable(&self, tail: Seq<u8>) {
        let n = self@.len();
        let s = self.encoding() + tail;
        assert(s.subrange(0, 4) =~= len_prefix(n));
        lemma_u32_be_round_trip((n % 0x1_0000_0000) as u32);
        assert(u32_from_be(s.subrange(0, 4)) as nat == n);
        assert(s.skip(4) =~= seq_encoding(self@) + tail);
        lemma_seq_encoding_decodable::<T>(self@, tail);
    }

    fn dep_decode(input: &[u8], pos: &mut usize) -> (r: Result<Self, DecodeError>) {
        let ghost p0 = *old(pos) as int;
        let ghost s = input@.skip(p0);
        proof {
            assert(s.len() == input@.len() - p0);
        }
        if input.len() - *pos < 4 {
            proof {
                assert(s.len() < 4);
            }
            return Err(DecodeError::InputTooShort);
        }
        let n32 = read_u32_be(input, *pos);
        let n = n32 as usize;
        *pos = *pos + 4;
        let ghost s4 = input@.skip(p0 + 4);
        proof {
            assert(s.subrange(0, 4) =~= input@.subrange(p0, p0 + 4));
            assert(s.skip(4) =~= s4);
            assert(u32_from_be(s.subrange(0, 4)) == n32);
        }
        let mut result: Vec<T> = Vec::new();
        proof {
            assert(result@.subrange(0, 0) =~= Seq::<T>::empty());
            assert(seq_encoding(result@) =~= input@.subrange(p0 + 4, p0 + 4));
        }
        let mut i: usize = 0;
        while i < n
            invariant
                i <= n,
                n == n32 as nat,
                p0 + 4 <= *pos <= input@.len(),
                p0 == *old(pos) as int,
                s == input@.skip(p0),
                s.len() >= 4,
                u32_from_be(s.subrange(0, 4)) == n32,
                s4 == input@.skip(p0 + 4),
                s4 == s.skip(4),
                result@.len() == i,
                seq_decodable::<T>(s4, i as nat),
                seq_decoded_len::<T>(s4, i as nat) == *pos - (p0 + 4),
                seq_encoding(result@) == input@.subrange(p0 + 4, *pos as int),
                seq_encodable(result@),
            decreases n - i,
        {
            let ghost pos_before = *pos as int;
            let ghost prev = result@;
            proof {
                assert(input@.skip(pos_before) =~= s4.skip(
                    seq_decoded_len::<T>(s4, i as nat) as int,
                ));
            }
            match T::dep_decode(input, pos) {
                Ok(v) => {
                    result.push(v);
                    proof {
                        lemma_seq_decode_extend::<T>(s4, i as nat);
                        assert(result@.drop_last() =~= prev);
                        assert(result@.last() == v);
                        lemma_seq_encoding_snoc::<T>(result@);
                        assert(seq_encoding(result@) =~= input@.subrange(p0 + 4, *pos as int));
                        assert(seq_encodable(result@)) by {
                            assert(forall|j: int|
                                0 <= j < prev.len() ==> #[trigger] result@[j] == prev[j]);
                        }
                    }
                    i += 1;
                },
                Err(e) => {
                    proof {
                        lemma_seq_decode_fail::<T>(s4, i as nat, n as nat);
                    }
                    return Err(e);
                },
            }
        }
        proof {
            assert(seq_decodable::<T>(s.skip(4), u32_from_be(s.subrange(0, 4)) as nat));
            assert(Self::decodable(s));
            assert(Self::decoded_len(s) == *pos - p0);
            lemma_u32_be_round_trip(n32);
            assert(len_prefix(result@.len()) == u32_be(n32));
            assert(input@.subrange(p0, *pos as int) =~= input@.subrange(p0, p0 + 4)
                + input@.subrange(p0 + 4, *pos as int));
            assert(input@.subrange(p0, p0 + 4) =~= s.subrange(0, 4));
            assert(u32_be(u32_from_be(s.subrange(0, 4))) == s.subrange(0, 4)) by {
                lemma_u32_from_be_round_trip(s.subrange(0, 4));
            }
            assert(input@.subrange(p0, *pos as int) == len_prefix(result@.len()) + seq_encoding(
                result@,
            ));
        }
        Ok(result)
    }
}

/// Treating the 1-tuple separately, as on the encode side.
impl<T0: NestedDecode> NestedDecode for (T0,) {
    open spec fn decodable(s: Seq<u8>) -> bool {
        T0::decodable(s)
    }

    open spec fn decoded_len(s: Seq<u8>) -> nat {
        T0::decoded_len(s)
    }

    open spec fn decode_err(s: Seq<u8>) -> DecodeError {
        T0::decode_err(s)
    }

    proof fn lemma_decoded_len_le(s: Seq<u8>) {
        T0::lemma_decoded_len_le(s);
    }

    proof fn lemma_encoding_decodable(&self, tail: Seq<u8>) {
        T0::lemma_encoding_decodable(&self.0, tail);
    }

    fn dep_decode(input: &[u8], pos: &mut usize) -> (r: Result<Self, DecodeError>) {
        match T0::dep_decode(input, pos) {
            Ok(v0) => Ok((v0,)),
            Err(e) => Err(e),
        }
    }
}

/// A pair decodes its elements one after the other, in declared order.
impl<T0: NestedDecode, T1: NestedDecode> NestedDecode for (T0, T1) {
    open spec fn decodable(s: Seq<u8>) -> bool {
        T0::decodable(s) && T1::decodable(s.skip(T0::decoded_len(s) as int))
    }

    open spec fn decoded_len(s: Seq<u8>) -> nat {
        T0::decoded_len(s) + T1::decoded_len(s.skip(T0::decoded_len(s) as int))
    }

    open spec fn decode_err(s: Seq<u8>) -> DecodeError {
        if !T0::decodable(s) {
            T0::decode_err(s)
        } else {
            T1::decode_err(s.skip(T0::decoded_len(s) as int))
        }
    }

    proof fn lemma_decoded_len_le(s: Seq<u8>) {
        T0::lemma_decoded_len_le(s);
        T1::lemma_decoded_len_le(s.skip(T0::decoded_len(s) as int));
    }

    proof fn lemma_encoding_decodable(&self, tail: Seq<u8>) {
        let s = self.encoding() + tail;
        let rest = self.1.encoding() + tail;
        assert(self.0.encoding() + rest =~= s);
        T0::lemma_encoding_decodable(&self.0, rest);
        assert(s.skip(T0::decoded_len(s) as int) =~= rest);
        T1::lemma_encoding_decodable(&self.1, tail);
    }

    fn dep_decode(input: &[u8], pos: &mut usize) -> (r: Result<Self, DecodeError>) {
        let ghost p0 = *old(pos) as int;
        let ghost s = input@.skip(p0);
        let v0 = match T0::dep_decode(input, pos) {
            Ok(v) => v,
            Err(e) => {
                return Err(e);
            },
        };
        let ghost p1 = *pos as int;
        proof {
            assert(input@.skip(p1) =~= s.skip(T0::decoded_len(s) as int));
        }
        let v1 = match T1::dep_decode(input, pos) {
            Ok(v) => v,
            Err(e) => {
                return Err(e);
            },
        };
        proof {
            assert(input@.subrange(p0, *pos as int) =~= input@.subrange(p0, p1) + input@.subrange(
                p1,
                *pos as int,
            ));
        }
        Ok((v0, v1))
    }
}

/// A triple decodes its elements one after the other, in declared order.
impl<T0: NestedDecode, T1: NestedDecode, T2: NestedDecode> NestedDecode for (T0, T1, T2) {
    open spec fn decodable(s: Seq<u8>) -> bool {
        let s1 = s.skip(T0::decoded_len(s) as int);
        T0::decodable(s) && T1::decodable(s1) && T2::decodable(
            s1.skip(T1::decoded_len(s1) as int),
        )
    }

    open spec fn decoded_len(s: Seq<u8>) -> nat {
        let s1 = s.skip(T0::decoded_len(s) as int);
        T0::decoded_len(s) + T1::decoded_len(s1) + T2::decoded_len(
            s1.skip(T1::decoded_len(s1) as int),
        )
    }

    open spec fn decode_err(s: Seq<u8>) -> DecodeError {
        let s1 = s.skip(T0::decoded_len(s) as int);
        if !T0::decodable(s) {
            T0::decode_err(s)
        } else if !T1::decodable(s1) {
            T1::decode_err(s1)
        } else {
            T2::decode_err(s1.skip(T1::decoded_len(s1) as int))
        }
    }

    proof fn lemma_decoded_len_le(s: Seq<u8>) {
        let s1 = s.skip(T0::decoded_len(s) as int);
        T0::lemma_decoded_len_le(s);
        T1::lemma_decoded_len_le(s1);
        T2::lemma_decoded_len_le(s1.skip(T1::decoded_len(s1) as int));
    }

    proof fn lemma_encoding_decodable(&self, tail: Seq<u8>) {
        let s = self.encoding() + tail;
        let rest1 = self.1.encoding() + (self.2.encoding() + tail);
        let rest2 = self.2.encoding() + tail;
        assert(self.0.encoding() + rest1 =~= s);
        T0::lemma_encoding_decodable(&self.0, rest1);
        let s1 = s.skip(T0::decoded_len(s) as int);
        assert(s1 =~= rest1);
        T1::lemma_encoding_decodable(&self.1, rest2);
        assert(s1.skip(T1::decoded_len(s1) as int) =~= rest2);
        T2::lemma_encoding_decodable(&self.2, tail);
    }

    fn dep_decode(input: &[u8], pos: &mut usize) -> (r: Result<Self, DecodeError>) {
        let ghost p0 = *old(pos) as int;
        let ghost s = input@.skip(p0);
        let v0 = match T0::dep_decode(input, pos) {
            Ok(v) => v,
            Err(e) => {
                return Err(e);
            },
        };
        let ghost p1 = *pos as int;
        let ghost s1 = s.skip(T0::decoded_len(s) as int);
        proof {
            assert(input@.skip(p1) =~= s1);
        }
        let v1 = match T1::dep_decode(input, pos) {
            Ok(v) => v,
            Err(e) => {
                return Err(e);
            },
        };
        let ghost p2 = *pos as int;
        proof {
            assert(input@.skip(p2) =~= s1.skip(T1::decoded_len(s1) as int));
        }
        let v2 = match T2::dep_decode(input, pos) {
            Ok(v) => v,
            Err(e) => {
                return Err(e);
            },
        };
        proof {
            assert(input@.subrange(p0, *pos as int) =~= input@.subrange(p0, p1) + input@.subrange(
                p1,
                p2,
            ) + input@.subrange(p2, *pos as int));
        }
        Ok((v0, v1, v2))
    }
}

} // verus!
