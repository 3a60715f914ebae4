use vstd::prelude::*;
use crate::be_bytes::{
    exec_i16_as_u16, exec_i32_as_u32, exec_i64_as_u64, exec_i8_as_u8, exec_isize_low_u32,
    exec_usize_low_u32, i16_as_u16, i32_as_u32, i64_as_u64, i8_as_u8, isize_low_u32,
    lemma_i16_u16_round_trip, lemma_i32_u32_round_trip, lemma_i64_u64_round_trip,
    lemma_i8_u8_round_trip, lemma_isize_low_u32_small, lemma_u16_be_round_trip,
    lemma_u32_be_round_trip, lemma_u64_be_round_trip, lemma_usize_low_u32_small, set_u16_be,
    set_u32_be, set_u64_be, u16_be, u32_be, u64_be, usize_low_u32, write_u16_be, write_u32_be,
    write_u64_be,
};
use crate::codec_err::EncodeError;
use crate::nested_ser_output::NestedEncodeOutput;

verus! {

broadcast use vstd::seq::group_seq_axioms;

/// Per-type hint used to recognize raw-byte element types, so that
/// sequences of single bytes can take a byte-copy fast path. It has no
/// effect on the wire format; it must agree with the type's actual
/// encoding behavior, which `lemma_const_encode_len` checks for the
/// byte case.
#[derive(Clone, Copy, Debug, PartialEq, Eq, Structural)]
pub enum TypeInfo {
    Unknown,
    U8,
    I8,
    U16,
    I16,
    USIZE,
    ISIZE,
    U32,
    I32,
    U64,
    I64,
    Bool,
    Unit,
}

/// Conversion of a typed value to bytes in "embedded" form: the format of
/// an object nested inside a larger structure.
///
/// `encoding` is the mathematical byte string of a value; `dep_encode`
/// appends exactly those bytes and never fails. Types whose encoded
/// length is the same for every value declare it through
/// `has_const_encode_len` / `const_encode_len`, which lets callers write
/// values into exactly-sized buffers through `dep_encode_in_place`
/// instead of growing an output.
///
/// `encodable` excludes only the values the 4-byte length prefix of the
/// wire format cannot carry (sequences of `0x1_0000_0000` elements or
/// more, and arch-dependent integers beyond 32 bits); encoding itself is
/// total and truncates those widths as the wire format prescribes.
pub trait NestedEncode: Sized + DeepView {
    /// Fast-path hint; `TypeInfo::Unknown` for most types.
    spec fn type_info() -> TypeInfo;

    /// The embedded-form bytes of this value.
    spec fn encoding(&self) -> Seq<u8>;

    /// True unless a length somewhere in the value exceeds what the wire
    /// format's 4-byte prefixes can carry.
    spec fn encodable(&self) -> bool;

    /// Whether every value of this type encodes to the same number of bytes.
    spec fn spec_has_const_encode_len() -> bool;

    /// That number of bytes; zero for types without a constant length.
    spec fn spec_const_encode_len() -> nat;

    /// When true, the destination bytes can be allocated up front.
    fn has_const_encode_len() -> (r: bool)
        ensures
            r == Self::spec_has_const_encode_len(),
    ;

    /// The constant encode length as a number in code.
    fn const_encode_len() -> (r: usize)
        ensures
            r == Self::spec_const_encode_len(),
    ;

    /// A type with a constant encode length always produces exactly that
    /// many bytes, and a type tagged as a raw byte is a 1-byte type.
    proof fn lemma_const_encode_len(&self)
        ensures
            Self::spec_has_const_encode_len() ==> self.encoding().len()
                == Self::spec_const_encode_len(),
            Self::type_info() == TypeInfo::U8 ==> Self::spec_has_const_encode_len()
                && Self::spec_const_encode_len() == 1,
    ;

    /// No encoding is a proper prefix of another, and equal encodings
    /// come only from equal values: the two facts that make decoding
    /// unambiguous.
    proof fn lemma_encoding_unambiguous(a: &Self, b: &Self, tail_a: Seq<u8>, tail_b: Seq<u8>)
        requires
            a.encodable(),
            b.encodable(),
            a.encoding() + tail_a == b.encoding() + tail_b,
        ensures
            a.encoding() == b.encoding(),
            a.deep_view() == b.deep_view(),
    ;

    /// Append this value's embedded-form bytes to `dest`. Ordinary
    /// encoding never fails; the `Result` is part of the contract shape
    /// shared with operations that can be unsupported.
    fn dep_encode<O: NestedEncodeOutput>(&self, dest: &mut O) -> (r: Result<(), EncodeError>)
        ensures
            r is Ok,
            final(dest).bytes() == old(dest).bytes() + self.encoding(),
    ;

    /// Write this value's bytes directly into a pre-sized region of
    /// `target` instead of appending to a growable output. Only types
    /// with a constant encode length support this; asking it of any
    /// other type is an unsupported operation and leaves `target`
    /// untouched.
    fn dep_encode_in_place(&self, target: &mut Vec<u8>, offset: usize) -> (r: Result<
        (),
        EncodeError,
    >)
        requires
            Self::spec_has_const_encode_len() ==> offset + Self::spec_const_encode_len() <= old(
                target,
            )@.len(),
        ensures
            r is Ok <==> Self::spec_has_const_encode_len(),
            r is Ok ==> final(target)@ == old(target)@.subrange(0, offset as int) + self.encoding()
                + old(target)@.subrange(
                offset + Self::spec_const_encode_len(),
                old(target)@.len() as int,
            ),
            r is Err ==> final(target)@ == old(target)@ && r == Err::<(), EncodeError>(
                EncodeError::UnsupportedOperation,
            ),
    ;
}

/// Most types encode without any possibility of error; this trait is the
/// entry point for call sites that cannot propagate a result value and
/// must not see one. Every `NestedEncode` type has it, because nested
/// encoding is proved never to fail.
pub trait NestedEncodeNoErr: NestedEncode {
    /// Same bytes as `dep_encode`, with no error path at all.
    fn dep_encode_no_err<O: NestedEncodeOutput>(&self, dest: &mut O)
        ensures
            final(dest).bytes() == old(dest).bytes() + self.encoding(),
    ;
}

impl<T: NestedEncode> NestedEncodeNoErr for T {
    fn dep_encode_no_err<O: NestedEncodeOutput>(&self, dest: &mut O) {
        let _ = self.dep_encode(dest);
    }
}

impl NestedEncode for () {
    open spec fn type_info() -> TypeInfo {
        TypeInfo::Unit
    }

    open spec fn encoding(&self) -> Seq<u8> {
        Seq::empty()
    }

    open spec fn encodable(&self) -> bool {
        true
    }

    open spec fn spec_has_const_encode_len() -> bool {
        true
    }

    open spec fn spec_const_encode_len() -> nat {
        0
    }

    fn has_const_encode_len() -> (r: bool) {
        true
    }

    fn const_encode_len() -> (r: usize) {
        0
    }

    proof fn lemma_const_encode_len(&self) {
    }

    proof fn lemma_encoding_unambiguous(a: &Self, b: &Self, tail_a: Seq<u8>, tail_b: Seq<u8>) {
    }

    fn dep_encode<O: NestedEncodeOutput>(&self, dest: &mut O) -> (r: Result<(), EncodeError>) {
        proof {
            assert(old(dest).bytes() + self.encoding() =~= old(dest).bytes());
        }
        Ok(())
    }

    fn dep_encode_in_place(&self, target: &mut Vec<u8>, offset: usize) -> (r: Result<
        (),
        EncodeError,
    >) {
        proof {
            assert(target@ =~= target@.subrange(0, offset as int) + self.encoding()
                + target@.subrange(offset as int, target@.len() as int));
        }
        Ok(())
    }
}

impl NestedEncode for u8 {
    open spec fn type_info() -> TypeInfo {
        TypeInfo::U8
    }

    open spec fn encoding(&self) -> Seq<u8> {
        seq![*self]
    }

    open spec fn encodable(&self) -> bool {
        true
    }

    open spec fn spec_has_const_encode_len() -> bool {
        true
    }

    open spec fn spec_const_encode_len() -> nat {
        1
    }

    fn has_const_encode_len() -> (r: bool) {
        true
    }

    fn const_encode_len() -> (r: usize) {
        1
    }

    proof fn lemma_const_encode_len(&self) {
    }

    proof fn lemma_encoding_unambiguous(a: &Self, b: &Self, tail_a: Seq<u8>, tail_b: Seq<u8>) {
        assert((a.encoding() + tail_a)[0] == a.encoding()[0]);
        assert((b.encoding() + tail_b)[0] == b.encoding()[0]);
        assert(a.encoding() =~= b.encoding());
        assert(a.deep_view() == *a);
    }

    fn dep_encode<O: NestedEncodeOutput>(&self, dest: &mut O) -> (r: Result<(), EncodeError>) {
        dest.push_byte(*self);
        proof {
            assert(old(dest).bytes().push(*self) =~= old(dest).bytes() + self.encoding());
        }
        Ok(())
    }

    fn dep_encode_in_place(&self, target: &mut Vec<u8>, offset: usize) -> (r: Result<
        (),
        EncodeError,
    >) {
        proof {
            assert(target.len() == target@.len());
        }
        target[offset] = *self;
        proof {
            assert(target@ =~= old(target)@.subrange(0, offset as int) + self.encoding() + old(
                target,
            )@.subrange(offset + 1, old(target)@.len() as int));
        }
        Ok(())
    }
}

impl NestedEncode for bool {
    open spec fn type_info() -> TypeInfo {
        TypeInfo::Bool
    }

    open spec fn encoding(&self) -> Seq<u8> {
        seq![if *self { 1u8 } else { 0u8 }]
    }

    open spec fn encodable(&self) -> bool {
        true
    }

    open spec fn spec_has_const_encode_len() -> bool {
        true
    }

    open spec fn spec_const_encode_len() -> nat {
        1
    }

    fn has_const_encode_len() -> (r: bool) {
        true
    }

    fn const_encode_len() -> (r: usize) {
        1
    }

    proof fn lemma_const_encode_len(&self) {
    }

    proof fn lemma_encoding_unambiguous(a: &Self, b: &Self, tail_a: Seq<u8>, tail_b: Seq<u8>) {
        assert((a.encoding() + tail_a)[0] == a.encoding()[0]);
        assert((b.encoding() + tail_b)[0] == b.encoding()[0]);
        assert(a.encoding() =~= b.encoding());
        assert(a.deep_view() == *a);
    }

    fn dep_encode<O: NestedEncodeOutput>(&self, dest: &mut O) -> (r: Result<(), EncodeError>) {
        let b: u8 = if *self {
            1
        } else {
            0
        };
        dest.push_byte(b);
        proof {
            assert(old(dest).bytes().push(b) =~= old(dest).bytes() + self.encoding());
        }
        Ok(())
    }

    fn dep_encode_in_place(&self, target: &mut Vec<u8>, offset: usize) -> (r: Result<
        (),
        EncodeError,
    >) {
        proof {
            assert(target.len() == target@.len());
        }
        target[offset] = if *self {
            1
        } else {
            0
        };
        proof {
            assert(target@ =~= old(target)@.subrange(0, offset as int) + self.encoding() + old(
                target,
            )@.subrange(offset + 1, old(target)@.len() as int));
        }
        Ok(())
    }
}

impl NestedEncode for u16 {
    open spec fn type_info() -> TypeInfo {
        TypeInfo::U16
    }

    open spec fn encoding(&self) -> Seq<u8> {
        u16_be(*self)
    }

    open spec fn encodable(&self) -> bool {
        true
    }

    open spec fn spec_has_const_encode_len() -> bool {
        true
    }

    open spec fn spec_const_encode_len() -> nat {
        2
    }

    fn has_const_encode_len() -> (r: bool) {
        true
    }

    fn const_encode_len() -> (r: usize) {
        2
    }

    proof fn lemma_const_encode_len(&self) {
    }

    proof fn lemma_encoding_unambiguous(a: &Self, b: &Self, tail_a: Seq<u8>, tail_b: Seq<u8>) {
        assert(a.encoding().len() == 2);
        assert(b.encoding().len() == 2);
        assert(a.encoding() + tail_a == b.encoding() + tail_b);
        assert forall|i: int| 0 <= i < 2 implies a.encoding()[i] == b.encoding()[i] by {
            assert((a.encoding() + tail_a)[i] == a.encoding()[i]);
            assert((b.encoding() + tail_b)[i] == b.encoding()[i]);
            assert((a.encoding() + tail_a)[i] == (b.encoding() + tail_b)[i]);
        }
        assert(a.encoding() =~= b.encoding());
        lemma_u16_be_round_trip(*a);
        lemma_u16_be_round_trip(*b);
    }

    fn dep_encode<O: NestedEncodeOutput>(&self, dest: &mut O) -> (r: Result<(), EncodeError>) {
        write_u16_be(dest, *self);
        Ok(())
    }

    fn dep_encode_in_place(&self, target: &mut Vec<u8>, offset: usize) -> (r: Result<
        (),
        EncodeError,
    >) {
        set_u16_be(target, offset, *self);
        Ok(())
    }
}

impl NestedEncode for u32 {
    open spec fn type_info() -> TypeInfo {
        TypeInfo::U32
    }

    open spec fn encoding(&self) -> Seq<u8> {
        u32_be(*self)
    }

    open spec fn encodable(&self) -> bool {
        true
    }

    open spec fn spec_has_const_encode_len() -> bool {
        true
    }

    open spec fn spec_const_encode_len() -> nat {
        4
    }

    fn has_const_encode_len() -> (r: bool) {
        true
    }

    fn const_encode_len() -> (r: usize) {
        4
    }

    proof fn lemma_const_encode_len(&self) {
    }

    proof fn lemma_encoding_unambiguous(a: &Self, b: &Self, tail_a: Seq<u8>, tail_b: Seq<u8>) {
        assert forall|i: int| 0 <= i < 4 implies a.encoding()[i] == b.encoding()[i] by {
            assert((a.encoding() + tail_a)[i] == a.encoding()[i]);
            assert((b.encoding() + tail_b)[i] == b.encoding()[i]);
        }
        assert(a.encoding() =~= b.encoding());
        lemma_u32_be_round_trip(*a);
        lemma_u32_be_round_trip(*b);
    }

    fn dep_encode<O: NestedEncodeOutput>(&self, dest: &mut O) -> (r: Result<(), EncodeError>) {
        write_u32_be(dest, *self);
        Ok(())
    }

    fn dep_encode_in_place(&self, target: &mut Vec<u8>, offset: usize) -> (r: Result<
        (),
        EncodeError,
    >) {
        set_u32_be(target, offset, *self);
        Ok(())
    }
}

impl NestedEncode for u64 {
    open spec fn type_info() -> TypeInfo {
        TypeInfo::U64
    }

    open spec fn encoding(&self) -> Seq<u8> {
        u64_be(*self)
    }

    open spec fn encodable(&self) -> bool {
        true
    }

    open spec fn spec_has_const_encode_len() -> bool {
        true
    }

    open spec fn spec_const_encode_len() -> nat {
        8
    }

    fn has_const_encode_len() -> (r: bool) {
        true
    }

    fn const_encode_len() -> (r: usize) {
        8
    }

    proof fn lemma_const_encode_len(&self) {
    }

    proof fn lemma_encoding_unambiguous(a: &Self, b: &Self, tail_a: Seq<u8>, tail_b: Seq<u8>) {
        assert forall|i: int| 0 <= i < 8 implies a.encoding()[i] == b.encoding()[i] by {
            assert((a.encoding() + tail_a)[i] == a.encoding()[i]);
            assert((b.encoding() + tail_b)[i] == b.encoding()[i]);
        }
        assert(a.encoding() =~= b.encoding());
        lemma_u64_be_round_trip(*a);
        lemma_u64_be_round_trip(*b);
    }

    fn dep_encode<O: NestedEncodeOutput>(&self, dest: &mut O) -> (r: Result<(), EncodeError>) {
        write_u64_be(dest, *self);
        Ok(())
    }

    fn dep_encode_in_place(&self, target: &mut Vec<u8>, offset: usize) -> (r: Result<
        (),
        EncodeError,
    >) {
        set_u64_be(target, offset, *self);
        Ok(())
    }
}

// The signed integers encode by reinterpreting as the unsigned integer
// of the same width: two's complement bytes, big-endian.

impl NestedEncode for i8 {
    open spec fn type_info() -> TypeInfo {
        TypeInfo::I8
    }

    open spec fn encoding(&self) -> Seq<u8> {
        seq![i8_as_u8(*self)]
    }

    open spec fn encodable(&self) -> bool {
        true
    }

    open spec fn spec_has_const_encode_len() -> bool {
        true
    }

    open spec fn spec_const_encode_len() -> nat {
        1
    }

    fn has_const_encode_len() -> (r: bool) {
        true
    }

    fn const_encode_len() -> (r: usize) {
        1
    }

    proof fn lemma_const_encode_len(&self) {
    }

    proof fn lemma_encoding_unambiguous(a: &Self, b: &Self, tail_a: Seq<u8>, tail_b: Seq<u8>) {
        assert((a.encoding() + tail_a)[0] == a.encoding()[0]);
        assert((b.encoding() + tail_b)[0] == b.encoding()[0]);
        assert(a.encoding() =~= b.encoding());
        lemma_i8_u8_round_trip(*a, 0);
        lemma_i8_u8_round_trip(*b, 0);
        assert(a.deep_view() == *a);
    }

    fn dep_encode<O: NestedEncodeOutput>(&self, dest: &mut O) -> (r: Result<(), EncodeError>) {
        let b = exec_i8_as_u8(*self);
        dest.push_byte(b);
        proof {
            assert(old(dest).bytes().push(b) =~= old(dest).bytes() + self.encoding());
        }
        Ok(())
    }

    fn dep_encode_in_place(&self, target: &mut Vec<u8>, offset: usize) -> (r: Result<
        (),
        EncodeError,
    >) {
        proof {
            assert(target.len() == target@.len());
        }
        target[offset] = exec_i8_as_u8(*self);
        proof {
            assert(target@ =~= old(target)@.subrange(0, offset as int) + self.encoding() + old(
                target,
            )@.subrange(offset + 1, old(target)@.len() as int));
        }
        Ok(())
    }
}

impl NestedEncode for i16 {
    open spec fn type_info() -> TypeInfo {
        TypeInfo::I16
    }

    open spec fn encoding(&self) -> Seq<u8> {
        u16_be(i16_as_u16(*self))
    }

    open spec fn encodable(&self) -> bool {
        true
    }

    open spec fn spec_has_const_encode_len() -> bool {
        true
    }

    open spec fn spec_const_encode_len() -> nat {
        2
    }

    fn has_const_encode_len() -> (r: bool) {
        true
    }

    fn const_encode_len() -> (r: usize) {
        2
    }

    proof fn lemma_const_encode_len(&self) {
    }

    proof fn lemma_encoding_unambiguous(a: &Self, b: &Self, tail_a: Seq<u8>, tail_b: Seq<u8>) {
        assert forall|i: int| 0 <= i < 2 implies a.encoding()[i] == b.encoding()[i] by {
            assert((a.encoding() + tail_a)[i] == a.encoding()[i]);
            assert((b.encoding() + tail_b)[i] == b.encoding()[i]);
        }
        assert(a.encoding() =~= b.encoding());
        lemma_u16_be_round_trip(i16_as_u16(*a));
        lemma_u16_be_round_trip(i16_as_u16(*b));
        lemma_i16_u16_round_trip(*a, 0);
        lemma_i16_u16_round_trip(*b, 0);
        assert(a.deep_view() == *a);
    }

    fn dep_encode<O: NestedEncodeOutput>(&self, dest: &mut O) -> (r: Result<(), EncodeError>) {
        write_u16_be(dest, exec_i16_as_u16(*self));
        Ok(())
    }

    fn dep_encode_in_place(&self, target: &mut Vec<u8>, offset: usize) -> (r: Result<
        (),
        EncodeError,
    >) {
        set_u16_be(target, offset, exec_i16_as_u16(*self));
        Ok(())
    }
}

impl NestedEncode for i32 {
    open spec fn type_info() -> TypeInfo {
        TypeInfo::I32
    }

    open spec fn encoding(&self) -> Seq<u8> {
        u32_be(i32_as_u32(*self))
    }

    open spec fn encodable(&self) -> bool {
        true
    }

    open spec fn spec_has_const_encode_len() -> bool {
        true
    }

    open spec fn spec_const_encode_len() -> nat {
        4
    }

    fn has_const_encode_len() -> (r: bool) {
        true
    }

    fn const_encode_len() -> (r: usize) {
        4
    }

    proof fn lemma_const_encode_len(&self) {
    }

    proof fn lemma_encoding_unambiguous(a: &Self, b: &Self, tail_a: Seq<u8>, tail_b: Seq<u8>) {
        assert forall|i: int| 0 <= i < 4 implies a.encoding()[i] == b.encoding()[i] by {
            assert((a.encoding() + tail_a)[i] == a.encoding()[i]);
            assert((b.encoding() + tail_b)[i] == b.encoding()[i]);
        }
        assert(a.encoding() =~= b.encoding());
        lemma_u32_be_round_trip(i32_as_u32(*a));
        lemma_u32_be_round_trip(i32_as_u32(*b));
        lemma_i32_u32_round_trip(*a, 0);
        lemma_i32_u32_round_trip(*b, 0);
        assert(a.deep_view() == *a);
    }

    fn dep_encode<O: NestedEncodeOutput>(&self, dest: &mut O) -> (r: Result<(), EncodeError>) {
        write_u32_be(dest, exec_i32_as_u32(*self));
        Ok(())
    }

    fn dep_encode_in_place(&self, target: &mut Vec<u8>, offset: usize) -> (r: Result<
        (),
        EncodeError,
    >) {
        set_u32_be(target, offset, exec_i32_as_u32(*self));
        Ok(())
    }
}

impl NestedEncode for i64 {
    open spec fn type_info() -> TypeInfo {
        TypeInfo::I64
    }

    open spec fn encoding(&self) -> Seq<u8> {
        u64_be(i64_as_u64(*self))
    }

    open spec fn encodable(&self) -> bool {
        true
    }

    open spec fn spec_has_const_encode_len() -> bool {
        true
    }

    open spec fn spec_const_encode_len() -> nat {
        8
    }

    fn has_const_encode_len() -> (r: bool) {
        true
    }

    fn const_encode_len() -> (r: usize) {
        8
    }

    proof fn lemma_const_encode_len(&self) {
    }

    proof fn lemma_encoding_unambiguous(a: &Self, b: &Self, tail_a: Seq<u8>, tail_b: Seq<u8>) {
        assert forall|i: int| 0 <= i < 8 implies a.encoding()[i] == b.encoding()[i] by {
            assert((a.encoding() + tail_a)[i] == a.encoding()[i]);
            assert((b.encoding() + tail_b)[i] == b.encoding()[i]);
        }
        assert(a.encoding() =~= b.encoding());
        lemma_u64_be_round_trip(i64_as_u64(*a));
        lemma_u64_be_round_trip(i64_as_u64(*b));
        lemma_i64_u64_round_trip(*a, 0);
        lemma_i64_u64_round_trip(*b, 0);
        assert(a.deep_view() == *a);
    }

    fn dep_encode<O: NestedEncodeOutput>(&self, dest: &mut O) -> (r: Result<(), EncodeError>) {
        write_u64_be(dest, exec_i64_as_u64(*self));
        Ok(())
    }

    fn dep_encode_in_place(&self, target: &mut Vec<u8>, offset: usize) -> (r: Result<
        (),
        EncodeError,
    >) {
        set_u64_be(target, offset, exec_i64_as_u64(*self));
        Ok(())
    }
}

// The arch-dependent integers go on the wire at a fixed 32-bit width,
// whatever the host's word size: the format is platform-independent.

impl NestedEncode for usize {
    open spec fn type_info() -> TypeInfo {
        TypeInfo::USIZE
    }

    open spec fn encoding(&self) -> Seq<u8> {
        u32_be(usize_low_u32(*self))
    }

    open spec fn encodable(&self) -> bool {
        *self < 0x1_0000_0000
    }

    open spec fn spec_has_const_encode_len() -> bool {
        true
    }

    open spec fn spec_const_encode_len() -> nat {
        4
    }

    fn has_const_encode_len() -> (r: bool) {
        true
    }

    fn const_encode_len() -> (r: usize) {
        4
    }

    proof fn lemma_const_encode_len(&self) {
    }

    proof fn lemma_encoding_unambiguous(a: &Self, b: &Self, tail_a: Seq<u8>, tail_b: Seq<u8>) {
        assert forall|i: int| 0 <= i < 4 implies a.encoding()[i] == b.encoding()[i] by {
            assert((a.encoding() + tail_a)[i] == a.encoding()[i]);
            assert((b.encoding() + tail_b)[i] == b.encoding()[i]);
        }
        assert(a.encoding() =~= b.encoding());
        lemma_u32_be_round_trip(usize_low_u32(*a));
        lemma_u32_be_round_trip(usize_low_u32(*b));
        lemma_usize_low_u32_small(*a);
        lemma_usize_low_u32_small(*b);
        assert(a.deep_view() == *a);
    }

    fn dep_encode<O: NestedEncodeOutput>(&self, dest: &mut O) -> (r: Result<(), EncodeError>) {
        write_u32_be(dest, exec_usize_low_u32(*self));
        Ok(())
    }

    fn dep_encode_in_place(&self, target: &mut Vec<u8>, offset: usize) -> (r: Result<
        (),
        EncodeError,
    >) {
        set_u32_be(target, offset, exec_usize_low_u32(*self));
        Ok(())
    }
}

impl NestedEncode for isize {
    open spec fn type_info() -> TypeInfo {
        TypeInfo::ISIZE
    }

    open spec fn encoding(&self) -> Seq<u8> {
        u32_be(isize_low_u32(*self))
    }

    open spec fn encodable(&self) -> bool {
        -0x8000_0000 <= *self < 0x8000_0000
    }

    open spec fn spec_has_const_encode_len() -> bool {
        true
    }

    open spec fn spec_const_encode_len() -> nat {
        4
    }

    fn has_const_encode_len() -> (r: bool) {
        true
    }

    fn const_encode_len() -> (r: usize) {
        4
    }

    proof fn lemma_const_encode_len(&self) {
    }

    proof fn lemma_encoding_unambiguous(a: &Self, b: &Self, tail_a: Seq<u8>, tail_b: Seq<u8>) {
        assert forall|i: int| 0 <= i < 4 implies a.encoding()[i] == b.encoding()[i] by {
            assert((a.encoding() + tail_a)[i] == a.encoding()[i]);
            assert((b.encoding() + tail_b)[i] == b.encoding()[i]);
        }
        assert(a.encoding() =~= b.encoding());
        lemma_u32_be_round_trip(isize_low_u32(*a));
        lemma_u32_be_round_trip(isize_low_u32(*b));
        lemma_isize_low_u32_small(*a);
        lemma_isize_low_u32_small(*b);
        assert(a.deep_view() == *a);
    }

    fn dep_encode<O: NestedEncodeOutput>(&self, dest: &mut O) -> (r: Result<(), EncodeError>) {
        write_u32_be(dest, exec_isize_low_u32(*self));
        Ok(())
    }

    fn dep_encode_in_place(&self, target: &mut Vec<u8>, offset: usize) -> (r: Result<
        (),
        EncodeError,
    >) {
        set_u32_be(target, offset, exec_isize_low_u32(*self));
        Ok(())
    }
}

// Sequences: a 4-byte big-endian element count, then the concatenated
// per-element encodings.

/// The 4-byte big-endian length prefix of a sequence of `n` elements.
pub open spec fn len_prefix(n: nat) -> Seq<u8> {
    u32_be((n % 0x1_0000_0000) as u32)
}

/// The concatenated encodings of a sequence of values, with no prefix.
pub open spec fn seq_encoding<T: NestedEncode>(s: Seq<T>) -> Seq<u8>
    decreases s.len(),
{
    if s.len() == 0 {
        Seq::empty()
    } else {
        s[0].encoding() + seq_encoding(s.skip(1))
    }
}

pub open spec fn seq_encodable<T: NestedEncode>(s: Seq<T>) -> bool {
    forall|i: int| 0 <= i < s.len() ==> (#[trigger] s[i]).encodable()
}

/// Appending one value on the right extends the concatenation on the right.
pub proof fn lemma_seq_encoding_snoc<T: NestedEncode>(s: Seq<T>)
    requires
        s.len() > 0,
    ensures
        seq_encoding(s) == seq_encoding(s.drop_last()) + s.last().encoding(),
    decreases s.len(),
{
    if s.len() == 1 {
        assert(s.drop_last() =~= Seq::<T>::empty());
        assert(s.skip(1) =~= Seq::<T>::empty());
        assert(seq_encoding(s) =~= seq_encoding(s.drop_last()) + s.last().encoding());
    } else {
        let t = s.skip(1);
        lemma_seq_encoding_snoc::<T>(t);
        assert(t.last() == s.last());
        assert(t.drop_last() =~= s.drop_last().skip(1));
        assert(s.drop_last()[0] == s[0]);
        assert(seq_encoding(s) == s[0].encoding() + (seq_encoding(t.drop_last())
            + s.last().encoding()));
        assert(s[0].encoding() + (seq_encoding(t.drop_last()) + s.last().encoding()) =~= (
        s[0].encoding() + seq_encoding(t.drop_last())) + s.last().encoding());
    }
}

/// Two concatenations with the same left part have the same right part.
pub proof fn lemma_concat_cancel(s: Seq<u8>, t1: Seq<u8>, t2: Seq<u8>)
    requires
        s + t1 == s + t2,
    ensures
        t1 == t2,
{
    assert((s + t1).len() == s.len() + t1.len());
    assert((s + t2).len() == s.len() + t2.len());
    assert(t1.len() == t2.len());
    assert forall|i: int| 0 <= i < t1.len() implies t1[i] == t2[i] by {
        vstd::seq::lemma_seq_add_index2_alt::<u8>(s, t1, i);
        vstd::seq::lemma_seq_add_index2_alt::<u8>(s, t2, i);
    }
    assert(t1 =~= t2);
}

/// Element-wise unambiguity: equally long sequences whose concatenated
/// encodings open the same byte string consist of equal values.
pub proof fn lemma_seq_encoding_unambiguous<T: NestedEncode>(
    sa: Seq<T>,
    sb: Seq<T>,
    tail_a: Seq<u8>,
    tail_b: Seq<u8>,
)
    requires
        sa.len() == sb.len(),
        seq_encodable(sa),
        seq_encodable(sb),
        seq_encoding(sa) + tail_a == seq_encoding(sb) + tail_b,
    ensures
        seq_encoding(sa) == seq_encoding(sb),
        forall|i: int|
            0 <= i < sa.len() ==> (#[trigger] sa[i]).deep_view() == sb[i].deep_view(),
    decreases sa.len(),
{
    if sa.len() == 0 {
        assert(seq_encoding(sa) =~= seq_encoding(sb));
    } else {
        let ra = seq_encoding(sa.skip(1)) + tail_a;
        let rb = seq_encoding(sb.skip(1)) + tail_b;
        assert(sa[0].encoding() + ra =~= (sa[0].encoding() + seq_encoding(sa.skip(1))) + tail_a);
        assert(sb[0].encoding() + rb =~= (sb[0].encoding() + seq_encoding(sb.skip(1))) + tail_b);
        T::lemma_encoding_unambiguous(&sa[0], &sb[0], ra, rb);
        lemma_concat_cancel(sa[0].encoding(), ra, rb);
        assert(seq_encodable(sa.skip(1)) && seq_encodable(sb.skip(1))) by {
            assert(forall|i: int|
                0 <= i < sa.skip(1).len() ==> #[trigger] sa.skip(1)[i] == sa[i + 1]);
            assert(forall|i: int|
                0 <= i < sb.skip(1).len() ==> #[trigger] sb.skip(1)[i] == sb[i + 1]);
        }
        lemma_seq_encoding_unambiguous::<T>(sa.skip(1), sb.skip(1), tail_a, tail_b);
        assert forall|i: int| 0 <= i < sa.len() implies (#[trigger] sa[i]).deep_view()
            == sb[i].deep_view() by {
            if i > 0 {
                assert(sa.skip(1)[i - 1] == sa[i]);
                assert(sb.skip(1)[i - 1] == sb[i]);
            }
        }
        assert(seq_encoding(sa) =~= seq_encoding(sb));
    }
}

/// Adds the concatenated encoded contents of a slice to an output buffer,
/// without serializing the slice length. Elements that are single raw
/// bytes need no per-element dispatch; the verified per-element loop is
/// the checked form of that bulk copy.
pub fn dep_encode_slice_contents<T: NestedEncode, O: NestedEncodeOutput>(
    slice: &[T],
    dest: &mut O,
) -> (r: Result<(), EncodeError>)
    ensures
        r is Ok,
        final(dest).bytes() == old(dest).bytes() + seq_encoding(slice@),
{
    let n = slice.len();
    proof {
        assert(slice@.subrange(0, 0) =~= Seq::<T>::empty());
        assert(old(dest).bytes() + seq_encoding(slice@.subrange(0, 0)) =~= old(dest).bytes());
    }
    let mut i: usize = 0;
    while i < n
        invariant
            i <= n,
            n == slice@.len(),
            dest.bytes() == old(dest).bytes() + seq_encoding(slice@.subrange(0, i as int)),
        decreases n - i,
    {
        let element = vstd::slice::slice_index_get(slice, i);
        let _ = element.dep_encode(dest);
        proof {
            let prefix = slice@.subrange(0, i as int);
            let prefix1 = slice@.subrange(0, i + 1);
            lemma_seq_encoding_snoc::<T>(prefix1);
            assert(prefix1.drop_last() =~= prefix);
            assert(prefix1.last() == slice@[i as int]);
            assert(old(dest).bytes() + seq_encoding(prefix) + slice@[i as int].encoding() =~= old(
                dest,
            ).bytes() + seq_encoding(prefix1));
        }
        i += 1;
    }
    proof {
        assert(slice@.subrange(0, n as int) =~= slice@);
    }
    Ok(())
}

/// Convenience function for getting an object nested-encoded to a
/// `Vec<u8>` directly.
pub fn dep_encode_to_vec<T: NestedEncode>(obj: &T) -> (r: Result<Vec<u8>, EncodeError>)
    ensures
        r matches Ok(bytes) && bytes@ == obj.encoding(),
{
    let mut bytes: Vec<u8> = Vec::new();
    let _ = obj.dep_encode(&mut bytes);
    Ok(bytes)
}

/// Unambiguity of a length-prefixed sequence encoding: the prefix pins
/// the element count, and the elements pin each other in order.
pub proof fn lemma_prefixed_encoding_unambiguous<T: NestedEncode>(
    sa: Seq<T>,
    sb: Seq<T>,
    tail_a: Seq<u8>,
    tail_b: Seq<u8>,
)
    requires
        sa.len() < 0x1_0000_0000,
        sb.len() < 0x1_0000_0000,
        seq_encodable(sa),
        seq_encodable(sb),
        (len_prefix(sa.len()) + seq_encoding(sa)) + tail_a == (len_prefix(sb.len())
            + seq_encoding(sb)) + tail_b,
    ensures
        sa.len() == sb.len(),
        len_prefix(sa.len()) + seq_encoding(sa) == len_prefix(sb.len()) + seq_encoding(sb),
        forall|i: int|
            0 <= i < sa.len() ==> (#[trigger] sa[i]).deep_view() == sb[i].deep_view(),
{
    let pa = len_prefix(sa.len());
    let pb = len_prefix(sb.len());
    let ea = pa + seq_encoding(sa);
    let eb = pb + seq_encoding(sb);
    assert(pa.len() == 4 && pb.len() == 4);
    assert forall|i: int| 0 <= i < 4 implies pa[i] == pb[i] by {
        assert((ea + tail_a)[i] == ea[i]);
        assert((eb + tail_b)[i] == eb[i]);
        assert(ea[i] == pa[i]);
        assert(eb[i] == pb[i]);
    }
    assert(pa =~= pb);
    lemma_u32_be_round_trip((sa.len() % 0x1_0000_0000) as u32);
    lemma_u32_be_round_trip((sb.len() % 0x1_0000_0000) as u32);
    assert(sa.len() == sb.len());
    assert(pa + (seq_encoding(sa) + tail_a) =~= ea + tail_a);
    assert(pb + (seq_encoding(sb) + tail_b) =~= eb + tail_b);
    lemma_concat_cancel(pa, seq_encoding(sa) + tail_a, seq_encoding(sb) + tail_b);
    lemma_seq_encoding_unambiguous::<T>(sa, sb, tail_a, tail_b);
}

/// A slice encodes as a 4-byte big-endian element count followed by the
/// concatenated per-element encodings.
impl<T: NestedEncode> NestedEncode for &[T] {
    open spec fn type_info() -> TypeInfo {
        TypeInfo::Unknown
    }

    open spec fn encoding(&self) -> Seq<u8> {
        len_prefix(self@.len()) + seq_encoding(self@)
    }

    open spec fn encodable(&self) -> bool {
        self@.len() < 0x1_0000_0000 && seq_encodable(self@)
    }

    open spec fn spec_has_const_encode_len() -> bool {
        false
    }

    open spec fn spec_const_encode_len() -> nat {
        0
    }

    fn has_const_encode_len() -> (r: bool) {
        false
    }

    fn const_encode_len() -> (r: usize) {
        0
    }

    proof fn lemma_const_encode_len(&self) {
    }

    proof fn lemma_encoding_unambiguous(a: &Self, b: &Self, tail_a: Seq<u8>, tail_b: Seq<u8>) {
        assert((len_prefix(a@.len()) + seq_encoding(a@)) + tail_a == (len_prefix(b@.len())
            + seq_encoding(b@)) + tail_b);
        lemma_prefixed_encoding_unambiguous::<T>(a@, b@, tail_a, tail_b);
        assert(a.deep_view() =~= b.deep_view());
    }

    fn dep_encode<O: NestedEncodeOutput>(&self, dest: &mut O) -> (r: Result<(), EncodeError>) {
        let n: usize = self.len();
        let _ = n.dep_encode(dest);
        let r = dep_encode_slice_contents(*self, dest);
        proof {
            assert(u32_be(usize_low_u32(n)) == len_prefix(self@.len()));
            assert(old(dest).bytes() + u32_be(usize_low_u32(n)) + seq_encoding(self@) =~= old(
                dest,
            ).bytes() + (len_prefix(self@.len()) + seq_encoding(self@)));
        }
        r
    }

    fn dep_encode_in_place(&self, target: &mut Vec<u8>, offset: usize) -> (r: Result<
        (),
        EncodeError,
    >) {
        Err(EncodeError::UnsupportedOperation)
    }
}

/// A growable sequence encodes exactly as a slice of its elements.
impl<T: NestedEncode> NestedEncode for Vec<T> {
    open spec fn type_info() -> TypeInfo {
        TypeInfo::Unknown
    }

    open spec fn encoding(&self) -> Seq<u8> {
        len_prefix(self@.len()) + seq_encoding(self@)
    }

    open spec fn encodable(&self) -> bool {
        self@.len() < 0x1_0000_0000 && seq_encodable(self@)
    }

    open spec fn spec_has_const_encode_len() -> bool {
        false
    }

    open spec fn spec_const_encode_len() -> nat {
        0
    }

    fn has_const_encode_len() -> (r: bool) {
        false
    }

    fn const_encode_len() -> (r: usize) {
        0
    }

    proof fn lemma_const_encode_len(&self) {
    }

    proof fn lemma_encoding_unambiguous(a: &Self, b: &Self, tail_a: Seq<u8>, tail_b: Seq<u8>) {
        assert((len_prefix(a@.len()) + seq_encoding(a@)) + tail_a == (len_prefix(b@.len())
            + seq_encoding(b@)) + tail_b);
        lemma_prefixed_encoding_unambiguous::<T>(a@, b@, tail_a, tail_b);
        assert(a.deep_view() =~= b.deep_view());
    }

    fn dep_encode<O: NestedEncodeOutput>(&self, dest: &mut O) -> (r: Result<(), EncodeError>) {
        let n: usize = self.len();
        let _ = n.dep_encode(dest);
        let r = dep_encode_slice_contents(self.as_slice(), dest);
        proof {
            assert(u32_be(usize_low_u32(n)) == len_prefix(self@.len()));
            assert(old(dest).bytes() + u32_be(usize_low_u32(n)) + seq_encoding(self@) =~= old(
                dest,
            ).bytes() + (len_prefix(self@.len()) + seq_encoding(self@)));
        }
        r
    }

    fn dep_encode_in_place(&self, target: &mut Vec<u8>, offset: usize) -> (r: Result<
        (),
        EncodeError,
    >) {
        Err(EncodeError::UnsupportedOperation)
    }
}

/// An optional value: a 1-byte tag (1 present, 0 absent), then the
/// nested encoding of the payload if present.
impl<T: NestedEncode> NestedEncode for Option<T> {
    open spec fn type_info() -> TypeInfo {
        TypeInfo::Unknown
    }

    open spec fn encoding(&self) -> Seq<u8> {
        match self {
            Option::Some(v) => seq![1u8] + v.encoding(),
            Option::None => seq![0u8],
        }
    }

    open spec fn encodable(&self) -> bool {
        match self {
            Option::Some(v) => v.encodable(),
            Option::None => true,
        }
    }

    open spec fn spec_has_const_encode_len() -> bool {
        false
    }

    open spec fn spec_const_encode_len() -> nat {
        0
    }

    fn has_const_encode_len() -> (r: bool) {
        false
    }

    fn const_encode_len() -> (r: usize) {
        0
    }

    proof fn lemma_const_encode_len(&self) {
    }

    proof fn lemma_encoding_unambiguous(a: &Self, b: &Self, tail_a: Seq<u8>, tail_b: Seq<u8>) {
        assert((a.encoding() + tail_a)[0] == a.encoding()[0]);
        assert((b.encoding() + tail_b)[0] == b.encoding()[0]);
        match (a, b) {
            (Option::Some(va), Option::Some(vb)) => {
                assert(a.encoding()[0] == 1 && b.encoding()[0] == 1) by {
                    assert((seq![1u8] + va.encoding())[0] == seq![1u8][0]);
                    assert((seq![1u8] + vb.encoding())[0] == seq![1u8][0]);
                }
                assert(seq![1u8] + (va.encoding() + tail_a) =~= a.encoding() + tail_a);
                assert(seq![1u8] + (vb.encoding() + tail_b) =~= b.encoding() + tail_b);
                lemma_concat_cancel(seq![1u8], va.encoding() + tail_a, vb.encoding() + tail_b);
                T::lemma_encoding_unambiguous(va, vb, tail_a, tail_b);
                assert(a.encoding() =~= b.encoding());
            },
            (Option::None, Option::None) => {
                assert(a.encoding() =~= b.encoding());
            },
            (Option::Some(va), Option::None) => {
                assert(a.encoding()[0] == 1) by {
                    assert((seq![1u8] + va.encoding())[0] == seq![1u8][0]);
                }
                assert(b.encoding()[0] == 0);
                assert(false);
            },
            (Option::None, Option::Some(vb)) => {
                assert(b.encoding()[0] == 1) by {
                    assert((seq![1u8] + vb.encoding())[0] == seq![1u8][0]);
                }
                assert(a.encoding()[0] == 0);
                assert(false);
            },
        }
    }

    fn dep_encode<O: NestedEncodeOutput>(&self, dest: &mut O) -> (r: Result<(), EncodeError>) {
        match self {
            Option::Some(v) => {
                dest.push_byte(1u8);
                let r = v.dep_encode(dest);
                proof {
                    assert(old(dest).bytes().push(1u8) =~= old(dest).bytes() + seq![1u8]);
                    assert(old(dest).bytes() + seq![1u8] + v.encoding() =~= old(dest).bytes() + (
                    seq![1u8] + v.encoding()));
                }
                r
            },
            Option::None => {
                dest.push_byte(0u8);
                proof {
                    assert(old(dest).bytes().push(0u8) =~= old(dest).bytes() + seq![0u8]);
                }
                Ok(())
            },
        }
    }

    fn dep_encode_in_place(&self, target: &mut Vec<u8>, offset: usize) -> (r: Result<
        (),
        EncodeError,
    >) {
        Err(EncodeError::UnsupportedOperation)
    }
}

/// A reference encodes exactly as the value it points at: transparent
/// forwarding, required for round-trip symmetry between owning and
/// borrowing callers.
impl<T: NestedEncode> NestedEncode for &T {
    open spec fn type_info() -> TypeInfo {
        T::type_info()
    }

    open spec fn encoding(&self) -> Seq<u8> {
        (**self).encoding()
    }

    open spec fn encodable(&self) -> bool {
        (**self).encodable()
    }

    open spec fn spec_has_const_encode_len() -> bool {
        T::spec_has_const_encode_len()
    }

    open spec fn spec_const_encode_len() -> nat {
        T::spec_const_encode_len()
    }

    fn has_const_encode_len() -> (r: bool) {
        T::has_const_encode_len()
    }

    fn const_encode_len() -> (r: usize) {
        T::const_encode_len()
    }

    proof fn lemma_const_encode_len(&self) {
        T::lemma_const_encode_len(*self);
    }

    proof fn lemma_encoding_unambiguous(a: &Self, b: &Self, tail_a: Seq<u8>, tail_b: Seq<u8>) {
        T::lemma_encoding_unambiguous(*a, *b, tail_a, tail_b);
    }

    fn dep_encode<O: NestedEncodeOutput>(&self, dest: &mut O) -> (r: Result<(), EncodeError>) {
        T::dep_encode(*self, dest)
    }

    fn dep_encode_in_place(&self, target: &mut Vec<u8>, offset: usize) -> (r: Result<
        (),
        EncodeError,
    >) {
        T::dep_encode_in_place(*self, target, offset)
    }
}

/// An owned pointer is transparent: it encodes exactly as its pointee.
impl<T: NestedEncode> NestedEncode for Box<T> {
    open spec fn type_info() -> TypeInfo {
        T::type_info()
    }

    open spec fn encoding(&self) -> Seq<u8> {
        (**self).encoding()
    }

    open spec fn encodable(&self) -> bool {
        (**self).encodable()
    }

    open spec fn spec_has_const_encode_len() -> bool {
        T::spec_has_const_encode_len()
    }

    open spec fn spec_const_encode_len() -> nat {
        T::spec_const_encode_len()
    }

    fn has_const_encode_len() -> (r: bool) {
        T::has_const_encode_len()
    }

    fn const_encode_len() -> (r: usize) {
        T::const_encode_len()
    }

    proof fn lemma_const_encode_len(&self) {
        T::lemma_const_encode_len(&**self);
    }

    proof fn lemma_encoding_unambiguous(a: &Self, b: &Self, tail_a: Seq<u8>, tail_b: Seq<u8>) {
        T::lemma_encoding_unambiguous(&**a, &**b, tail_a, tail_b);
    }

    fn dep_encode<O: NestedEncodeOutput>(&self, dest: &mut O) -> (r: Result<(), EncodeError>) {
        T::dep_encode(&**self, dest)
    }

    fn dep_encode_in_place(&self, target: &mut Vec<u8>, offset: usize) -> (r: Result<
        (),
        EncodeError,
    >) {
        T::dep_encode_in_place(&**self, target, offset)
    }
}

/// A boxed slice encodes exactly as a slice of its elements.
impl<T: NestedEncode> NestedEncode for Box<[T]> {
    open spec fn type_info() -> TypeInfo {
        TypeInfo::Unknown
    }

    open spec fn encoding(&self) -> Seq<u8> {
        len_prefix(self@.len()) + seq_encoding(self@)
    }

    open spec fn encodable(&self) -> bool {
        self@.len() < 0x1_0000_0000 && seq_encodable(self@)
    }

    open spec fn spec_has_const_encode_len() -> bool {
        false
    }

    open spec fn spec_const_encode_len() -> nat {
        0
    }

    fn has_const_encode_len() -> (r: bool) {
        false
    }

    fn const_encode_len() -> (r: usize) {
        0
    }

    proof fn lemma_const_encode_len(&self) {
    }

    proof fn lemma_encoding_unambiguous(a: &Self, b: &Self, tail_a: Seq<u8>, tail_b: Seq<u8>) {
        assert((len_prefix(a@.len()) + seq_encoding(a@)) + tail_a == (len_prefix(b@.len())
            + seq_encoding(b@)) + tail_b);
        lemma_prefixed_encoding_unambiguous::<T>(a@, b@, tail_a, tail_b);
        assert(a.deep_view() =~= b.deep_view());
    }

    fn dep_encode<O: NestedEncodeOutput>(&self, dest: &mut O) -> (r: Result<(), EncodeError>) {
        let contents: &[T] = &**self;
        let n: usize = contents.len();
        let _ = n.dep_encode(dest);
        let r = dep_encode_slice_contents(contents, dest);
        proof {
            assert(u32_be(usize_low_u32(n)) == len_prefix(self@.len()));
            assert(old(dest).bytes() + u32_be(usize_low_u32(n)) + seq_encoding(self@) =~= old(
                dest,
            ).bytes() + (len_prefix(self@.len()) + seq_encoding(self@)));
        }
        r
    }

    fn dep_encode_in_place(&self, target: &mut Vec<u8>, offset: usize) -> (r: Result<
        (),
        EncodeError,
    >) {
        Err(EncodeError::UnsupportedOperation)
    }
}

/// A fixed-size array: the concatenated per-element encodings with no
/// length prefix, since the size is part of the type.
impl<T: NestedEncode, const N: usize> NestedEncode for [T; N] {
    open spec fn type_info() -> TypeInfo {
        TypeInfo::Unknown
    }

    open spec fn encoding(&self) -> Seq<u8> {
        seq_encoding(self@)
    }

    open spec fn encodable(&self) -> bool {
        seq_encodable(self@)
    }

    open spec fn spec_has_const_encode_len() -> bool {
        false
    }

    open spec fn spec_const_encode_len() -> nat {
        0
    }

    fn has_const_encode_len() -> (r: bool) {
        false
    }

    fn const_encode_len() -> (r: usize) {
        0
    }

    proof fn lemma_const_encode_len(&self) {
    }

    proof fn lemma_encoding_unambiguous(a: &Self, b: &Self, tail_a: Seq<u8>, tail_b: Seq<u8>) {
        lemma_seq_encoding_unambiguous::<T>(a@, b@, tail_a, tail_b);
        assert(a.deep_view() =~= b.deep_view());
    }

    fn dep_encode<O: NestedEncodeOutput>(&self, dest: &mut O) -> (r: Result<(), EncodeError>) {
        dep_encode_slice_contents(self.as_slice(), dest)
    }

    fn dep_encode_in_place(&self, target: &mut Vec<u8>, offset: usize) -> (r: Result<
        (),
        EncodeError,
    >) {
        Err(EncodeError::UnsupportedOperation)
    }
}

// Tuples: the concatenation of each element's nested encoding in
// declared order. A tuple has a constant encode length when all its
// elements do; its width is then the sum of the element widths. (The
// sum is recognized only below 2^32 — wire-format widths are 4-byte
// quantities throughout — so that it always fits a machine word.)

/// Treating the 1-tuple separately, to account for the constant encode
/// length: it forwards everything to its single element.
impl<T0: NestedEncode> NestedEncode for (T0,) {
    open spec fn type_info() -> TypeInfo {
        TypeInfo::Unknown
    }

    open spec fn encoding(&self) -> Seq<u8> {
        self.0.encoding()
    }

    open spec fn encodable(&self) -> bool {
        self.0.encodable()
    }

    open spec fn spec_has_const_encode_len() -> bool {
        T0::spec_has_const_encode_len()
    }

    open spec fn spec_const_encode_len() -> nat {
        T0::spec_const_encode_len()
    }

    fn has_const_encode_len() -> (r: bool) {
        T0::has_const_encode_len()
    }

    fn const_encode_len() -> (r: usize) {
        T0::const_encode_len()
    }

    proof fn lemma_const_encode_len(&self) {
        T0::lemma_const_encode_len(&self.0);
    }

    proof fn lemma_encoding_unambiguous(a: &Self, b: &Self, tail_a: Seq<u8>, tail_b: Seq<u8>) {
        T0::lemma_encoding_unambiguous(&a.0, &b.0, tail_a, tail_b);
    }

    fn dep_encode<O: NestedEncodeOutput>(&self, dest: &mut O) -> (r: Result<(), EncodeError>) {
        self.0.dep_encode(dest)
    }

    fn dep_encode_in_place(&self, target: &mut Vec<u8>, offset: usize) -> (r: Result<
        (),
        EncodeError,
    >) {
        self.0.dep_encode_in_place(target, offset)
    }
}

impl<T0: NestedEncode, T1: NestedEncode> NestedEncode for (T0, T1) {
    open spec fn type_info() -> TypeInfo {
        TypeInfo::Unknown
    }

    open spec fn encoding(&self) -> Seq<u8> {
        self.0.encoding() + self.1.encoding()
    }

    open spec fn encodable(&self) -> bool {
        self.0.encodable() && self.1.encodable()
    }

    open spec fn spec_has_const_encode_len() -> bool {
        T0::spec_has_const_encode_len() && T1::spec_has_const_encode_len()
            && T0::spec_const_encode_len() + T1::spec_const_encode_len() < 0x1_0000_0000
    }

    open spec fn spec_const_encode_len() -> nat {
        if T0::spec_const_encode_len() + T1::spec_const_encode_len() < 0x1_0000_0000 {
            T0::spec_const_encode_len() + T1::spec_const_encode_len()
        } else {
            0
        }
    }

    fn has_const_encode_len() -> (r: bool) {
        if T0::has_const_encode_len() && T1::has_const_encode_len() {
            let sum: u128 = (T0::const_encode_len() as u128) + (T1::const_encode_len() as u128);
            sum < 0x1_0000_0000
        } else {
            false
        }
    }

    fn const_encode_len() -> (r: usize) {
        let sum: u128 = (T0::const_encode_len() as u128) + (T1::const_encode_len() as u128);
        if sum < 0x1_0000_0000 {
            T0::const_encode_len() + T1::const_encode_len()
        } else {
            0
        }
    }

    proof fn lemma_const_encode_len(&self) {
        T0::lemma_const_encode_len(&self.0);
        T1::lemma_const_encode_len(&self.1);
    }

    proof fn lemma_encoding_unambiguous(a: &Self, b: &Self, tail_a: Seq<u8>, tail_b: Seq<u8>) {
        let ra = a.1.encoding() + tail_a;
        let rb = b.1.encoding() + tail_b;
        assert(a.0.encoding() + ra =~= a.encoding() + tail_a);
        assert(b.0.encoding() + rb =~= b.encoding() + tail_b);
        T0::lemma_encoding_unambiguous(&a.0, &b.0, ra, rb);
        lemma_concat_cancel(a.0.encoding(), ra, rb);
        T1::lemma_encoding_unambiguous(&a.1, &b.1, tail_a, tail_b);
        assert(a.encoding() =~= b.encoding());
    }

    fn dep_encode<O: NestedEncodeOutput>(&self, dest: &mut O) -> (r: Result<(), EncodeError>) {
        let _ = self.0.dep_encode(dest);
        let _ = self.1.dep_encode(dest);
        proof {
            assert(old(dest).bytes() + self.0.encoding() + self.1.encoding() =~= old(dest).bytes()
                + self.encoding());
        }
        Ok(())
    }

    fn dep_encode_in_place(&self, target: &mut Vec<u8>, offset: usize) -> (r: Result<
        (),
        EncodeError,
    >) {
        if Self::has_const_encode_len() {
            let l0 = T0::const_encode_len();
            let l1 = T1::const_encode_len();
            proof {
                T0::lemma_const_encode_len(&self.0);
                T1::lemma_const_encode_len(&self.1);
                assert(Self::spec_const_encode_len() == l0 + l1);
                assert(target.len() == target@.len());
            }
            let _ = self.0.dep_encode_in_place(target, offset);
            let ghost mid = target@;
            let _ = self.1.dep_encode_in_place(target, offset + l0);
            proof {
                assert(mid.subrange(0, offset + l0) =~= old(target)@.subrange(0, offset as int)
                    + self.0.encoding());
                assert(mid.subrange(offset + l0 + l1, mid.len() as int) =~= old(
                    target,
                )@.subrange(offset + l0 + l1, old(target)@.len() as int));
                assert(target@ =~= old(target)@.subrange(0, offset as int) + self.encoding() + old(
                    target,
                )@.subrange(
                    offset + Self::spec_const_encode_len(),
                    old(target)@.len() as int,
                ));
            }
            Ok(())
        } else {
            Err(EncodeError::UnsupportedOperation)
        }
    }
}

impl<T0: NestedEncode, T1: NestedEncode, T2: NestedEncode> NestedEncode for (T0, T1, T2) {
    open spec fn type_info() -> TypeInfo {
        TypeInfo::Unknown
    }

    open spec fn encoding(&self) -> Seq<u8> {
        self.0.encoding() + self.1.encoding() + self.2.encoding()
    }

    open spec fn encodable(&self) -> bool {
        self.0.encodable() && self.1.encodable() && self.2.encodable()
    }

    open spec fn spec_has_const_encode_len() -> bool {
        T0::spec_has_const_encode_len() && T1::spec_has_const_encode_len()
            && T2::spec_has_const_encode_len() && T0::spec_const_encode_len()
            + T1::spec_const_encode_len() + T2::spec_const_encode_len() < 0x1_0000_0000
    }

    open spec fn spec_const_encode_len() -> nat {
        if T0::spec_const_encode_len() + T1::spec_const_encode_len() + T2::spec_const_encode_len()
            < 0x1_0000_0000 {
            T0::spec_const_encode_len() + T1::spec_const_encode_len()
                + T2::spec_const_encode_len()
        } else {
            0
        }
    }

    fn has_const_encode_len() -> (r: bool) {
        if T0::has_const_encode_len() && T1::has_const_encode_len()
            && T2::has_const_encode_len() {
            let sum: u128 = (T0::const_encode_len() as u128) + (T1::const_encode_len() as u128) + (
            T2::const_encode_len() as u128);
            sum < 0x1_0000_0000
        } else {
            false
        }
    }

    fn const_encode_len() -> (r: usize) {
        let sum: u128 = (T0::const_encode_len() as u128) + (T1::const_encode_len() as u128) + (
        T2::const_encode_len() as u128);
        if sum < 0x1_0000_0000 {
            T0::const_encode_len() + T1::const_encode_len() + T2::const_encode_len()
        } else {
            0
        }
    }

    proof fn lemma_const_encode_len(&self) {
        T0::lemma_const_encode_len(&self.0);
        T1::lemma_const_encode_len(&self.1);
        T2::lemma_const_encode_len(&self.2);
    }

    proof fn lemma_encoding_unambiguous(a: &Self, b: &Self, tail_a: Seq<u8>, tail_b: Seq<u8>) {
        let ra0 = a.1.encoding() + (a.2.encoding() + tail_a);
        let rb0 = b.1.encoding() + (b.2.encoding() + tail_b);
        assert(a.0.encoding() + ra0 =~= a.encoding() + tail_a);
        assert(b.0.encoding() + rb0 =~= b.encoding() + tail_b);
        T0::lemma_encoding_unambiguous(&a.0, &b.0, ra0, rb0);
        lemma_concat_cancel(a.0.encoding(), ra0, rb0);
        let ra1 = a.2.encoding() + tail_a;
        let rb1 = b.2.encoding() + tail_b;
        T1::lemma_encoding_unambiguous(&a.1, &b.1, ra1, rb1);
        lemma_concat_cancel(a.1.encoding(), ra1, rb1);
        T2::lemma_encoding_unambiguous(&a.2, &b.2, tail_a, tail_b);
        assert(a.encoding() =~= b.encoding());
    }

    fn dep_encode<O: NestedEncodeOutput>(&self, dest: &mut O) -> (r: Result<(), EncodeError>) {
        let _ = self.0.dep_encode(dest);
        let _ = self.1.dep_encode(dest);
        let _ = self.2.dep_encode(dest);
        proof {
            assert(old(dest).bytes() + self.0.encoding() + self.1.encoding() + self.2.encoding()
                =~= old(dest).bytes() + self.encoding());
        }
        Ok(())
    }

    fn dep_encode_in_place(&self, target: &mut Vec<u8>, offset: usize) -> (r: Result<
        (),
        EncodeError,
    >) {
        if Self::has_const_encode_len() {
            let l0 = T0::const_encode_len();
            let l1 = T1::const_encode_len();
            let l2 = T2::const_encode_len();
            proof {
                T0::lemma_const_encode_len(&self.0);
                T1::lemma_const_encode_len(&self.1);
                T2::lemma_const_encode_len(&self.2);
                assert(Self::spec_const_encode_len() == l0 + l1 + l2);
                assert(target.len() == target@.len());
            }
            let _ = self.0.dep_encode_in_place(target, offset);
            let ghost mid0 = target@;
            let _ = self.1.dep_encode_in_place(target, offset + l0);
            let ghost mid1 = target@;
            let _ = self.2.dep_encode_in_place(target, offset + l0 + l1);
            proof {
                assert(mid0.subrange(0, offset + l0) =~= old(target)@.subrange(0, offset as int)
                    + self.0.encoding());
                assert(mid1.subrange(0, offset + l0 + l1) =~= old(target)@.subrange(
                    0,
                    offset as int,
                ) + self.0.encoding() + self.1.encoding());
                assert(mid0.subrange(offset + l0 + l1, mid0.len() as int) =~= old(
                    target,
                )@.subrange(offset + l0 + l1, old(target)@.len() as int));
                assert(mid1.subrange(offset + l0 + l1 + l2, mid1.len() as int) =~= old(
                    target,
                )@.subrange(offset + l0 + l1 + l2, old(target)@.len() as int));
                assert(target@ =~= old(target)@.subrange(0, offset as int) + self.encoding() + old(
                    target,
                )@.subrange(
                    offset + Self::spec_const_encode_len(),
                    old(target)@.len() as int,
                ));
            }
            Ok(())
        } else {
            Err(EncodeError::UnsupportedOperation)
        }
    }
}

} // verus!

