use vstd::prelude::*;

verus! {

/// Failure of an encode operation.
///
/// Ordinary nested encoding never fails; the only failure is asking for an
/// operation that the type structurally cannot support (e.g. in-place
/// encoding of a type without a constant encoded width).
#[derive(Clone, Copy, Debug, PartialEq, Eq, Structural)]
pub enum EncodeError {
    UnsupportedOperation,
}

/// Failure of a decode operation, classified so that callers can tell
/// truncated input apart from corrupt input.
#[derive(Clone, Copy, Debug, PartialEq, Eq, Structural)]
pub enum DecodeError {
    /// Fewer bytes remain than the value's encoding requires.
    InputTooShort,
    /// A tag byte or variant index is outside its allowed range.
    InvalidValue,
}

impl EncodeError {
    /// Stable description, usable by hosts that surface errors as bytes.
    pub fn message(&self) -> (r: &'static str)
        ensures
            r@ == "unsupported operation"@,
    {
        "unsupported operation"
    }
}

impl DecodeError {
    /// Stable description, usable by hosts that surface errors as bytes.
    pub fn message(&self) -> (r: &'static str)
        ensures
            *self == DecodeError::InputTooShort ==> r@ == "input too short"@,
            *self == DecodeError::InvalidValue ==> r@ == "invalid value"@,
    {
        match self {
            DecodeError::InputTooShort => "input too short",
            DecodeError::InvalidValue => "invalid value",
        }
    }
}

} // verus!
