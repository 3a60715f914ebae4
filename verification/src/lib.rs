//! A structured binary codec for deterministic, byte-exact, platform
//! independent serialization: values are encoded in "nested" form (the
//! representation of a value embedded inside a larger aggregate), decoded
//! back by a cursor that consumes exactly the bytes the encoder produced,
//! and composed into storage lookup keys.

pub mod be_bytes;
pub mod codec_err;
pub mod crypto;
pub mod ext_mock;
pub mod laws;
pub mod nested_de;
pub mod nested_ser;
pub mod nested_ser_output;
pub mod signed_be;
pub mod storage_key;
pub mod test_struct;
