use vstd::prelude::*;
use crate::be_bytes::copy_into;
use crate::nested_ser::NestedEncode;
use crate::nested_ser_output::NestedEncodeOutput;

verus! {

broadcast use vstd::seq::group_seq_axioms;

/// The bytes of a storage key: the fixed identifier prefix followed by
/// the nested encodings of the key arguments, concatenated in argument
/// order. For the same identifier and the same argument values the key
/// is byte-identical on every call: it is a function of them alone.
pub open spec fn storage_key_spec<T: NestedEncode>(key_name: Seq<u8>, args: &T) -> Seq<u8> {
    key_name + args.encoding()
}

/// Build a storage key. For argument types with a constant encoded
/// width the buffer is allocated once at its exact final size and the
/// arguments are written in place into it; otherwise the key grows as
/// the arguments are appended. Both paths produce the same bytes.
pub fn storage_key_bytes<T: NestedEncode>(key_name: &[u8], args: &T) -> (key: Vec<u8>)
    requires
        key_name@.len() + T::spec_const_encode_len() <= usize::MAX,
    ensures
        key@ == storage_key_spec(key_name@, args),
{
    if T::has_const_encode_len() {
        proof {
            T::lemma_const_encode_len(args);
        }
        let klen = key_name.len();
        let clen = T::const_encode_len();
        let total = klen + clen;
        let mut key: Vec<u8> = vec![0u8; total];
        copy_into(&mut key, 0, key_name);
        let ghost mid = key@;
        let _ = args.dep_encode_in_place(&mut key, klen);
        proof {
            assert(mid.subrange(0, klen as int) =~= key_name@);
            assert(key@ =~= key_name@ + args.encoding());
        }
        key
    } else {
        let mut key: Vec<u8> = Vec::new();
        key.write(key_name);
        let _ = args.dep_encode(&mut key);
        key
    }
}

/// Build the storage key for `key_name` and `args` and hand a read-only
/// view of it to the continuation `f`.
pub fn with_storage_key<T, F, R>(key_name: &[u8], args: &T, f: F) -> (r: R) where
    T: NestedEncode,
    F: FnOnce(&[u8]) -> R,

    requires
        key_name@.len() + T::spec_const_encode_len() <= usize::MAX,
        forall|k: &[u8]| k@ == storage_key_spec(key_name@, args) ==> call_requires(f, (k,)),
    ensures
        exists|k: &[u8]| k@ == storage_key_spec(key_name@, args) && call_ensures(f, (k,), r),
{
    let key = storage_key_bytes(key_name, args);
    f(key.as_slice())
}

} // verus!
