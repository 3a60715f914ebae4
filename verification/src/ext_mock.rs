use vstd::prelude::*;
use crate::nested_ser::NestedEncode;
use crate::signed_be::{i64_signed_be_bytes, i64_to_signed_bytes_be, signed_be_to_i64, signed_be_val};
use crate::storage_key::{storage_key_bytes, storage_key_spec};

verus! {

broadcast use vstd::seq::group_seq_axioms, vstd::array::group_array_axioms;

/// What a finished transaction leaves behind: a status, a message, and
/// the values pushed to the append-only result sink.
pub struct TxResult {
    pub result_status: i32,
    pub result_message: Vec<u8>,
    pub result_values: Vec<Vec<u8>>,
}

impl TxResult {
    /// The result of a transaction that has done nothing yet.
    pub fn empty() -> (r: TxResult)
        ensures
            r.result_status == 0,
            r.result_message@ == Seq::<u8>::empty(),
            r.result_values@ == Seq::<Vec<u8>>::empty(),
    {
        TxResult { result_status: 0, result_message: Vec::new(), result_values: Vec::new() }
    }
}

/// Byte-for-byte comparison of two byte strings.
pub fn bytes_eq(a: &[u8], b: &[u8]) -> (r: bool)
    ensures
        r == (a@ == b@),
{
    if a.len() != b.len() {
        return false;
    }
    let n = a.len();
    let mut i: usize = 0;
    while i < n
        invariant
            n == a@.len() == b@.len(),
            i <= n,
            forall|j: int| 0 <= j < i ==> a@[j] == b@[j],
        decreases n - i,
    {
        if a[i] != b[i] {
            return false;
        }
        i += 1;
    }
    proof {
        assert(a@ =~= b@);
    }
    true
}

/// The key/value store a contract's persistent state lives in, keyed
/// and valued by plain byte strings. Writes append; a read takes the
/// most recent write of its key, so the store behaves as the map of
/// last writes.
pub struct StorageMap {
    entries: Vec<(Vec<u8>, Vec<u8>)>,
}

/// The map of last writes denoted by a journal of (key, value) pairs.
pub open spec fn entries_map(s: Seq<(Vec<u8>, Vec<u8>)>) -> Map<Seq<u8>, Seq<u8>>
    decreases s.len(),
{
    if s.len() == 0 {
        Map::empty()
    } else {
        entries_map(s.drop_last()).insert(s.last().0@, s.last().1@)
    }
}

impl View for StorageMap {
    type V = Map<Seq<u8>, Seq<u8>>;

    closed spec fn view(&self) -> Map<Seq<u8>, Seq<u8>> {
        entries_map(self.entries@)
    }
}

/// The value of `key` in the map of last writes, scanning from the most
/// recent entry backwards.
pub open spec fn journal_lookup(s: Seq<(Vec<u8>, Vec<u8>)>, key: Seq<u8>) -> Option<Seq<u8>>
    decreases s.len(),
{
    if s.len() == 0 {
        Option::None
    } else if s.last().0@ == key {
        Option::Some(s.last().1@)
    } else {
        journal_lookup(s.drop_last(), key)
    }
}

proof fn lemma_journal_lookup(s: Seq<(Vec<u8>, Vec<u8>)>, key: Seq<u8>)
    ensures
        entries_map(s).dom().contains(key) == (journal_lookup(s, key) is Some),
        journal_lookup(s, key) matches Option::Some(v) ==> entries_map(s)[key] == v,
    decreases s.len(),
{
    if s.len() > 0 {
        lemma_journal_lookup(s.drop_last(), key);
    }
}

impl StorageMap {
    /// An empty store.
    pub fn new() -> (r: StorageMap)
        ensures
            r@ == Map::<Seq<u8>, Seq<u8>>::empty(),
    {
        StorageMap { entries: Vec::new() }
    }

    /// Record `value` under `key`, replacing any earlier value.
    pub fn insert(&mut self, key: &[u8], value: &[u8])
        ensures
            final(self)@ == old(self)@.insert(key@, value@),
    {
        let k = vstd::slice::slice_to_vec(key);
        let v = vstd::slice::slice_to_vec(value);
        self.entries.push((k, v));
        proof {
            assert(self.entries@.drop_last() =~= old(self).entries@);
            assert(self.entries@.last().0@ == key@);
            assert(self.entries@.last().1@ == value@);
            assert(entries_map(self.entries@) == entries_map(self.entries@.drop_last()).insert(
                self.entries@.last().0@,
                self.entries@.last().1@,
            ));
        }
    }

    /// The value under `key`; the empty byte string when the key has
    /// never been written (a missing key is not a distinct error).
    pub fn get_or_empty(&self, key: &[u8]) -> (r: Vec<u8>)
        ensures
            r@ == if self@.dom().contains(key@) {
                self@[key@]
            } else {
                Seq::<u8>::empty()
            },
    {
        proof {
            lemma_journal_lookup(self.entries@, key@);
            assert(self.entries@.take(self.entries@.len() as int) =~= self.entries@);
        }
        let n = self.entries.len();
        let mut i: usize = n;
        while i > 0
            invariant
                i <= n,
                n == self.entries@.len(),
                journal_lookup(self.entries@, key@) == journal_lookup(
                    self.entries@.take(i as int),
                    key@,
                ),
            decreases i,
        {
            i = i - 1;
            let hit = bytes_eq(self.entries[i].0.as_slice(), key);
            proof {
                assert(self.entries@.take(i + 1).last() == self.entries@[i as int]);
                assert(self.entries@.take(i + 1).drop_last() =~= self.entries@.take(i as int));
            }
            if hit {
                let r = vstd::slice::slice_to_vec(self.entries[i].1.as_slice());
                proof {
                    assert(journal_lookup(self.entries@.take(i + 1), key@) == Option::Some(
                        self.entries@[i as int].1@,
                    ));
                    assert(journal_lookup(self.entries@, key@) == Option::Some(
                        self.entries@[i as int].1@,
                    ));
                    lemma_journal_lookup(self.entries@, key@);
                    assert(self@.dom().contains(key@) && self@[key@] == self.entries@[
                        i as int].1@);
                }
                return r;
            }
            proof {
                assert(journal_lookup(self.entries@.take(i + 1), key@) == journal_lookup(
                    self.entries@.take(i as int),
                    key@,
                ));
            }
        }
        proof {
            assert(self.entries@.take(0) =~= Seq::<(Vec<u8>, Vec<u8>)>::empty());
            assert(journal_lookup(self.entries@.take(0), key@) is None);
            lemma_journal_lookup(self.entries@, key@);
            assert(!self@.dom().contains(key@));
        }
        Vec::new()
    }
}

/// The value stored under a key, or the empty byte string: the form
/// every read of the store takes.
pub open spec fn stored_or_empty(m: Map<Seq<u8>, Seq<u8>>, key: Seq<u8>) -> Seq<u8> {
    if m.dom().contains(key) {
        m[key]
    } else {
        Seq::empty()
    }
}

/// A byte string right-aligned in a 32-byte buffer, the leading bytes
/// zero-filled.
pub open spec fn right_aligned_32(v: Seq<u8>) -> Seq<u8> {
    Seq::new(
        32,
        |i: int|
            if i < 32 - v.len() {
                0u8
            } else {
                v[i - (32 - v.len())]
            },
    )
}

/// Copy a byte string of at most 32 bytes into the low end of a fixed
/// 32-byte buffer, zero-padding the front.
pub fn bytes_to_bytes32(value: &[u8]) -> (r: [u8; 32])
    requires
        value@.len() <= 32,
    ensures
        r@ == right_aligned_32(value@),
{
    let mut res = [0u8; 32];
    let n = value.len();
    let offset = 32 - n;
    let mut i: usize = 0;
    while i < n
        invariant
            i <= n,
            n == value@.len(),
            n <= 32,
            offset == 32 - n,
            res@.len() == 32,
            forall|j: int| 0 <= j < offset ==> res@[j] == 0u8,
            forall|j: int| 0 <= j < i ==> res@[offset + j] == value@[j],
        decreases n - i,
    {
        res[offset + i] = value[i];
        i += 1;
    }
    proof {
        assert(res@ =~= right_aligned_32(value@));
    }
    res
}

/// The mutable half of a transaction's world: the contract's persistent
/// storage and the result being built up.
pub struct TxMutableContext {
    pub contract_storage: StorageMap,
    pub result: TxResult,
}

impl TxMutableContext {
    /// Store a value under a raw key.
    pub fn storage_store(&mut self, key: &[u8], value: &[u8])
        ensures
            final(self).contract_storage@ == old(self).contract_storage@.insert(key@, value@),
            final(self).result == old(self).result,
    {
        self.contract_storage.insert(key, value);
    }

    /// Load the value under a raw key; missing keys read as empty.
    pub fn storage_load(&self, key: &[u8]) -> (r: Vec<u8>)
        ensures
            r@ == stored_or_empty(self.contract_storage@, key@),
    {
        self.contract_storage.get_or_empty(key)
    }

    /// The length of the value under a key; 0 for a missing key.
    pub fn storage_load_len(&self, key: &[u8]) -> (r: usize)
        ensures
            r == stored_or_empty(self.contract_storage@, key@).len(),
    {
        self.storage_load(key).len()
    }

    /// Store a fixed 32-byte value.
    pub fn storage_store_bytes32(&mut self, key: &[u8], value: &[u8; 32])
        ensures
            final(self).contract_storage@ == old(self).contract_storage@.insert(key@, value@),
            final(self).result == old(self).result,
    {
        self.storage_store(key, value.as_slice());
    }

    /// Load a value into a fixed 32-byte buffer, right-aligned and
    /// zero-padded; the stored value must not be longer than the buffer.
    pub fn storage_load_bytes32(&self, key: &[u8]) -> (r: [u8; 32])
        requires
            stored_or_empty(self.contract_storage@, key@).len() <= 32,
        ensures
            r@ == right_aligned_32(stored_or_empty(self.contract_storage@, key@)),
    {
        let value = self.storage_load(key);
        bytes_to_bytes32(value.as_slice())
    }

    /// Store a signed 64-bit value in its shortest two's complement
    /// big-endian form.
    pub fn storage_store_i64(&mut self, key: &[u8], value: i64)
        ensures
            final(self).contract_storage@ == old(self).contract_storage@.insert(
                key@,
                i64_signed_be_bytes(value),
            ),
            final(self).result == old(self).result,
    {
        let bytes = i64_to_signed_bytes_be(value);
        self.storage_store(key, bytes.as_slice());
    }

    /// Read the value under a key as a signed two's complement
    /// big-endian integer: the value, when it fits in 64 bits, and
    /// `None` when it does not. A missing key reads as zero.
    pub fn storage_load_i64(&self, key: &[u8]) -> (r: Option<i64>)
        ensures
            r matches Some(v) ==> v == signed_be_val(
                stored_or_empty(self.contract_storage@, key@),
            ),
            (r is Some) == (-0x8000_0000_0000_0000 <= signed_be_val(
                stored_or_empty(self.contract_storage@, key@),
            ) < 0x8000_0000_0000_0000),
    {
        let value = self.storage_load(key);
        signed_be_to_i64(value.as_slice())
    }

    /// Append one byte string to the result sink.
    pub fn finish_slice_u8(&mut self, slice: &[u8])
        ensures
            final(self).result.result_values.deep_view() == old(
                self,
            ).result.result_values.deep_view().push(slice@),
            final(self).result.result_status == old(self).result.result_status,
            final(self).result.result_message == old(self).result.result_message,
            final(self).contract_storage == old(self).contract_storage,
    {
        let v = vstd::slice::slice_to_vec(slice);
        self.result.result_values.push(v);
        proof {
            let dv = self.result.result_values.deep_view();
            let odv = old(self).result.result_values.deep_view();
            assert(dv.len() == odv.len() + 1);
            assert forall|i: int| 0 <= i < odv.len() implies dv[i] == odv[i] by {
                assert(dv[i] == self.result.result_values@[i].deep_view());
                assert(odv[i] == old(self).result.result_values@[i].deep_view());
                assert(self.result.result_values@[i] == old(self).result.result_values@[i]);
            }
            assert(self.result.result_values@.last()@ == slice@);
            assert(dv[odv.len() as int] =~= slice@);
            assert(dv =~= odv.push(slice@));
        }
    }

    /// Append a fixed 32-byte value to the result sink.
    pub fn finish_bytes32(&mut self, bytes: &[u8; 32])
        ensures
            final(self).result.result_values.deep_view() == old(
                self,
            ).result.result_values.deep_view().push(bytes@),
            final(self).result.result_status == old(self).result.result_status,
            final(self).result.result_message == old(self).result.result_message,
            final(self).contract_storage == old(self).contract_storage,
    {
        self.finish_slice_u8(bytes.as_slice());
    }

    /// Append a signed 64-bit value to the result sink, in its shortest
    /// two's complement big-endian form.
    pub fn finish_i64(&mut self, value: i64)
        ensures
            final(self).result.result_values.deep_view() == old(
                self,
            ).result.result_values.deep_view().push(i64_signed_be_bytes(value)),
            final(self).result.result_status == old(self).result.result_status,
            final(self).result.result_message == old(self).result.result_message,
            final(self).contract_storage == old(self).contract_storage,
    {
        let bytes = i64_to_signed_bytes_be(value);
        self.finish_slice_u8(bytes.as_slice());
    }

    /// Store a value under the key built from an identifier and encoded
    /// key arguments: what a generated storage setter does.
    pub fn storage_store_with_key<T: NestedEncode>(
        &mut self,
        key_name: &[u8],
        args: &T,
        value: &[u8],
    )
        requires
            key_name@.len() + T::spec_const_encode_len() <= usize::MAX,
        ensures
            final(self).contract_storage@ == old(self).contract_storage@.insert(
                storage_key_spec(key_name@, args),
                value@,
            ),
            final(self).result == old(self).result,
    {
        let key = storage_key_bytes(key_name, args);
        self.storage_store(key.as_slice(), value);
    }

    /// Load the value under the key built from an identifier and
    /// encoded key arguments: what a generated storage getter does.
    pub fn storage_load_with_key<T: NestedEncode>(&self, key_name: &[u8], args: &T) -> (r: Vec<
        u8,
    >)
        requires
            key_name@.len() + T::spec_const_encode_len() <= usize::MAX,
        ensures
            r@ == stored_or_empty(self.contract_storage@, storage_key_spec(key_name@, args)),
    {
        let key = storage_key_bytes(key_name, args);
        self.storage_load(key.as_slice())
    }

    /// Whether nothing is stored under the key built from an identifier
    /// and encoded key arguments: what a generated emptiness check does.
    pub fn storage_is_empty_with_key<T: NestedEncode>(&self, key_name: &[u8], args: &T) -> (r:
        bool)
        requires
            key_name@.len() + T::spec_const_encode_len() <= usize::MAX,
        ensures
            r == (stored_or_empty(self.contract_storage@, storage_key_spec(key_name@, args)).len()
                == 0),
    {
        self.storage_load_with_key(key_name, args).len() == 0
    }
}

} // verus!
