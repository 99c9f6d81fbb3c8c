use std::collections::hash_map::DefaultHasher;
use std::hash::Hasher;
use vstd::bytes::{spec_u32_to_le_bytes, spec_u64_to_le_bytes, u32_to_le_bytes, u64_to_le_bytes};
use vstd::prelude::*;
use vstd::std_specs::hash::DefaultHasherAdditionalSpecFns;
use vstd::string::StringSliceAdditionalSpecFns;

verus! {

/// A key of the bucketed index: a value with a mathematical model (its view),
/// an equality test that agrees with equality of models, and a deterministic
/// way of feeding itself to the standard hasher.
///
/// Two keys with the same model are the same key to every structure built on
/// this trait, and they hash alike.
pub trait HashKey: View + Sized {
    /// The byte strings that `feed` writes for a key with model `v`, in order.
    spec fn hash_input(v: Self::V) -> Seq<Seq<u8>>;

    /// Writes the key to `state`.
    fn feed(&self, state: &mut DefaultHasher)
        ensures
            final(state)@ == old(state)@ + Self::hash_input(self@),
    ;

    /// Whether `self` and `other` are the same key.
    fn same_key(&self, other: &Self) -> (same: bool)
        ensures
            same == (self@ == other@),
    ;

    /// A second handle on the same key.
    fn copy_key(&self) -> (copy: Self)
        ensures
            copy@ == self@,
    ;
}

/// The 64-bit digest of a key with model `v`: what the standard hasher returns
/// after a fresh instance was fed exactly `K::hash_input(v)`.
pub open spec fn spec_hash_key<K: HashKey>(v: K::V) -> u64 {
    DefaultHasher::spec_finish(K::hash_input(v))
}

/// Hashes `key` with a fresh standard hasher.
pub fn hash_key<K: HashKey>(key: &K) -> (hash_val: u64)
    ensures
        hash_val == spec_hash_key::<K>(key@),
{
    let mut hasher = DefaultHasher::new();
    key.feed(&mut hasher);
    hasher.finish()
}

impl HashKey for u32 {
    open spec fn hash_input(v: u32) -> Seq<Seq<u8>> {
        seq![spec_u32_to_le_bytes(v)]
    }

    fn feed(&self, state: &mut DefaultHasher) {
        let bytes = u32_to_le_bytes(*self);
        state.write(bytes.as_slice());
    }

    fn same_key(&self, other: &Self) -> (same: bool) {
        *self == *other
    }

    fn copy_key(&self) -> (copy: Self) {
        *self
    }
}

impl HashKey for u64 {
    open spec fn hash_input(v: u64) -> Seq<Seq<u8>> {
        seq![spec_u64_to_le_bytes(v)]
    }

    fn feed(&self, state: &mut DefaultHasher) {
        let bytes = u64_to_le_bytes(*self);
        state.write(bytes.as_slice());
    }

    fn same_key(&self, other: &Self) -> (same: bool) {
        *self == *other
    }

    fn copy_key(&self) -> (copy: Self) {
        *self
    }
}

impl HashKey for usize {
    open spec fn hash_input(v: usize) -> Seq<Seq<u8>> {
        seq![spec_u64_to_le_bytes(v as u64)]
    }

    fn feed(&self, state: &mut DefaultHasher) {
        let bytes = u64_to_le_bytes(*self as u64);
        state.write(bytes.as_slice());
    }

    fn same_key(&self, other: &Self) -> (same: bool) {
        *self == *other
    }

    fn copy_key(&self) -> (copy: Self) {
        *self
    }
}

impl HashKey for i32 {
    open spec fn hash_input(v: i32) -> Seq<Seq<u8>> {
        seq![spec_u32_to_le_bytes(v as u32)]
    }

    fn feed(&self, state: &mut DefaultHasher) {
        let bytes = u32_to_le_bytes(*self as u32);
        state.write(bytes.as_slice());
    }

    fn same_key(&self, other: &Self) -> (same: bool) {
        *self == *other
    }

    fn copy_key(&self) -> (copy: Self) {
        *self
    }
}

impl HashKey for String {
    open spec fn hash_input(v: Seq<char>) -> Seq<Seq<u8>> {
        seq![vstd::utf8::encode_utf8(v), seq![0xffu8]]
    }

    fn feed(&self, state: &mut DefaultHasher) {
        state.write(self.as_str().as_bytes());
        let terminator: [u8; 1] = [0xffu8];
        state.write(terminator.as_slice());
        assert(terminator@ =~= seq![0xffu8]);
    }

    fn same_key(&self, other: &Self) -> (same: bool) {
        *self == *other
    }

    fn copy_key(&self) -> (copy: Self) {
        self.clone()
    }
}

} // verus!
