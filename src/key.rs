//! Keys: what the table needs to know of a key type.
use std::collections::hash_map::DefaultHasher;
use std::hash::Hasher;
use vstd::bytes::{spec_u64_to_le_bytes, u64_to_le_bytes};
use vstd::prelude::*;
use vstd::std_specs::hash::DefaultHasherAdditionalSpecFns;
use vstd::utf8::{encode_utf8, encode_utf8_decode_utf8};

verus! {

/// A type that can key a `HashMap`: it has a 64-bit digest and an equality
/// test, and both are functions of the key's view, so equal keys always
/// have equal digests.
pub trait MapKey: View + Sized {
    /// The digest of a key with the given view.
    spec fn spec_digest(k: Self::V) -> u64;

    /// Computes the digest of this key.
    fn digest(&self) -> (r: u64)
        ensures
            r == Self::spec_digest(self@),
    ;

    /// Decides whether two keys are equal.
    fn same_key(&self, other: &Self) -> (r: bool)
        ensures
            r == (self@ == other@),
    ;
}

/// Byte-wise equality of two slices.
fn bytes_equal(a: &[u8], b: &[u8]) -> (r: bool)
    ensures
        r == (a@ == b@),
{
    if a.len() != b.len() {
        return false;
    }
    let mut i: usize = 0;
    while i < a.len()
        invariant
            a@.len() == b@.len(),
            i <= a@.len(),
            forall|j: int| 0 <= j < i ==> a@[j] == b@[j],
        decreases a@.len() - i,
    {
        if a[i] != b[i] {
            return false;
        }
        i += 1;
    }
    assert(a@ =~= b@);
    true
}

impl<'s> MapKey for &'s str {
    open spec fn spec_digest(k: Seq<char>) -> u64 {
        DefaultHasher::spec_finish(seq![encode_utf8(k)])
    }

    fn digest(&self) -> (r: u64) {
        let mut h = DefaultHasher::new();
        h.write(self.as_bytes());
        assert(h@ =~= seq![encode_utf8(self@)]);
        h.finish()
    }

    fn same_key(&self, other: &Self) -> (r: bool) {
        let r = bytes_equal(self.as_bytes(), other.as_bytes());
        proof {
            encode_utf8_decode_utf8(self@);
            encode_utf8_decode_utf8(other@);
        }
        r
    }
}

impl MapKey for String {
    open spec fn spec_digest(k: Seq<char>) -> u64 {
        DefaultHasher::spec_finish(seq![encode_utf8(k)])
    }

    fn digest(&self) -> (r: u64) {
        self.as_str().digest()
    }

    fn same_key(&self, other: &Self) -> (r: bool) {
        *self == *other
    }
}

impl MapKey for u64 {
    open spec fn spec_digest(k: u64) -> u64 {
        DefaultHasher::spec_finish(seq![spec_u64_to_le_bytes(k)])
    }

    fn digest(&self) -> (r: u64) {
        let b = u64_to_le_bytes(*self);
        let mut h = DefaultHasher::new();
        h.write(b.as_slice());
        assert(h@ =~= seq![spec_u64_to_le_bytes(*self)]);
        h.finish()
    }

    fn same_key(&self, other: &Self) -> (r: bool) {
        *self == *other
    }
}

} // verus!
