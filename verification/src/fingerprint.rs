//! Deterministic, platform-independent content hashing.
//!
//! The fingerprint of a harness is computed by feeding an ordered sequence of
//! operations (strings and length prefixes) into a stable 128-bit SipHasher.
//! The hasher itself is an outside dependency; everything the library proves
//! about fingerprints is stated over the sequence of operations absorbed, for
//! which [`stable_digest`] names the final rendered digest.

use vstd::prelude::*;
use core::hash::Hasher;
use rustc_stable_hash::ExtendedHasher;
use rustc_stable_hash::hashers::{SipHasher128, SipHasher128Hash};

verus! {

/// The stable hasher state of the outside crate, opaque to verification.
#[verifier::external_type_specification]
#[verifier::external_body]
pub struct ExSipHasher128(SipHasher128);

/// One operation absorbed by the hasher: either a string write
/// (`(true, contents, 0)`) or a length prefix (`(false, empty, length)`).
pub open spec fn op_str(s: Seq<char>) -> (bool, Seq<char>, int) {
    (true, s, 0)
}

/// A length-prefix operation; see [`op_str`].
pub open spec fn op_len(n: int) -> (bool, Seq<char>, int) {
    (false, Seq::<char>::empty(), n)
}

/// The digest that the stable hasher renders for a given sequence of absorbed
/// operations. The hasher is deterministic and platform-independent, so the
/// digest is a function of the operations alone; what that function computes
/// is left unspecified.
pub uninterp spec fn stable_digest(ops: Seq<(bool, Seq<char>, int)>) -> Seq<char>;

/// A stable 128-bit content hasher. The ghost field records the exact
/// sequence of operations absorbed so far.
pub struct Fingerprint {
    inner: SipHasher128,
    ops: Ghost<Seq<(bool, Seq<char>, int)>>,
}

/// Relies on rustc_stable_hash::SipHasher128::new_with_keys: keys (0, 0) are
/// the fixed keys that the crate's StableHasher::new uses, so every run
/// starts from the same state.
#[verifier::external_body]
fn new_sip_hasher() -> SipHasher128 {
    SipHasher128::new_with_keys(0, 0)
}

impl Fingerprint {
    /// The sequence of operations absorbed so far.
    pub closed spec fn ops(&self) -> Seq<(bool, Seq<char>, int)> {
        self.ops@
    }

    /// A fresh hasher, which has absorbed nothing.
    pub fn new() -> (r: Fingerprint)
        ensures
            r.ops() == Seq::<(bool, Seq<char>, int)>::empty(),
    {
        Fingerprint { inner: new_sip_hasher(), ops: Ghost(Seq::empty()) }
    }

    /// Relies on Hasher::write and Hasher::write_u8 for
    /// rustc_stable_hash::SipHasher128: a string is absorbed as its UTF-8
    /// bytes followed by the terminator byte 0xFF, exactly what the stable
    /// hasher's prefix-free string write does.
    #[verifier::external_body]
    pub fn write_str(&mut self, s: &str)
        ensures
            final(self).ops() == old(self).ops().push(op_str(s@)),
    {
        self.inner.write(s.as_bytes());
        self.inner.write_u8(0xFF);
    }

    /// Relies on rustc_stable_hash::ExtendedHasher::short_write for
    /// SipHasher128: a length prefix is absorbed as the length widened to
    /// 64 bits in little-endian order, exactly what the stable hasher's
    /// length-prefix write does on every platform.
    #[verifier::external_body]
    pub fn write_length_prefix(&mut self, len: usize)
        ensures
            final(self).ops() == old(self).ops().push(op_len(len as int)),
    {
        self.inner.short_write((len as u64).to_le_bytes());
    }

    /// Relies on rustc_stable_hash::ExtendedHasher::finish for SipHasher128:
    /// the two 64-bit words of the final hash depend only on the bytes
    /// absorbed, and are rendered here as their two decimal strings
    /// concatenated.
    #[verifier::external_body]
    pub fn finish(self) -> (r: String)
        ensures
            r@ == stable_digest(self.ops()),
    {
        let SipHasher128Hash([a, b]) = self.inner.finish();
        format!("{a}{b}")
    }
}

} // verus!
