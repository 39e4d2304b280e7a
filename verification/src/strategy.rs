//! The hashing-strategy capability and the strategies the crate provides.
//!
//! A strategy turns a byte sequence into a 64-bit ring position. It must be
//! deterministic: the digest is a mathematical function of the strategy value
//! and the bytes, which is exactly what the trait contract states. The
//! default is the fast non-cryptographic XXHash64; a degenerate constant
//! strategy is provided to make ring behaviour predictable in tests.

use vstd::prelude::*;

verus! {

/// A deterministic mapping from byte sequences to 64-bit positions.
pub trait HashStrategy: Sized {
    /// The digest, as a mathematical function of the strategy and the bytes.
    spec fn digest_spec(&self, bytes: Seq<u8>) -> u64;

    /// Computes the digest of `bytes`.
    fn digest(&self, bytes: &[u8]) -> (h: u64)
        ensures
            h == self.digest_spec(bytes@),
    ;
}

/// The digest that XXHash64 with seed 0 assigns to a byte sequence.
pub uninterp spec fn xxhash64_of(bytes: Seq<u8>) -> u64;

/// Relies on `twox_hash::XxHash64::oneshot`: a pure computation whose result
/// depends on the seed (fixed here at 0, the seed `XxHash64::default()` uses)
/// and the input bytes alone.
#[verifier::external_body]
fn xxhash64_digest(bytes: &[u8]) -> (h: u64)
    ensures
        h == xxhash64_of(bytes@),
{
    twox_hash::XxHash64::oneshot(0, bytes)
}

/// The default strategy: XXHash64 with seed 0.
pub struct XxHash64Strategy;

impl HashStrategy for XxHash64Strategy {
    open spec fn digest_spec(&self, bytes: Seq<u8>) -> u64 {
        xxhash64_of(bytes)
    }

    fn digest(&self, bytes: &[u8]) -> u64 {
        xxhash64_digest(bytes)
    }
}

/// A degenerate strategy returning the same digest for every input, so that
/// every key resolves to one predictable node; intended for tests.
pub struct ConstantStrategy {
    pub value: u64,
}

impl HashStrategy for ConstantStrategy {
    open spec fn digest_spec(&self, bytes: Seq<u8>) -> u64 {
        self.value
    }

    fn digest(&self, _bytes: &[u8]) -> u64 {
        self.value
    }
}

} // verus!
