//! The identity hash for value-overlay keys.
//!
//! Slot indices are already well-distributed 64-bit values, so hashing
//! them is the identity: the single `u64` written is returned verbatim.
//! No other write width is offered; no caller has one to hash.

use vstd::prelude::*;

verus! {

/// A hasher that accepts exactly one 64-bit write and returns it
/// unchanged.
#[derive(Clone)]
pub struct IdentityHash(pub u64);

impl IdentityHash {
    pub fn new() -> (r: IdentityHash)
        ensures
            r.0 == 0,
    {
        IdentityHash(0)
    }

    /// Record the single 64-bit key.
    pub fn write_u64(&mut self, n: u64)
        ensures
            final(self).0 == n,
    {
        self.0 = n;
    }

    /// The hash: the key itself.
    pub fn finish(&self) -> (r: u64)
        ensures
            r == self.0,
    {
        self.0
    }
}

impl Default for IdentityHash {
    fn default() -> (r: IdentityHash)
        ensures
            r.0 == 0,
    {
        IdentityHash(0)
    }
}

} // verus!
