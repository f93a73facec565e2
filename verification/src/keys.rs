//! Key comparison for cache lookups.
//!
//! The cache is generic over its key type. A lookup must be able to
//! compare two keys in executable code and know, in specifications,
//! that the answer agrees with equality of the keys' abstract views.
//! `CacheKey` packages that: an executable equality test whose result
//! is exactly view equality.

use vstd::prelude::*;

verus! {

/// A type usable as a cache key: it has an abstract view and an
/// executable equality test that decides view equality.
pub trait CacheKey: View + Sized {
    /// Executable equality, specified to agree with view equality.
    fn key_eq(&self, other: &Self) -> (r: bool)
        ensures
            r == (self@ == other@),
    ;
}

impl CacheKey for u64 {
    fn key_eq(&self, other: &Self) -> (r: bool)
        ensures
            r == (self@ == other@),
    {
        *self == *other
    }
}

impl CacheKey for usize {
    fn key_eq(&self, other: &Self) -> (r: bool)
        ensures
            r == (self@ == other@),
    {
        *self == *other
    }
}

impl CacheKey for () {
    fn key_eq(&self, other: &Self) -> (r: bool)
        ensures
            r == (self@ == other@),
    {
        true
    }
}

impl CacheKey for String {
    fn key_eq(&self, other: &Self) -> (r: bool)
        ensures
            r == (self@ == other@),
    {
        self.eq(other)
    }
}

impl CacheKey for &str {
    fn key_eq(&self, other: &Self) -> (r: bool)
        ensures
            r == (self@ == other@),
    {
        let a: String = (*self).to_owned();
        let b: String = (*other).to_owned();
        a.eq(&b)
    }
}

} // verus!
