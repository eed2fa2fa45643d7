//! What a key supplies: an equality and a digest, both fixed by its view.
use std::hash::Hash;
use std::hash::Hasher;
use vstd::prelude::*;

verus! {

/// The digest that std's default hasher gives a string.
pub uninterp spec fn str_digest(s: Seq<char>) -> u64;

/// The digest that std's default hasher gives a `u64`.
pub uninterp spec fn u64_digest(x: u64) -> u64;

/// Relies on std's `DefaultHasher` (a fresh `DefaultHasher::new()`, fed by
/// `str`'s `Hash` impl, then `finish`): its keys are fixed, so the digest
/// depends on the characters alone.
#[verifier::external_body]
fn hash_str(s: &str) -> (r: u64)
    ensures
        r == str_digest(s@),
{
    let mut hasher = std::collections::hash_map::DefaultHasher::new();
    s.hash(&mut hasher);
    hasher.finish()
}

/// Relies on std's `DefaultHasher` (a fresh `DefaultHasher::new()`, fed by
/// `u64`'s `Hash` impl, then `finish`): its keys are fixed, so the digest
/// depends on the number alone.
#[verifier::external_body]
fn hash_u64(x: u64) -> (r: u64)
    ensures
        r == u64_digest(x),
{
    let mut hasher = std::collections::hash_map::DefaultHasher::new();
    x.hash(&mut hasher);
    hasher.finish()
}

/// Relies on `str`'s `==`: equal exactly when the characters are.
#[verifier::external_body]
fn str_eq(a: &str, b: &str) -> (r: bool)
    ensures
        r == (a@ == b@),
{
    a == b
}

/// What a key of the map supplies: an equality and a digest, both decided by
/// the key's view, so that equal keys always route to the same bucket.
pub trait MapKey: View + Sized {
    /// The digest of a key, as a function of its view.
    spec fn digest_spec(k: Self::V) -> u64;

    fn same_key(&self, other: &Self) -> (r: bool)
        ensures
            r == (self@ == other@),
    ;

    fn digest(&self) -> (r: u64)
        ensures
            r == Self::digest_spec(self@),
    ;
}

impl<'a> MapKey for &'a str {
    open spec fn digest_spec(k: Seq<char>) -> u64 {
        str_digest(k)
    }

    fn same_key(&self, other: &Self) -> (r: bool) {
        str_eq(*self, *other)
    }

    fn digest(&self) -> (r: u64) {
        hash_str(*self)
    }
}

impl MapKey for String {
    open spec fn digest_spec(k: Seq<char>) -> u64 {
        str_digest(k)
    }

    fn same_key(&self, other: &Self) -> (r: bool) {
        str_eq(self.as_str(), other.as_str())
    }

    /// A `String` is hashed through the `str` it holds.
    fn digest(&self) -> (r: u64) {
        hash_str(self.as_str())
    }
}

impl MapKey for u64 {
    open spec fn digest_spec(k: u64) -> u64 {
        u64_digest(k)
    }

    fn same_key(&self, other: &Self) -> (r: bool) {
        *self == *other
    }

    fn digest(&self) -> (r: u64) {
        hash_u64(*self)
    }
}

} // verus!
