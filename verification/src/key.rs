//! Key elements of a prefix tree.
//!
//! A sequence of key elements indexes the tree, so the tree must be able to
//! compare elements and to store its own copy of each element on a freshly
//! created path. `TrieKey` captures both abilities, with contracts tying
//! them to specification-level equality.

use vstd::prelude::*;

verus! {

/// A type usable as one element of a prefix-tree key sequence.
///
/// `key_eq` must decide specification-level equality, and `key_clone` must
/// return a value equal to the original; both contracts are proved for every
/// implementation in this module.
pub trait TrieKey: Sized {
    /// Decides whether two key elements are equal.
    fn key_eq(&self, other: &Self) -> (r: bool)
        ensures
            r <==> (*self == *other),
    ;

    /// Returns a copy of this key element, equal to the original.
    fn key_clone(&self) -> (r: Self)
        ensures
            r == *self,
    ;
}

impl TrieKey for char {
    fn key_eq(&self, other: &Self) -> (r: bool)
        ensures
            r <==> (*self == *other),
    {
        *self == *other
    }

    fn key_clone(&self) -> (r: Self)
        ensures
            r == *self,
    {
        *self
    }
}

impl TrieKey for u8 {
    fn key_eq(&self, other: &Self) -> (r: bool)
        ensures
            r <==> (*self == *other),
    {
        *self == *other
    }

    fn key_clone(&self) -> (r: Self)
        ensures
            r == *self,
    {
        *self
    }
}

impl TrieKey for u16 {
    fn key_eq(&self, other: &Self) -> (r: bool)
        ensures
            r <==> (*self == *other),
    {
        *self == *other
    }

    fn key_clone(&self) -> (r: Self)
        ensures
            r == *self,
    {
        *self
    }
}

impl TrieKey for u32 {
    fn key_eq(&self, other: &Self) -> (r: bool)
        ensures
            r <==> (*self == *other),
    {
        *self == *other
    }

    fn key_clone(&self) -> (r: Self)
        ensures
            r == *self,
    {
        *self
    }
}

impl TrieKey for u64 {
    fn key_eq(&self, other: &Self) -> (r: bool)
        ensures
            r <==> (*self == *other),
    {
        *self == *other
    }

    fn key_clone(&self) -> (r: Self)
        ensures
            r == *self,
    {
        *self
    }
}

impl TrieKey for usize {
    fn key_eq(&self, other: &Self) -> (r: bool)
        ensures
            r <==> (*self == *other),
    {
        *self == *other
    }

    fn key_clone(&self) -> (r: Self)
        ensures
            r == *self,
    {
        *self
    }
}

impl TrieKey for i32 {
    fn key_eq(&self, other: &Self) -> (r: bool)
        ensures
            r <==> (*self == *other),
    {
        *self == *other
    }

    fn key_clone(&self) -> (r: Self)
        ensures
            r == *self,
    {
        *self
    }
}

impl TrieKey for i64 {
    fn key_eq(&self, other: &Self) -> (r: bool)
        ensures
            r <==> (*self == *other),
    {
        *self == *other
    }

    fn key_clone(&self) -> (r: Self)
        ensures
            r == *self,
    {
        *self
    }
}

} // verus!
