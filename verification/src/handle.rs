//! Handles: positions in an arena, typed by what the arena holds.

use std::marker::PhantomData;
use vstd::prelude::*;

verus! {

/// The position of a `T` in the arena that owns it. Cheap to copy; it holds
/// no reference to the arena.
#[derive(Debug)]
pub struct Handle<T>(u32, PhantomData<T>);

impl<T> Handle<T> {
    /// The position the handle stands for.
    pub closed spec fn index(self) -> nat {
        self.0 as nat
    }

    /// The handle of the position `id`.
    pub fn new(id: u32) -> (r: Self)
        ensures
            r.index() == id,
    {
        Self(id, PhantomData)
    }

    /// The position as an index into the arena.
    pub fn as_index(&self) -> (r: usize)
        ensures
            r == self.index(),
    {
        self.0 as usize
    }
}

impl<T> Clone for Handle<T> {
    fn clone(&self) -> (r: Self)
        ensures
            r == *self,
    {
        Self::new(self.0)
    }
}

impl<T> Copy for Handle<T> {
}

impl<T> PartialEq for Handle<T> {
    fn eq(&self, other: &Self) -> (r: bool) {
        self.0 == other.0
    }
}

impl<T> vstd::std_specs::cmp::PartialEqSpecImpl for Handle<T> {
    open spec fn obeys_eq_spec() -> bool {
        true
    }

    open spec fn eq_spec(&self, other: &Self) -> bool {
        self.index() == other.index()
    }
}

impl<T> Eq for Handle<T> {
}

} // verus!
