//! The bind style: a wrapped value is threaded through a chain of
//! functions, each application going through `bind`. The contract of
//! `bind` carries the bound function's own contract through the chain.

use vstd::prelude::*;

verus! {

/// A value being threaded through a chain of binds.
pub struct TheOne<T> {
    pub value: T,
}

impl<T> TheOne<T> {
    pub fn new(value: T) -> (r: TheOne<T>)
        ensures
            r.value == value,
    {
        TheOne { value }
    }

    /// Applies `f` to the held value and wraps the result.
    pub fn bind<O, F: FnOnce(T) -> O>(self, f: F) -> (r: TheOne<O>)
        requires
            f.requires((self.value,)),
        ensures
            f.ensures((self.value,), r.value),
    {
        let TheOne { value } = self;
        let out = f(value);
        TheOne { value: out }
    }
}

} // verus!
