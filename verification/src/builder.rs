//! Conditional setters for builders: `when_some` applies a setter only when
//! an optional value is present, so that chains of builder calls need no
//! `if let Some(..)` around the optional parts.
use vstd::prelude::*;

verus! {

/// For builders whose setters take and return the builder by value.
///
/// Implement it with an empty body, `impl Builder for MyBuilder {}`.
pub trait Builder: Sized {
    /// Calls `func` with the builder and the value inside `value` when there
    /// is one, and returns what it returns; returns the builder itself, and
    /// never calls `func`, when `value` is `None`.
    fn when_some<V>(self, value: Option<V>, func: impl FnOnce(Self, V) -> Self) -> (r: Self)
        requires
            value matches Some(v) ==> call_requires(func, (self, v)),
        ensures
            match value {
                Some(v) => call_ensures(func, (self, v), r),
                None => r == self,
            },
    {
        match value {
            Some(v) => func(self, v),
            None => self,
        }
    }
}

/// For builders whose setters take and return `&mut Self`.
///
/// Implement it with an empty body, `impl BuilderMut for MyBuilder {}`.
pub trait BuilderMut: Sized {
    /// Calls `func` with the builder and the value inside `value` when there
    /// is one, and returns what it returns; returns the builder itself,
    /// unchanged, and never calls `func`, when `value` is `None`.
    fn when_some<V>(&mut self, value: Option<V>, func: impl FnOnce(&mut Self, V) -> &mut Self) -> (r: &mut Self)
        requires
            value matches Some(v) ==> forall|b: &mut Self| *b == *old(self) ==> call_requires(func, (b, v)),
        ensures
            value is None ==> *r == *old(self) && *final(self) == *final(r),
            value matches Some(v) ==> exists|b: &mut Self|
                *b == *old(self) && *final(b) == *final(self) && #[trigger] call_ensures(func, (b, v), r),
    {
        match value {
            Some(v) => func(self, v),
            None => self,
        }
    }
}

} // verus!
