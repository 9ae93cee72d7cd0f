//! The callback a user registers on a hook.
//!
//! A callback is a pure transform on values of one declared kind. Users
//! implement this trait on their own type (typically an enum of the callbacks
//! their program registers); the registry stores one such type per registry
//! and dispatch drives the calls. The spec items describe the callback's
//! behaviour; the two executable methods must return what those specs say.

use vstd::prelude::*;
use crate::value::FilterValue;
use crate::value::ValueKind;
use crate::value::ValueModel;
use crate::value::kind_of;

verus! {

/// A registered transform `T -> T`, where `T` is the declared kind.
pub trait FilterCallback: Sized {
    /// The one value kind this callback accepts and returns.
    spec fn declared_kind(&self) -> ValueKind;

    /// What the callback computes on a value of its declared kind.
    spec fn transform(&self, v: ValueModel) -> ValueModel;

    /// The declared kind, as dispatch reads it.
    fn kind(&self) -> (k: ValueKind)
        ensures
            k == self.declared_kind(),
    ;

    /// Runs the transform. Dispatch only calls it on a value of the declared
    /// kind, and the result is again of that kind: a filter never changes the
    /// type of the value flowing through its hook.
    fn call(&self, v: FilterValue) -> (r: FilterValue)
        requires
            kind_of(v@) == self.declared_kind(),
        ensures
            r@ == self.transform(v@),
            kind_of(r@) == kind_of(v@),
    ;
}

} // verus!
