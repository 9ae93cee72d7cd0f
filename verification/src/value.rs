//! The values that flow through a hook's filter chain.
//!
//! A filter transforms a value of one declared type into a new value of the
//! same type. The registry stores filters for different declared types side by
//! side under one hook name, so the value type is a tagged variant: the tag
//! (`ValueKind`) is compared against each filter's declared kind before the
//! filter runs.

use vstd::prelude::*;

verus! {

/// The declared type of a filter value: the tag that dispatch compares
/// against each filter's declared kind.
#[derive(Clone, Copy, Debug, PartialEq, Eq, Structural)]
pub enum ValueKind {
    Int,
    Text,
}

/// A value handed to `apply_filters` and threaded through the filter chain.
#[derive(Debug, PartialEq, Eq)]
pub enum FilterValue {
    Int(i64),
    Text(String),
}

/// The mathematical model of a `FilterValue`.
pub enum ValueModel {
    Int(int),
    Text(Seq<char>),
}

/// The kind tag of a model value.
pub open spec fn kind_of(v: ValueModel) -> ValueKind {
    match v {
        ValueModel::Int(_) => ValueKind::Int,
        ValueModel::Text(_) => ValueKind::Text,
    }
}

impl View for FilterValue {
    type V = ValueModel;

    open spec fn view(&self) -> ValueModel {
        match self {
            FilterValue::Int(n) => ValueModel::Int(*n as int),
            FilterValue::Text(s) => ValueModel::Text(s@),
        }
    }
}

impl FilterValue {
    /// The kind tag of this value.
    pub fn kind(&self) -> (k: ValueKind)
        ensures
            k == kind_of(self@),
    {
        match self {
            FilterValue::Int(_) => ValueKind::Int,
            FilterValue::Text(_) => ValueKind::Text,
        }
    }
}

/// The one fault dispatch can report: a filter's declared kind differs from
/// the kind of the value being dispatched on its hook.
#[derive(Clone, Copy, Debug, PartialEq, Eq, Structural)]
pub enum DispatchError {
    TypeMismatch,
}

} // verus!
