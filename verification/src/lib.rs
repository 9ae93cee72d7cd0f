//! A filter registry: named hooks to which callbacks ("filters") are
//! registered, each bound to one declared value type, applied in ascending
//! priority order (ties broken by registration order) to transform a value
//! flowing through the hook.

use vstd::prelude::*;

pub mod callback;
pub mod registry;
pub mod value;

pub use callback::FilterCallback;
pub use registry::FilterEntry;
pub use registry::FilterRegistry;
pub use value::DispatchError;
pub use value::FilterValue;
pub use value::ValueKind;
pub use value::ValueModel;

verus! {

} // verus!
