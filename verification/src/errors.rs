//! Structured errors returned by the library.

use vstd::prelude::*;

use crate::scalar::DataType;

verus! {

/// A fatal error: these are always surfaced to the caller, never
/// swallowed. Infeasibility is not an error; it is reported through
/// `PropagationResult`.
#[derive(Clone, Debug)]
pub enum DataFusionError {
    /// A feature or input shape the library does not support.
    NotImplemented(String),
    /// Two operands of an interval operation had different datatypes.
    TypeMismatch(DataType, DataType),
    /// The datatype cannot be used in this position.
    UnsupportedType(DataType),
}

} // verus!
