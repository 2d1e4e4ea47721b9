//! Typed scalar values used as interval endpoints.
//!
//! A scalar carries a datatype and an optional value. A missing value
//! stands for an infinite bound: read as negative infinity at the lower
//! end of an interval and as positive infinity at the upper end.

use vstd::prelude::*;

use crate::errors::DataFusionError;

verus! {

/// The datatype of a scalar value.
#[derive(Clone, Copy, Debug, PartialEq, Eq, Structural)]
pub enum DataType {
    Int32,
    Int64,
    Boolean,
}

/// A typed scalar value. `None` denotes a missing (infinite) bound.
#[derive(Clone, Copy, Debug)]
pub enum ScalarValue {
    Int32(Option<i32>),
    Int64(Option<i64>),
    Boolean(Option<bool>),
}

impl ScalarValue {
    /// The datatype this scalar belongs to.
    pub open spec fn spec_datatype(self) -> DataType {
        match self {
            ScalarValue::Int32(_) => DataType::Int32,
            ScalarValue::Int64(_) => DataType::Int64,
            ScalarValue::Boolean(_) => DataType::Boolean,
        }
    }

    /// True when the scalar carries no value, i.e. stands for an
    /// infinite bound.
    pub open spec fn is_unbounded(self) -> bool {
        match self {
            ScalarValue::Int32(v) => v is None,
            ScalarValue::Int64(v) => v is None,
            ScalarValue::Boolean(v) => v is None,
        }
    }

    /// The numeric value of a bounded numeric scalar, as a mathematical
    /// integer. Meaningful only when `self` is numeric and bounded.
    pub open spec fn as_int(self) -> int {
        match self {
            ScalarValue::Int32(v) => v->0 as int,
            ScalarValue::Int64(v) => v->0 as int,
            ScalarValue::Boolean(_) => 0,
        }
    }

    /// The value of a bounded boolean scalar. Meaningful only when
    /// `self` is boolean and bounded.
    pub open spec fn as_bool(self) -> bool {
        match self {
            ScalarValue::Boolean(v) => v->0,
            _ => false,
        }
    }

    pub fn get_datatype(&self) -> (d: DataType)
        ensures
            d == self.spec_datatype(),
    {
        match self {
            ScalarValue::Int32(_) => DataType::Int32,
            ScalarValue::Int64(_) => DataType::Int64,
            ScalarValue::Boolean(_) => DataType::Boolean,
        }
    }

    /// The zero value of a numeric datatype; boolean has none.
    pub fn new_zero(dt: DataType) -> (r: Result<ScalarValue, DataFusionError>)
        ensures
            dt != DataType::Boolean ==> {
                &&& r is Ok
                &&& r->Ok_0.spec_datatype() == dt
                &&& !r->Ok_0.is_unbounded()
                &&& r->Ok_0.as_int() == 0
            },
            dt == DataType::Boolean ==> r is Err,
    {
        match dt {
            DataType::Int32 => Ok(ScalarValue::Int32(Some(0))),
            DataType::Int64 => Ok(ScalarValue::Int64(Some(0))),
            DataType::Boolean => Err(DataFusionError::UnsupportedType(DataType::Boolean)),
        }
    }

    /// The unbounded (infinite) scalar of a datatype.
    pub fn new_unbounded(dt: DataType) -> (r: ScalarValue)
        ensures
            r.spec_datatype() == dt,
            r.is_unbounded(),
    {
        match dt {
            DataType::Int32 => ScalarValue::Int32(None),
            DataType::Int64 => ScalarValue::Int64(None),
            DataType::Boolean => ScalarValue::Boolean(None),
        }
    }

    /// The smallest value representable in a numeric datatype.
    pub open spec fn type_min(dt: DataType) -> int {
        match dt {
            DataType::Int32 => i32::MIN as int,
            DataType::Int64 => i64::MIN as int,
            DataType::Boolean => 0,
        }
    }

    /// The largest value representable in a numeric datatype.
    pub open spec fn type_max(dt: DataType) -> int {
        match dt {
            DataType::Int32 => i32::MAX as int,
            DataType::Int64 => i64::MAX as int,
            DataType::Boolean => 0,
        }
    }
}

impl PartialEq for ScalarValue {
    fn eq(&self, other: &ScalarValue) -> (r: bool) {
        match (self, other) {
            (ScalarValue::Int32(a), ScalarValue::Int32(b)) => {
                match (a, b) {
                    (Some(x), Some(y)) => x == y,
                    (None, None) => true,
                    _ => false,
                }
            },
            (ScalarValue::Int64(a), ScalarValue::Int64(b)) => {
                match (a, b) {
                    (Some(x), Some(y)) => x == y,
                    (None, None) => true,
                    _ => false,
                }
            },
            (ScalarValue::Boolean(a), ScalarValue::Boolean(b)) => {
                match (a, b) {
                    (Some(x), Some(y)) => x == y,
                    (None, None) => true,
                    _ => false,
                }
            },
            _ => false,
        }
    }
}

impl vstd::std_specs::cmp::PartialEqSpecImpl for ScalarValue {
    open spec fn obeys_eq_spec() -> bool {
        true
    }

    open spec fn eq_spec(&self, other: &ScalarValue) -> bool {
        *self == *other
    }
}

} // verus!
