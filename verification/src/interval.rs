//! Closed intervals over typed scalars, with interval arithmetic,
//! intersection and containment.
//!
//! An interval is a pair `[lower, upper]` of scalars of one datatype.
//! An unbounded scalar stands for negative infinity in the lower
//! position and positive infinity in the upper position. Arithmetic
//! that would overflow the datatype widens the affected bound: a bound
//! that overflows toward its own infinite side becomes unbounded, and a
//! bound that overflows toward the opposite side is clamped to the
//! nearest representable value. Both choices only ever enlarge the
//! interval, so evaluation stays sound.

use vstd::prelude::*;

use crate::errors::DataFusionError;
use crate::expr::Operator;
use crate::scalar::DataType;
use crate::scalar::ScalarValue;

verus! {

/// A closed interval `[lower, upper]`; either end may be unbounded.
#[derive(Clone, Copy, Debug, PartialEq)]
pub struct Interval {
    pub lower: ScalarValue,
    pub upper: ScalarValue,
}

impl Interval {
    /// The datatype of the interval (its lower endpoint's datatype;
    /// well-formed intervals give both endpoints the same datatype).
    pub open spec fn dt(self) -> DataType {
        self.lower.spec_datatype()
    }

    /// The lower endpoint as a mathematical integer, `None` meaning
    /// negative infinity. Meaningful for numeric intervals.
    pub open spec fn lo(self) -> Option<int> {
        if self.lower.is_unbounded() {
            None
        } else {
            Some(self.lower.as_int())
        }
    }

    /// The upper endpoint as a mathematical integer, `None` meaning
    /// positive infinity. Meaningful for numeric intervals.
    pub open spec fn hi(self) -> Option<int> {
        if self.upper.is_unbounded() {
            None
        } else {
            Some(self.upper.as_int())
        }
    }

    /// The effective lower endpoint of a boolean interval; an
    /// unbounded end reads as `false`.
    pub open spec fn lo_bool(self) -> bool {
        if self.lower.is_unbounded() {
            false
        } else {
            self.lower.as_bool()
        }
    }

    /// The effective upper endpoint of a boolean interval; an
    /// unbounded end reads as `true`.
    pub open spec fn hi_bool(self) -> bool {
        if self.upper.is_unbounded() {
            true
        } else {
            self.upper.as_bool()
        }
    }

    /// Well-formedness: endpoints share one datatype and, when both
    /// are bounded, the lower one does not exceed the upper one.
    pub open spec fn wf(self) -> bool {
        &&& self.lower.spec_datatype() == self.upper.spec_datatype()
        &&& self.dt() != DataType::Boolean && !self.lower.is_unbounded()
            && !self.upper.is_unbounded() ==> self.lower.as_int() <= self.upper.as_int()
        &&& self.dt() == DataType::Boolean ==> (self.lo_bool() ==> self.hi_bool())
    }

    /// Whether a numeric interval contains the point `x`.
    pub open spec fn contains_int(self, x: int) -> bool {
        &&& self.dt() != DataType::Boolean
        &&& (self.lo() is None || self.lo()->0 <= x)
        &&& (self.hi() is None || x <= self.hi()->0)
    }

    /// Whether a boolean interval contains the truth value `b`.
    pub open spec fn contains_bool(self, b: bool) -> bool {
        &&& self.dt() == DataType::Boolean
        &&& (self.lo_bool() ==> b)
        &&& (b ==> self.hi_bool())
    }

    /// Whether `inner` lies entirely inside `outer` (same datatype).
    pub open spec fn subset_of(self, outer: Interval) -> bool {
        &&& self.dt() == outer.dt()
        &&& if self.dt() == DataType::Boolean {
            &&& (outer.lo_bool() ==> self.lo_bool())
            &&& (self.hi_bool() ==> outer.hi_bool())
        } else {
            &&& (outer.lo() is None || (self.lo() is Some && outer.lo()->0 <= self.lo()->0))
            &&& (outer.hi() is None || (self.hi() is Some && self.hi()->0 <= outer.hi()->0))
        }
    }

    pub fn get_datatype(&self) -> (d: DataType)
        ensures
            d == self.dt(),
    {
        self.lower.get_datatype()
    }

    /// Whether the interval pins down a single value.
    pub fn is_singleton(&self) -> (r: bool)
        ensures
            r == (!self.lower.is_unbounded() && !self.upper.is_unbounded() && (if self.dt()
                == DataType::Boolean {
                self.lower.as_bool() == self.upper.as_bool()
            } else {
                self.lower.as_int() == self.upper.as_int()
            }) && self.lower.spec_datatype() == self.upper.spec_datatype()),
    {
        match (&self.lower, &self.upper) {
            (ScalarValue::Int32(Some(a)), ScalarValue::Int32(Some(b))) => a == b,
            (ScalarValue::Int64(Some(a)), ScalarValue::Int64(Some(b))) => a == b,
            (ScalarValue::Boolean(Some(a)), ScalarValue::Boolean(Some(b))) => a == b,
            _ => false,
        }
    }

    /// The default interval: unbounded, over the generic numeric
    /// domain used for uninitialized non-leaf nodes.
    pub open spec fn spec_default() -> Interval {
        Interval { lower: ScalarValue::Int32(None), upper: ScalarValue::Int32(None) }
    }

    /// An unbounded interval of the given datatype.
    pub fn unbounded_of(dt: DataType) -> (r: Interval)
        ensures
            r.dt() == dt,
            r.wf(),
            r.lo() is None,
            r.hi() is None,
            r.lower.is_unbounded(),
            r.upper.is_unbounded(),
    {
        Interval {
            lower: ScalarValue::new_unbounded(dt),
            upper: ScalarValue::new_unbounded(dt),
        }
    }
}

/// The default interval is unbounded over a generic numeric domain;
/// it is the starting range of every non-literal node.
impl Default for Interval {
    fn default() -> (r: Interval)
        ensures
            r == Interval::spec_default(),
            r.wf(),
            r.lo() is None,
            r.hi() is None,
    {
        Interval { lower: ScalarValue::Int32(None), upper: ScalarValue::Int32(None) }
    }
}

/// Sum of two optional bounds; infinity absorbs.
pub open spec fn add_opt(x: Option<int>, y: Option<int>) -> Option<int> {
    if x is None || y is None {
        None
    } else {
        Some(x->0 + y->0)
    }
}

/// Difference of two optional bounds; infinity absorbs.
pub open spec fn sub_opt(x: Option<int>, y: Option<int>) -> Option<int> {
    if x is None || y is None {
        None
    } else {
        Some(x->0 - y->0)
    }
}

/// Saturation of a lower bound into a datatype: a value below the
/// representable range widens to negative infinity, a value above it
/// is clamped to the type's maximum.
pub open spec fn sat_lo(dt: DataType, x: Option<int>) -> Option<int> {
    match x {
        None => None,
        Some(v) => if v < ScalarValue::type_min(dt) {
            None
        } else if v > ScalarValue::type_max(dt) {
            Some(ScalarValue::type_max(dt))
        } else {
            Some(v)
        },
    }
}

/// Saturation of an upper bound into a datatype: a value above the
/// representable range widens to positive infinity, a value below it
/// is clamped to the type's minimum.
pub open spec fn sat_hi(dt: DataType, x: Option<int>) -> Option<int> {
    match x {
        None => None,
        Some(v) => if v > ScalarValue::type_max(dt) {
            None
        } else if v < ScalarValue::type_min(dt) {
            Some(ScalarValue::type_min(dt))
        } else {
            Some(v)
        },
    }
}

/// The larger of two lower bounds; `None` is negative infinity.
pub open spec fn max_lo(x: Option<int>, y: Option<int>) -> Option<int> {
    match (x, y) {
        (None, _) => y,
        (_, None) => x,
        (Some(a), Some(b)) => if a >= b {
            Some(a)
        } else {
            Some(b)
        },
    }
}

/// The smaller of two upper bounds; `None` is positive infinity.
pub open spec fn min_hi(x: Option<int>, y: Option<int>) -> Option<int> {
    match (x, y) {
        (None, _) => y,
        (_, None) => x,
        (Some(a), Some(b)) => if a <= b {
            Some(a)
        } else {
            Some(b)
        },
    }
}

/// Builds a numeric interval of datatype `dt` from optional integer
/// bounds; the bounds must fit the datatype.
pub open spec fn mk_num(dt: DataType, lo: Option<int>, hi: Option<int>) -> Interval {
    Interval {
        lower: match dt {
            DataType::Int32 => ScalarValue::Int32(
                match lo {
                    None => None,
                    Some(v) => Some(v as i32),
                },
            ),
            DataType::Int64 => ScalarValue::Int64(
                match lo {
                    None => None,
                    Some(v) => Some(v as i64),
                },
            ),
            DataType::Boolean => ScalarValue::Boolean(None),
        },
        upper: match dt {
            DataType::Int32 => ScalarValue::Int32(
                match hi {
                    None => None,
                    Some(v) => Some(v as i32),
                },
            ),
            DataType::Int64 => ScalarValue::Int64(
                match hi {
                    None => None,
                    Some(v) => Some(v as i64),
                },
            ),
            DataType::Boolean => ScalarValue::Boolean(None),
        },
    }
}

/// Builds a boolean interval from its two truth-valued endpoints.
pub open spec fn mk_bool(lo: bool, hi: bool) -> Interval {
    Interval { lower: ScalarValue::Boolean(Some(lo)), upper: ScalarValue::Boolean(Some(hi)) }
}

/// Elementwise interval addition with saturation.
pub open spec fn spec_add(a: Interval, b: Interval) -> Interval {
    mk_num(a.dt(), sat_lo(a.dt(), add_opt(a.lo(), b.lo())), sat_hi(a.dt(), add_opt(a.hi(), b.hi())))
}

/// Elementwise interval subtraction with saturation.
pub open spec fn spec_sub(a: Interval, b: Interval) -> Interval {
    mk_num(a.dt(), sat_lo(a.dt(), sub_opt(a.lo(), b.hi())), sat_hi(a.dt(), sub_opt(a.hi(), b.lo())))
}

/// The boolean interval of `a > b`: certainly false when `a` lies
/// entirely below `b`, certainly true when `a - b` is contained in the
/// closed target `[0, +inf)`, undecided otherwise.
pub open spec fn spec_gt(a: Interval, b: Interval) -> Interval {
    if a.hi() is Some && b.lo() is Some && a.hi()->0 < b.lo()->0 {
        mk_bool(false, false)
    } else if a.lo() is Some && b.hi() is Some && a.lo()->0 >= b.hi()->0 {
        mk_bool(true, true)
    } else {
        mk_bool(false, true)
    }
}

/// The boolean interval of `a < b`: certainly true when `a - b` is
/// contained in the closed target `(-inf, 0]`, certainly false when
/// `a` lies entirely above `b`, undecided otherwise.
pub open spec fn spec_lt(a: Interval, b: Interval) -> Interval {
    if a.lo() is Some && b.hi() is Some && a.lo()->0 > b.hi()->0 {
        mk_bool(false, false)
    } else if a.hi() is Some && b.lo() is Some && a.hi()->0 <= b.lo()->0 {
        mk_bool(true, true)
    } else {
        mk_bool(false, true)
    }
}

/// The boolean interval of the conjunction of two boolean intervals.
pub open spec fn spec_and(a: Interval, b: Interval) -> Interval {
    mk_bool(a.lo_bool() && b.lo_bool(), a.hi_bool() && b.hi_bool())
}

/// What applying `op` to two intervals yields; `None` marks a datatype
/// error.
pub open spec fn spec_apply(op: Operator, a: Interval, b: Interval) -> Option<Interval> {
    if a.dt() != b.dt() {
        None
    } else if op is And {
        if a.dt() == DataType::Boolean {
            Some(spec_and(a, b))
        } else {
            None
        }
    } else if a.dt() == DataType::Boolean {
        None
    } else {
        match op {
            Operator::Plus => Some(spec_add(a, b)),
            Operator::Minus => Some(spec_sub(a, b)),
            Operator::Gt => Some(spec_gt(a, b)),
            Operator::Lt => Some(spec_lt(a, b)),
            Operator::And => None,
        }
    }
}

/// Intersection of two intervals of one datatype; `None` marks an
/// empty (infeasible) intersection.
pub open spec fn spec_intersect(a: Interval, b: Interval) -> Option<Interval> {
    if a.dt() == DataType::Boolean {
        let lo = a.lo_bool() || b.lo_bool();
        let hi = a.hi_bool() && b.hi_bool();
        if lo && !hi {
            None
        } else {
            Some(mk_bool(lo, hi))
        }
    } else {
        let lo = max_lo(a.lo(), b.lo());
        let hi = min_hi(a.hi(), b.hi());
        if lo is Some && hi is Some && lo->0 > hi->0 {
            None
        } else {
            Some(mk_num(a.dt(), lo, hi))
        }
    }
}

/// Recovering the bounds of a numeric interval built by `mk_num`.
pub proof fn lemma_mk_num(dt: DataType, lo: Option<int>, hi: Option<int>)
    requires
        dt != DataType::Boolean,
        lo matches Some(v) ==> ScalarValue::type_min(dt) <= v <= ScalarValue::type_max(dt),
        hi matches Some(v) ==> ScalarValue::type_min(dt) <= v <= ScalarValue::type_max(dt),
    ensures
        mk_num(dt, lo, hi).dt() == dt,
        mk_num(dt, lo, hi).lo() == lo,
        mk_num(dt, lo, hi).hi() == hi,
{
}

/// An interval produced by `spec_apply` on well-formed inputs is
/// well-formed, and its datatype follows the operator kind.
pub proof fn lemma_apply_wf(op: Operator, a: Interval, b: Interval)
    requires
        a.wf(),
        b.wf(),
        spec_apply(op, a, b) is Some,
    ensures
        spec_apply(op, a, b)->0.wf(),
        op.is_arithmetic() ==> spec_apply(op, a, b)->0.dt() == a.dt() && a.dt() == b.dt() && a.dt()
            != DataType::Boolean,
        !op.is_arithmetic() ==> spec_apply(op, a, b)->0.dt() == DataType::Boolean,
{
    if op.is_arithmetic() {
        let dt = a.dt();
        let slo = if op is Plus {
            sat_lo(dt, add_opt(a.lo(), b.lo()))
        } else {
            sat_lo(dt, sub_opt(a.lo(), b.hi()))
        };
        let shi = if op is Plus {
            sat_hi(dt, add_opt(a.hi(), b.hi()))
        } else {
            sat_hi(dt, sub_opt(a.hi(), b.lo()))
        };
        lemma_mk_num(dt, slo, shi);
        if slo is Some && shi is Some {
            assert(slo->0 <= shi->0);
        }
    }
}

/// An intersection of two well-formed intervals of one datatype is
/// well-formed and contained in both operands.
pub proof fn lemma_intersect_props(a: Interval, b: Interval)
    requires
        a.wf(),
        b.wf(),
        a.dt() == b.dt(),
    ensures
        spec_intersect(a, b) matches Some(v) ==> v.wf() && v.subset_of(a) && v.subset_of(b)
            && v.dt() == a.dt(),
{
    if a.dt() != DataType::Boolean {
        let lo = max_lo(a.lo(), b.lo());
        let hi = min_hi(a.hi(), b.hi());
        if !(lo is Some && hi is Some && lo->0 > hi->0) {
            lemma_mk_num(a.dt(), lo, hi);
        }
    }
}

/// Intersection is commutative.
pub proof fn lemma_intersect_comm(a: Interval, b: Interval)
    requires
        a.wf(),
        b.wf(),
        a.dt() == b.dt(),
    ensures
        spec_intersect(a, b) == spec_intersect(b, a),
{
}

/// An empty intersection means the two intervals share no point.
pub proof fn lemma_intersect_empty(a: Interval, b: Interval, x: int)
    requires
        a.wf(),
        b.wf(),
        a.dt() == b.dt(),
        a.dt() != DataType::Boolean,
        spec_intersect(a, b) is None,
    ensures
        !(a.contains_int(x) && b.contains_int(x)),
{
}

/// The interval inverse law: adding `b` and then subtracting it again
/// loses no part of `a`, so intersecting the round trip with `a` gives
/// back exactly `a`. This needs every input bound to be finite.
pub proof fn lemma_add_sub_inverse(a: Interval, b: Interval)
    requires
        a.wf(),
        b.wf(),
        a.dt() == b.dt(),
        a.dt() != DataType::Boolean,
        a.lo() is Some,
        a.hi() is Some,
        b.lo() is Some,
        b.hi() is Some,
    ensures
        spec_intersect(spec_sub(spec_add(a, b), b), a) == Some(a),
{
    let dt = a.dt();
    let s = spec_add(a, b);
    lemma_apply_wf(Operator::Plus, a, b);
    let d = spec_sub(s, b);
    lemma_apply_wf(Operator::Minus, s, b);
    lemma_mk_num(
        dt,
        sat_lo(dt, add_opt(a.lo(), b.lo())),
        sat_hi(dt, add_opt(a.hi(), b.hi())),
    );
    lemma_mk_num(dt, sat_lo(dt, sub_opt(s.lo(), b.hi())), sat_hi(dt, sub_opt(s.hi(), b.lo())));
    assert(d.lo() is Some ==> d.lo()->0 <= a.lo()->0);
    assert(d.hi() is Some ==> d.hi()->0 >= a.hi()->0);
    assert(max_lo(d.lo(), a.lo()) == a.lo());
    assert(min_hi(d.hi(), a.hi()) == a.hi());
    lemma_mk_num(dt, a.lo(), a.hi());
    assert(mk_num(dt, a.lo(), a.hi()) == a) by {
        match dt {
            DataType::Int32 => {
                assert(a.lower == ScalarValue::Int32(Some(a.lo()->0 as i32)));
                assert(a.upper == ScalarValue::Int32(Some(a.hi()->0 as i32)));
            },
            DataType::Int64 => {
                assert(a.lower == ScalarValue::Int64(Some(a.lo()->0 as i64)));
                assert(a.upper == ScalarValue::Int64(Some(a.hi()->0 as i64)));
            },
            DataType::Boolean => {},
        }
    }
}

/// Intersecting with a superset changes nothing: when `inner` already
/// lies inside `outer`, their intersection is exactly `inner`.
pub proof fn lemma_intersect_absorb(outer: Interval, inner: Interval)
    requires
        outer.wf(),
        inner.wf(),
        outer.dt() == inner.dt(),
        outer.dt() != DataType::Boolean,
        inner.subset_of(outer),
    ensures
        spec_intersect(outer, inner) == Some(inner),
{
    let dt = inner.dt();
    assert(max_lo(outer.lo(), inner.lo()) == inner.lo());
    assert(min_hi(outer.hi(), inner.hi()) == inner.hi());
    lemma_mk_num(dt, inner.lo(), inner.hi());
    assert(mk_num(dt, inner.lo(), inner.hi()) == inner) by {
        match dt {
            DataType::Int32 => {
                match (inner.lower, inner.upper) {
                    (ScalarValue::Int32(_), ScalarValue::Int32(_)) => {},
                    _ => {},
                }
            },
            DataType::Int64 => {
                match (inner.lower, inner.upper) {
                    (ScalarValue::Int64(_), ScalarValue::Int64(_)) => {},
                    _ => {},
                }
            },
            DataType::Boolean => {},
        }
    }
}

/// After the right child is tightened against the parent and the new
/// left child, subtracting it from the parent still covers the left
/// child: `nl` lies inside `p - nr` whenever `nl` lies inside `p - r`
/// and `nr` is `(p - nl)` meet `r`. This is the heart of the `+`
/// kernel's idempotence.
pub proof fn lemma_sub_of_refined(p: Interval, nl: Interval, nr: Interval, r: Interval)
    requires
        p.wf(),
        nl.wf(),
        nr.wf(),
        r.wf(),
        p.dt() == nl.dt(),
        p.dt() == r.dt(),
        p.dt() != DataType::Boolean,
        nl.subset_of(spec_sub(p, r)),
        spec_intersect(spec_sub(p, nl), r) == Some(nr),
    ensures
        nl.subset_of(spec_sub(p, nr)),
{
    let dt = p.dt();
    lemma_apply_wf(Operator::Minus, p, r);
    lemma_apply_wf(Operator::Minus, p, nl);
    lemma_intersect_props(spec_sub(p, nl), r);
    lemma_mk_num(dt, sat_lo(dt, sub_opt(p.lo(), r.hi())), sat_hi(dt, sub_opt(p.hi(), r.lo())));
    lemma_mk_num(dt, sat_lo(dt, sub_opt(p.lo(), nl.hi())), sat_hi(dt, sub_opt(p.hi(), nl.lo())));
    lemma_mk_num(dt, sat_lo(dt, sub_opt(p.lo(), nr.hi())), sat_hi(dt, sub_opt(p.hi(), nr.lo())));
    lemma_mk_num(
        dt,
        max_lo(spec_sub(p, nl).lo(), r.lo()),
        min_hi(spec_sub(p, nl).hi(), r.hi()),
    );
}

/// The `-` kernel's counterpart of `lemma_sub_of_refined`: `nl` lies
/// inside `p + nr` whenever `nl` lies inside `p + r` and `nr` is
/// `(nl - p)` meet `r`.
pub proof fn lemma_add_of_refined(p: Interval, nl: Interval, nr: Interval, r: Interval)
    requires
        p.wf(),
        nl.wf(),
        nr.wf(),
        r.wf(),
        p.dt() == nl.dt(),
        p.dt() == r.dt(),
        p.dt() != DataType::Boolean,
        nl.subset_of(spec_add(p, r)),
        spec_intersect(spec_sub(nl, p), r) == Some(nr),
    ensures
        nl.subset_of(spec_add(p, nr)),
{
    let dt = p.dt();
    lemma_apply_wf(Operator::Plus, p, r);
    lemma_apply_wf(Operator::Minus, nl, p);
    lemma_intersect_props(spec_sub(nl, p), r);
    lemma_mk_num(dt, sat_lo(dt, add_opt(p.lo(), r.lo())), sat_hi(dt, add_opt(p.hi(), r.hi())));
    lemma_mk_num(dt, sat_lo(dt, sub_opt(nl.lo(), p.hi())), sat_hi(dt, sub_opt(nl.hi(), p.lo())));
    lemma_mk_num(dt, sat_lo(dt, add_opt(p.lo(), nr.lo())), sat_hi(dt, add_opt(p.hi(), nr.hi())));
    lemma_mk_num(
        dt,
        max_lo(spec_sub(nl, p).lo(), r.lo()),
        min_hi(spec_sub(nl, p).hi(), r.hi()),
    );
}

/// A point lying in two intervals lies in their intersection, which
/// in particular is not empty.
pub proof fn lemma_intersect_point(a: Interval, b: Interval, x: int)
    requires
        a.wf(),
        b.wf(),
        a.dt() == b.dt(),
        a.dt() != DataType::Boolean,
        a.contains_int(x),
        b.contains_int(x),
    ensures
        spec_intersect(a, b) matches Some(v) && v.contains_int(x),
{
    let lo = max_lo(a.lo(), b.lo());
    let hi = min_hi(a.hi(), b.hi());
    lemma_mk_num(a.dt(), lo, hi);
}

/// The upper side of the `>` evaluation is sound without any proviso:
/// whenever the comparison can actually be true, the evaluated
/// interval's upper end is `true`.
pub proof fn lemma_gt_upper_sound(a: Interval, b: Interval, x: int, y: int)
    requires
        a.wf(),
        b.wf(),
        a.dt() == b.dt(),
        a.dt() != DataType::Boolean,
        a.contains_int(x),
        b.contains_int(y),
        x > y,
    ensures
        spec_gt(a, b).hi_bool(),
{
}

/// The upper side of the `<` evaluation is sound without any proviso.
pub proof fn lemma_lt_upper_sound(a: Interval, b: Interval, x: int, y: int)
    requires
        a.wf(),
        b.wf(),
        a.dt() == b.dt(),
        a.dt() != DataType::Boolean,
        a.contains_int(x),
        b.contains_int(y),
        x < y,
    ensures
        spec_lt(a, b).hi_bool(),
{
}

/// The upper side of the conjunction evaluation is sound.
pub proof fn lemma_and_upper_sound(a: Interval, b: Interval, p: bool, q: bool)
    requires
        a.dt() == DataType::Boolean,
        b.dt() == DataType::Boolean,
        p ==> a.hi_bool(),
        q ==> b.hi_bool(),
        p && q,
    ensures
        spec_and(a, b).hi_bool(),
{
}

/// Containment of intervals is transitive.
pub proof fn lemma_subset_trans(a: Interval, b: Interval, c: Interval)
    requires
        a.subset_of(b),
        b.subset_of(c),
    ensures
        a.subset_of(c),
{
}

/// Soundness of interval addition: the sum of two contained points is
/// contained in the interval sum.
pub proof fn lemma_add_sound(a: Interval, b: Interval, x: int, y: int)
    requires
        a.wf(),
        b.wf(),
        a.dt() == b.dt(),
        a.dt() != DataType::Boolean,
        a.contains_int(x),
        b.contains_int(y),
    ensures
        spec_add(a, b).contains_int(x + y),
{
    let dt = a.dt();
    lemma_mk_num(
        dt,
        sat_lo(dt, add_opt(a.lo(), b.lo())),
        sat_hi(dt, add_opt(a.hi(), b.hi())),
    );
}

/// Soundness of interval subtraction.
pub proof fn lemma_sub_sound(a: Interval, b: Interval, x: int, y: int)
    requires
        a.wf(),
        b.wf(),
        a.dt() == b.dt(),
        a.dt() != DataType::Boolean,
        a.contains_int(x),
        b.contains_int(y),
    ensures
        spec_sub(a, b).contains_int(x - y),
{
    let dt = a.dt();
    lemma_mk_num(
        dt,
        sat_lo(dt, sub_opt(a.lo(), b.hi())),
        sat_hi(dt, sub_opt(a.hi(), b.lo())),
    );
}

/// Soundness of the `>` evaluation. The closed comparison target can
/// declare `a > b` certainly true when the intervals only touch, so
/// the touching case is excluded here.
pub proof fn lemma_gt_sound(a: Interval, b: Interval, x: int, y: int)
    requires
        a.wf(),
        b.wf(),
        a.dt() == b.dt(),
        a.dt() != DataType::Boolean,
        a.contains_int(x),
        b.contains_int(y),
        !(a.lo() is Some && b.hi() is Some && a.lo()->0 == b.hi()->0),
    ensures
        spec_gt(a, b).contains_bool(x > y),
{
}

/// Soundness of the `<` evaluation, with the touching case excluded.
pub proof fn lemma_lt_sound(a: Interval, b: Interval, x: int, y: int)
    requires
        a.wf(),
        b.wf(),
        a.dt() == b.dt(),
        a.dt() != DataType::Boolean,
        a.contains_int(x),
        b.contains_int(y),
        !(a.hi() is Some && b.lo() is Some && a.hi()->0 == b.lo()->0),
    ensures
        spec_lt(a, b).contains_bool(x < y),
{
}

/// Soundness of the conjunction evaluation.
pub proof fn lemma_and_sound(a: Interval, b: Interval, p: bool, q: bool)
    requires
        a.wf(),
        b.wf(),
        a.dt() == DataType::Boolean,
        b.dt() == DataType::Boolean,
        a.contains_bool(p),
        b.contains_bool(q),
    ensures
        spec_and(a, b).contains_bool(p && q),
{
}

/// Monotonicity of interval addition: shrinking the operands cannot
/// widen the sum.
pub proof fn lemma_add_monotone(a1: Interval, b1: Interval, a2: Interval, b2: Interval)
    requires
        a1.wf(),
        b1.wf(),
        a2.wf(),
        b2.wf(),
        a1.dt() == b1.dt(),
        a1.dt() != DataType::Boolean,
        a2.subset_of(a1),
        b2.subset_of(b1),
    ensures
        spec_add(a2, b2).subset_of(spec_add(a1, b1)),
{
    let dt = a1.dt();
    lemma_mk_num(
        dt,
        sat_lo(dt, add_opt(a1.lo(), b1.lo())),
        sat_hi(dt, add_opt(a1.hi(), b1.hi())),
    );
    lemma_mk_num(
        dt,
        sat_lo(dt, add_opt(a2.lo(), b2.lo())),
        sat_hi(dt, add_opt(a2.hi(), b2.hi())),
    );
}

/// Monotonicity of interval subtraction.
pub proof fn lemma_sub_monotone(a1: Interval, b1: Interval, a2: Interval, b2: Interval)
    requires
        a1.wf(),
        b1.wf(),
        a2.wf(),
        b2.wf(),
        a1.dt() == b1.dt(),
        a1.dt() != DataType::Boolean,
        a2.subset_of(a1),
        b2.subset_of(b1),
    ensures
        spec_sub(a2, b2).subset_of(spec_sub(a1, b1)),
{
    let dt = a1.dt();
    lemma_mk_num(
        dt,
        sat_lo(dt, sub_opt(a1.lo(), b1.hi())),
        sat_hi(dt, sub_opt(a1.hi(), b1.lo())),
    );
    lemma_mk_num(
        dt,
        sat_lo(dt, sub_opt(a2.lo(), b2.hi())),
        sat_hi(dt, sub_opt(a2.hi(), b2.lo())),
    );
}

/// Monotonicity of the `>` evaluation.
pub proof fn lemma_gt_monotone(a1: Interval, b1: Interval, a2: Interval, b2: Interval)
    requires
        a1.wf(),
        b1.wf(),
        a2.wf(),
        b2.wf(),
        a1.dt() == b1.dt(),
        a1.dt() != DataType::Boolean,
        a2.subset_of(a1),
        b2.subset_of(b1),
    ensures
        spec_gt(a2, b2).subset_of(spec_gt(a1, b1)),
{
}

/// Monotonicity of the `<` evaluation.
pub proof fn lemma_lt_monotone(a1: Interval, b1: Interval, a2: Interval, b2: Interval)
    requires
        a1.wf(),
        b1.wf(),
        a2.wf(),
        b2.wf(),
        a1.dt() == b1.dt(),
        a1.dt() != DataType::Boolean,
        a2.subset_of(a1),
        b2.subset_of(b1),
    ensures
        spec_lt(a2, b2).subset_of(spec_lt(a1, b1)),
{
}

/// Monotonicity of the conjunction evaluation.
pub proof fn lemma_and_monotone(a1: Interval, b1: Interval, a2: Interval, b2: Interval)
    requires
        a1.wf(),
        b1.wf(),
        a2.wf(),
        b2.wf(),
        a1.dt() == DataType::Boolean,
        b1.dt() == DataType::Boolean,
        a2.subset_of(a1),
        b2.subset_of(b1),
    ensures
        spec_and(a2, b2).subset_of(spec_and(a1, b1)),
{
}

/// Monotonicity lifted to `spec_apply`: the operation stays defined
/// and its result cannot widen when the operands shrink.
pub proof fn lemma_apply_monotone(op: Operator, a1: Interval, b1: Interval, a2: Interval, b2: Interval)
    requires
        a1.wf(),
        b1.wf(),
        a2.wf(),
        b2.wf(),
        a2.subset_of(a1),
        b2.subset_of(b1),
        spec_apply(op, a1, b1) is Some,
    ensures
        spec_apply(op, a2, b2) is Some,
        spec_apply(op, a2, b2)->0.subset_of(spec_apply(op, a1, b1)->0),
{
    match op {
        Operator::Plus => lemma_add_monotone(a1, b1, a2, b2),
        Operator::Minus => lemma_sub_monotone(a1, b1, a2, b2),
        Operator::Gt => lemma_gt_monotone(a1, b1, a2, b2),
        Operator::Lt => lemma_lt_monotone(a1, b1, a2, b2),
        Operator::And => lemma_and_monotone(a1, b1, a2, b2),
    }
}

/// The `Option<int>` reading of an optional `i32` bound.
pub open spec fn o32(x: Option<i32>) -> Option<int> {
    match x {
        None => None,
        Some(v) => Some(v as int),
    }
}

/// The `Option<int>` reading of an optional `i64` bound.
pub open spec fn o64(x: Option<i64>) -> Option<int> {
    match x {
        None => None,
        Some(v) => Some(v as int),
    }
}

fn add_lo_i32(x: Option<i32>, y: Option<i32>) -> (r: Option<i32>)
    ensures
        o32(r) == sat_lo(DataType::Int32, add_opt(o32(x), o32(y))),
{
    match (x, y) {
        (Some(a), Some(b)) => {
            let s: i64 = (a as i64) + (b as i64);
            if s < (i32::MIN as i64) {
                None
            } else if s > (i32::MAX as i64) {
                Some(i32::MAX)
            } else {
                Some(s as i32)
            }
        },
        _ => None,
    }
}

fn add_hi_i32(x: Option<i32>, y: Option<i32>) -> (r: Option<i32>)
    ensures
        o32(r) == sat_hi(DataType::Int32, add_opt(o32(x), o32(y))),
{
    match (x, y) {
        (Some(a), Some(b)) => {
            let s: i64 = (a as i64) + (b as i64);
            if s > (i32::MAX as i64) {
                None
            } else if s < (i32::MIN as i64) {
                Some(i32::MIN)
            } else {
                Some(s as i32)
            }
        },
        _ => None,
    }
}

fn sub_lo_i32(x: Option<i32>, y: Option<i32>) -> (r: Option<i32>)
    ensures
        o32(r) == sat_lo(DataType::Int32, sub_opt(o32(x), o32(y))),
{
    match (x, y) {
        (Some(a), Some(b)) => {
            let s: i64 = (a as i64) - (b as i64);
            if s < (i32::MIN as i64) {
                None
            } else if s > (i32::MAX as i64) {
                Some(i32::MAX)
            } else {
                Some(s as i32)
            }
        },
        _ => None,
    }
}

fn sub_hi_i32(x: Option<i32>, y: Option<i32>) -> (r: Option<i32>)
    ensures
        o32(r) == sat_hi(DataType::Int32, sub_opt(o32(x), o32(y))),
{
    match (x, y) {
        (Some(a), Some(b)) => {
            let s: i64 = (a as i64) - (b as i64);
            if s > (i32::MAX as i64) {
                None
            } else if s < (i32::MIN as i64) {
                Some(i32::MIN)
            } else {
                Some(s as i32)
            }
        },
        _ => None,
    }
}

fn add_lo_i64(x: Option<i64>, y: Option<i64>) -> (r: Option<i64>)
    ensures
        o64(r) == sat_lo(DataType::Int64, add_opt(o64(x), o64(y))),
{
    match (x, y) {
        (Some(a), Some(b)) => {
            let s: i128 = (a as i128) + (b as i128);
            if s < (i64::MIN as i128) {
                None
            } else if s > (i64::MAX as i128) {
                Some(i64::MAX)
            } else {
                Some(s as i64)
            }
        },
        _ => None,
    }
}

fn add_hi_i64(x: Option<i64>, y: Option<i64>) -> (r: Option<i64>)
    ensures
        o64(r) == sat_hi(DataType::Int64, add_opt(o64(x), o64(y))),
{
    match (x, y) {
        (Some(a), Some(b)) => {
            let s: i128 = (a as i128) + (b as i128);
            if s > (i64::MAX as i128) {
                None
            } else if s < (i64::MIN as i128) {
                Some(i64::MIN)
            } else {
                Some(s as i64)
            }
        },
        _ => None,
    }
}

fn sub_lo_i64(x: Option<i64>, y: Option<i64>) -> (r: Option<i64>)
    ensures
        o64(r) == sat_lo(DataType::Int64, sub_opt(o64(x), o64(y))),
{
    match (x, y) {
        (Some(a), Some(b)) => {
            let s: i128 = (a as i128) - (b as i128);
            if s < (i64::MIN as i128) {
                None
            } else if s > (i64::MAX as i128) {
                Some(i64::MAX)
            } else {
                Some(s as i64)
            }
        },
        _ => None,
    }
}

fn sub_hi_i64(x: Option<i64>, y: Option<i64>) -> (r: Option<i64>)
    ensures
        o64(r) == sat_hi(DataType::Int64, sub_opt(o64(x), o64(y))),
{
    match (x, y) {
        (Some(a), Some(b)) => {
            let s: i128 = (a as i128) - (b as i128);
            if s > (i64::MAX as i128) {
                None
            } else if s < (i64::MIN as i128) {
                Some(i64::MIN)
            } else {
                Some(s as i64)
            }
        },
        _ => None,
    }
}

/// Applies `op` elementwise to two intervals. Fails exactly on a
/// datatype mismatch, on arithmetic or comparison over booleans, and
/// on conjunction over numerics.
pub fn apply_operator(op: &Operator, lhs: &Interval, rhs: &Interval) -> (r: Result<
    Interval,
    DataFusionError,
>)
    requires
        lhs.wf(),
        rhs.wf(),
    ensures
        r is Ok <==> spec_apply(*op, *lhs, *rhs) is Some,
        r is Ok ==> Some(r->Ok_0) == spec_apply(*op, *lhs, *rhs),
        lhs.dt() != rhs.dt() ==> r == Err::<Interval, DataFusionError>(
            DataFusionError::TypeMismatch(lhs.dt(), rhs.dt()),
        ),
        r is Err && lhs.dt() == rhs.dt() ==> r == Err::<Interval, DataFusionError>(
            DataFusionError::UnsupportedType(lhs.dt()),
        ),
{
    let ldt = lhs.get_datatype();
    let rdt = rhs.get_datatype();
    if ldt != rdt {
        return Err(DataFusionError::TypeMismatch(ldt, rdt));
    }
    match op {
        Operator::Plus => {
            match (&lhs.lower, &lhs.upper, &rhs.lower, &rhs.upper) {
                (
                    ScalarValue::Int32(al),
                    ScalarValue::Int32(ah),
                    ScalarValue::Int32(bl),
                    ScalarValue::Int32(bh),
                ) => Ok(
                    Interval {
                        lower: ScalarValue::Int32(add_lo_i32(*al, *bl)),
                        upper: ScalarValue::Int32(add_hi_i32(*ah, *bh)),
                    },
                ),
                (
                    ScalarValue::Int64(al),
                    ScalarValue::Int64(ah),
                    ScalarValue::Int64(bl),
                    ScalarValue::Int64(bh),
                ) => Ok(
                    Interval {
                        lower: ScalarValue::Int64(add_lo_i64(*al, *bl)),
                        upper: ScalarValue::Int64(add_hi_i64(*ah, *bh)),
                    },
                ),
                _ => Err(DataFusionError::UnsupportedType(ldt)),
            }
        },
        Operator::Minus => {
            match (&lhs.lower, &lhs.upper, &rhs.lower, &rhs.upper) {
                (
                    ScalarValue::Int32(al),
                    ScalarValue::Int32(ah),
                    ScalarValue::Int32(bl),
                    ScalarValue::Int32(bh),
                ) => Ok(
                    Interval {
                        lower: ScalarValue::Int32(sub_lo_i32(*al, *bh)),
                        upper: ScalarValue::Int32(sub_hi_i32(*ah, *bl)),
                    },
                ),
                (
                    ScalarValue::Int64(al),
                    ScalarValue::Int64(ah),
                    ScalarValue::Int64(bl),
                    ScalarValue::Int64(bh),
                ) => Ok(
                    Interval {
                        lower: ScalarValue::Int64(sub_lo_i64(*al, *bh)),
                        upper: ScalarValue::Int64(sub_hi_i64(*ah, *bl)),
                    },
                ),
                _ => Err(DataFusionError::UnsupportedType(ldt)),
            }
        },
        Operator::Gt => {
            if ldt == DataType::Boolean {
                return Err(DataFusionError::UnsupportedType(ldt));
            }
            Ok(gt_of(lhs, rhs))
        },
        Operator::Lt => {
            if ldt == DataType::Boolean {
                return Err(DataFusionError::UnsupportedType(ldt));
            }
            Ok(lt_of(lhs, rhs))
        },
        Operator::And => {
            match (&lhs.lower, &lhs.upper, &rhs.lower, &rhs.upper) {
                (
                    ScalarValue::Boolean(al),
                    ScalarValue::Boolean(ah),
                    ScalarValue::Boolean(bl),
                    ScalarValue::Boolean(bh),
                ) => {
                    let lo = eff_lo(*al) && eff_lo(*bl);
                    let hi = eff_hi(*ah) && eff_hi(*bh);
                    Ok(
                        Interval {
                            lower: ScalarValue::Boolean(Some(lo)),
                            upper: ScalarValue::Boolean(Some(hi)),
                        },
                    )
                },
                _ => Err(DataFusionError::UnsupportedType(ldt)),
            }
        },
    }
}

/// The effective value of an optional boolean lower bound.
fn eff_lo(b: Option<bool>) -> (r: bool)
    ensures
        r == (b is Some && b->0),
{
    match b {
        Some(v) => v,
        None => false,
    }
}

/// The effective value of an optional boolean upper bound.
fn eff_hi(b: Option<bool>) -> (r: bool)
    ensures
        r == (b is None || b->0),
{
    match b {
        Some(v) => v,
        None => true,
    }
}

/// The boolean interval of `lhs > rhs` over numeric intervals.
fn gt_of(lhs: &Interval, rhs: &Interval) -> (r: Interval)
    requires
        lhs.wf(),
        rhs.wf(),
        lhs.dt() == rhs.dt(),
        lhs.dt() != DataType::Boolean,
    ensures
        r == spec_gt(*lhs, *rhs),
{
    let certainly_false = match (&lhs.upper, &rhs.lower) {
        (ScalarValue::Int32(Some(ah)), ScalarValue::Int32(Some(bl))) => *ah < *bl,
        (ScalarValue::Int64(Some(ah)), ScalarValue::Int64(Some(bl))) => *ah < *bl,
        _ => false,
    };
    if certainly_false {
        return Interval {
            lower: ScalarValue::Boolean(Some(false)),
            upper: ScalarValue::Boolean(Some(false)),
        };
    }
    let certainly_true = match (&lhs.lower, &rhs.upper) {
        (ScalarValue::Int32(Some(al)), ScalarValue::Int32(Some(bh))) => *al >= *bh,
        (ScalarValue::Int64(Some(al)), ScalarValue::Int64(Some(bh))) => *al >= *bh,
        _ => false,
    };
    if certainly_true {
        Interval {
            lower: ScalarValue::Boolean(Some(true)),
            upper: ScalarValue::Boolean(Some(true)),
        }
    } else {
        Interval {
            lower: ScalarValue::Boolean(Some(false)),
            upper: ScalarValue::Boolean(Some(true)),
        }
    }
}

/// The boolean interval of `lhs < rhs` over numeric intervals.
fn lt_of(lhs: &Interval, rhs: &Interval) -> (r: Interval)
    requires
        lhs.wf(),
        rhs.wf(),
        lhs.dt() == rhs.dt(),
        lhs.dt() != DataType::Boolean,
    ensures
        r == spec_lt(*lhs, *rhs),
{
    let certainly_false = match (&lhs.lower, &rhs.upper) {
        (ScalarValue::Int32(Some(al)), ScalarValue::Int32(Some(bh))) => *al > *bh,
        (ScalarValue::Int64(Some(al)), ScalarValue::Int64(Some(bh))) => *al > *bh,
        _ => false,
    };
    if certainly_false {
        return Interval {
            lower: ScalarValue::Boolean(Some(false)),
            upper: ScalarValue::Boolean(Some(false)),
        };
    }
    let certainly_true = match (&lhs.upper, &rhs.lower) {
        (ScalarValue::Int32(Some(ah)), ScalarValue::Int32(Some(bl))) => *ah <= *bl,
        (ScalarValue::Int64(Some(ah)), ScalarValue::Int64(Some(bl))) => *ah <= *bl,
        _ => false,
    };
    if certainly_true {
        Interval {
            lower: ScalarValue::Boolean(Some(true)),
            upper: ScalarValue::Boolean(Some(true)),
        }
    } else {
        Interval {
            lower: ScalarValue::Boolean(Some(false)),
            upper: ScalarValue::Boolean(Some(true)),
        }
    }
}

impl Interval {
    /// Intersects two intervals of one datatype. `Ok(None)` reports an
    /// empty (infeasible) intersection; a datatype mismatch is an
    /// error.
    pub fn intersect(&self, other: &Interval) -> (r: Result<Option<Interval>, DataFusionError>)
        requires
            self.wf(),
            other.wf(),
        ensures
            r is Ok <==> self.dt() == other.dt(),
            r is Ok ==> r->Ok_0 == spec_intersect(*self, *other),
            r is Err ==> r == Err::<Option<Interval>, DataFusionError>(
                DataFusionError::TypeMismatch(self.dt(), other.dt()),
            ),
    {
        let sdt = self.get_datatype();
        let odt = other.get_datatype();
        if sdt != odt {
            return Err(DataFusionError::TypeMismatch(sdt, odt));
        }
        match (&self.lower, &self.upper, &other.lower, &other.upper) {
            (
                ScalarValue::Int32(al),
                ScalarValue::Int32(ah),
                ScalarValue::Int32(bl),
                ScalarValue::Int32(bh),
            ) => {
                let lo: Option<i32> = match (al, bl) {
                    (None, _) => *bl,
                    (_, None) => *al,
                    (Some(a), Some(b)) => if *a >= *b {
                        Some(*a)
                    } else {
                        Some(*b)
                    },
                };
                let hi: Option<i32> = match (ah, bh) {
                    (None, _) => *bh,
                    (_, None) => *ah,
                    (Some(a), Some(b)) => if *a <= *b {
                        Some(*a)
                    } else {
                        Some(*b)
                    },
                };
                if let (Some(l), Some(h)) = (lo, hi) {
                    if l > h {
                        return Ok(None);
                    }
                }
                Ok(Some(Interval { lower: ScalarValue::Int32(lo), upper: ScalarValue::Int32(hi) }))
            },
            (
                ScalarValue::Int64(al),
                ScalarValue::Int64(ah),
                ScalarValue::Int64(bl),
                ScalarValue::Int64(bh),
            ) => {
                let lo: Option<i64> = match (al, bl) {
                    (None, _) => *bl,
                    (_, None) => *al,
                    (Some(a), Some(b)) => if *a >= *b {
                        Some(*a)
                    } else {
                        Some(*b)
                    },
                };
                let hi: Option<i64> = match (ah, bh) {
                    (None, _) => *bh,
                    (_, None) => *ah,
                    (Some(a), Some(b)) => if *a <= *b {
                        Some(*a)
                    } else {
                        Some(*b)
                    },
                };
                if let (Some(l), Some(h)) = (lo, hi) {
                    if l > h {
                        return Ok(None);
                    }
                }
                Ok(Some(Interval { lower: ScalarValue::Int64(lo), upper: ScalarValue::Int64(hi) }))
            },
            (
                ScalarValue::Boolean(al),
                ScalarValue::Boolean(ah),
                ScalarValue::Boolean(bl),
                ScalarValue::Boolean(bh),
            ) => {
                let lo = eff_lo(*al) || eff_lo(*bl);
                let hi = eff_hi(*ah) && eff_hi(*bh);
                if lo && !hi {
                    Ok(None)
                } else {
                    Ok(
                        Some(
                            Interval {
                                lower: ScalarValue::Boolean(Some(lo)),
                                upper: ScalarValue::Boolean(Some(hi)),
                            },
                        ),
                    )
                }
            },
            _ => Err(DataFusionError::TypeMismatch(sdt, odt)),
        }
    }

    /// Whether `other` lies entirely inside `self` (same datatype); a
    /// datatype mismatch is an error.
    pub fn contains(&self, other: &Interval) -> (r: Result<bool, DataFusionError>)
        requires
            self.wf(),
            other.wf(),
        ensures
            r is Ok <==> self.dt() == other.dt(),
            r is Ok ==> r->Ok_0 == other.subset_of(*self),
    {
        let sdt = self.get_datatype();
        let odt = other.get_datatype();
        if sdt != odt {
            return Err(DataFusionError::TypeMismatch(sdt, odt));
        }
        match (&self.lower, &self.upper, &other.lower, &other.upper) {
            (
                ScalarValue::Int32(al),
                ScalarValue::Int32(ah),
                ScalarValue::Int32(bl),
                ScalarValue::Int32(bh),
            ) => {
                let lo_ok = match (al, bl) {
                    (None, _) => true,
                    (Some(_), None) => false,
                    (Some(a), Some(b)) => *a <= *b,
                };
                let hi_ok = match (ah, bh) {
                    (None, _) => true,
                    (Some(_), None) => false,
                    (Some(a), Some(b)) => *b <= *a,
                };
                Ok(lo_ok && hi_ok)
            },
            (
                ScalarValue::Int64(al),
                ScalarValue::Int64(ah),
                ScalarValue::Int64(bl),
                ScalarValue::Int64(bh),
            ) => {
                let lo_ok = match (al, bl) {
                    (None, _) => true,
                    (Some(_), None) => false,
                    (Some(a), Some(b)) => *a <= *b,
                };
                let hi_ok = match (ah, bh) {
                    (None, _) => true,
                    (Some(_), None) => false,
                    (Some(a), Some(b)) => *b <= *a,
                };
                Ok(lo_ok && hi_ok)
            },
            (
                ScalarValue::Boolean(al),
                ScalarValue::Boolean(ah),
                ScalarValue::Boolean(bl),
                ScalarValue::Boolean(bh),
            ) => {
                let lo_ok = !eff_lo(*al) || eff_lo(*bl);
                let hi_ok = !eff_hi(*bh) || eff_hi(*ah);
                Ok(lo_ok && hi_ok)
            },
            _ => Err(DataFusionError::TypeMismatch(sdt, odt)),
        }
    }
}

} // verus!
