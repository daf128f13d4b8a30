//! Inclusive time ranges `[lower, upper]` and their arithmetic.

use crate::render::{push_ticks, ticks_text};
use vstd::prelude::*;
use vstd::string::StringExecFns;
use vstd::std_specs::ops::{AddSpecImpl, BitAndSpecImpl, NegSpecImpl, SubSpecImpl};

verus! {

/// Number of ticks in one time unit.
pub const TICKS_PER_UNIT: i64 = 1_000_000;

/// The largest magnitude a time can have. `[-TIME_MAX, TIME_MAX]` is the
/// unconstrained interval.
pub const TIME_MAX: i64 = 9_223_372_036_854_775_807;

/// An interval has converged once its bounds are less than this far apart:
/// a thousandth of a time unit.
pub const CONVERGENCE_TICKS: i64 = 1_000;

/// The time nearest to `x` within `[-TIME_MAX, TIME_MAX]`.
pub open spec fn clamp(x: int) -> i64 {
    if x > TIME_MAX {
        TIME_MAX
    } else if x < -TIME_MAX {
        (-TIME_MAX) as i64
    } else {
        x as i64
    }
}

/// Whether `t` is a time: every `i64` but the one whose negation overflows.
pub open spec fn is_time(t: i64) -> bool {
    -TIME_MAX <= t
}

/// Saturates a wide sum of ticks into a time.
pub fn clamp_ticks(x: i128) -> (r: i64)
    ensures
        r == clamp(x as int),
        is_time(r),
{
    if x > TIME_MAX as i128 {
        TIME_MAX
    } else if x < -(TIME_MAX as i128) {
        -TIME_MAX
    } else {
        x as i64
    }
}

/// Saturates the negation of a wide sum of ticks into a time.
pub fn clamp_negated(x: i128) -> (r: i64)
    ensures
        r == clamp(-(x as int)),
        is_time(r),
{
    if x < -(TIME_MAX as i128) {
        TIME_MAX
    } else {
        clamp_ticks(-x)
    }
}

/// An inclusive `[lower, upper]` range of time, in ticks.
///
/// An interval with `lower > upper` is empty; it arises from intersecting
/// disjoint ranges and stands for infeasibility.
#[derive(Clone, Copy, Debug, PartialEq, Eq, Structural)]
pub struct Interval(pub i64, pub i64);

impl Interval {
    /// Both bounds are times.
    pub open spec fn wf(self) -> bool {
        is_time(self.0) && is_time(self.1)
    }

    /// Whether the time `v` falls within the range.
    pub open spec fn spec_contains(&self, v: i64) -> bool {
        self.0 <= v <= self.1
    }

    /// Whether the lower bound does not exceed the upper bound.
    pub open spec fn spec_is_valid(&self) -> bool {
        self.0 <= self.1
    }

    /// Whether the bounds are less than a thousandth of a time unit apart.
    pub open spec fn spec_converged(&self) -> bool {
        -CONVERGENCE_TICKS < self.1 - self.0 < CONVERGENCE_TICKS
    }

    /// `[l1 + l2, u1 + u2]`, saturating.
    pub open spec fn plus(self, rhs: Interval) -> Interval {
        Interval(clamp(self.0 + rhs.0), clamp(self.1 + rhs.1))
    }

    /// `[-u, -l]`, saturating.
    pub open spec fn negated(self) -> Interval {
        Interval(clamp(-self.1), clamp(-self.0))
    }

    /// `[l1 - u2, u1 - l2]`, saturating.
    pub open spec fn minus(self, rhs: Interval) -> Interval {
        Interval(clamp(self.0 - rhs.1), clamp(self.1 - rhs.0))
    }

    /// `[max(l1, l2), min(u1, u2)]`.
    pub open spec fn meet(self, rhs: Interval) -> Interval {
        Interval(
            if self.0 >= rhs.0 { self.0 } else { rhs.0 },
            if self.1 <= rhs.1 { self.1 } else { rhs.1 },
        )
    }

    /// The interval `[-TIME_MAX, TIME_MAX]` that constrains nothing.
    pub open spec fn spec_unconstrained() -> Interval {
        Interval((-TIME_MAX) as i64, TIME_MAX)
    }

    /// The point interval `[t, t]`.
    pub open spec fn spec_point(t: i64) -> Interval {
        Interval(t, t)
    }

    /// Every time in `self` is also in `outer`: the bounds of `self` lie
    /// within those of `outer`.
    pub open spec fn within(self, outer: Interval) -> bool {
        outer.0 <= self.0 && self.1 <= outer.1
    }

    /// Creates the interval `[lower, upper]`.
    pub fn new(lower: i64, upper: i64) -> (r: Interval)
        ensures
            r == Interval(lower, upper),
    {
        Interval(lower, upper)
    }

    /// Creates the interval whose bounds are the first two entries of `other`.
    pub fn from_vec(other: Vec<i64>) -> (r: Interval)
        requires
            other.len() >= 2,
        ensures
            r == Interval(other[0], other[1]),
    {
        Interval::new(other[0], other[1])
    }

    /// The interval `[-TIME_MAX, TIME_MAX]` that constrains nothing.
    #[verifier::when_used_as_spec(spec_unconstrained)]
    pub fn unconstrained() -> (r: Interval)
        ensures
            r == Interval::spec_unconstrained(),
            r.wf(),
    {
        Interval(-TIME_MAX, TIME_MAX)
    }

    /// The point interval `[t, t]`.
    #[verifier::when_used_as_spec(spec_point)]
    pub fn point(t: i64) -> (r: Interval)
        ensures
            r == Interval::spec_point(t),
    {
        Interval(t, t)
    }

    /// The lower bound of the range.
    pub fn lower(&self) -> (r: i64)
        ensures
            r == self.0,
    {
        self.0
    }

    /// The upper bound of the range.
    pub fn upper(&self) -> (r: i64)
        ensures
            r == self.1,
    {
        self.1
    }

    /// Whether the time `v` falls within the range.
    #[verifier::when_used_as_spec(spec_contains)]
    pub fn contains(&self, v: i64) -> (r: bool)
        ensures
            r == self.spec_contains(v),
    {
        v >= self.lower() && v <= self.upper()
    }

    /// Whether the lower bound does not exceed the upper bound.
    #[verifier::when_used_as_spec(spec_is_valid)]
    pub fn is_valid(&self) -> (r: bool)
        ensures
            r == self.spec_is_valid(),
    {
        self.lower() <= self.upper()
    }

    /// Whether the bounds are less than a thousandth of a time unit apart.
    #[verifier::when_used_as_spec(spec_converged)]
    pub fn converged(&self) -> (r: bool)
        ensures
            r == self.spec_converged(),
    {
        let d: i128 = self.1 as i128 - self.0 as i128;
        -(CONVERGENCE_TICKS as i128) < d && d < CONVERGENCE_TICKS as i128
    }

    /// The interval as text, `[lower, upper]`, with both bounds as decimal
    /// numbers of time units.
    pub open spec fn text(self) -> Seq<char> {
        "["@ + ticks_text(self.0 as int) + ", "@ + ticks_text(self.1 as int) + "]"@
    }

    /// The interval as text: `[1.5, 20]` for one and a half to twenty time
    /// units.
    pub fn to_string(&self) -> (r: String)
        ensures
            r@ == self.text(),
    {
        let mut s = String::new();
        s.append("[");
        push_ticks(&mut s, self.0 as i128);
        s.append(", ");
        push_ticks(&mut s, self.1 as i128);
        s.append("]");
        assert(s@ =~= self.text());
        s
    }

    /// The intersection of the two ranges; the same as `*self & *other`.
    pub fn union(&self, other: &Interval) -> (r: Interval)
        ensures
            r == self.meet(*other),
    {
        *self & *other
    }
}

impl Default for Interval {
    /// The point interval `[0, 0]`.
    fn default() -> (r: Interval)
        ensures
            r == Interval(0, 0),
    {
        Interval(0, 0)
    }
}

impl AddSpecImpl<Interval> for Interval {
    open spec fn obeys_add_spec() -> bool {
        true
    }

    open spec fn add_req(self, rhs: Interval) -> bool {
        true
    }

    open spec fn add_spec(self, rhs: Interval) -> Interval {
        self.plus(rhs)
    }
}

impl std::ops::Add<Interval> for Interval {
    type Output = Interval;

    /// `[l1, u1] + [l2, u2] = [l1 + l2, u1 + u2]`, each bound saturating at
    /// `TIME_MAX` in magnitude.
    fn add(self, other: Interval) -> (r: Interval) {
        Interval(
            clamp_ticks(self.0 as i128 + other.0 as i128),
            clamp_ticks(self.1 as i128 + other.1 as i128),
        )
    }
}

impl NegSpecImpl for Interval {
    open spec fn obeys_neg_spec() -> bool {
        true
    }

    open spec fn neg_req(self) -> bool {
        true
    }

    open spec fn neg_spec(self) -> Interval {
        self.negated()
    }
}

impl std::ops::Neg for Interval {
    type Output = Interval;

    /// `-[l, u] = [-u, -l]`.
    fn neg(self) -> (r: Interval) {
        Interval(clamp_ticks(-(self.1 as i128)), clamp_ticks(-(self.0 as i128)))
    }
}

impl SubSpecImpl<Interval> for Interval {
    open spec fn obeys_sub_spec() -> bool {
        true
    }

    open spec fn sub_req(self, rhs: Interval) -> bool {
        true
    }

    open spec fn sub_spec(self, rhs: Interval) -> Interval {
        self.minus(rhs)
    }
}

impl std::ops::Sub<Interval> for Interval {
    type Output = Interval;

    /// `[l1, u1] - [l2, u2] = [l1 - u2, u1 - l2]`.
    fn sub(self, other: Interval) -> (r: Interval) {
        Interval(
            clamp_ticks(self.0 as i128 - other.1 as i128),
            clamp_ticks(self.1 as i128 - other.0 as i128),
        )
    }
}

impl BitAndSpecImpl<Interval> for Interval {
    open spec fn obeys_bitand_spec() -> bool {
        true
    }

    open spec fn bitand_req(self, rhs: Interval) -> bool {
        true
    }

    open spec fn bitand_spec(self, rhs: Interval) -> Interval {
        self.meet(rhs)
    }
}

impl std::ops::BitAnd<Interval> for Interval {
    type Output = Interval;

    /// `[l1, u1] & [l2, u2] = [max(l1, l2), min(u1, u2)]`.
    fn bitand(self, other: Interval) -> (r: Interval) {
        Interval(
            if self.0 >= other.0 { self.0 } else { other.0 },
            if self.1 <= other.1 { self.1 } else { other.1 },
        )
    }
}

impl std::ops::AddAssign<Interval> for Interval {
    /// `[l1, u1] += [l2, u2]` leaves `[l1 + l2, u1 + u2]`.
    fn add_assign(&mut self, other: Interval)
        ensures
            *final(self) == old(self).plus(other),
    {
        *self = *self + other;
    }
}

impl std::ops::SubAssign<Interval> for Interval {
    /// `[l1, u1] -= [l2, u2]` leaves `[l1 - u2, u1 - l2]`.
    fn sub_assign(&mut self, other: Interval)
        ensures
            *final(self) == old(self).minus(other),
    {
        *self = *self - other;
    }
}

impl std::ops::BitAndAssign<Interval> for Interval {
    /// `[l1, u1] &= [l2, u2]` leaves `[max(l1, l2), min(u1, u2)]`.
    fn bitand_assign(&mut self, other: Interval)
        ensures
            *final(self) == old(self).meet(other),
    {
        *self = *self & other;
    }
}

/// `[0, 0]` is the identity of addition: adding it on either side leaves an
/// interval of times unchanged.
pub proof fn lemma_plus_zero(x: Interval)
    requires
        x.wf(),
    ensures
        x.plus(Interval(0, 0)) == x,
        Interval(0, 0).plus(x) == x,
{
}

/// Addition is commutative.
pub proof fn lemma_plus_commutative(x: Interval, y: Interval)
    ensures
        x.plus(y) == y.plus(x),
{
}

/// Negating twice gives back the interval: `-(-x) = x`.
pub proof fn lemma_negated_twice(x: Interval)
    requires
        x.wf(),
    ensures
        x.negated().negated() == x,
{
}

/// Subtracting an interval from itself gives `[l - u, u - l]`, each bound
/// saturated; where `u - l` is itself a time, nothing saturates and the
/// result is exactly `[-(u - l), u - l]`.
pub proof fn lemma_minus_self(x: Interval)
    ensures
        x.minus(x) == Interval(clamp(x.0 - x.1), clamp(x.1 - x.0)),
        -TIME_MAX <= x.1 - x.0 <= TIME_MAX ==> x.minus(x).0 == x.0 - x.1 && x.minus(x).1 == x.1
            - x.0,
{
}

/// Subtraction is addition of the negation: `x - y = x + (-y)`.
pub proof fn lemma_minus_is_plus_negated(x: Interval, y: Interval)
    requires
        y.wf(),
    ensures
        x.minus(y) == x.plus(y.negated()),
{
}

/// Intersection is idempotent: `x & x = x`.
pub proof fn lemma_meet_idempotent(x: Interval)
    ensures
        x.meet(x) == x,
{
}

/// Intersection is commutative: `x & y = y & x`.
pub proof fn lemma_meet_commutative(x: Interval, y: Interval)
    ensures
        x.meet(y) == y.meet(x),
{
}

/// Intersection is associative.
pub proof fn lemma_meet_associative(x: Interval, y: Interval, z: Interval)
    ensures
        x.meet(y).meet(z) == x.meet(y.meet(z)),
{
}

/// Intersection never widens: `x & y` lies within both `x` and `y`, and it
/// contains exactly the times that both contain.
pub proof fn lemma_meet_within(x: Interval, y: Interval)
    ensures
        x.meet(y).within(x),
        x.meet(y).within(y),
        forall|t: i64| x.meet(y).spec_contains(t) <==> x.spec_contains(t) && y.spec_contains(t),
{
}

} // verus!
