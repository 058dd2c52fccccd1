use vstd::prelude::*;
use vstd::arithmetic::div_mod::{lemma_div_is_ordered, lemma_div_multiples_vanish};

verus! {

/// A coordinate type for the quadtree: a totally ordered, copyable value
/// equipped with a *midpoint* operation, the value exactly or approximately
/// halfway between two coordinates, used to split a region into quadrants.
///
/// Besides the executable operations, the trait carries the laws that the
/// quadtree's proofs rest on: the order is total and transitive, the midpoint
/// of an ordered pair lies between the two, and splitting an interval of
/// width at least two at its midpoint strictly shrinks both halves, while an
/// interval of width at most one holds at most one coordinate.
pub trait Midpoint: Sized + Copy {
    /// Mathematical `self <= other` for this coordinate type.
    spec fn le_spec(self, other: Self) -> bool;

    /// The value that the `midpoint` method returns.
    spec fn spec_midpoint(a: Self, b: Self) -> Self;

    /// Size of the half-open interval `[a, b)`; the well-founded measure
    /// that makes recursive subdivision terminate.
    spec fn width(a: Self, b: Self) -> nat;

    /// Executable `self <= other`.
    fn le(self, other: Self) -> (r: bool)
        ensures
            r == self.le_spec(other),
    ;

    /// Executable equality test.
    fn eq_val(self, other: Self) -> (r: bool)
        ensures
            r == (self == other),
    ;

    /// The halfway value between `self` and `a`.
    fn midpoint(&self, a: Self) -> (r: Self)
        ensures
            r == Self::spec_midpoint(*self, a),
    ;

    /// The order is total.
    proof fn le_total(a: Self, b: Self)
        ensures
            a.le_spec(b) || b.le_spec(a),
    ;

    /// The order is transitive.
    proof fn le_trans(a: Self, b: Self, c: Self)
        requires
            a.le_spec(b),
            b.le_spec(c),
        ensures
            a.le_spec(c),
    ;

    /// The midpoint of an ordered pair lies between the two values.
    proof fn mid_bounds(a: Self, b: Self)
        requires
            a.le_spec(b),
        ensures
            a.le_spec(Self::spec_midpoint(a, b)),
            Self::spec_midpoint(a, b).le_spec(b),
    ;

    /// Splitting an interval at an interior value splits its width.
    proof fn width_add(a: Self, m: Self, b: Self)
        requires
            a.le_spec(m),
            m.le_spec(b),
        ensures
            Self::width(a, m) + Self::width(m, b) == Self::width(a, b),
    ;

    /// Splitting an interval of width at least two at its midpoint leaves
    /// two halves of nonzero width (so, by `width_add`, both are strictly
    /// narrower than the whole).
    proof fn mid_progress(a: Self, b: Self)
        requires
            a.le_spec(b),
            Self::width(a, b) >= 2,
        ensures
            Self::width(a, Self::spec_midpoint(a, b)) >= 1,
            Self::width(Self::spec_midpoint(a, b), b) >= 1,
    ;

    /// A half-open interval of width at most one holds at most one value.
    proof fn atomic(a: Self, b: Self, x: Self, y: Self)
        requires
            Self::width(a, b) <= 1,
            a.le_spec(x),
            !b.le_spec(x),
            a.le_spec(y),
            !b.le_spec(y),
        ensures
            x == y,
    ;
}

/// Division of `s` by two rounding toward zero, the way Rust's integer
/// division behaves; every integer coordinate type computes its midpoint as
/// this function of the sum of the two endpoints.
pub open spec fn half_toward_zero(s: int) -> int {
    if s >= 0 {
        s / 2
    } else {
        -((-s) / 2)
    }
}

/// The halved endpoint sum lies between the two endpoints.
pub proof fn lemma_half_bounds(a: int, b: int)
    requires
        a <= b,
    ensures
        a <= half_toward_zero(a + b),
        half_toward_zero(a + b) <= b,
{
    let s = a + b;
    if s >= 0 {
        lemma_div_is_ordered(2 * a, s, 2);
        lemma_div_multiples_vanish(a, 2);
        lemma_div_is_ordered(s, 2 * b, 2);
        lemma_div_multiples_vanish(b, 2);
    } else {
        let t = -s;
        lemma_div_is_ordered(t, 2 * (-a), 2);
        lemma_div_multiples_vanish(-a, 2);
        lemma_div_is_ordered(2 * (-b), t, 2);
        lemma_div_multiples_vanish(-b, 2);
    }
}

/// When the endpoints are at least two apart, the halved sum is strictly
/// between them.
pub proof fn lemma_half_progress(a: int, b: int)
    requires
        a + 2 <= b,
    ensures
        a + 1 <= half_toward_zero(a + b),
        half_toward_zero(a + b) <= b - 1,
{
    let s = a + b;
    if s >= 0 {
        lemma_div_is_ordered(2 * (a + 1), s, 2);
        lemma_div_multiples_vanish(a + 1, 2);
        lemma_div_is_ordered(s, 2 * (b - 1), 2);
        lemma_div_multiples_vanish(b - 1, 2);
    } else {
        let t = -s;
        lemma_div_is_ordered(t, 2 * (-(a + 1)), 2);
        lemma_div_multiples_vanish(-(a + 1), 2);
        lemma_div_is_ordered(2 * (1 - b), t, 2);
        lemma_div_multiples_vanish(1 - b, 2);
    }
}

impl Midpoint for i32 {
    open spec fn le_spec(self, other: i32) -> bool {
        self <= other
    }

    open spec fn spec_midpoint(a: i32, b: i32) -> i32 {
        half_toward_zero(a + b) as i32
    }

    open spec fn width(a: i32, b: i32) -> nat {
        if a <= b {
            (b - a) as nat
        } else {
            0
        }
    }

    fn le(self, other: i32) -> (r: bool) {
        self <= other
    }

    fn eq_val(self, other: i32) -> (r: bool) {
        self == other
    }

    fn midpoint(&self, a: i32) -> (r: i32) {
        let s: i64 = *self as i64 + a as i64;
        if s >= 0 {
            ((s as u64) / 2) as i32
        } else {
            let q: u64 = ((-s) as u64) / 2;
            (-(q as i64)) as i32
        }
    }

    proof fn le_total(a: i32, b: i32) {
    }

    proof fn le_trans(a: i32, b: i32, c: i32) {
    }

    proof fn mid_bounds(a: i32, b: i32) {
        lemma_half_bounds(a as int, b as int);
    }

    proof fn width_add(a: i32, m: i32, b: i32) {
    }

    proof fn mid_progress(a: i32, b: i32) {
        lemma_half_progress(a as int, b as int);
    }

    proof fn atomic(a: i32, b: i32, x: i32, y: i32) {
    }
}

impl Midpoint for i64 {
    open spec fn le_spec(self, other: i64) -> bool {
        self <= other
    }

    open spec fn spec_midpoint(a: i64, b: i64) -> i64 {
        half_toward_zero(a + b) as i64
    }

    open spec fn width(a: i64, b: i64) -> nat {
        if a <= b {
            (b - a) as nat
        } else {
            0
        }
    }

    fn le(self, other: i64) -> (r: bool) {
        self <= other
    }

    fn eq_val(self, other: i64) -> (r: bool) {
        self == other
    }

    fn midpoint(&self, a: i64) -> (r: i64) {
        let s: i128 = *self as i128 + a as i128;
        if s >= 0 {
            ((s as u128) / 2) as i64
        } else {
            let q: u128 = ((-s) as u128) / 2;
            (-(q as i128)) as i64
        }
    }

    proof fn le_total(a: i64, b: i64) {
    }

    proof fn le_trans(a: i64, b: i64, c: i64) {
    }

    proof fn mid_bounds(a: i64, b: i64) {
        lemma_half_bounds(a as int, b as int);
    }

    proof fn width_add(a: i64, m: i64, b: i64) {
    }

    proof fn mid_progress(a: i64, b: i64) {
        lemma_half_progress(a as int, b as int);
    }

    proof fn atomic(a: i64, b: i64, x: i64, y: i64) {
    }
}

impl Midpoint for u32 {
    open spec fn le_spec(self, other: u32) -> bool {
        self <= other
    }

    open spec fn spec_midpoint(a: u32, b: u32) -> u32 {
        half_toward_zero(a + b) as u32
    }

    open spec fn width(a: u32, b: u32) -> nat {
        if a <= b {
            (b - a) as nat
        } else {
            0
        }
    }

    fn le(self, other: u32) -> (r: bool) {
        self <= other
    }

    fn eq_val(self, other: u32) -> (r: bool) {
        self == other
    }

    fn midpoint(&self, a: u32) -> (r: u32) {
        ((*self as u64 + a as u64) / 2) as u32
    }

    proof fn le_total(a: u32, b: u32) {
    }

    proof fn le_trans(a: u32, b: u32, c: u32) {
    }

    proof fn mid_bounds(a: u32, b: u32) {
        lemma_half_bounds(a as int, b as int);
    }

    proof fn width_add(a: u32, m: u32, b: u32) {
    }

    proof fn mid_progress(a: u32, b: u32) {
        lemma_half_progress(a as int, b as int);
    }

    proof fn atomic(a: u32, b: u32, x: u32, y: u32) {
    }
}

impl Midpoint for u64 {
    open spec fn le_spec(self, other: u64) -> bool {
        self <= other
    }

    open spec fn spec_midpoint(a: u64, b: u64) -> u64 {
        half_toward_zero(a + b) as u64
    }

    open spec fn width(a: u64, b: u64) -> nat {
        if a <= b {
            (b - a) as nat
        } else {
            0
        }
    }

    fn le(self, other: u64) -> (r: bool) {
        self <= other
    }

    fn eq_val(self, other: u64) -> (r: bool) {
        self == other
    }

    fn midpoint(&self, a: u64) -> (r: u64) {
        ((*self as u128 + a as u128) / 2) as u64
    }

    proof fn le_total(a: u64, b: u64) {
    }

    proof fn le_trans(a: u64, b: u64, c: u64) {
    }

    proof fn mid_bounds(a: u64, b: u64) {
        lemma_half_bounds(a as int, b as int);
    }

    proof fn width_add(a: u64, m: u64, b: u64) {
    }

    proof fn mid_progress(a: u64, b: u64) {
        lemma_half_progress(a as int, b as int);
    }

    proof fn atomic(a: u64, b: u64, x: u64, y: u64) {
    }
}

impl Midpoint for usize {
    open spec fn le_spec(self, other: usize) -> bool {
        self <= other
    }

    open spec fn spec_midpoint(a: usize, b: usize) -> usize {
        half_toward_zero(a + b) as usize
    }

    open spec fn width(a: usize, b: usize) -> nat {
        if a <= b {
            (b - a) as nat
        } else {
            0
        }
    }

    fn le(self, other: usize) -> (r: bool) {
        self <= other
    }

    fn eq_val(self, other: usize) -> (r: bool) {
        self == other
    }

    fn midpoint(&self, a: usize) -> (r: usize) {
        ((*self as u128 + a as u128) / 2) as usize
    }

    proof fn le_total(a: usize, b: usize) {
    }

    proof fn le_trans(a: usize, b: usize, c: usize) {
    }

    proof fn mid_bounds(a: usize, b: usize) {
        lemma_half_bounds(a as int, b as int);
    }

    proof fn width_add(a: usize, m: usize, b: usize) {
    }

    proof fn mid_progress(a: usize, b: usize) {
        lemma_half_progress(a as int, b as int);
    }

    proof fn atomic(a: usize, b: usize, x: usize, y: usize) {
    }
}

} // verus!
