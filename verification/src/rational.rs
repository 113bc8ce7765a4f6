//! Exact non-negative rationals with 128-bit numerator and denominator.
//!
//! All Phragmén arithmetic composes adds and scalar multiplications of
//! ratios derived from integer stakes.  Operations saturate: on overflow
//! both components become `u128::MAX`, a value that behaves as infinity
//! (it absorbs additions and compares greater than every finite value).
//! Comparison cross-multiplies in 256-bit precision, so it is exact.

use vstd::prelude::*;
use vstd::arithmetic::div_mod::{
    lemma_div_is_ordered, lemma_fundamental_div_mod, lemma_mod_division_less_than_divisor,
    lemma_multiply_divide_lt,
};
use vstd::arithmetic::mul::{lemma_mul_inequality, lemma_mul_upper_bound};

verus! {

/// 2^64, the split point for widening 128-bit multiplication.
pub const HALF: u128 = 0x1_0000_0000_0000_0000;

/// Parts-per-billion denominator of the bounded fraction representation.
pub const BILLION: u128 = 1_000_000_000;

/// 2^128 as a mathematical integer.
pub open spec fn pow2_128() -> int {
    0x1_0000_0000_0000_0000_0000_0000_0000_0000int
}

/// The value of a 256-bit quantity held as (high, low) 128-bit halves.
pub open spec fn wide_val(p: (u128, u128)) -> int {
    p.0 * pow2_128() + p.1
}

/// Widening multiplication: the full 256-bit product of two `u128`s.
pub fn mul_wide(x: u128, y: u128) -> (r: (u128, u128))
    ensures
        wide_val(r) == x * y,
{
    let xh = x / HALF;
    let xl = x % HALF;
    let yh = y / HALF;
    let yl = y % HALF;
    proof {
        lemma_fundamental_div_mod(x as int, HALF as int);
        lemma_fundamental_div_mod(y as int, HALF as int);
        lemma_mod_division_less_than_divisor(x as int, HALF as int);
        lemma_mod_division_less_than_divisor(y as int, HALF as int);
        assert((HALF as int) * (HALF as int) == pow2_128()) by (nonlinear_arith);
        lemma_multiply_divide_lt(x as int, HALF as int, HALF as int);
        lemma_multiply_divide_lt(y as int, HALF as int, HALF as int);
        assert(xl * yl <= ((HALF - 1) as int) * ((HALF - 1) as int)
            && xh * yl <= ((HALF - 1) as int) * ((HALF - 1) as int)
            && xl * yh <= ((HALF - 1) as int) * ((HALF - 1) as int)
            && xh * yh <= ((HALF - 1) as int) * ((HALF - 1) as int)) by {
            lemma_mul_upper_bound(xl as int, (HALF - 1) as int, yl as int, (HALF - 1) as int);
            lemma_mul_upper_bound(xh as int, (HALF - 1) as int, yl as int, (HALF - 1) as int);
            lemma_mul_upper_bound(xl as int, (HALF - 1) as int, yh as int, (HALF - 1) as int);
            lemma_mul_upper_bound(xh as int, (HALF - 1) as int, yh as int, (HALF - 1) as int);
        }
        assert(((HALF - 1) as int) * ((HALF - 1) as int) + ((HALF - 1) as int)
            + ((HALF - 1) as int) < pow2_128()) by (nonlinear_arith);
    }
    let ll = xl * yl;
    let t1 = xh * yl;
    proof {
        lemma_multiply_divide_lt(ll as int, HALF as int, HALF as int);
    }
    let t2 = t1 + ll / HALF;
    proof {
        lemma_mod_division_less_than_divisor(t2 as int, HALF as int);
    }
    let t3 = xl * yh + t2 % HALF;
    proof {
        lemma_multiply_divide_lt(t2 as int, HALF as int, HALF as int);
        lemma_multiply_divide_lt(t3 as int, HALF as int, HALF as int);
    }
    let hi = xh * yh + t2 / HALF + t3 / HALF;
    proof {
        lemma_mod_division_less_than_divisor(t3 as int, HALF as int);
        lemma_mod_division_less_than_divisor(ll as int, HALF as int);
        assert((t3 % HALF) * (HALF as int) <= ((HALF - 1) as int) * (HALF as int)) by {
            lemma_mul_inequality(t3 as int % (HALF as int), (HALF - 1) as int, HALF as int);
        }
        assert(((HALF - 1) as int) * (HALF as int) + (HALF as int) <= pow2_128())
            by (nonlinear_arith);
    }
    let lo = (t3 % HALF) * HALF + ll % HALF;
    proof {
        lemma_mul_wide_identity(
            x as int, y as int, xh as int, xl as int, yh as int, yl as int,
            ll as int, t2 as int, t3 as int, hi as int, lo as int, HALF as int,
        );
    }
    (hi, lo)
}

/// The schoolbook recombination of the partial products in `mul_wide`.
proof fn lemma_mul_wide_identity(
    x: int, y: int, xh: int, xl: int, yh: int, yl: int,
    ll: int, t2: int, t3: int, hi: int, lo: int, h: int,
)
    requires
        h > 0,
        x == h * xh + xl,
        y == h * yh + yl,
        ll == xl * yl,
        t2 == xh * yl + ll / h,
        t3 == xl * yh + t2 % h,
        hi == xh * yh + t2 / h + t3 / h,
        lo == (t3 % h) * h + ll % h,
    ensures
        hi * (h * h) + lo == x * y,
{
    lemma_fundamental_div_mod(ll, h);
    lemma_fundamental_div_mod(t2, h);
    lemma_fundamental_div_mod(t3, h);
    assert(hi * (h * h) + lo == (xh * yh) * (h * h) + (t2 / h) * (h * h) + (t3 / h) * (h * h)
        + (t3 % h) * h + ll % h) by (nonlinear_arith)
        requires
            hi == xh * yh + t2 / h + t3 / h,
            lo == (t3 % h) * h + ll % h,
    ;
    assert((t3 / h) * (h * h) + (t3 % h) * h == t3 * h) by (nonlinear_arith)
        requires t3 == h * (t3 / h) + t3 % h,
    ;
    assert(t3 * h == (xl * yh) * h + (t2 % h) * h) by (nonlinear_arith)
        requires t3 == xl * yh + t2 % h,
    ;
    assert((t2 / h) * (h * h) + (t2 % h) * h == t2 * h) by (nonlinear_arith)
        requires t2 == h * (t2 / h) + t2 % h,
    ;
    assert(t2 * h == (xh * yl) * h + (ll / h) * h) by (nonlinear_arith)
        requires t2 == xh * yl + ll / h,
    ;
    assert((ll / h) * h + ll % h == ll) by (nonlinear_arith)
        requires ll == h * (ll / h) + ll % h,
    ;
    assert(x * y == (h * xh) * (h * yh) + (h * xh) * yl + xl * (h * yh) + xl * yl)
        by (nonlinear_arith)
        requires
            x == h * xh + xl,
            y == h * yh + yl,
    ;
    assert((h * xh) * (h * yh) == (xh * yh) * (h * h)) by (nonlinear_arith);
    assert((h * xh) * yl == (xh * yl) * h) by (nonlinear_arith);
    assert(xl * (h * yh) == (xl * yh) * h) by (nonlinear_arith);
}

/// Lexicographic comparison of two 256-bit values agrees with their numeric order.
proof fn lemma_wide_cmp(a: (u128, u128), b: (u128, u128))
    ensures
        wide_val(a) < wide_val(b) <==> (a.0 < b.0 || (a.0 == b.0 && a.1 < b.1)),
        wide_val(a) == wide_val(b) <==> (a.0 == b.0 && a.1 == b.1),
{
    if a.0 < b.0 {
        assert(a.0 * pow2_128() + pow2_128() <= b.0 * pow2_128()) by (nonlinear_arith)
            requires a.0 < b.0;
    }
    if b.0 < a.0 {
        assert(b.0 * pow2_128() + pow2_128() <= a.0 * pow2_128()) by (nonlinear_arith)
            requires b.0 < a.0;
    }
}

/// Numeric "less than" on 256-bit values held as (high, low) halves.
pub fn wide_lt(a: (u128, u128), b: (u128, u128)) -> (r: bool)
    ensures
        r == (wide_val(a) < wide_val(b)),
{
    proof { lemma_wide_cmp(a, b); }
    a.0 < b.0 || (a.0 == b.0 && a.1 < b.1)
}

/// Numeric equality on 256-bit values held as (high, low) halves.
pub fn wide_eq(a: (u128, u128), b: (u128, u128)) -> (r: bool)
    ensures
        r == (wide_val(a) == wide_val(b)),
{
    proof { lemma_wide_cmp(a, b); }
    a.0 == b.0 && a.1 == b.1
}

/// A non-negative rational `n / d`.  Well-formed values keep `d >= 1`;
/// the saturated value has both components equal to `u128::MAX`.
#[derive(Clone, Copy, Debug, PartialEq)]
pub struct Rational128 {
    pub n: u128,
    pub d: u128,
}

/// The saturated rational, treated as infinity.
pub open spec fn rat_infinity() -> Rational128 {
    Rational128 { n: u128::MAX, d: u128::MAX }
}

/// Zero, in its canonical `0 / 1` form.
pub open spec fn rat_zero() -> Rational128 {
    Rational128 { n: 0u128, d: 1u128 }
}

impl Rational128 {
    /// Well-formedness: the denominator is never zero.
    pub open spec fn wf(self) -> bool {
        self.d >= 1
    }

    /// The saturated value, treated as infinity.
    pub open spec fn spec_is_infinite(self) -> bool {
        self.n == u128::MAX && self.d == u128::MAX
    }

    /// Saturating addition: `(a.n·b.d + b.n·a.d) / (a.d·b.d)`, or infinity
    /// when a component overflows `u128`.
    pub open spec fn spec_add(self, other: Rational128) -> Rational128 {
        let num = self.n * other.d + other.n * self.d;
        let den = self.d * other.d;
        if num > u128::MAX || den > u128::MAX {
            rat_infinity()
        } else {
            Rational128 { n: num as u128, d: den as u128 }
        }
    }

    /// Saturating multiplication by an integer: `(a.n·x) / a.d`.
    pub open spec fn spec_mul_u128(self, x: u128) -> Rational128 {
        let num = self.n * x;
        if num > u128::MAX {
            rat_infinity()
        } else {
            Rational128 { n: num as u128, d: self.d }
        }
    }

    /// Three-way comparison by cross-multiplication in 256-bit precision:
    /// `-1`, `0` or `1`.  Infinities compare equal to each other and
    /// greater than every other value.
    pub open spec fn spec_cmp(self, other: Rational128) -> int {
        if self.spec_is_infinite() && other.spec_is_infinite() {
            0
        } else if self.spec_is_infinite() {
            1
        } else if other.spec_is_infinite() {
            -1
        } else if self.n * other.d < other.n * self.d {
            -1
        } else if self.n * other.d == other.n * self.d {
            0
        } else {
            1
        }
    }

    /// Saturating subtraction clamped at zero: the exact difference when
    /// positive and representable, `0/1` when the difference is not
    /// positive, infinity when a component overflows.
    pub open spec fn spec_sub_or_zero(self, other: Rational128) -> Rational128 {
        if self.n * other.d <= other.n * self.d {
            rat_zero()
        } else if self.n * other.d > u128::MAX || self.d * other.d > u128::MAX {
            rat_infinity()
        } else {
            Rational128 {
                n: (self.n * other.d - other.n * self.d) as u128,
                d: (self.d * other.d) as u128,
            }
        }
    }

    /// Rounded conversion to parts-per-billion, clamped to `[0, 10^9]`:
    /// `min(10^9, round(n·10^9 / d))`, rounding half up.
    pub open spec fn spec_to_perbill(self) -> u128 {
        let exact = (2 * self.n * BILLION + self.d) / (2 * self.d);
        if exact > BILLION {
            BILLION as u128
        } else {
            exact as u128
        }
    }

    /// `x / 1`.
    pub fn from_u128(x: u128) -> (r: Rational128)
        ensures
            r == (Rational128 { n: x, d: 1u128 }),
    {
        Rational128 { n: x, d: 1 }
    }

    /// Whether this value is the saturated "infinity".
    pub fn is_infinite(&self) -> (r: bool)
        ensures
            r == self.spec_is_infinite(),
    {
        self.n == u128::MAX && self.d == u128::MAX
    }

    /// Whether this value is zero.
    pub fn is_zero(&self) -> (r: bool)
        ensures
            r == (self.n == 0),
    {
        self.n == 0
    }

    /// Saturating addition.
    pub fn add(self, other: Rational128) -> (r: Rational128)
        ensures
            r == self.spec_add(other),
    {
        match (
            self.n.checked_mul(other.d),
            other.n.checked_mul(self.d),
            self.d.checked_mul(other.d),
        ) {
            (Some(x), Some(y), Some(den)) => match x.checked_add(y) {
                Some(num) => Rational128 { n: num, d: den },
                None => Rational128 { n: u128::MAX, d: u128::MAX },
            },
            _ => Rational128 { n: u128::MAX, d: u128::MAX },
        }
    }

    /// Saturating multiplication by an integer.
    pub fn mul_u128(self, x: u128) -> (r: Rational128)
        ensures
            r == self.spec_mul_u128(x),
    {
        match self.n.checked_mul(x) {
            Some(num) => Rational128 { n: num, d: self.d },
            None => Rational128 { n: u128::MAX, d: u128::MAX },
        }
    }

    /// Three-way comparison; `-1`, `0` or `1` as in `spec_cmp`.
    pub fn cmp_rational(&self, other: &Rational128) -> (r: i8)
        ensures
            r as int == self.spec_cmp(*other),
    {
        let self_inf = self.is_infinite();
        let other_inf = other.is_infinite();
        if self_inf && other_inf {
            0
        } else if self_inf {
            1
        } else if other_inf {
            -1
        } else {
            let left = mul_wide(self.n, other.d);
            let right = mul_wide(other.n, self.d);
            if wide_lt(left, right) {
                -1
            } else if wide_eq(left, right) {
                0
            } else {
                1
            }
        }
    }

    /// Strictly-less comparison, by `spec_cmp`.
    pub fn lt(&self, other: &Rational128) -> (r: bool)
        ensures
            r == (self.spec_cmp(*other) < 0),
    {
        self.cmp_rational(other) < 0
    }

    /// Saturating subtraction clamped at zero.
    pub fn sub_or_zero(self, other: Rational128) -> (r: Rational128)
        ensures
            r == self.spec_sub_or_zero(other),
    {
        let left = mul_wide(self.n, other.d);
        let right = mul_wide(other.n, self.d);
        if !wide_lt(right, left) {
            Rational128 { n: 0, d: 1 }
        } else {
            match (
                self.n.checked_mul(other.d),
                other.n.checked_mul(self.d),
                self.d.checked_mul(other.d),
            ) {
                (Some(x), Some(y), Some(den)) => Rational128 { n: x - y, d: den },
                _ => Rational128 { n: u128::MAX, d: u128::MAX },
            }
        }
    }

    /// The reciprocal `d / n`, defined only for positive values.
    pub fn reciprocal(self) -> (r: Option<Rational128>)
        ensures
            self.n > 0 ==> r == Some(Rational128 { n: self.d, d: self.n }),
            self.n == 0 ==> r is None,
    {
        if self.n == 0 {
            None
        } else {
            Some(Rational128 { n: self.d, d: self.n })
        }
    }

    /// Rounded conversion to parts-per-billion, clamped to `[0, 10^9]`.
    pub fn to_perbill(&self) -> (r: u32)
        requires
            self.wf(),
        ensures
            r == self.spec_to_perbill(),
            r <= 1_000_000_000u32,
    {
        // target = 2·n·10^9 + d, as a 256-bit value
        let nb = mul_wide(self.n, BILLION);
        proof {
            assert(self.n * BILLION <= u128::MAX * BILLION) by (nonlinear_arith)
                requires self.n <= u128::MAX;
            lemma_wide_hi_small(nb, BILLION as int);
        }
        let nb2 = wide_double(nb);
        proof {
            assert(wide_val(nb2) + self.d < pow2_128() * pow2_128()) by (nonlinear_arith)
                requires wide_val(nb2) == 2 * wide_val(nb), wide_val(nb) == self.n * BILLION,
                    self.n <= u128::MAX, self.d <= u128::MAX, BILLION == 1_000_000_000u128;
        }
        let target = wide_add(nb2, (0, self.d));
        proof {
            assert(wide_val((0u128, self.d)) == self.d);
            assert(wide_val(target) == 2 * (self.n * BILLION) + self.d);
            assert(2 * (self.n * BILLION) + self.d == 2 * self.n * BILLION + self.d)
                by (nonlinear_arith);
        }
        // find the largest a <= 10^9 with a·2d <= target, by binary search
        let mut lo: u128 = 0;
        let mut hi: u128 = BILLION + 1;
        while lo + 1 < hi
            invariant
                self.wf(),
                lo < hi <= BILLION + 1,
                wide_val(target) == 2 * self.n * BILLION + self.d,
                lo * (2 * self.d) <= wide_val(target),
                hi <= BILLION ==> hi * (2 * self.d) > wide_val(target),
            decreases hi - lo,
        {
            let mid = lo + (hi - lo) / 2;
            let dm = mul_wide(self.d, mid);
            proof {
                assert(self.d * mid <= u128::MAX * 1_000_000_001) by (nonlinear_arith)
                    requires self.d <= u128::MAX, mid <= 1_000_000_000u128;
                lemma_wide_hi_small(dm, 1_000_000_001);
            }
            let scaled = wide_double(dm);
            proof {
                assert(2 * (self.d * mid) == mid * (2 * self.d)) by (nonlinear_arith);
            }
            if !wide_lt(target, scaled) {
                lo = mid;
            } else {
                hi = mid;
            }
        }
        proof {
            let t = wide_val(target);
            let dd = 2 * self.d as int;
            lemma_to_perbill_bounds(lo as int, hi as int, t, dd, BILLION as int);
        }
        lo as u32
    }
}

/// Division characterized by bracketing multiples: if `lo·dd <= t` and
/// either `lo` reached the cap or `(lo+1)·dd > t`, then `lo` is
/// `min(cap, t / dd)`.
proof fn lemma_to_perbill_bounds(lo: int, hi: int, t: int, dd: int, cap: int)
    requires
        dd > 0,
        t >= 0,
        0 <= lo,
        hi == lo + 1,
        lo <= cap,
        lo * dd <= t,
        hi <= cap ==> hi * dd > t,
    ensures
        lo == if t / dd > cap { cap } else { t / dd },
{
    assert(t / dd >= lo) by {
        assert((lo * dd) / dd == lo) by {
            vstd::arithmetic::div_mod::lemma_div_multiples_vanish(lo, dd);
            assert(dd * lo == lo * dd) by (nonlinear_arith);
        }
        lemma_div_is_ordered(lo * dd, t, dd);
    }
    if hi <= cap {
        assert(t / dd < hi) by {
            assert(dd * hi == hi * dd) by (nonlinear_arith);
            lemma_multiply_divide_lt(t, dd, hi);
        }
    }
}

/// When a 256-bit value is the product of a `u128` and a small factor,
/// its high half stays below the factor (hence far below `2^127`).
proof fn lemma_wide_hi_small(p: (u128, u128), bound: int)
    requires
        0 <= wide_val(p),
        wide_val(p) <= u128::MAX * bound,
        0 < bound < 0x8000_0000_0000_0000_0000_0000_0000_0000,
    ensures
        p.0 < bound,
{
    if p.0 >= bound {
        assert(p.0 * pow2_128() >= bound * pow2_128()) by (nonlinear_arith)
            requires p.0 >= bound;
        assert(u128::MAX * bound < bound * pow2_128()) by (nonlinear_arith)
            requires 0 < bound;
        assert(false);
    }
}

/// Comparison is antisymmetric: swapping the operands flips the sign.
pub proof fn lemma_cmp_antisym(a: Rational128, b: Rational128)
    ensures
        a.spec_cmp(b) == -b.spec_cmp(a),
{
}

/// Comparison is transitive over well-formed values, for `<=` chains
/// with at least one strict step, and for equality.
pub proof fn lemma_cmp_trans(a: Rational128, b: Rational128, c: Rational128)
    requires
        a.wf(),
        b.wf(),
        c.wf(),
        a.spec_cmp(b) <= 0,
        b.spec_cmp(c) <= 0,
    ensures
        a.spec_cmp(c) <= 0,
        a.spec_cmp(b) < 0 || b.spec_cmp(c) < 0 ==> a.spec_cmp(c) < 0,
        a.spec_cmp(b) == 0 && b.spec_cmp(c) == 0 ==> a.spec_cmp(c) == 0,
{
    if a.spec_is_infinite() || b.spec_is_infinite() || c.spec_is_infinite() {
        // infinities sit at the top of the order, so the chains are direct
    } else {
        let an = a.n as int;
        let ad = a.d as int;
        let bn = b.n as int;
        let bd = b.d as int;
        let cn = c.n as int;
        let cd = c.d as int;
        assert(an * bd <= bn * ad && bn * cd <= cn * bd ==> an * cd <= cn * ad)
            by (nonlinear_arith)
            requires ad >= 1, bd >= 1, cd >= 1;
        assert(an * bd <= bn * ad && bn * cd < cn * bd ==> an * cd < cn * ad)
            by (nonlinear_arith)
            requires ad >= 1, bd >= 1, cd >= 1;
        assert(an * bd < bn * ad && bn * cd <= cn * bd ==> an * cd < cn * ad)
            by (nonlinear_arith)
            requires ad >= 1, bd >= 1, cd >= 1;
        assert(an * bd == bn * ad && bn * cd == cn * bd ==> an * cd == cn * ad)
            by (nonlinear_arith)
            requires ad >= 1, bd >= 1, cd >= 1;
    }
}

/// The value of a 384-bit quantity held as three 128-bit parts.
pub open spec fn triple_val(t: (u128, u128, u128)) -> int {
    t.0 * pow2_128() * pow2_128() + t.1 * pow2_128() + t.2
}

/// Multiplies a 256-bit value by a 64-bit factor into a 384-bit value.
pub fn mul_u256_u64(p: (u128, u128), f: u64) -> (t: (u128, u128, u128))
    ensures
        triple_val(t) == wide_val(p) * f,
{
    let low = mul_wide(p.1, f as u128);
    let high = mul_wide(p.0, f as u128);
    proof {
        assert(p.1 * (f as int) <= u128::MAX * 0x1_0000_0000_0000_0000) by (nonlinear_arith)
            requires p.1 <= u128::MAX, f < 0x1_0000_0000_0000_0000;
        lemma_wide_hi_small(low, 0x1_0000_0000_0000_0000);
        assert(wide_val(high) + low.0 < pow2_128() * pow2_128()) by (nonlinear_arith)
            requires
                wide_val(high) == p.0 * (f as int),
                p.0 <= u128::MAX,
                f < 0x1_0000_0000_0000_0000,
                low.0 < 0x1_0000_0000_0000_0000,
        ;
    }
    let mid = wide_add(high, (0, low.0));
    proof {
        assert(triple_val((mid.0, mid.1, low.1)) == wide_val(p) * f) by (nonlinear_arith)
            requires
                mid.0 * pow2_128() + mid.1 == p.0 * (f as int) + low.0,
                low.0 * pow2_128() + low.1 == p.1 * (f as int),
                triple_val((mid.0, mid.1, low.1)) == mid.0 * pow2_128() * pow2_128()
                    + mid.1 * pow2_128() + low.1,
                wide_val(p) == p.0 * pow2_128() + p.1,
        ;
    }
    (mid.0, mid.1, low.1)
}

/// Lexicographic comparison of 384-bit values agrees with numeric order.
proof fn lemma_triple_cmp(a: (u128, u128, u128), b: (u128, u128, u128))
    ensures
        triple_val(a) <= triple_val(b) <==> (a.0 < b.0 || (a.0 == b.0 && a.1 < b.1) || (a.0
            == b.0 && a.1 == b.1 && a.2 <= b.2)),
{
    let p2 = pow2_128();
    if a.0 < b.0 {
        assert(a.0 * p2 * p2 + p2 * p2 <= b.0 * p2 * p2) by (nonlinear_arith)
            requires a.0 < b.0, p2 == pow2_128();
        assert(a.1 * p2 + a.2 < p2 * p2) by (nonlinear_arith)
            requires a.1 < p2, a.2 < p2, p2 == pow2_128();
    }
    if b.0 < a.0 {
        assert(b.0 * p2 * p2 + p2 * p2 <= a.0 * p2 * p2) by (nonlinear_arith)
            requires b.0 < a.0, p2 == pow2_128();
        assert(b.1 * p2 + b.2 < p2 * p2) by (nonlinear_arith)
            requires b.1 < p2, b.2 < p2, p2 == pow2_128();
    }
    if a.0 == b.0 {
        if a.1 < b.1 {
            assert(a.1 * p2 + p2 <= b.1 * p2) by (nonlinear_arith)
                requires a.1 < b.1, p2 == pow2_128();
        }
        if b.1 < a.1 {
            assert(b.1 * p2 + p2 <= a.1 * p2) by (nonlinear_arith)
                requires b.1 < a.1, p2 == pow2_128();
        }
    }
}

/// Numeric "less or equal" on 384-bit values.
pub fn triple_le(a: (u128, u128, u128), b: (u128, u128, u128)) -> (r: bool)
    ensures
        r == (triple_val(a) <= triple_val(b)),
{
    proof { lemma_triple_cmp(a, b); }
    a.0 < b.0 || (a.0 == b.0 && a.1 < b.1) || (a.0 == b.0 && a.1 == b.1 && a.2 <= b.2)
}

/// Division characterized by bracketing multiples, shared by the
/// perbill conversion and the edge-weight computation.
pub proof fn lemma_div_bracket(lo: int, hi: int, t: int, dd: int, cap: int)
    requires
        dd > 0,
        t >= 0,
        0 <= lo,
        hi == lo + 1,
        lo <= cap,
        lo * dd <= t,
        hi <= cap ==> hi * dd > t,
    ensures
        lo == if t / dd > cap { cap } else { t / dd },
{
    lemma_to_perbill_bounds(lo, hi, t, dd, cap);
}

/// 256-bit doubling; the value must fit (high half below `2^127`).
pub fn wide_double(a: (u128, u128)) -> (r: (u128, u128))
    requires
        a.0 < 0x8000_0000_0000_0000_0000_0000_0000_0000u128,
    ensures
        wide_val(r) == 2 * wide_val(a),
{
    let carry: u128 = a.1 / 0x8000_0000_0000_0000_0000_0000_0000_0000u128;
    proof {
        lemma_fundamental_div_mod(a.1 as int, 0x8000_0000_0000_0000_0000_0000_0000_0000);
        lemma_mod_division_less_than_divisor(
            a.1 as int, 0x8000_0000_0000_0000_0000_0000_0000_0000,
        );
        lemma_multiply_divide_lt(
            a.1 as int, 0x8000_0000_0000_0000_0000_0000_0000_0000, 2,
        );
    }
    let low = (a.1 % 0x8000_0000_0000_0000_0000_0000_0000_0000u128) * 2;
    let high = a.0 * 2 + carry;
    proof {
        assert(high * pow2_128() + low == 2 * (a.0 * pow2_128() + a.1)) by (nonlinear_arith)
            requires
                high == a.0 * 2 + carry,
                low == (a.1 - carry * 0x8000_0000_0000_0000_0000_0000_0000_0000) * 2,
                a.1 == 0x8000_0000_0000_0000_0000_0000_0000_0000 * carry
                    + a.1 % 0x8000_0000_0000_0000_0000_0000_0000_0000,
        ;
    }
    (high, low)
}

/// 256-bit addition; the sum must fit in 256 bits.
pub fn wide_add(a: (u128, u128), b: (u128, u128)) -> (r: (u128, u128))
    requires
        wide_val(a) + wide_val(b) < pow2_128() * pow2_128(),
    ensures
        wide_val(r) == wide_val(a) + wide_val(b),
{
    let (low, carried) = if a.1 > u128::MAX - b.1 {
        (a.1 - (u128::MAX - b.1) - 1, true)
    } else {
        (a.1 + b.1, false)
    };
    proof {
        if a.0 + b.0 + (if carried { 1int } else { 0int }) >= pow2_128() {
            assert((a.0 + b.0 + (if carried { 1int } else { 0int })) * pow2_128()
                >= pow2_128() * pow2_128()) by (nonlinear_arith)
                requires a.0 + b.0 + (if carried { 1int } else { 0int }) >= pow2_128(),
            ;
            assert(wide_val(a) + wide_val(b) == (a.0 + b.0) * pow2_128() + a.1 + b.1)
                by (nonlinear_arith);
            assert(false);
        }
        assert((a.0 + b.0 + (if carried { 1int } else { 0int })) * pow2_128() + low
            == wide_val(a) + wide_val(b)) by (nonlinear_arith)
            requires
                low == a.1 + b.1 - (if carried { pow2_128() } else { 0int }),
        ;
    }
    let high = if carried { a.0 + b.0 + 1 } else { a.0 + b.0 };
    (high, low)
}

} // verus!
