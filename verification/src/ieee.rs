//! IEEE 754 numbers held as their bit patterns, and what the library does
//! with them: rounding to the nearest, narrowing, and rounding to integers.
//!
//! A format is a grid of magnitudes. The magnitudes of a format are
//! numbered in ascending order, from zero to infinity, and that number is
//! the bit pattern without its sign. The format is given by `m`, the
//! weight of the hidden bit, and by `top`, the number of infinity; the
//! value of a magnitude is counted in units of the smallest one.
use crate::natural::Natural;
use vstd::arithmetic::div_mod::*;
use vstd::arithmetic::mul::*;
use vstd::arithmetic::power2::*;
use vstd::prelude::*;

verus! {

/// A single-precision number, as its 32 bits.
#[derive(Clone, Copy, Debug)]
pub struct Binary32 {
    pub bits: u32,
}

/// A double-precision number, as its 64 bits.
#[derive(Clone, Copy, Debug)]
pub struct Binary64 {
    pub bits: u64,
}

// ---------------------------------------------------------------------
// The grid of a format.
// ---------------------------------------------------------------------
/// The significand of a magnitude, with its hidden bit.
pub open spec fn significand(m: nat, mag: nat) -> nat {
    if mag < m {
        mag
    } else {
        m + mag % m
    }
}

/// The power of two that a significand counts, in units.
pub open spec fn exponent(m: nat, mag: nat) -> nat {
    if mag < m {
        0
    } else {
        (mag / m - 1) as nat
    }
}

/// The value of a magnitude, in units.
pub open spec fn units(m: nat, mag: nat) -> nat {
    significand(m, mag) * pow2(exponent(m, mag))
}

/// `n / d` units lie nearest to `mag`, the even one of two that are equally
/// near; infinity counts as the magnitude that would follow the largest.
pub open spec fn rounds_to(m: nat, top: nat, n: nat, d: nat, mag: nat) -> bool {
    &&& mag <= top
    &&& mag < top ==> {
        let middle = (units(m, mag) + units(m, mag + 1)) * d;
        2 * n < middle || (2 * n == middle && mag % 2 == 0)
    }
    &&& mag > 0 ==> {
        let middle = (units(m, (mag - 1) as nat) + units(m, mag)) * d;
        middle < 2 * n || (middle == 2 * n && mag % 2 == 0)
    }
}

/// How far apart two numbers are.
pub open spec fn distance(a: nat, b: nat) -> nat {
    if a < b {
        (b - a) as nat
    } else {
        (a - b) as nat
    }
}

/// The magnitude nearest to `n / d` units.
pub open spec fn nearest(m: nat, top: nat, n: nat, d: nat) -> nat {
    choose|mag: nat| rounds_to(m, top, n, d, mag)
}

/// Double precision: the weight of its hidden bit.
pub const HIDDEN_64: u64 = 0x10_0000_0000_0000;

/// Double precision: its infinity.
pub const TOP_64: u64 = 0x7FF0_0000_0000_0000;

/// Single precision: the weight of its hidden bit.
pub const HIDDEN_32: u64 = 0x80_0000;

/// Single precision: its infinity.
pub const TOP_32: u64 = 0x7F80_0000;

/// The units of double precision in one.
pub open spec fn one_64() -> nat {
    pow2(1074)
}

/// The units of single precision in one.
pub open spec fn one_32() -> nat {
    pow2(149)
}

/// The value of a double-precision magnitude, in its units.
pub open spec fn units_64(mag: nat) -> nat {
    units(HIDDEN_64 as nat, mag)
}

/// The value of a single-precision magnitude, in its units.
pub open spec fn units_32(mag: nat) -> nat {
    units(HIDDEN_32 as nat, mag)
}

/// Each magnitude of a grid lies below the next, by one step.
pub proof fn lemma_next(m: nat, mag: nat)
    requires
        m > 0,
    ensures
        units(m, mag + 1) == (significand(m, mag) + 1) * pow2(exponent(m, mag)),
        units(m, mag) < units(m, mag + 1),
{
    let s = significand(m, mag);
    let e = exponent(m, mag);
    lemma_pow2_pos(e);
    if mag + 1 < m {
    } else if mag < m {
        assert(mag + 1 == m);
        lemma_div_by_self(m as int);
        lemma_mod_self_0(m as int);
        lemma2_to64();
    } else {
        lemma_fundamental_div_mod(mag as int, m as int);
        lemma_mod_bound(mag as int, m as int);
        let q = mag / m;
        let r = mag % m;
        lemma_div_non_zero(mag as int, m as int);
        if r + 1 < m {
            lemma_fundamental_div_mod_converse((mag + 1) as int, m as int, q as int, (r + 1) as int);
        } else {
            assert(m * (q + 1) == m * q + m) by (nonlinear_arith);
            lemma_mul_is_commutative(m as int, (q + 1) as int);
            lemma_fundamental_div_mod_converse((mag + 1) as int, m as int, (q + 1) as int, 0);
            lemma_pow2_unfold(q);
            assert(significand(m, mag + 1) == m);
            assert(exponent(m, mag + 1) == q);
            assert(s + 1 == 2 * m);
            assert(m * (2 * pow2(e)) == (2 * m) * pow2(e)) by (nonlinear_arith);
        }
    }
    assert((s + 1) * pow2(e) == s * pow2(e) + pow2(e)) by (nonlinear_arith);
}

/// Greater magnitudes have greater values.
pub proof fn lemma_ascending(m: nat, a: nat, b: nat)
    requires
        m > 0,
        a < b,
    ensures
        units(m, a) < units(m, b),
    decreases b - a,
{
    lemma_next(m, (b - 1) as nat);
    if a < b - 1 {
        lemma_ascending(m, a, (b - 1) as nat);
    }
}

proof fn lemma_no_two(m: nat, top: nat, n: nat, d: nat, a: nat, b: nat)
    requires
        m > 0,
        d > 0,
        rounds_to(m, top, n, d, a),
        a < b,
    ensures
        !rounds_to(m, top, n, d, b),
{
    let above = units(m, a) + units(m, a + 1);
    let below = units(m, (b - 1) as nat) + units(m, b);
    if b == a + 1 {
        assert(above * d == below * d);
    } else {
        lemma_ascending(m, a, (b - 1) as nat);
        lemma_ascending(m, a + 1, b);
        assert(above * d < below * d) by (nonlinear_arith)
            requires
                above < below,
                d > 0,
        ;
    }
}

/// At most one magnitude is nearest: rounding is a function.
pub proof fn lemma_nearest_unique(m: nat, top: nat, n: nat, d: nat, mag: nat)
    requires
        m > 0,
        d > 0,
        rounds_to(m, top, n, d, mag),
    ensures
        nearest(m, top, n, d) == mag,
{
    let other = nearest(m, top, n, d);
    assert(rounds_to(m, top, n, d, other));
    if mag < other {
        lemma_no_two(m, top, n, d, mag, other);
    }
    if other < mag {
        lemma_no_two(m, top, n, d, other, mag);
    }
}

/// A value on the grid is nearest to itself.
pub proof fn lemma_exact(m: nat, top: nat, n: nat, d: nat, mag: nat)
    requires
        m > 0,
        d > 0,
        mag <= top,
        n == units(m, mag) * d,
    ensures
        rounds_to(m, top, n, d, mag),
        nearest(m, top, n, d) == mag,
{
    let u = units(m, mag);
    lemma_next(m, mag);
    let above = u + units(m, mag + 1);
    assert(2 * n < above * d) by (nonlinear_arith)
        requires
            n == u * d,
            2 * u < above,
            d > 0,
    ;
    if mag > 0 {
        lemma_next(m, (mag - 1) as nat);
        let below = units(m, (mag - 1) as nat) + u;
        assert(below * d < 2 * n) by (nonlinear_arith)
            requires
                n == u * d,
                below < 2 * u,
                d > 0,
        ;
    }
    lemma_nearest_unique(m, top, n, d, mag);
}

/// What lies between two neighbours rounds to one of them.
proof fn lemma_between(m: nat, top: nat, n: nat, d: nat, mag: nat)
    requires
        m > 0,
        d > 0,
        mag < top,
        units(m, mag) * d <= n,
        n < units(m, mag + 1) * d,
    ensures
        ({
            let middle = (units(m, mag) + units(m, mag + 1)) * d;
            let up = middle < 2 * n || (middle == 2 * n && mag % 2 == 1);
            &&& up ==> rounds_to(m, top, n, d, mag + 1)
            &&& !up ==> rounds_to(m, top, n, d, mag)
        }),
{
    let u = units(m, mag);
    let v = units(m, mag + 1);
    lemma_next(m, mag + 1);
    let w = units(m, mag + 2);
    assert(2 * n < (v + w) * d) by (nonlinear_arith)
        requires
            n < v * d,
            v < w,
            d > 0,
    ;
    if mag > 0 {
        lemma_next(m, (mag - 1) as nat);
        let t = units(m, (mag - 1) as nat);
        assert((t + u) * d < 2 * n) by (nonlinear_arith)
            requires
                u * d <= n,
                t < u,
                d > 0,
        ;
    }
}

/// What reaches infinity's place on the grid is infinite.
pub proof fn lemma_overflows(m: nat, top: nat, n: nat, d: nat)
    requires
        m > 0,
        d > 0,
        units(m, top) * d <= n,
    ensures
        rounds_to(m, top, n, d, top),
{
    if top > 0 {
        lemma_next(m, (top - 1) as nat);
        let t = units(m, (top - 1) as nat);
        let u = units(m, top);
        assert((t + u) * d < 2 * n) by (nonlinear_arith)
            requires
                u * d <= n,
                t < u,
                d > 0,
        ;
    }
}

/// The magnitude below lies one step away, half a step where a binade opens.
pub proof fn lemma_previous(m: nat, mag: nat)
    requires
        m > 1,
        0 < mag,
    ensures
        ({
            let s = significand(m, mag);
            let e = exponent(m, mag);
            let opens = s == m && e > 0;
            2 * (units(m, (mag - 1) as nat) + units(m, mag)) == (4 * s - if opens {
                1int
            } else {
                2
            }) * pow2(e)
        }),
{
    let s = significand(m, mag);
    let e = exponent(m, mag);
    let p = pow2(e);
    let b = (mag - 1) as nat;
    let s0 = significand(m, b);
    let e0 = exponent(m, b);
    lemma_next(m, b);
    let u0 = s0 * pow2(e0);
    let u = s * p;
    assert(u == u0 + pow2(e0)) by (nonlinear_arith)
        requires
            u == (s0 + 1) * pow2(e0),
            u0 == s0 * pow2(e0),
    ;
    if mag >= m {
        lemma_fundamental_div_mod(mag as int, m as int);
        lemma_mod_bound(mag as int, m as int);
        lemma_div_non_zero(mag as int, m as int);
        let q = mag as int / m as int;
        let r = mag as int % m as int;
        lemma_mul_is_commutative(m as int, q);
        if r > 0 {
            lemma_fundamental_div_mod_converse(b as int, m as int, q, r - 1);
            assert(b >= m) by (nonlinear_arith)
                requires
                    b == q * m + (r - 1),
                    q >= 1,
                    r >= 1,
                    m > 1,
            ;
        } else {
            assert((q - 1) * m + (m - 1) == b) by (nonlinear_arith)
                requires
                    mag == q * m,
                    b == mag - 1,
            ;
            lemma_fundamental_div_mod_converse(b as int, m as int, q - 1, m - 1);
            if q == 1 {
                lemma_mul_basics(m as int);
            } else {
                assert(b >= m) by (nonlinear_arith)
                    requires
                        b == (q - 1) * m + (m - 1),
                        q >= 2,
                        m > 1,
                ;
            }
        }
    }
    if s == m && e > 0 {
        assert(e0 == e - 1);
        lemma_pow2_unfold(e);
        assert((4 * s - 1) * p == 4 * u - p) by (nonlinear_arith)
            requires
                u == s * p,
        ;
    } else {
        assert(e0 == e);
        assert((4 * s - 2) * p == 4 * u - 2 * p) by (nonlinear_arith)
            requires
                u == s * p,
        ;
    }
}

proof fn lemma_found_from(m: nat, top: nat, n: nat, d: nat, k: nat)
    requires
        m > 0,
        d > 0,
        k < top,
        units(m, k) * d <= n,
        n < units(m, top) * d,
    ensures
        exists|mag: nat| rounds_to(m, top, n, d, mag),
    decreases top - k,
{
    if n < units(m, k + 1) * d {
        lemma_between(m, top, n, d, k);
    } else {
        lemma_found_from(m, top, n, d, k + 1);
    }
}

/// Every value has a nearest magnitude.
pub proof fn lemma_nearest(m: nat, top: nat, n: nat, d: nat)
    requires
        m > 0,
        d > 0,
    ensures
        rounds_to(m, top, n, d, nearest(m, top, n, d)),
{
    if units(m, top) * d <= n {
        lemma_overflows(m, top, n, d);
    } else {
        assert(units(m, 0) * d == 0) by {
            lemma_mul_basics(pow2(0) as int);
            lemma_mul_basics(d as int);
        }
        if top == 0 {
            assert(false);
        }
        lemma_found_from(m, top, n, d, 0);
    }
}

/// No magnitude lies nearer than the nearest.
pub proof fn nearest_is_nearest(m: nat, top: nat, n: nat, d: nat, other: nat)
    requires
        m > 0,
        d > 0,
        other <= top,
    ensures
        ({
            let mag = nearest(m, top, n, d);
            mag < top ==> distance(units(m, mag) * d, n) <= distance(units(m, other) * d, n)
        }),
{
    lemma_nearest(m, top, n, d);
    let mag = nearest(m, top, n, d);
    let u = units(m, mag);
    let v = units(m, other);
    if mag < top && other > mag {
        lemma_ascending(m, mag, mag + 1);
        if other > mag + 1 {
            lemma_ascending(m, mag + 1, other);
        }
        let w = units(m, mag + 1);
        assert(2 * n <= u * d + v * d && u * d <= v * d) by (nonlinear_arith)
            requires
                2 * n <= (u + w) * d,
                u < w,
                w <= v,
                d > 0,
        ;
    } else if other < mag {
        lemma_ascending(m, (mag - 1) as nat, mag);
        if other < mag - 1 {
            lemma_ascending(m, other, (mag - 1) as nat);
        }
        let w = units(m, (mag - 1) as nat);
        assert(2 * n >= u * d + v * d && v * d <= u * d) by (nonlinear_arith)
            requires
                2 * n >= (w + u) * d,
                w < u,
                v <= w,
                d > 0,
        ;
    }
}

/// Of two magnitudes that are equally near, the even one is the nearest; what
/// lies halfway from the largest to the next, or beyond, is infinity, and
/// nothing else is.
pub proof fn halves_go_to_even(m: nat, top: nat, n: nat, d: nat)
    requires
        m > 0,
        d > 0,
        top > 0,
        top % 2 == 0,
    ensures
        ({
            let mag = nearest(m, top, n, d);
            &&& mag <= top
            &&& mag < top && 2 * n == (units(m, mag) + units(m, mag + 1)) * d ==> mag % 2 == 0
            &&& mag > 0 && 2 * n == (units(m, (mag - 1) as nat) + units(m, mag)) * d ==> mag % 2
                == 0
            &&& mag == top <==> 2 * n >= (units(m, (top - 1) as nat) + units(m, top)) * d
        }),
{
    lemma_nearest(m, top, n, d);
    let mag = nearest(m, top, n, d);
    let last = units(m, (top - 1) as nat) + units(m, top);
    if mag < top {
        let above = units(m, mag) + units(m, mag + 1);
        if mag < top - 1 {
            lemma_ascending(m, mag, (top - 1) as nat);
            lemma_ascending(m, mag + 1, top);
            assert(above * d <= last * d) by (nonlinear_arith)
                requires
                    above <= last,
            ;
            assert(above * d < last * d) by (nonlinear_arith)
                requires
                    above < last,
                    d > 0,
            ;
        }
    }
}

/// `d` times the value of a magnitude.
fn times_units(d: &Natural, m: u64, mag: u64) -> (r: Natural)
    requires
        0 < m <= HIDDEN_64,
        mag / m < 0x1_0000,
    ensures
        r@ == units(m as nat, mag as nat) * d@,
{
    if mag < m {
        let r = d.times_plus(mag, 0);
        proof {
            lemma2_to64();
            lemma_mul_basics(mag as int);
            lemma_mul_is_commutative(d@ as int, mag as int);
        }
        r
    } else {
        proof {
            lemma_div_non_zero(mag as int, m as int);
            lemma_mod_bound(mag as int, m as int);
        }
        let s: u64 = m + mag % m;
        let e: u32 = (mag / m - 1) as u32;
        let r = d.times_plus(s, 0).doubled(e);
        proof {
            let p = pow2(e as nat);
            assert((d@ * s) * p == (s * p) * d@) by (nonlinear_arith);
        }
        r
    }
}

/// The magnitude nearest to `n / d` units, found by bisection.
pub fn nearest_magnitude(n: &Natural, d: &Natural, m: u64, top: u64) -> (mag: u64)
    requires
        0 < m <= HIDDEN_64,
        d@ > 0,
        0 < top,
        top / m < 0x1_0000 - 1,
    ensures
        rounds_to(m as nat, top as nat, n@, d@, mag as nat),
        mag == nearest(m as nat, top as nat, n@, d@),
{
    let most = times_units(d, m, top);
    if most.below(n, true) {
        proof {
            lemma_overflows(m as nat, top as nat, n@, d@);
            lemma_nearest_unique(m as nat, top as nat, n@, d@, top as nat);
        }
        return top;
    }
    let mut lo: u64 = 0;
    let mut hi: u64 = top;
    proof {
        lemma_mul_by_zero_is_zero(d@ as int);
        lemma_mul_by_zero_is_zero(pow2(0) as int);
    }
    while hi - lo > 1
        invariant
            lo < hi <= top,
            0 < m <= HIDDEN_64,
            top / m < 0x1_0000 - 1,
            units(m as nat, lo as nat) * d@ <= n@,
            n@ < units(m as nat, hi as nat) * d@,
        decreases hi - lo,
    {
        let mid: u64 = lo + (hi - lo) / 2;
        proof {
            lemma_div_is_ordered(mid as int, top as int, m as int);
        }
        let at = times_units(d, m, mid);
        if at.below(n, true) {
            lo = mid;
        } else {
            hi = mid;
        }
    }
    proof {
        lemma_div_is_ordered(lo as int, top as int, m as int);
        lemma_div_is_ordered(lo + 1, top as int, m as int);
    }
    let middle = times_units(d, m, lo).plus(&times_units(d, m, lo + 1));
    let twice = n.times_plus(2, 0);
    let up = middle.below(&twice, lo % 2 == 1);
    let mag: u64 = if up {
        lo + 1
    } else {
        lo
    };
    proof {
        let u = units(m as nat, lo as nat);
        let v = units(m as nat, lo as nat + 1);
        assert(u * d@ + v * d@ == (u + v) * d@) by (nonlinear_arith);
        lemma_between(m as nat, top as nat, n@, d@, lo as nat);
        lemma_nearest_unique(m as nat, top as nat, n@, d@, mag as nat);
    }
    mag
}

// ---------------------------------------------------------------------
// The two formats.
// ---------------------------------------------------------------------
impl Binary32 {
    /// The number without its sign.
    pub open spec fn magnitude(self) -> nat {
        (self.bits % 0x8000_0000) as nat
    }

    /// The sign bit is set.
    pub open spec fn negative(self) -> bool {
        self.bits >= 0x8000_0000
    }

    /// Neither a number nor an infinity.
    pub open spec fn nan(self) -> bool {
        self.magnitude() > TOP_32
    }

    /// The number of a sign and a magnitude.
    pub open spec fn signed(negative: bool, mag: nat) -> Binary32 {
        Binary32 {
            bits: if negative {
                (0x8000_0000 + mag) as u32
            } else {
                mag as u32
            },
        }
    }

    pub fn is_nan(&self) -> (r: bool)
        ensures
            r == self.nan(),
    {
        self.bits % 0x8000_0000 > 0x7F80_0000
    }
}

impl PartialEq for Binary32 {
    fn eq(&self, other: &Self) -> (r: bool) {
        !self.is_nan() && !other.is_nan() && (self.bits == other.bits || (self.bits % 0x8000_0000
            == 0 && other.bits % 0x8000_0000 == 0))
    }
}

impl vstd::std_specs::cmp::PartialEqSpecImpl for Binary32 {
    open spec fn obeys_eq_spec() -> bool {
        true
    }

    open spec fn eq_spec(&self, other: &Self) -> bool {
        !self.nan() && !other.nan() && (self.bits == other.bits || (self.magnitude() == 0
            && other.magnitude() == 0))
    }
}

impl Binary64 {
    /// The number without its sign.
    pub open spec fn magnitude(self) -> nat {
        (self.bits % 0x8000_0000_0000_0000) as nat
    }

    /// The sign bit is set.
    pub open spec fn negative(self) -> bool {
        self.bits >= 0x8000_0000_0000_0000
    }

    /// Neither a number nor an infinity.
    pub open spec fn nan(self) -> bool {
        self.magnitude() > TOP_64
    }

    /// A number, zero included, and no infinity.
    pub open spec fn finite(self) -> bool {
        self.magnitude() < TOP_64
    }

    /// The number of a sign and a magnitude.
    pub open spec fn signed(negative: bool, mag: nat) -> Binary64 {
        Binary64 {
            bits: if negative {
                (0x8000_0000_0000_0000 + mag) as u64
            } else {
                mag as u64
            },
        }
    }

    /// The magnitude rounded to an integer, halves away from zero.
    pub open spec fn rounded_magnitude(mag: nat) -> nat {
        (2 * units_64(mag) + one_64()) / (2 * one_64())
    }

    /// The number rounded to an integer, halves away from zero, and held to
    /// the range from `lo` to `hi`; zero for what is no number.
    pub open spec fn rounded(self, lo: int, hi: int) -> int {
        let mag = Self::rounded_magnitude(self.magnitude()) as int;
        let v = if self.negative() {
            -mag
        } else {
            mag
        };
        if self.nan() {
            0
        } else if v < lo {
            lo
        } else if v > hi {
            hi
        } else {
            v
        }
    }

    /// The nearest single-precision number; what is no number stays none.
    pub open spec fn narrowed(self) -> Binary32 {
        if self.nan() {
            Binary32::signed(self.negative(), 0x7FC0_0000)
        } else {
            Binary32::signed(
                self.negative(),
                nearest(
                    HIDDEN_32 as nat,
                    TOP_32 as nat,
                    units_64(self.magnitude()),
                    pow2(925),
                ),
            )
        }
    }

    /// The integer that the magnitude is, where it is one.
    pub open spec fn integer(mag: nat) -> Option<nat> {
        if units_64(mag) % one_64() == 0 {
            Some(units_64(mag) / one_64())
        } else {
            None
        }
    }

    /// The number, where it is an integer from `lo` to `hi`.
    pub open spec fn integral(self, lo: int, hi: int) -> Option<int> {
        match Self::integer(self.magnitude()) {
            Some(v) => {
                let x = if self.negative() {
                    -(v as int)
                } else {
                    v as int
                };
                if !self.nan() && lo <= x <= hi {
                    Some(x)
                } else {
                    None
                }
            },
            None => None,
        }
    }

    pub fn is_nan(&self) -> (r: bool)
        ensures
            r == self.nan(),
    {
        self.bits % 0x8000_0000_0000_0000 > TOP_64
    }

    /// The nearest single-precision number.
    pub fn to_binary32(&self) -> (r: Binary32)
        ensures
            r == self.narrowed(),
    {
        let mag: u64 = self.bits % 0x8000_0000_0000_0000;
        let bits: u64 = if mag > TOP_64 {
            0x7FC0_0000
        } else {
            let one = Natural::new(1);
            let n = times_units(&one, HIDDEN_64, mag);
            let d = one.doubled(925);
            proof {
                lemma_pow2_pos(925);
                lemma_mul_basics(units_64(mag as nat) as int);
                lemma_mul_basics(pow2(925) as int);
            }
            nearest_magnitude(&n, &d, HIDDEN_32, TOP_32)
        };
        if self.bits >= 0x8000_0000_0000_0000 {
            Binary32 { bits: (0x8000_0000 + bits) as u32 }
        } else {
            Binary32 { bits: bits as u32 }
        }
    }
}

/// A common factor leaves a quotient as it is, and scales the remainder.
pub proof fn lemma_cancel(x: nat, d: nat, c: nat)
    requires
        d > 0,
        c > 0,
    ensures
        d * c > 0,
        (x * c) / (d * c) == x / d,
        (x * c) % (d * c) == (x % d) * c,
{
    let q = x / d;
    let r = x % d;
    lemma_fundamental_div_mod(x as int, d as int);
    lemma_mod_bound(x as int, d as int);
    lemma_mul_strictly_positive(d as int, c as int);
    assert(x * c == q * (d * c) + r * c) by (nonlinear_arith)
        requires
            x == d * q + r,
    ;
    assert(0 <= r * c < d * c) by (nonlinear_arith)
        requires
            0 <= r < d,
            c > 0,
    ;
    lemma_fundamental_div_mod_converse(
        (x * c) as int,
        (d * c) as int,
        q as int,
        (r * c) as int,
    );
}

/// A magnitude of whole steps of one or more.
proof fn lemma_whole_steps(s: nat, e: nat)
    requires
        e >= 1074,
    ensures
        ({
            let v = s * pow2((e - 1074) as nat);
            let u = s * pow2(e);
            &&& u % one_64() == 0
            &&& u / one_64() == v
            &&& (2 * u + one_64()) / (2 * one_64()) == v
        }),
{
    let k = (e - 1074) as nat;
    let v = s * pow2(k);
    let u = s * pow2(e);
    let one = one_64();
    lemma_pow2_pos(1074);
    lemma_pow2_adds(k, 1074);
    assert(u == v * one) by (nonlinear_arith)
        requires
            v == s * pow2(k),
            u == s * (pow2(k) * one),
    ;
    lemma_fundamental_div_mod_converse(u as int, one as int, v as int, 0);
    assert(2 * u + one == v * (2 * one) + one) by (nonlinear_arith)
        requires
            u == v * one,
    ;
    lemma_fundamental_div_mod_converse(
        (2 * u + one) as int,
        (2 * one) as int,
        v as int,
        one as int,
    );
}

/// A magnitude whose steps are a fraction of one.
proof fn lemma_fraction_steps(s: nat, e: nat)
    requires
        e < 1074,
    ensures
        ({
            let p = pow2((1074 - e) as nat);
            let u = s * pow2(e);
            &&& p > 0
            &&& u % one_64() == (s % p) * pow2(e)
            &&& u / one_64() == s / p
            &&& (2 * u + one_64()) / (2 * one_64()) == (2 * s + p) / (2 * p)
            &&& pow2(e) > 0
        }),
{
    let t = (1074 - e) as nat;
    let p = pow2(t);
    let c = pow2(e);
    lemma_pow2_pos(t);
    lemma_pow2_pos(e);
    lemma_pow2_adds(t, e);
    lemma_cancel(s, p, c);
    lemma_cancel(2 * s + p, 2 * p, c);
    assert((2 * s + p) * c == 2 * (s * c) + p * c) by (nonlinear_arith);
    assert((2 * p) * c == 2 * (p * c)) by (nonlinear_arith);
}

proof fn lemma_significand_bound(mag: u64)
    requires
        mag <= TOP_64,
    ensures
        significand(HIDDEN_64 as nat, mag as nat) < 0x20_0000_0000_0000,
        exponent(HIDDEN_64 as nat, mag as nat) <= 2046,
        exponent(HIDDEN_64 as nat, mag as nat) > 0 ==> significand(HIDDEN_64 as nat, mag as nat)
            >= HIDDEN_64,
{
}

/// The significand and the exponent of a double-precision magnitude.
pub fn parts_64(mag: u64) -> (r: (u64, u32))
    requires
        mag <= TOP_64,
    ensures
        r.0 == significand(HIDDEN_64 as nat, mag as nat),
        r.1 == exponent(HIDDEN_64 as nat, mag as nat),
        r.0 < 0x20_0000_0000_0000,
        r.1 <= 2046,
        r.1 > 0 ==> r.0 >= HIDDEN_64,
{
    proof {
        lemma_significand_bound(mag);
    }
    if mag < HIDDEN_64 {
        (mag, 0)
    } else {
        (HIDDEN_64 + mag % HIDDEN_64, (mag / HIDDEN_64 - 1) as u32)
    }
}

/// `2^t`.
fn power_of_two(t: u32) -> (p: u64)
    requires
        t < 64,
    ensures
        p == pow2(t as nat),
        p > 0,
{
    proof {
        lemma_pow2_pos(t as nat);
        lemma2_to64_rest();
        lemma_pow2_strictly_increases(t as nat, 64);
        vstd::bits::lemma_u64_shl_is_mul(1, t as u64);
    }
    1u64 << t as u64
}

/// The rounded magnitude, held to `2^64`.
fn rounded_to_64(mag: u64) -> (r: u128)
    requires
        mag <= TOP_64,
    ensures
        ({
            let v = Binary64::rounded_magnitude(mag as nat);
            r == if v <= 0x1_0000_0000_0000_0000 {
                v
            } else {
                0x1_0000_0000_0000_0000
            }
        }),
{
    let (s, e) = parts_64(mag);
    if e >= 1074 {
        proof {
            lemma_whole_steps(s as nat, e as nat);
        }
        let k: u32 = e - 1074;
        if k >= 12 {
            proof {
                lemma2_to64();
                if k > 12 {
                    lemma_pow2_strictly_increases(12, k as nat);
                }
                let p = pow2(k as nat);
                assert(s * p >= 0x10_0000_0000_0000 * 4096) by (nonlinear_arith)
                    requires
                        s >= 0x10_0000_0000_0000,
                        p >= 4096,
                ;
            }
            0x1_0000_0000_0000_0000
        } else {
            let p: u64 = power_of_two(k);
            proof {
                lemma2_to64();
                if k < 11 {
                    lemma_pow2_strictly_increases(k as nat, 11);
                }
                assert(0 <= s * p <= 0x20_0000_0000_0000 * 2048) by (nonlinear_arith)
                    requires
                        0 <= s <= 0x20_0000_0000_0000,
                        0 <= p <= 2048,
                ;
            }
            s as u128 * p as u128
        }
    } else {
        proof {
            lemma_fraction_steps(s as nat, e as nat);
        }
        let t: u32 = 1074 - e;
        if t >= 55 {
            proof {
                lemma2_to64_rest();
                if t > 55 {
                    lemma_pow2_strictly_increases(55, t as nat);
                }
                let p = pow2(t as nat);
                lemma_basic_div((2 * s + p) as int, (2 * p) as int);
            }
            0
        } else {
            let p: u64 = power_of_two(t);
            proof {
                lemma2_to64_rest();
                if t < 54 {
                    lemma_pow2_strictly_increases(t as nat, 54);
                }
                lemma_div_nonincreasing((2 * s + p) as int, (2 * p) as int);
            }
            ((2 * s + p) / (2 * p)) as u128
        }
    }
}

/// The integers of fewer than sixteen digits that print without a point:
/// all that are held exactly, with room to spare.
pub const INTEGER_LIMIT: u64 = 9_000_000_000_000_000;

impl Binary64 {
    /// The integer that a magnitude is, where it is one below the limit.
    pub fn small_integer(mag: u64) -> (r: Option<u64>)
        requires
            mag <= TOP_64,
        ensures
            r is Some <==> (Self::integer(mag as nat) is Some && Self::integer(mag as nat)->0
                < INTEGER_LIMIT),
            r matches Some(v) ==> Self::integer(mag as nat) == Some(v as nat),
    {
        match Self::whole(mag) {
            Some(v) => if v < INTEGER_LIMIT {
                Some(v)
            } else {
                None
            },
            None => None,
        }
    }

    /// The integer that a magnitude is, where it is one of 64 bits.
    fn whole(mag: u64) -> (r: Option<u64>)
        requires
            mag <= TOP_64,
        ensures
            r is Some <==> (Self::integer(mag as nat) is Some && Self::integer(mag as nat)->0
                <= u64::MAX),
            r matches Some(v) ==> Self::integer(mag as nat) == Some(v as nat),
    {
        let (s, e) = parts_64(mag);
        if e >= 1074 {
            proof {
                lemma_whole_steps(s as nat, e as nat);
                lemma2_to64();
            }
            let k: u32 = e - 1074;
            if k >= 12 {
                proof {
                    if k > 12 {
                        lemma_pow2_strictly_increases(12, k as nat);
                    }
                    let p = pow2(k as nat);
                    assert(s * p >= 0x10_0000_0000_0000 * 4096) by (nonlinear_arith)
                        requires
                            s >= 0x10_0000_0000_0000,
                            p >= 4096,
                    ;
                }
                None
            } else {
                let p: u64 = power_of_two(k);
                proof {
                    if k < 11 {
                        lemma_pow2_strictly_increases(k as nat, 11);
                    }
                    assert(0 <= s * p <= 0x20_0000_0000_0000 * 2048) by (nonlinear_arith)
                        requires
                            0 <= s <= 0x20_0000_0000_0000,
                            0 <= p <= 2048,
                    ;
                }
                let v: u128 = s as u128 * p as u128;
                if v <= u64::MAX as u128 {
                    Some(v as u64)
                } else {
                    None
                }
            }
        } else {
            proof {
                lemma_fraction_steps(s as nat, e as nat);
                lemma2_to64_rest();
            }
            let t: u32 = 1074 - e;
            if t >= 54 {
                proof {
                    if t > 54 {
                        lemma_pow2_strictly_increases(54, t as nat);
                    }
                    let p = pow2(t as nat);
                    lemma_small_mod(s as nat, p);
                    lemma_basic_div(s as int, p as int);
                    lemma_mul_basics(pow2(e as nat) as int);
                    if s > 0 {
                        lemma_mul_strictly_positive(s as int, pow2(e as nat) as int);
                    }
                }
                if s == 0 {
                    Some(0)
                } else {
                    None
                }
            } else {
                let p: u64 = power_of_two(t);
                proof {
                    let c = pow2(e as nat);
                    let r = s as int % p as int;
                    lemma_mod_bound(s as int, p as int);
                    if r > 0 {
                        lemma_mul_strictly_positive(r, c as int);
                    }
                    lemma_mul_basics(c as int);
                    lemma_pow2_unfold(t as nat);
                    lemma_pow2_pos((t - 1) as nat);
                    lemma_div_is_ordered_by_denominator(s as int, 2, p as int);
                }
                if s % p == 0 {
                    Some(s / p)
                } else {
                    None
                }
            }
        }
    }

    /// The number as an integer from `lo` to `hi`, where it is one.
    pub fn to_integer(&self, lo: i64, hi: u64) -> (r: Option<i128>)
        ensures
            r is Some <==> self.integral(lo as int, hi as int) is Some,
            r matches Some(v) ==> self.integral(lo as int, hi as int) == Some(v as int),
    {
        let mag: u64 = self.bits % 0x8000_0000_0000_0000;
        if mag > TOP_64 {
            return None;
        }
        match Self::whole(mag) {
            Some(v) => {
                let v: i128 = if self.bits >= 0x8000_0000_0000_0000 {
                    -(v as i128)
                } else {
                    v as i128
                };
                if lo as i128 <= v && v <= hi as i128 {
                    Some(v)
                } else {
                    None
                }
            },
            None => None,
        }
    }

    /// The number as an unsigned integer: rounded, halves away from zero,
    /// and held to the type's range.
    pub fn to_u64(&self) -> (r: u64)
        ensures
            r == self.rounded(0, u64::MAX as int),
    {
        let mag: u64 = self.bits % 0x8000_0000_0000_0000;
        if mag > TOP_64 || self.bits >= 0x8000_0000_0000_0000 {
            return 0;
        }
        let v: u128 = rounded_to_64(mag);
        if v >= 0x1_0000_0000_0000_0000 {
            u64::MAX
        } else {
            v as u64
        }
    }

    /// The number as a signed integer: rounded, halves away from zero, and
    /// held to the type's range.
    pub fn to_i64(&self) -> (r: i64)
        ensures
            r == self.rounded(i64::MIN as int, i64::MAX as int),
    {
        let mag: u64 = self.bits % 0x8000_0000_0000_0000;
        if mag > TOP_64 {
            return 0;
        }
        let v: u128 = rounded_to_64(mag);
        if self.bits >= 0x8000_0000_0000_0000 {
            if v >= 0x8000_0000_0000_0000 {
                i64::MIN
            } else {
                -(v as i64)
            }
        } else if v >= 0x8000_0000_0000_0000 {
            i64::MAX
        } else {
            v as i64
        }
    }
}

impl PartialEq for Binary64 {
    fn eq(&self, other: &Self) -> (r: bool) {
        !self.is_nan() && !other.is_nan() && (self.bits == other.bits || (self.bits
            % 0x8000_0000_0000_0000 == 0 && other.bits % 0x8000_0000_0000_0000 == 0))
    }
}

impl vstd::std_specs::cmp::PartialEqSpecImpl for Binary64 {
    open spec fn obeys_eq_spec() -> bool {
        true
    }

    open spec fn eq_spec(&self, other: &Self) -> bool {
        !self.nan() && !other.nan() && (self.bits == other.bits || (self.magnitude() == 0
            && other.magnitude() == 0))
    }
}

} // verus!
