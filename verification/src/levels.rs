//! Levels of one decimal: single-precision numbers that stand for a number
//! of tenths survive their text, and every other level comes back as the
//! tenths that its text says.
use crate::decimal;
use crate::ieee;
use crate::ieee::{Binary32, HIDDEN_32, HIDDEN_64, TOP_32, TOP_64};
use crate::number;
use crate::number_laws;
use crate::numeral_laws;
use crate::sidecar::SidecarView;
use crate::sidecar_laws;
use vstd::arithmetic::div_mod::*;
use vstd::arithmetic::mul::*;
use vstd::arithmetic::power::*;
use vstd::arithmetic::power2::*;
use vstd::prelude::*;

verus! {

/// The largest number of tenths below two to the twentieth: up to there,
/// singles lie closer than tenths do.
pub open spec fn most_tenths() -> nat {
    10_485_759
}

/// The single-precision magnitude nearest to `t` tenths.
pub open spec fn single_of_tenths(t: nat) -> nat {
    ieee::nearest(HIDDEN_32 as nat, TOP_32 as nat, t * ieee::one_32(), 10)
}

/// The double-precision value nearest to `t` tenths, in its units.
spec fn double_units(t: nat) -> nat {
    ieee::units_64(ieee::nearest(HIDDEN_64 as nat, TOP_64 as nat, t * ieee::one_64(), 10))
}

/// A step of a double is far smaller than its value.
proof fn lemma_fine_steps(v: nat, e: nat, hm: nat)
    requires
        0 < v < 0x800_0000,
        ieee::units_64(hm) == v * pow2(e),
        e >= 900,
    ensures
        hm > 0,
        5 * pow2(ieee::exponent(HIDDEN_64 as nat, hm)) < pow2(e),
{
    let m = HIDDEN_64 as nat;
    let q = pow2(ieee::exponent(m, hm));
    let s = ieee::significand(m, hm);
    let p = pow2(e);
    lemma_pow2_pos(e);
    lemma2_to64();
    lemma_pow2_strictly_increases(32, e);
    if hm == 0 {
        lemma_mul_basics(pow2(0) as int);
        lemma_mul_strictly_positive(v as int, p as int);
    }
    if ieee::exponent(m, hm) > 0 {
        assert(5 * q < p) by (nonlinear_arith)
            requires
                s * q == v * p,
                s >= 0x10_0000_0000_0000,
                v < 0x800_0000,
                q >= 0,
                p > 0,
        ;
    } else {
        assert(q == 1);
    }
}

/// Tenths that are not a midpoint do not round onto one: the double lies on
/// the same side of it as the tenths do.
#[verifier::spinoff_prover]
proof fn lemma_sides(t: nat, v: nat, e: nat)
    requires
        0 < v < 0x800_0000,
        900 <= e <= 1074,
    ensures
        t * ieee::one_64() < 10 * (v * pow2(e)) ==> double_units(t) < v * pow2(e),
        t * ieee::one_64() > 10 * (v * pow2(e)) ==> double_units(t) > v * pow2(e),
        t * ieee::one_64() == 10 * (v * pow2(e)) ==> double_units(t) == v * pow2(e),
{
    let m = HIDDEN_64 as nat;
    let top = TOP_64 as nat;
    let one = ieee::one_64();
    let p = pow2(e);
    let h = v * p;
    let n = t * one;
    let mag = ieee::nearest(m, top, n, 10);
    ieee::lemma_nearest(m, top, n, 10);
    lemma_pow2_pos(e);
    lemma2_to64_rest();
    assert(v * pow2(52) >= HIDDEN_64) by (nonlinear_arith)
        requires
            v >= 1,
            pow2(52) == HIDDEN_64,
    ;
    number_laws::lemma_shifted(v, e, 52);
    let hm = choose|hm: nat| hm < TOP_64 && #[trigger] ieee::units_64(hm) == v * pow2(e);
    lemma_fine_steps(v, e, hm);
    let q = pow2(ieee::exponent(m, hm));
    // Both sides of the comparison are multiples of `p`.
    lemma_pow2_adds((1074 - e) as nat, e);
    let k = pow2((1074 - e) as nat);
    let a = (t * k) as int;
    let b = (10 * v) as int;
    assert(n == a * p) by (nonlinear_arith)
        requires
            n == t * (k * p),
            a == t * k,
    ;
    assert(10 * h == b * p) by (nonlinear_arith)
        requires
            h == v * p,
            b == 10 * v,
    ;
    if n < 10 * h {
        assert(a < b) by (nonlinear_arith)
            requires
                a * p < b * p,
                p > 0,
        ;
        assert(a * p + p <= b * p) by (nonlinear_arith)
            requires
                a + 1 <= b,
                p > 0,
        ;
        if mag > hm {
            ieee::lemma_ascending(m, hm, mag);
            if mag - 1 > hm {
                ieee::lemma_ascending(m, hm, (mag - 1) as nat);
            }
        } else if mag == hm {
            ieee::lemma_next(m, (hm - 1) as nat);
            ieee::lemma_previous(m, hm);
            lemma_one_step_down(hm);
        } else {
            ieee::lemma_ascending(m, mag, hm);
        }
    } else if n > 10 * h {
        assert(b < a) by (nonlinear_arith)
            requires
                b * p < a * p,
                p > 0,
        ;
        assert(b * p + p <= a * p) by (nonlinear_arith)
            requires
                b + 1 <= a,
                p > 0,
        ;
        if mag < hm {
            ieee::lemma_ascending(m, mag, hm);
            if mag + 1 < hm {
                ieee::lemma_ascending(m, mag + 1, hm);
            }
        } else if mag == hm {
            ieee::lemma_next(m, hm);
            let s = ieee::significand(m, hm);
            assert((s + 1) * q == s * q + q) by (nonlinear_arith);
        } else {
            ieee::lemma_ascending(m, hm, mag);
        }
    } else {
        lemma_mul_is_commutative(h as int, 10);
        ieee::lemma_exact(m, top, n, 10, hm);
    }
}

/// The double below lies at most one step away.
proof fn lemma_one_step_down(hm: nat)
    requires
        hm > 0,
    ensures
        ieee::units_64((hm - 1) as nat) + pow2(ieee::exponent(HIDDEN_64 as nat, hm))
            >= ieee::units_64(hm),
{
    let m = HIDDEN_64 as nat;
    ieee::lemma_previous(m, hm);
    let s = ieee::significand(m, hm);
    let q = pow2(ieee::exponent(m, hm));
    assert((4 * s - 1) * q == 4 * (s * q) - q) by (nonlinear_arith);
    assert((4 * s - 2) * q == 4 * (s * q) - 2 * q) by (nonlinear_arith);
}

/// The single nearest to a number of tenths has steps of less than a tenth
/// of a tenth.
proof fn lemma_small_steps(t: nat)
    requires
        0 < t <= most_tenths(),
    ensures
        ieee::exponent(HIDDEN_32 as nat, single_of_tenths(t)) <= 145,
        single_of_tenths(t) > 0,
        single_of_tenths(t) < TOP_32,
        ieee::significand(HIDDEN_32 as nat, single_of_tenths(t)) < 0x100_0000,
{
    let m = HIDDEN_32 as nat;
    let top = TOP_32 as nat;
    let one = ieee::one_32();
    let n = t * one;
    let mag = single_of_tenths(t);
    let e = ieee::exponent(m, mag);
    let s = ieee::significand(m, mag);
    let p = pow2(e);
    ieee::lemma_nearest(m, top, n, 10);
    lemma_pow2_pos(149);
    lemma2_to64();
    if mag == 0 {
        assert(ieee::units(m, 0) == 0) by {
            lemma_mul_basics(pow2(0) as int);
        }
        assert(ieee::units(m, 1) == 1) by {
            lemma_mul_basics(pow2(0) as int);
        }
        lemma_pow2_strictly_increases(4, 149);
        assert(n >= one) by (nonlinear_arith)
            requires
                n == t * one,
                t >= 1,
                one >= 0,
        ;
    }
    if e > 145 {
        lemma_pow2_pos(146);
        ieee::lemma_previous(m, mag);
        if e > 146 {
            lemma_pow2_strictly_increases(146, e);
        }
        lemma_pow2_adds(146, 3);
        let w = pow2(146);
        let below = ieee::units(m, (mag - 1) as nat) + ieee::units(m, mag);
        assert((4 * s - 1) * p >= (4 * s - 2) * p) by (nonlinear_arith)
            requires
                p >= 0,
        ;
        assert(2 * below >= (4 * s - 2) * p);
        assert((4 * s - 2) * p >= (4 * 0x80_0000 - 2) * w) by (nonlinear_arith)
            requires
                s >= 0x80_0000,
                p >= w,
                w > 0,
        ;
        assert(n <= 10_485_759 * (8 * w)) by (nonlinear_arith)
            requires
                n == t * one,
                t <= 10_485_759,
                one == 8 * w,
                w > 0,
        ;
        assert(below * 10 <= 2 * n);
        assert(2 * below >= 33_554_430 * w);
        assert(n <= 83_886_072 * w);
        assert(false);
    }
    assert(mag < TOP_32);
}

/// Within less than half of a unit of `t`, rounding gives `t`.
proof fn lemma_rounds_back(x: nat, t: nat, one: nat)
    requires
        one > 0,
        2 * x < 2 * (t * one) + one,
        2 * (t * one) < 2 * x + one,
    ensures
        number::half_even(x, one) == t,
{
    let r = x - t * one;
    if r >= 0 {
        lemma_fundamental_div_mod_converse(x as int, one as int, t as int, r);
    } else {
        assert((t - 1) * one + (one + r) == x) by (nonlinear_arith)
            requires
                r == x - t * one,
        ;
        lemma_fundamental_div_mod_converse(x as int, one as int, t - 1, one + r);
        assert(t >= 1) by (nonlinear_arith)
            requires
                x < t * one,
                x >= 0,
                t >= 0,
                one > 0,
        ;
    }
}

/// A level that is the nearest single to a number of tenths, below two to
/// the twentieth, survives: its text says those tenths, and the text read as a
/// double and narrowed is the level again.
#[verifier::spinoff_prover]
pub proof fn tenths_survive(negative: bool, t: nat)
    requires
        t <= most_tenths(),
    ensures
        sidecar_laws::one_decimal(Binary32::signed(negative, single_of_tenths(t))),
        sidecar_laws::tenths(Binary32::signed(negative, single_of_tenths(t))) == t,
{
    let m = HIDDEN_32 as nat;
    let top = TOP_32 as nat;
    let one = ieee::one_32();
    let n = t * one;
    let mag = single_of_tenths(t);
    let x = Binary32::signed(negative, mag);
    lemma_pow2_pos(149);
    lemma_pow1(10);
    ieee::lemma_nearest(m, top, n, 10);
    if t == 0 {
        lemma_zero_survives(negative);
    } else {
        lemma_small_steps(t);
        let s = ieee::significand(m, mag);
        let e = ieee::exponent(m, mag);
        let p = pow2(e);
        let u = ieee::units(m, mag);
        ieee::lemma_next(m, mag);
        ieee::lemma_previous(m, mag);
        let below = (ieee::units(m, (mag - 1) as nat) + u) as int;
        let above = (u + ieee::units(m, mag + 1)) as int;
        let k = if s == m && e > 0 {
            1int
        } else {
            2
        };
        assert(2 * above == (4 * s + 2) * p) by (nonlinear_arith)
            requires
                above == s * p + (s + 1) * p,
        ;
        // The text says `t` tenths.
        lemma_pow2_pos(e);
        lemma_pow2_adds(4, e);
        lemma2_to64();
        if e + 4 < 149 {
            lemma_pow2_strictly_increases(e + 4, 149);
        }
        assert((4 * s - k) * p == 4 * u - k * p) by (nonlinear_arith)
            requires
                u == s * p,
        ;
        assert((4 * s + 2) * p == 4 * u + 2 * p) by (nonlinear_arith)
            requires
                u == s * p,
        ;
        lemma_rounds_back((u * 10) as nat, t, one);
        assert(x.magnitude() == mag);
        assert(sidecar_laws::tenths(x) == t);
        lemma_narrows_back(negative, t, mag);
    }
}

/// The double of `t` tenths lies on the same side of both midpoints around
/// the nearest single as the tenths do, so narrowing it gives that single.
#[verifier::spinoff_prover]
proof fn lemma_narrows_back(negative: bool, t: nat, mag: nat)
    requires
        0 < mag < TOP_32,
        ieee::rounds_to(HIDDEN_32 as nat, TOP_32 as nat, t * ieee::one_32(), 10, mag),
        ieee::exponent(HIDDEN_32 as nat, mag) <= 151,
    ensures
        number_laws::double_of(negative, t, -1).narrowed() == Binary32::signed(negative, mag),
{
    let m = HIDDEN_32 as nat;
    let top = TOP_32 as nat;
    let one = ieee::one_32();
    let one64 = ieee::one_64();
    let n = t * one;
    let s = ieee::significand(m, mag);
    let e = ieee::exponent(m, mag);
    let p = pow2(e);
    let u = ieee::units(m, mag);
    lemma_pow2_pos(925);
    lemma2_to64();
    assert(0 < s < 0x100_0000);
    ieee::lemma_next(m, mag);
    ieee::lemma_previous(m, mag);
    let below = (ieee::units(m, (mag - 1) as nat) + u) as int;
    let above = (u + ieee::units(m, mag + 1)) as int;
    let k = if s == m && e > 0 {
        1int
    } else {
        2
    };
    assert(2 * above == (4 * s + 2) * p) by (nonlinear_arith)
        requires
            above == s * p + (s + 1) * p,
    ;
    let f = (e + 923) as nat;
    let g = pow2(f);
    lemma_pow2_adds(e, 923);
    lemma_pow2_adds(1, 923);
    lemma_pow2_adds(923, 2);
    lemma_pow2_adds(149, 925);
    assert(pow2(925) == 4 * pow2(923));
    lemma_sides(t, (4 * s + 2) as nat, f);
    lemma_sides(t, (4 * s - k) as nat, f);
    let c = pow2(925);
    let h1 = (4 * s + 2) * g;
    let h0 = (4 * s - k) * g;
    assert(above * c == 2 * h1) by (nonlinear_arith)
        requires
            2 * above == (4 * s + 2) * p,
            h1 == (4 * s + 2) * g,
            g == p * pow2(923),
            c == 4 * pow2(923),
    ;
    assert(below * c == 2 * h0) by (nonlinear_arith)
        requires
            2 * below == (4 * s - k) * p,
            h0 == (4 * s - k) * g,
            g == p * pow2(923),
            c == 4 * pow2(923),
    ;
    assert(t * one64 == n * c) by (nonlinear_arith)
        requires
            n == t * one,
            one64 == one * c,
    ;
    assert((above * 10) * c == 20 * h1) by (nonlinear_arith)
        requires
            above * c == 2 * h1,
    ;
    assert((below * 10) * c == 20 * h0) by (nonlinear_arith)
        requires
            below * c == 2 * h0,
    ;
    decimal::lemma_scaled_order((2 * n) as int, above * 10, c as int);
    decimal::lemma_scaled_order(below * 10, (2 * n) as int, c as int);
    assert((2 * n) * c == 2 * (n * c)) by (nonlinear_arith);
    let d = double_units(t);
    assert(ieee::rounds_to(m, top, d, c, mag));
    ieee::lemma_nearest_unique(m, top, d, c, mag);
    lemma_narrowed(negative, t);
}

/// Narrowing the double of `t` tenths.
proof fn lemma_narrowed(negative: bool, t: nat)
    ensures
        number_laws::double_of(negative, t, -1).narrowed() == Binary32::signed(
            negative,
            ieee::nearest(HIDDEN_32 as nat, TOP_32 as nat, double_units(t), pow2(925)),
        ),
{
    lemma_pow1(10);
    lemma_mul_basics(t as int);
    let mag = decimal::nearest_decimal(t, -1);
    assert(mag == ieee::nearest(HIDDEN_64 as nat, TOP_64 as nat, t * ieee::one_64(), 10));
    ieee::lemma_nearest(HIDDEN_64 as nat, TOP_64 as nat, t * ieee::one_64(), 10);
    let n = number_laws::double_of(negative, t, -1);
    assert(mag <= TOP_64);
    assert(n.magnitude() == mag);
    assert(n.negative() == negative);
}

proof fn lemma_zero_survives(negative: bool)
    ensures
        single_of_tenths(0) == 0,
        sidecar_laws::one_decimal(Binary32::signed(negative, 0)),
        sidecar_laws::tenths(Binary32::signed(negative, 0)) == 0,
{
    let m = HIDDEN_32 as nat;
    let top = TOP_32 as nat;
    lemma_pow2_pos(149);
    lemma_pow2_pos(925);
    lemma_pow2_pos(1074);
    lemma_pow1(10);
    lemma_mul_basics(ieee::one_32() as int);
    lemma_mul_basics(ieee::one_64() as int);
    lemma_mul_basics(pow2(0) as int);
    lemma_mul_basics(pow2(925) as int);
    assert(ieee::units(m, 0) == 0);
    assert(ieee::units_64(0) == 0);
    ieee::lemma_exact(m, top, 0, 10, 0);
    ieee::lemma_exact(HIDDEN_64 as nat, TOP_64 as nat, 0, 10, 0);
    ieee::lemma_exact(m, top, 0, pow2(925), 0);
    lemma_narrowed(negative, 0);
    lemma_small_mod(0, ieee::one_32());
    lemma_div_of0(ieee::one_32() as int);
    let x = Binary32::signed(negative, 0);
    assert(x.magnitude() == 0);
    assert(x.negative() == negative);
}

/// What is halfway or nearer rounds.
pub proof fn lemma_half_even_bounds(n: nat, d: nat)
    requires
        d > 0,
    ensures
        2 * (number::half_even(n, d) * d) <= 2 * n + d,
        2 * n <= 2 * (number::half_even(n, d) * d) + d,
        2 * (number::half_even(n, d) * d) == 2 * n + d || 2 * n == 2 * (number::half_even(n, d) * d)
            + d ==> number::half_even(n, d) % 2 == 0,
{
    let q = n / d;
    lemma_fundamental_div_mod(n as int, d as int);
    lemma_mod_bound(n as int, d as int);
    lemma_mul_is_commutative(d as int, q as int);
    assert((q + 1) * d == q * d + d) by (nonlinear_arith);
}

/// Ten times a whole number of units rounds to ten times that number.
proof fn lemma_multiple_rounds(u: nat, v: nat, one: nat)
    requires
        one > 0,
        u == v * one,
    ensures
        number::half_even(u * 10, one) == 10 * v,
        (10 * v) * one == 10 * u,
{
    assert(u * 10 == (10 * v) * one) by (nonlinear_arith)
        requires
            u == v * one,
    ;
    lemma_div_by_multiple((10 * v) as int, one as int);
    lemma_mod_multiples_basic((10 * v) as int, one as int);
}

/// A level that is a whole number of tenths survives.
proof fn lemma_whole_tenths(x: Binary32, t: nat)
    requires
        0 < x.magnitude() < TOP_32,
        t * ieee::one_32() == 10 * ieee::units_32(x.magnitude()),
    ensures
        single_of_tenths(t) == x.magnitude(),
        number_laws::double_of(x.negative(), t, -1).narrowed() == x,
{
    let m = HIDDEN_32 as nat;
    let top = TOP_32 as nat;
    let mag = x.magnitude();
    let s = ieee::significand(m, mag);
    let e = ieee::exponent(m, mag);
    let u = ieee::units_32(mag);
    let c = pow2(925);
    lemma_pow2_pos(925);
    lemma_mul_is_commutative(u as int, 10);
    ieee::lemma_exact(m, top, t * ieee::one_32(), 10, mag);
    assert(0 < s < 0x100_0000);
    assert(e <= 253);
    lemma2_to64_rest();
    assert(s * pow2(52) >= HIDDEN_64) by (nonlinear_arith)
        requires
            s >= 1,
            pow2(52) == HIDDEN_64,
    ;
    number_laws::lemma_shifted(s, e + 925, 52);
    let hm = choose|hm: nat| hm < TOP_64 && #[trigger] ieee::units_64(hm) == s * pow2(e + 925);
    lemma_pow2_adds(e, 925);
    lemma_pow2_adds(149, 925);
    assert(s * (pow2(e) * c) == (s * pow2(e)) * c) by (nonlinear_arith);
    let n = t * ieee::one_64();
    let one = ieee::one_32();
    assert(n == (u * c) * 10) by (nonlinear_arith)
        requires
            n == t * (one * c),
            t * one == 10 * u,
    ;
    ieee::lemma_exact(HIDDEN_64 as nat, TOP_64 as nat, n, 10, hm);
    assert(double_units(t) == u * c);
    ieee::lemma_exact(m, top, u * c, c, mag);
    lemma_narrowed(x.negative(), t);
    assert(Binary32::signed(x.negative(), mag) == x);
}

/// From two to the twentieth on, singles lie further apart than tenths do,
/// so a level survives as it is.
#[verifier::spinoff_prover]
proof fn lemma_wide_steps(x: Binary32)
    requires
        x.magnitude() < TOP_32,
        ieee::exponent(HIDDEN_32 as nat, x.magnitude()) >= 146,
    ensures
        single_of_tenths(sidecar_laws::tenths(x)) == x.magnitude(),
        sidecar_laws::one_decimal(x),
{
    let m = HIDDEN_32 as nat;
    let top = TOP_32 as nat;
    let one = ieee::one_32();
    let mag = x.magnitude();
    let s = ieee::significand(m, mag);
    let e = ieee::exponent(m, mag);
    let p = pow2(e);
    let u = ieee::units_32(mag);
    let t = sidecar_laws::tenths(x);
    let n = t * one;
    lemma_pow2_pos(149);
    lemma_pow1(10);
    assert(mag > 0 && s >= 0x80_0000);
    lemma_half_even_bounds(u * 10, one);
    if e >= 149 {
        lemma_pow2_adds((e - 149) as nat, 149);
        let v = s * pow2((e - 149) as nat);
        assert(u == v * one) by (nonlinear_arith)
            requires
                u == s * p,
                p == pow2((e - 149) as nat) * one,
                v == s * pow2((e - 149) as nat),
        ;
        lemma_multiple_rounds(u, v, one);
        lemma_whole_tenths(x, t);
    } else {
        lemma2_to64();
        lemma_pow2_adds((149 - e) as nat, e);
        let w = pow2((149 - e) as nat);
        assert(one == w * p);
        assert(e == 146 && w == 8 || e == 147 && w == 4 || e == 148 && w == 2);
        if s == m && e == 146 {
            assert(u == 0x10_0000 * one) by (nonlinear_arith)
                requires
                    u == s * p,
                    s == 0x80_0000,
                    one == 8 * p,
            ;
            lemma_multiple_rounds(u, 0x10_0000, one);
            lemma_whole_tenths(x, t);
        } else {
            ieee::lemma_next(m, mag);
            ieee::lemma_previous(m, mag);
            lemma_pow2_pos(e);
            let below = (ieee::units(m, (mag - 1) as nat) + u) as int;
            let above = (u + ieee::units(m, mag + 1)) as int;
            let k = if s == m {
                1int
            } else {
                2
            };
            assert((4 * s - k) * p == 4 * u - k * p) by (nonlinear_arith)
                requires
                    u == s * p,
            ;
            assert((s + 1) * p == u + p) by (nonlinear_arith)
                requires
                    u == s * p,
            ;
            assert(one <= 8 * p && (k == 1 ==> one <= 4 * p));
            assert(2 * n < above * 10);
            assert(below * 10 < 2 * n);
            assert(ieee::rounds_to(m, top, n, 10, mag));
            ieee::lemma_nearest_unique(m, top, n, 10, mag);
            lemma_narrows_back(x.negative(), t, mag);
            assert(Binary32::signed(x.negative(), mag) == x);
        }
    }
}

/// Below two to the twentieth, a level has no more than the most tenths.
proof fn lemma_few_tenths(x: Binary32)
    requires
        ieee::exponent(HIDDEN_32 as nat, x.magnitude()) <= 145,
    ensures
        sidecar_laws::tenths(x) <= most_tenths(),
{
    let m = HIDDEN_32 as nat;
    let one = ieee::one_32();
    let mag = x.magnitude();
    let s = ieee::significand(m, mag);
    let e = ieee::exponent(m, mag);
    let p = pow2(e);
    let w = pow2(145);
    let u = ieee::units_32(mag);
    let t = sidecar_laws::tenths(x);
    lemma_pow2_pos(149);
    lemma_pow2_pos(145);
    lemma_pow1(10);
    lemma2_to64();
    lemma_pow2_adds(4, 145);
    if e < 145 {
        lemma_pow2_strictly_increases(e, 145);
    }
    assert(s < 0x100_0000);
    assert(u <= 0xFF_FFFF * w) by (nonlinear_arith)
        requires
            u == s * p,
            s <= 0xFF_FFFF,
            p <= w,
            0 <= p,
    ;
    lemma_half_even_bounds(u * 10, one);
    if t >= 10_485_760 {
        assert(t * one >= 10_485_760 * (16 * w)) by (nonlinear_arith)
            requires
                t >= 10_485_760,
                one == 16 * w,
                w > 0,
        ;
    }
}

// ---------------------------------------------------------------------
// Documents of any levels.
// ---------------------------------------------------------------------
/// A level that is a number.
pub open spec fn finite(x: Binary32) -> bool {
    x.magnitude() < TOP_32
}

pub open spec fn opt_finite(v: Option<Binary32>) -> bool {
    match v {
        Some(x) => finite(x),
        None => true,
    }
}

/// The level that one decimal says.
pub open spec fn to_tenths(x: Binary32) -> Binary32 {
    Binary32::signed(x.negative(), single_of_tenths(sidecar_laws::tenths(x)))
}

pub open spec fn opt_to_tenths(v: Option<Binary32>) -> Option<Binary32> {
    match v {
        Some(x) => Some(to_tenths(x)),
        None => None,
    }
}

/// A sidecar with its levels as one decimal says them.
pub open spec fn in_tenths(v: SidecarView) -> SidecarView {
    SidecarView {
        delta_db: to_tenths(v.delta_db),
        signal_db: opt_to_tenths(v.signal_db),
        floor_db: opt_to_tenths(v.floor_db),
        ..v
    }
}

/// A level and what its one decimal says are written alike.
proof fn lemma_written_alike(x: Binary32)
    requires
        finite(x),
    ensures
        sidecar_laws::one_decimal(to_tenths(x)),
        to_tenths(x).fixed(1) == x.fixed(1),
{
    let y = to_tenths(x);
    let t = sidecar_laws::tenths(x);
    if ieee::exponent(HIDDEN_32 as nat, x.magnitude()) >= 146 {
        lemma_wide_steps(x);
        assert(y == x);
    } else {
        lemma_few_tenths(x);
        tenths_survive(x.negative(), t);
        if t > 0 {
            lemma_small_steps(t);
        } else {
            lemma_zero_survives(x.negative());
        }
    }
    assert(y.negative() == x.negative());
    assert(x.fixed(1) == number::sign(x.negative()) + number::plain(t, -1));
    assert(y.fixed(1) == number::sign(x.negative()) + number::plain(t, -1));
}

/// What a recorder embeds, a reader reads back, whatever numbers its levels
/// are: each comes back as its one decimal says it, and all else as it was.
/// The integers must be ones that a double holds.
pub proof fn levels_read_back_in_tenths(v: SidecarView)
    requires
        number_laws::held(number_laws::size(v.start_ms as int)),
        number_laws::held(v.duration_ms as nat),
        number_laws::held(v.hz as nat),
        finite(v.delta_db),
        opt_finite(v.signal_db),
        opt_finite(v.floor_db),
    ensures
        SidecarView::read(v.json_text()) == Some(in_tenths(v)),
{
    let w = in_tenths(v);
    lemma_written_alike(v.delta_db);
    if let Some(x) = v.signal_db {
        lemma_written_alike(x);
    }
    if let Some(x) = v.floor_db {
        lemma_written_alike(x);
    }
    assert(w.signal_fields() =~= v.signal_fields());
    assert(w.identity_fields() =~= v.identity_fields());
    assert(w.fields() == v.fields());
    sidecar_laws::sidecar_reads_back(w);
}

/// A level is written to the tenth: a minus sign where it is negative, digits,
/// a point and one digit, which together are the number of tenths nearest to
/// the level, the even one of two that are equally near.
pub proof fn levels_are_written_to_the_tenth(x: Binary32)
    requires
        x.magnitude() < TOP_32,
    ensures
        ({
            let t = if x.negative() {
                x.fixed(1).skip(1)
            } else {
                x.fixed(1)
            };
            let k = t.len() - 2;
            let v = numeral_laws::total(t.take(k) + t.skip(k + 1), 10);
            let u = ieee::units_32(x.magnitude());
            &&& x.negative() ==> x.fixed(1)[0] == '-'
            &&& k > 0 && t[k] == '.' && (k > 1 ==> t[0] != '0')
            &&& numeral_laws::says(t.take(k) + t.skip(k + 1), 10, v)
            &&& 2 * (v * ieee::one_32()) <= 20 * u + ieee::one_32()
            &&& 20 * u <= 2 * (v * ieee::one_32()) + ieee::one_32()
            &&& 2 * (v * ieee::one_32()) == 20 * u + ieee::one_32() || 20 * u == 2 * (v
                * ieee::one_32()) + ieee::one_32() ==> v % 2 == 0
        }),
{
    let v = sidecar_laws::tenths(x);
    let body = number::plain(v, -1);
    let u = ieee::units_32(x.magnitude());
    lemma_pow1(10);
    lemma_pow2_pos(149);
    numeral_laws::decimals_say_their_number(v, 1);
    lemma_half_even_bounds(u * 10, ieee::one_32());
    if x.negative() {
        assert(x.fixed(1).skip(1) =~= body);
    } else {
        assert(x.fixed(1) =~= body);
    }
}

} // verus!
