//! What holds of the numbers: integers up to two to the fifty-third are
//! doubles.
use crate::decimal;
use crate::ieee;
use crate::ieee::{Binary64, HIDDEN_64, TOP_64};
use vstd::arithmetic::div_mod::*;
use vstd::arithmetic::mul::*;
use vstd::arithmetic::power2::*;
use vstd::prelude::*;
use vstd::std_specs::cmp::PartialEqSpec;

verus! {

/// The double that `c * 10^e` reads as.
pub open spec fn double_of(negative: bool, c: nat, e: int) -> Binary64 {
    Binary64::signed(negative, decimal::nearest_decimal(c, e))
}

/// A number without its sign.
pub open spec fn size(v: int) -> nat {
    if v < 0 {
        (-v) as nat
    } else {
        v as nat
    }
}

/// A natural number that is a double.
pub open spec fn held(v: nat) -> bool {
    exists|mag: nat| mag < TOP_64 && #[trigger] ieee::units_64(mag) == v * ieee::one_64()
}

/// A significand that fits, and room to shift it up, make a double.
pub proof fn lemma_shifted(v: nat, e: nat, k: nat)
    requires
        0 < v < 0x20_0000_0000_0000,
        k <= e <= 2000,
        v * pow2(k) >= HIDDEN_64,
    ensures
        exists|mag: nat| mag < TOP_64 && #[trigger] ieee::units_64(mag) == v * pow2(e),
    decreases k,
{
    let m = HIDDEN_64 as nat;
    if v >= m {
        let mag = ((e + 1) * m + (v - m)) as nat;
        lemma_fundamental_div_mod_converse(mag as int, m as int, (e + 1) as int, v - m);
        assert(ieee::significand(m, mag) == v);
        assert(ieee::exponent(m, mag) == e);
        assert(mag < TOP_64 && ieee::units_64(mag) == v * pow2(e));
    } else {
        lemma2_to64();
        if k == 0 {
            lemma_mul_basics(v as int);
        }
        lemma_pow2_unfold(k);
        lemma_pow2_unfold(e);
        let a = pow2((k - 1) as nat);
        let b = pow2((e - 1) as nat);
        assert(v * (2 * a) == (2 * v) * a) by (nonlinear_arith);
        assert(v * (2 * b) == (2 * v) * b) by (nonlinear_arith);
        lemma_shifted(2 * v, (e - 1) as nat, (k - 1) as nat);
    }
}

/// Every integer up to two to the fifty-third is a double.
pub proof fn integers_are_held(v: nat)
    requires
        v <= 0x20_0000_0000_0000,
    ensures
        held(v),
{
    let one = ieee::one_64();
    lemma2_to64_rest();
    if v == 0 {
        lemma_mul_basics(pow2(0) as int);
        lemma_mul_basics(one as int);
        assert(ieee::units_64(0) == v * one);
    } else if v == 0x20_0000_0000_0000 {
        lemma_mul_basics(0x10_0000_0000_0000);
        lemma2_to64();
        lemma_shifted(0x10_0000_0000_0000, 1075, 0);
        lemma_pow2_unfold(1075);
        assert(0x10_0000_0000_0000 * (2 * one) == v * one) by (nonlinear_arith)
            requires
                v == 0x20_0000_0000_0000,
        ;
        let mag = choose|mag: nat|
            mag < TOP_64 && #[trigger] ieee::units_64(mag) == 0x10_0000_0000_0000 * pow2(1075);
        assert(ieee::units_64(mag) == v * one);
    } else {
        assert(v * pow2(52) >= HIDDEN_64) by (nonlinear_arith)
            requires
                v >= 1,
                pow2(52) == HIDDEN_64,
        ;
        lemma_shifted(v, 1074, 52);
    }
}

/// A number that is a double is read as itself.
pub proof fn lemma_held_rounds(v: nat, negative: bool)
    requires
        held(v),
    ensures
        ({
            let n = double_of(negative, v, 0);
            &&& !n.nan()
            &&& n.negative() == negative
            &&& Binary64::rounded_magnitude(n.magnitude()) == v
            &&& Binary64::integer(n.magnitude()) == Some(v)
        }),
{
    let one = ieee::one_64();
    let mag = choose|mag: nat| mag < TOP_64 && #[trigger] ieee::units_64(mag) == v * one;
    lemma_pow2_pos(1074);
    lemma_mul_basics(v as int);
    lemma_mul_basics((v * one) as int);
    ieee::lemma_exact(HIDDEN_64 as nat, TOP_64 as nat, v * one, 1, mag);
    assert(decimal::nearest_decimal(v, 0) == mag);
    let n = double_of(negative, v, 0);
    assert(n.magnitude() == mag);
    assert(2 * (v * one) + one == v * (2 * one) + one) by (nonlinear_arith);
    lemma_fundamental_div_mod_converse(
        (2 * (v * one) + one) as int,
        (2 * one) as int,
        v as int,
        one as int,
    );
    lemma_mod_multiples_basic(v as int, one as int);
    lemma_div_by_multiple(v as int, one as int);
}

/// A number is read as an integer exactly where it is that integer, to the
/// last bit, and in the range.
pub proof fn integers_are_exact(n: Binary64, lo: int, hi: int, x: int)
    requires
        !n.nan(),
    ensures
        n.integral(lo, hi) == Some(x) <==> {
            &&& lo <= x <= hi
            &&& ieee::units_64(n.magnitude()) == size(x) * ieee::one_64()
            &&& n.negative() ==> x <= 0
            &&& !n.negative() ==> x >= 0
        },
{
    let one = ieee::one_64() as int;
    let u = ieee::units_64(n.magnitude()) as int;
    lemma_pow2_pos(1074);
    lemma_fundamental_div_mod(u, one);
    lemma_mul_is_commutative(one, u / one);
    lemma_mod_multiples_basic(size(x) as int, one);
    lemma_div_by_multiple(size(x) as int, one);
}

/// What the bits of a floating-point number say: eleven bits of exponent and
/// 52 of fraction of a double, eight and 23 of a single, with a leading one
/// before the fraction where the exponent is not zero. The values are counted
/// in the smallest one.
pub proof fn values_by_bits(mag: nat)
    ensures
        mag < 0x10_0000_0000_0000 ==> ieee::units_64(mag) == mag,
        mag >= 0x10_0000_0000_0000 ==> ieee::units_64(mag) == (0x10_0000_0000_0000 + mag
            % 0x10_0000_0000_0000) * pow2((mag / 0x10_0000_0000_0000 - 1) as nat),
        ieee::one_64() == pow2(1074),
        mag < 0x80_0000 ==> ieee::units_32(mag) == mag,
        mag >= 0x80_0000 ==> ieee::units_32(mag) == (0x80_0000 + mag % 0x80_0000) * pow2(
            (mag / 0x80_0000 - 1) as nat,
        ),
        ieee::one_32() == pow2(149),
        TOP_64 == 0x7FF0_0000_0000_0000,
        ieee::TOP_32 == 0x7F80_0000,
{
    lemma2_to64();
    lemma_mul_basics(mag as int);
}

/// The sign is the highest bit, and the rest is the magnitude.
pub proof fn signs_by_bit(x: Binary64, y: ieee::Binary32)
    ensures
        x.negative() <==> x.bits >= 0x8000_0000_0000_0000,
        x.magnitude() == x.bits % 0x8000_0000_0000_0000,
        x.nan() <==> x.magnitude() > 0x7FF0_0000_0000_0000,
        x.finite() <==> x.magnitude() < 0x7FF0_0000_0000_0000,
        y.negative() <==> y.bits >= 0x8000_0000,
        y.magnitude() == y.bits % 0x8000_0000,
        y.nan() <==> y.magnitude() > 0x7F80_0000,
{
}

/// A number is written in as few digits as give it back: what is written
/// reads as the number, and nothing with one place less does.
pub proof fn the_text_is_shortest(mag: nat, x: nat)
    requires
        0 < mag < TOP_64,
    ensures
        ({
            let (c, e) = decimal::shortest(mag);
            &&& decimal::nearest_decimal(c, e) == mag
            &&& decimal::nearest_decimal(x, e + 1) != mag
        }),
{
    let (c, e) = decimal::shortest(mag);
    let m = HIDDEN_64 as nat;
    let top = TOP_64 as nat;
    decimal::lemma_shortest(mag);
    decimal::lemma_tenfold(e);
    decimal::lemma_tenfold(-e);
    decimal::lemma_tenfold(e + 1);
    decimal::lemma_tenfold(-e - 1);
    ieee::lemma_nearest_unique(
        m,
        top,
        c * decimal::tenfold(e) * ieee::one_64(),
        decimal::tenfold(-e),
        mag,
    );
    ieee::lemma_nearest(
        m,
        top,
        x * decimal::tenfold(e + 1) * ieee::one_64(),
        decimal::tenfold(-(e + 1)),
    );
    if decimal::nearest_decimal(x, e + 1) == mag {
        assert(decimal::decimal_rounds_to(x, e + 1, mag));
    }
}

/// Narrowing a double keeps its sign and gives the single that is nearest to
/// it: none is nearer. (One single is two to the 925th of a double's units.)
pub proof fn narrowing_is_nearest(n: Binary64, other: nat)
    requires
        n.finite(),
        other <= ieee::TOP_32,
    ensures
        ({
            let y = n.narrowed();
            let u = ieee::units_64(n.magnitude());
            &&& y.negative() == n.negative()
            &&& y.magnitude() <= 0x7F80_0000
            &&& y.magnitude() < 0x7F80_0000 ==> ieee::distance(
                ieee::units_32(y.magnitude()) * pow2(925),
                u,
            ) <= ieee::distance(ieee::units_32(other) * pow2(925), u)
        }),
{
    let m = ieee::HIDDEN_32 as nat;
    let top = ieee::TOP_32 as nat;
    let u = ieee::units_64(n.magnitude());
    lemma_pow2_pos(925);
    ieee::lemma_nearest(m, top, u, pow2(925));
    ieee::nearest_is_nearest(m, top, u, pow2(925), other);
    let y = n.narrowed();
    assert(y.magnitude() == ieee::nearest(m, top, u, pow2(925)));
}

/// Numbers are equal where their bits are, or where both are zero, whatever
/// their signs; what is no number equals nothing.
pub proof fn equality_is_of_numbers(x: Binary64, y: Binary64)
    ensures
        x.eq_spec(&y) <==> x.bits % 0x8000_0000_0000_0000 <= 0x7FF0_0000_0000_0000 && y.bits
            % 0x8000_0000_0000_0000 <= 0x7FF0_0000_0000_0000 && (x.bits == y.bits || (x.bits
            % 0x8000_0000_0000_0000 == 0 && y.bits % 0x8000_0000_0000_0000 == 0)),
{
}

} // verus!
