//! What numerals say: digits by their places.
use crate::decimal;
use crate::number;
use crate::text;
use vstd::arithmetic::div_mod::*;
use vstd::arithmetic::mul::*;
use vstd::arithmetic::power::*;
use vstd::prelude::*;

verus! {

/// A digit of base sixteen or less, letters in upper case, with its value.
pub open spec fn is_digit(c: char, base: int) -> bool {
    ('0' <= c <= '9' && c as int - 48 < base) || ('A' <= c <= 'F' && c as int - 55 < base)
}

/// What a digit is worth.
pub open spec fn worth(c: char) -> int {
    if c <= '9' {
        c as int - 48
    } else {
        c as int - 55
    }
}

/// What digits are worth together, each place `base` times the next.
pub open spec fn total(s: Seq<char>, base: int) -> int
    decreases s.len(),
{
    if s.len() == 0 {
        0
    } else {
        base * total(s.drop_last(), base) + worth(s.last())
    }
}

/// Digits, one at least, that are worth `v`.
pub open spec fn says(s: Seq<char>, base: int, v: int) -> bool {
    &&& s.len() > 0
    &&& forall|i: int| 0 <= i < s.len() ==> is_digit(#[trigger] s[i], base)
    &&& total(s, base) == v
}

/// Digits without a zero in front, but for zero itself, that are worth `v`.
pub open spec fn says_shortly(s: Seq<char>, base: int, v: int) -> bool {
    says(s, base, v) && (s.len() > 1 ==> s[0] != '0')
}

/// A numeral is the digits of its number, and no more of them.
pub proof fn numerals_say_their_number(v: nat, base: nat)
    requires
        2 <= base <= 16,
    ensures
        says_shortly(text::numeral(v, base), base as int, v as int),
        v > 0 ==> text::numeral(v, base)[0] != '0',
    decreases v,
{
    let s = text::numeral(v, base);
    let b = base as int;
    if v < base {
        assert(s =~= seq![text::digit_char(v as int)]);
        assert(s.drop_last() =~= Seq::empty());
        assert(total(Seq::empty(), b) == 0);
        lemma_mul_basics(b);
    } else {
        let q = v / base;
        let r = v % base;
        lemma_div_decreases(v as int, b);
        lemma_div_non_zero(v as int, b);
        lemma_mod_bound(v as int, b);
        lemma_fundamental_div_mod(v as int, b);
        numerals_say_their_number(q, base);
        let t = text::numeral(q, base);
        assert(s =~= t.push(text::digit_char(r as int)));
        assert(s.drop_last() =~= t);
        assert(s[0] == t[0]);
        assert forall|i: int| 0 <= i < s.len() implies is_digit(#[trigger] s[i], b) by {
            if i < t.len() {
                assert(s[i] == t[i]);
            }
        }
    }
}

/// Zeros in front add nothing.
pub proof fn zeros_add_nothing(n: nat, s: Seq<char>, base: int)
    requires
        base >= 2,
    ensures
        total(text::zero_chars(n as int) + s, base) == total(s, base),
    decreases s.len(), n,
{
    let t = text::zero_chars(n as int) + s;
    if s.len() > 0 {
        zeros_add_nothing(n, s.drop_last(), base);
        assert(t.drop_last() =~= text::zero_chars(n as int) + s.drop_last());
        assert(t.last() == s.last());
    } else if n > 0 {
        zeros_add_nothing((n - 1) as nat, s, base);
        assert(t.drop_last() =~= text::zero_chars(n - 1) + s);
        assert(t.last() == '0');
        lemma_mul_basics(base);
    } else {
        assert(t =~= s);
    }
}

/// A numeral that is filled up says its number still, in no fewer digits than
/// were asked for, and in no more than it has to.
pub proof fn filled_numerals_say_their_number(v: nat, base: nat, width: nat)
    requires
        2 <= base <= 16,
    ensures
        ({
            let s = text::zero_filled(text::numeral(v, base), width as int);
            &&& says(s, base as int, v as int)
            &&& s.len() >= width
            &&& s.len() > width ==> s[0] != '0' || s.len() == 1
        }),
{
    let d = text::numeral(v, base);
    let s = text::zero_filled(d, width as int);
    numerals_say_their_number(v, base);
    let n = if width > d.len() {
        (width - d.len()) as nat
    } else {
        0
    };
    assert(s =~= text::zero_chars(n as int) + d);
    zeros_add_nothing(n, d, base as int);
    assert forall|i: int| 0 <= i < s.len() implies is_digit(#[trigger] s[i], base as int) by {
        if i >= n {
            assert(s[i] == d[i - n]);
        }
    }
    if s.len() > width {
        assert(s[0] == d[0]);
    }
}

/// A signed number is a minus sign, where it is negative, and the digits of
/// its size.
pub proof fn signed_numerals_say_their_number(v: int)
    ensures
        v >= 0 ==> says_shortly(text::signed_decimal(v), 10, v),
        v < 0 ==> text::signed_decimal(v)[0] == '-' && says_shortly(
            text::signed_decimal(v).skip(1),
            10,
            -v,
        ),
{
    if v >= 0 {
        numerals_say_their_number(v as nat, 10);
    } else {
        numerals_say_their_number((-v) as nat, 10);
        assert(text::signed_decimal(v).skip(1) =~= text::decimal((-v) as nat));
    }
}

/// Digits in either case are read as what they are worth together, and
/// nothing else is read as digits.
pub proof fn digits_are_read_by_place(s: Seq<char>, base: nat)
    requires
        2 <= base <= 16,
    ensures
        (forall|i: int| 0 <= i < s.len() ==> is_digit(#[trigger] s[i], base as int))
            ==> text::digits_value(s, base) == Some(total(s, base as int) as nat) && total(
            s,
            base as int,
        ) >= 0,
        (exists|i: int|
            0 <= i < s.len() && !is_digit(#[trigger] s[i], base as int) && !(base > 10 && 'a'
                <= s[i] <= 'f'))
            ==> text::digits_value(s, base) is None,
    decreases s.len(),
{
    let b = base as int;
    if s.len() > 0 {
        let t = s.drop_last();
        digits_are_read_by_place(t, base);
        if forall|i: int| 0 <= i < s.len() ==> is_digit(#[trigger] s[i], b) {
            assert forall|i: int| 0 <= i < t.len() implies is_digit(#[trigger] t[i], b) by {
                assert(t[i] == s[i]);
            }
            assert(is_digit(s[s.len() - 1], b));
            lemma_mul_nonnegative(b, total(t, b));
            lemma_mul_is_commutative(b, total(t, b));
        }
        if exists|i: int|
            0 <= i < s.len() && !is_digit(#[trigger] s[i], b) && !(base > 10 && 'a' <= s[i]
                <= 'f') {
            let i = choose|i: int|
                0 <= i < s.len() && !is_digit(#[trigger] s[i], b) && !(base > 10 && 'a' <= s[i]
                    <= 'f');
            if i < t.len() {
                assert(!is_digit(t[i], b) && !(base > 10 && 'a' <= t[i] <= 'f'));
            }
        }
    }
}

/// Hexadecimal digits are worth the same in either case.
pub proof fn case_makes_no_difference(s: Seq<char>, i: int)
    requires
        0 <= i < s.len(),
        'a' <= s[i] <= 'f',
    ensures
        text::digits_value(s, 16) == text::digits_value(
            s.update(i, (s[i] as int - 32) as char),
            16,
        ),
    decreases s.len(),
{
    let c = (s[i] as int - 32) as char;
    let t = s.update(i, c);
    if i == s.len() - 1 {
        assert(t.drop_last() =~= s.drop_last());
        assert(t.last() == c);
        lemma_either_case(s[i]);
    } else {
        case_makes_no_difference(s.drop_last(), i);
        assert(t.drop_last() =~= s.drop_last().update(i, c));
        assert(t.last() == s.last());
    }
}

proof fn lemma_either_case(c: char)
    requires
        'a' <= c <= 'f',
    ensures
        text::digit_value(c, 16) == text::digit_value((c as int - 32) as char, 16),
{
}

proof fn lemma_low_digits(s: Seq<char>, v: nat, q: nat)
    ensures
        number::low_digits(v, q).len() == q,
        forall|i: int|
            0 <= i < q ==> is_digit(#[trigger] number::low_digits(v, q)[i], 10),
        pow(10, q) > 0,
        total(s + number::low_digits(v, q), 10) == total(s, 10) * pow(10, q) + v as int % pow(
            10,
            q,
        ),
    decreases q,
{
    let t = number::low_digits(v, q);
    lemma_pow_positive(10, q);
    if q == 0 {
        lemma_pow0(10);
        assert(s + t =~= s);
        lemma_mul_basics(total(s, 10));
    } else {
        let u = number::low_digits(v / 10, (q - 1) as nat);
        let d = (v % 10) as int;
        lemma_low_digits(s, v / 10, (q - 1) as nat);
        assert(t =~= u.push(text::digit_char(d)));
        assert forall|i: int| 0 <= i < q implies is_digit(#[trigger] t[i], 10) by {
            if i < u.len() {
                assert(t[i] == u[i]);
            }
        }
        let x = s + t;
        assert(x.drop_last() =~= s + u);
        assert(x.last() == text::digit_char(d));
        assert(worth(text::digit_char(d)) == d);
        let p = pow(10, (q - 1) as nat);
        lemma_pow_positive(10, (q - 1) as nat);
        reveal(pow);
        assert(pow(10, q) == 10 * p);
        let a = total(s, 10);
        let b = (v / 10) as int;
        assert(10 * (a * p + b % p) + d == a * (10 * p) + (10 * (b % p) + d)) by (nonlinear_arith);
        assert(v as int % (10 * p) == 10 * (b % p) + d) by {
            lemma_mod_breakdown(v as int, 10, p);
        }
    }
}

/// A decimal with `q` places is its digits, with a point before the last `q`,
/// and no zero in front but one before the point.
pub proof fn decimals_say_their_number(c: nat, q: nat)
    requires
        q > 0,
    ensures
        ({
            let t = number::plain(c, -(q as int));
            let k = t.len() - q - 1;
            &&& k > 0
            &&& t[k] == '.'
            &&& says(t.take(k) + t.skip(k + 1), 10, c as int)
            &&& k > 1 ==> t[0] != '0'
        }),
{
    let p = decimal::tenfold(q as int);
    decimal::lemma_tenfold(q as int);
    let whole = text::decimal(c / p);
    let low = number::low_digits(c, q);
    let t = number::plain(c, -(q as int));
    let k = t.len() - q - 1;
    numerals_say_their_number(c / p, 10);
    lemma_low_digits(whole, c, q);
    assert(t =~= whole + seq!['.'] + low);
    assert(k == whole.len());
    assert(t.take(k) =~= whole);
    assert(t.skip(k + 1) =~= low);
    lemma_fundamental_div_mod(c as int, p as int);
    lemma_mul_is_commutative(p as int, c as int / p as int);
    let all = whole + low;
    assert forall|i: int| 0 <= i < all.len() implies is_digit(#[trigger] all[i], 10) by {
        if i < k {
            assert(all[i] == whole[i]);
        } else {
            assert(all[i] == low[i - k]);
        }
    }
    assert(t[0] == whole[0]);
}

} // verus!
