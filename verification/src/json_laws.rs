//! What holds of the documents as a whole: what is written reads back.
use crate::decimal;
use crate::ieee;
use crate::ieee::{Binary64, HIDDEN_64, INTEGER_LIMIT, TOP_64};
use crate::json;
use crate::json::JsonView;
use crate::number;
use crate::number_laws;
use crate::text;
use vstd::arithmetic::div_mod::*;
use vstd::arithmetic::mul::*;
use vstd::arithmetic::power::*;
use vstd::arithmetic::power2::*;
use vstd::prelude::*;
use vstd::utf8::*;

verus! {

/// Text of decimal digits.
pub open spec fn digits_only(s: Seq<char>) -> bool {
    forall|i: int| 0 <= i < s.len() ==> '0' <= #[trigger] s[i] <= '9'
}

// ---------------------------------------------------------------------
// Numbers.
// ---------------------------------------------------------------------
/// A decimal numeral spells its number.
pub proof fn lemma_decimal_spells(v: nat)
    ensures
        digits_only(text::decimal(v)),
        text::decimal(v).len() > 0,
        number::spelled(json::octets(text::decimal(v))) == v,
        text::decimal(v)[0] == '0' ==> text::decimal(v).len() == 1 && v == 0,
    decreases v,
{
    let s = text::decimal(v);
    if v < 10 {
        assert(s =~= seq![text::digit_char(v as int)]);
        assert(json::octets(s).drop_last() =~= Seq::empty());
        assert(number::spelled(Seq::empty()) == 0);
        assert(json::octets(s).last() == 48 + v);
    } else {
        let t = text::decimal(v / 10);
        let d = (v % 10) as int;
        lemma_decimal_spells(v / 10);
        assert(s =~= t.push(text::digit_char(d)));
        assert forall|i: int| 0 <= i < s.len() implies '0' <= #[trigger] s[i] <= '9' by {
            if i < t.len() {
                assert(s[i] == t[i]);
            }
        }
        assert(json::octets(s).drop_last() =~= json::octets(t));
        assert(json::octets(s).last() == 48 + d);
        assert(s[0] == t[0]);
    }
}

/// The low digits of a number, behind others.
proof fn lemma_low_digits_spell(s: Seq<u8>, v: nat, q: nat)
    ensures
        digits_only(number::low_digits(v, q)),
        number::low_digits(v, q).len() == q,
        pow(10, q) > 0,
        number::spelled(s + json::octets(number::low_digits(v, q))) == number::spelled(s) * pow(10, q)
            + v as int % pow(10, q),
    decreases q,
{
    let t = number::low_digits(v, q);
    lemma_pow_positive(10, q);
    if q == 0 {
        lemma_pow0(10);
        assert(s + json::octets(t) =~= s);
        lemma_mul_basics(number::spelled(s) as int);
    } else {
        let u = number::low_digits(v / 10, (q - 1) as nat);
        let d = (v % 10) as int;
        lemma_low_digits_spell(s, v / 10, (q - 1) as nat);
        assert(t =~= u.push(text::digit_char(d)));
        assert forall|i: int| 0 <= i < t.len() implies '0' <= #[trigger] t[i] <= '9' by {
            if i < u.len() {
                assert(t[i] == u[i]);
            }
        }
        let x = s + json::octets(t);
        assert(x.drop_last() =~= s + json::octets(u));
        assert(x.last() == 48 + d);
        let p = pow(10, (q - 1) as nat);
        lemma_pow_positive(10, (q - 1) as nat);
        reveal(pow);
        assert(pow(10, q) == 10 * p);
        let a = number::spelled(s) as int;
        let b = (v / 10) as int;
        assert(10 * (a * p + b % p) + d == a * (10 * p) + (10 * (b % p) + d)) by (nonlinear_arith);
        assert(v as int % (10 * p) == 10 * (b % p) + d) by {
            lemma_mod_breakdown(v as int, 10, p);
        }
    }
}

/// What `c * 10^e` is spelled as, reads as `c * 10^e`.
pub proof fn lemma_plain_reads(c: nat, e: int)
    ensures
        ({
            let s = number::plain(c, e);
            &&& s.len() > 0
            &&& '0' <= s[0] <= '9'
            &&& forall|i: int| 0 <= i < s.len() ==> '0' <= #[trigger] s[i] <= '9' || s[i] == '.'
            &&& number::well_formed(json::octets(s))
            &&& number::unsigned_part(json::octets(s)) == Some(
                if e >= 0 {
                    ((c * decimal::tenfold(e)) as nat, 0int)
                } else {
                    (c, e)
                },
            )
        }),
{
    let s = number::plain(c, e);
    let b = json::octets(s);
    if e >= 0 {
        let v = (c * decimal::tenfold(e)) as nat;
        lemma_decimal_spells(v);
        number::lemma_leading_is(b, b.len());
        assert(b.take(b.len() as int) =~= b);
        assert(b.skip(b.len() as int) =~= Seq::empty());
        assert(b[0] == s[0] as u8);
    } else {
        let q = (-e) as nat;
        let p = decimal::tenfold(-e);
        decimal::lemma_tenfold(-e);
        let whole = text::decimal(c / p);
        let low = number::low_digits(c, q);
        lemma_decimal_spells(c / p);
        lemma_low_digits_spell(json::octets(whole), c, q);
        let i = whole.len() as int;
        assert(s =~= whole + seq!['.'] + low);
        assert forall|k: int| 0 <= k < s.len() implies '0' <= #[trigger] s[k] <= '9' || s[k]
            == '.' by {
            if k < i {
                assert(s[k] == whole[k]);
            } else if k > i {
                assert(s[k] == low[k - i - 1]);
            }
        }
        assert forall|k: int| 0 <= k < i implies number::is_digit(#[trigger] b[k]) by {
            assert(s[k] == whole[k]);
        }
        assert(s[i] == '.');
        number::lemma_leading_is(b, i as nat);
        let after = b.skip(i + 1);
        assert forall|k: int| 0 <= k < q implies number::is_digit(#[trigger] after[k]) by {
            assert(after[k] == b[i + 1 + k]);
            assert(s[i + 1 + k] == low[k]);
        }
        number::lemma_leading_is(after, q);
        assert(b.take(i) =~= json::octets(whole));
        assert(b.subrange(i + 1, i + 1 + q) =~= json::octets(low));
        assert(b.skip(i + 1 + q) =~= Seq::empty());
        lemma_fundamental_div_mod(c as int, p as int);
        lemma_mul_is_commutative(p as int, c as int / p as int);
        assert(s[0] == whole[0]);
        assert(b[0] == s[0] as u8);
        assert(b.skip(i)[0] == 46);
        assert(b.skip(i).skip(1) =~= after);
        assert(after.skip(q as int) =~= Seq::empty());
    }
}

/// A number that a document can hold: finite, and not the negative zero,
/// which prints as the other one.
pub open spec fn plain_number(n: Binary64) -> bool {
    n.finite() && n.bits != 0x8000_0000_0000_0000
}

proof fn lemma_same_number(n: Binary64)
    ensures
        Binary64::signed(n.negative(), n.magnitude()) == n,
{
}

/// A numeral with its sign.
pub proof fn lemma_sign_reads(negative: bool, s: Seq<char>, n: Binary64)
    requires
        s.len() > 0,
        '0' <= s[0] <= '9',
        number::well_formed(json::octets(s)),
        number::unsigned_part(json::octets(s)) matches Some((c, e)) && Binary64::signed(
            negative,
            decimal::nearest_decimal(c, e),
        ) == n,
    ensures
        number::read_number(json::octets(number::sign(negative) + s)) == Some(n),
        number::well_formed(json::octets(number::sign(negative) + s)),
{
    let b = json::octets(number::sign(negative) + s);
    if negative {
        assert(b[0] == 45);
        assert(b.skip(1) =~= json::octets(s));
    } else {
        assert(b =~= json::octets(s));
        assert(b[0] == s[0] as u8);
    }
}

/// A number's text reads back as the number, and is made of what numerals
/// are made of.
pub proof fn number_reads_back(n: Binary64)
    requires
        plain_number(n),
    ensures
        number::read_number(json::octets(json::number_text(n))) == Some(n),
        number::well_formed(json::octets(json::number_text(n))),
        json::number_text(n).len() > 0,
        forall|i: int|
            0 <= i < json::number_text(n).len() ==> json::in_numeral(
                #[trigger] json::number_text(n)[i],
            ),
{
    let mag = n.magnitude();
    let text = json::number_text(n);
    let m = HIDDEN_64 as nat;
    let top = TOP_64 as nat;
    let one = ieee::one_64();
    let u = ieee::units_64(mag);
    let negative = n.negative();
    lemma_pow2_pos(1074);
    lemma_same_number(n);
    let small = match Binary64::integer(mag) {
        Some(v) => v < INTEGER_LIMIT,
        None => false,
    };
    let body = if small {
        number::plain(u / one, 0)
    } else {
        number::plain(decimal::shortest(mag).0, decimal::shortest(mag).1)
    };
    if small {
        let v = u / one;
        lemma_plain_reads(v, 0);
        lemma_mul_basics(v as int);
        assert(v * decimal::tenfold(0) == v);
        lemma_fundamental_div_mod(u as int, one as int);
        lemma_mul_is_commutative(one as int, v as int);
        lemma_mul_basics(u as int);
        ieee::lemma_exact(m, top, u, 1, mag);
        assert(v * decimal::tenfold(0) * one == u);
        if v == 0 {
            lemma_mul_basics(one as int);
            assert(u == 0);
            assert(mag == 0) by {
                if mag > 0 {
                    ieee::lemma_ascending(m, 0, mag);
                }
            }
        }
        assert(text =~= number::sign(negative) + body);
    } else {
        assert(mag > 0) by {
            if mag == 0 {
                lemma_mul_basics(pow2(0) as int);
                assert(u == 0);
                lemma_small_mod(0, one);
                lemma_div_of0(one as int);
            }
        }
        let (c, e) = decimal::shortest(mag);
        decimal::lemma_shortest(mag);
        lemma_plain_reads(c, e);
        decimal::lemma_tenfold(e);
        decimal::lemma_tenfold(-e);
        ieee::lemma_nearest_unique(m, top, c * decimal::tenfold(e) * one, decimal::tenfold(-e), mag);
        if e >= 0 {
            lemma_mul_basics((c * decimal::tenfold(e)) as int);
        }
        assert(text =~= number::sign(negative) + body);
    }
    lemma_sign_reads(negative, body, n);
    assert forall|i: int| 0 <= i < text.len() implies json::in_numeral(#[trigger] text[i]) by {
        let k = if negative {
            i - 1
        } else {
            i
        };
        if k >= 0 {
            assert(text[i] == body[k]);
        }
    }
}

/// Integers up to two to the fifty-third survive a document: the text of one
/// reads as a double that the accessors round to the integer again.
pub proof fn integers_survive(v: int)
    requires
        -0x20_0000_0000_0000 <= v <= 0x20_0000_0000_0000,
    ensures
        number::read_number(json::octets(text::signed_decimal(v))) matches Some(n) && n.rounded(
            i64::MIN as int,
            i64::MAX as int,
        ) == v && (v >= 0 ==> n.rounded(0, u64::MAX as int) == v),
{
    let mag = number_laws::size(v);
    let n = number_laws::double_of(v < 0, mag, 0);
    let body = text::decimal(mag);
    lemma_plain_reads(mag, 0);
    lemma_mul_basics(mag as int);
    assert(number::plain(mag, 0) =~= body);
    lemma_sign_reads(v < 0, body, n);
    assert(number::sign(v < 0) + body =~= text::signed_decimal(v));
    number_laws::integers_are_held(mag);
    number_laws::lemma_held_rounds(mag, v < 0);
}

// ---------------------------------------------------------------------
// Strings.
// ---------------------------------------------------------------------
/// A hexadecimal digit in lower case has its value.
proof fn lemma_lower_digit(d: int)
    requires
        0 <= d < 16,
    ensures
        text::digit_value(text::lower_digit(d), 16) == Some(d as nat),
{
}

/// Four hexadecimal digits read as the code unit that they were written for.
proof fn lemma_code_unit_reads(v: int, rest: Seq<char>)
    requires
        0 <= v < 0x1_0000,
    ensures
        json::code_unit((text::unicode_escape(v) + rest).skip(2)) == Some(v as nat),
{
    let e = text::unicode_escape(v);
    let s = (e + rest).skip(2);
    let a = v / 16;
    let b = v / 256;
    let c = v / 4096;
    assert(v == 16 * a + v % 16 && a == 16 * b + a % 16 && b == 16 * c + b % 16 && 0 <= c < 16);
    lemma_lower_digit(c);
    lemma_lower_digit(b % 16);
    lemma_lower_digit(a % 16);
    lemma_lower_digit(v % 16);
    assert(s[0] == e[2]);
    assert(s[1] == e[3]);
    assert(s[2] == e[4]);
    assert(s[3] == e[5]);
}

/// An escape reads as the character that it was written for.
pub proof fn lemma_unicode_reads(c: char, rest: Seq<char>, wide: bool)
    requires
        (c as u32) < 0x1_0000,
    ensures
        ({
            let e = text::unicode_escape(c as int);
            let s = e + rest;
            &&& json::string_char(s, wide) == Some((c, 6int))
            &&& e.len() == 6
            &&& s[0] == '\\'
            &&& s.skip(6) == rest
        }),
{
    let e = text::unicode_escape(c as int);
    let s = e + rest;
    lemma_code_unit_reads(c as int, rest);
    assert(s[0] == e[0]);
    assert(s[1] == e[1]);
    assert(s.skip(6) =~= rest);
}

/// A pair of escapes reads as the character that it was written for.
proof fn lemma_pair_reads(c: char, rest: Seq<char>, wide: bool)
    requires
        c as u32 >= 0x1_0000,
    ensures
        ({
            let s = text::unicode_escape(json::high_surrogate(c)) + text::unicode_escape(
                json::low_surrogate(c),
            ) + rest;
            json::string_char(s, wide) == Some((c, 12int))
        }),
{
    let high = json::high_surrogate(c);
    let low = json::low_surrogate(c);
    let a = text::unicode_escape(high);
    let b = text::unicode_escape(low);
    let s = a + b + rest;
    lemma_code_unit_reads(high, b + rest);
    lemma_code_unit_reads(low, rest);
    assert(s =~= a + (b + rest));
    assert(s.skip(8) =~= (b + rest).skip(2));
    assert(s[0] == a[0]);
    assert(s[1] == a[1]);
    assert(s[6] == b[0]);
    assert(s[7] == b[1]);
}

proof fn lemma_escape_reads(c: char, rest: Seq<char>, wide: bool)
    ensures
        ({
            let s = json::escape(c) + rest;
            &&& json::string_char(s, wide) == Some((c, json::escape(c).len() as int))
            &&& s[0] != '"'
            &&& s.skip(json::escape(c).len() as int) == rest
        }),
{
    let e = json::escape(c);
    let s = e + rest;
    assert(s.skip(e.len() as int) =~= rest);
    assert(s[0] == e[0]);
    if e.len() == 2 {
        assert(s[1] == e[1]);
    } else if e.len() == 6 {
        lemma_unicode_reads(c, rest, wide);
    } else if e.len() == 12 {
        lemma_pair_reads(c, rest, wide);
    }
}

/// One character of a string, and the rest of it.
pub proof fn lemma_string_step(
    c: char,
    e: Seq<char>,
    after: Seq<char>,
    u: Seq<char>,
    rest: Seq<char>,
    wide: bool,
)
    requires
        e.len() > 0,
        (e + after)[0] != '"',
        json::string_char(e + after, wide) == Some((c, e.len() as int)),
        json::string_at(after, wide) == Some((u, rest)),
    ensures
        json::string_at(e + after, wide) == Some((seq![c] + u, rest)),
{
    assert((e + after).skip(e.len() as int) =~= after);
}

/// A string reads back out of its quotes, whatever follows.
#[verifier::spinoff_prover]
pub proof fn string_reads_back(t: Seq<char>, rest: Seq<char>, wide: bool)
    ensures
        json::string_at(json::escaped(t) + seq!['"'] + rest, wide) == Some((t, rest)),
    decreases t.len(),
{
    let s = json::escaped(t) + seq!['"'] + rest;
    if t.len() == 0 {
        assert(json::escaped(t) =~= Seq::empty());
        assert(s[0] == '"');
        assert(s.skip(1) =~= rest);
        assert(t =~= Seq::empty());
    } else {
        let c = t[0];
        let u = t.skip(1);
        string_reads_back(u, rest, wide);
        let after = json::escaped(u) + seq!['"'] + rest;
        lemma_escape_reads(c, after, wide);
        lemma_string_step(c, json::escape(c), after, u, rest, wide);
        assert(s =~= json::escape(c) + after);
        assert(seq![c] + u =~= t);
    }
}

/// The string reader gives back what the string writer wrote, wherever it
/// stands: at the opening quote of a written string, [`json::Parser::string`]
/// yields the string and stops right behind the closing quote.
pub proof fn written_string_reads_back(
    before: Seq<char>,
    t: Seq<char>,
    behind: Seq<char>,
    wide: bool,
)
    ensures
        ({
            let written = json::quoted(t);
            let text = before + written + behind;
            let here = text.skip(before.len() as int);
            &&& here[0] == '"'
            &&& json::string_at(here.skip(1), wide) == Some((t, behind))
            &&& text.skip((before.len() + written.len()) as int) == behind
        }),
{
    let written = json::quoted(t);
    let text = before + written + behind;
    let here = text.skip(before.len() as int);
    string_reads_back(t, behind, wide);
    assert(here[0] == written[0]);
    assert(here.skip(1) =~= json::escaped(t) + seq!['"'] + behind);
    assert(text.skip((before.len() + written.len()) as int) =~= behind);
}

// ---------------------------------------------------------------------
// Documents.
// ---------------------------------------------------------------------
/// A document whose text gives it back to the bit: its numbers are finite
/// and not the negative zero.
pub open spec fn plain_document(j: JsonView) -> bool
    decreases j,
{
    match j {
        JsonView::Null => true,
        JsonView::Bool(_) => true,
        JsonView::Num(n) => plain_number(n),
        JsonView::Str(_) => true,
        JsonView::Arr(a) => plain_items(a),
        JsonView::Obj(kv) => plain_members(kv),
    }
}

pub open spec fn plain_items(a: Seq<JsonView>) -> bool
    decreases a,
{
    a.len() == 0 || (plain_document(a[0]) && plain_items(a.skip(1)))
}

pub open spec fn plain_members(kv: Seq<(Seq<char>, JsonView)>) -> bool
    decreases kv,
{
    kv.len() == 0 || (plain_document(kv[0].1) && plain_members(kv.skip(1)))
}

/// Spaces.
pub open spec fn spaces(s: Seq<char>) -> bool {
    forall|i: int| 0 <= i < s.len() ==> #[trigger] s[i] == ' '
}

/// Blanks in front of something else are skipped.
pub proof fn lemma_blanks_skipped(blanks: Seq<char>, s: Seq<char>)
    requires
        forall|i: int| 0 <= i < blanks.len() ==> json::is_blank(#[trigger] blanks[i]),
    ensures
        json::after_blanks(blanks + s) == json::after_blanks(s),
    decreases blanks.len(),
{
    if blanks.len() == 0 {
        assert(blanks + s =~= s);
    } else {
        let b = blanks.skip(1);
        assert forall|i: int| 0 <= i < b.len() implies json::is_blank(#[trigger] b[i]) by {
            assert(b[i] == blanks[i + 1]);
        }
        lemma_blanks_skipped(b, s);
        assert((blanks + s).skip(1) =~= b + s);
        assert((blanks + s)[0] == blanks[0]);
    }
}

proof fn lemma_spaces_skipped(pad: Seq<char>, s: Seq<char>)
    requires
        spaces(pad),
        s.len() > 0,
        !json::is_blank(s[0]),
    ensures
        json::after_blanks(pad + s) == s,
        json::after_blanks(seq!['\n'] + pad + s) == s,
{
    lemma_blanks_skipped(pad, s);
    let n = seq!['\n'] + pad;
    assert forall|i: int| 0 <= i < n.len() implies json::is_blank(#[trigger] n[i]) by {
        if i > 0 {
            assert(n[i] == pad[i - 1]);
        }
    }
    lemma_blanks_skipped(n, s);
}

/// What follows a value does not go on with a numeral.
pub open spec fn stops(rest: Seq<char>) -> bool {
    rest.len() == 0 || !json::in_numeral(rest[0])
}

/// The text of a value opens with neither a blank nor a closing bracket.
pub open spec fn opens_value(s: Seq<char>) -> bool {
    s.len() > 0 && !json::is_blank(s[0]) && s[0] != ']' && s[0] != '}'
}

/// A value of one token reads back.
proof fn lemma_scalar_reads(j: JsonView, pad: Seq<char>, rest: Seq<char>)
    requires
        plain_document(j),
        j is Null || j is Bool || j is Num || j is Str,
        stops(rest),
    ensures
        json::value_at(json::pretty(j, pad) + rest, false) == Some((j, rest)),
        opens_value(json::pretty(j, pad)),
{
    let t = json::pretty(j, pad);
    let s = t + rest;
    json::lemma_value_rule(s, false);
    match j {
        JsonView::Null => {
            assert(s.take(4) =~= json::word_null());
            assert(s.skip(4) =~= rest);
        },
        JsonView::Bool(b) => {
            if b {
                assert(s.take(4) =~= json::word_true());
                assert(s.skip(4) =~= rest);
            } else {
                assert(s.take(5) =~= json::word_false());
                assert(s.skip(5) =~= rest);
            }
        },
        JsonView::Num(n) => {
            lemma_number_at(n, rest);
        },
        JsonView::Str(x) => {
            string_reads_back(x, rest, false);
            assert(s.skip(1) =~= json::escaped(x) + seq!['"'] + rest);
            assert(s[0] == '"');
        },
        _ => {},
    }
}

proof fn lemma_number_at(n: Binary64, rest: Seq<char>)
    requires
        plain_number(n),
        stops(rest),
    ensures
        ({
            let t = json::number_text(n);
            let s = t + rest;
            &&& s.len() > 0
            &&& json::in_numeral(s[0])
            &&& json::scalar_at(s, false) == Some((JsonView::Num(n), rest))
            &&& opens_value(t)
        }),
{
    let t = json::number_text(n);
    let s = t + rest;
    number_reads_back(n);
    let k = t.len();
    assert forall|i: int| 0 <= i < k implies json::in_numeral(#[trigger] s[i]) by {
        assert(s[i] == t[i]);
    }
    json::lemma_numeral_len_is(s, k);
    assert(s.take(k as int) =~= t);
    assert(s.skip(k as int) =~= rest);
    assert(s[0] == t[0]);
}

/// Blanks in front make no difference to a list.
proof fn lemma_list_after_blanks(blanks: Seq<char>, s: Seq<char>, wide: bool)
    requires
        forall|i: int| 0 <= i < blanks.len() ==> json::is_blank(#[trigger] blanks[i]),
    ensures
        json::items_at(blanks + s, wide) == json::items_at(s, wide),
        json::members_at(blanks + s, wide) == json::members_at(s, wide),
{
    lemma_blanks_skipped(blanks, s);
    json::lemma_items_rule(blanks + s, wide);
    json::lemma_items_rule(s, wide);
    json::lemma_members_rule(blanks + s, wide);
    json::lemma_members_rule(s, wide);
}

/// What an opening bracket is followed by, once the blanks are skipped.
pub proof fn lemma_opened(s: Seq<char>, wide: bool)
    ensures
        json::items_at(json::after_blanks(s), wide) == json::items_at(s, wide),
        json::members_at(json::after_blanks(s), wide) == json::members_at(s, wide),
{
    json::lemma_after_blanks(s);
    let t = json::after_blanks(s);
    let blanks = s.take(s.len() - t.len());
    assert forall|i: int| 0 <= i < blanks.len() implies json::is_blank(#[trigger] blanks[i]) by {
        assert(blanks[i] == s[i]);
    }
    assert(blanks + t =~= s);
    lemma_list_after_blanks(blanks, t, wide);
}

/// The text of the items of an array, with what closes it.
spec fn closed_items(
    a: Seq<JsonView>,
    pad: Seq<char>,
    outer: Seq<char>,
    rest: Seq<char>,
) -> Seq<char> {
    json::item_lines(a, pad) + outer + seq![']'] + rest
}

/// The text of the members of an object, with what closes it.
spec fn closed_members(
    kv: Seq<(Seq<char>, JsonView)>,
    pad: Seq<char>,
    outer: Seq<char>,
    rest: Seq<char>,
) -> Seq<char> {
    json::member_lines(kv, pad) + outer + seq!['}'] + rest
}

/// A value reads back, whatever stops it.
#[verifier::spinoff_prover]
proof fn lemma_value_reads(j: JsonView, pad: Seq<char>, rest: Seq<char>)
    requires
        plain_document(j),
        spaces(pad),
        stops(rest),
    ensures
        json::value_at(json::pretty(j, pad) + rest, false) == Some((j, rest)),
        opens_value(json::pretty(j, pad)),
    decreases j, 0int,
{
    let inner = pad + seq![' ', ' '];
    let t = json::pretty(j, pad);
    let s = t + rest;
    match j {
        JsonView::Arr(a) => {
            json::lemma_value_rule(s, false);
            if a.len() == 0 {
                assert(a =~= Seq::empty());
                assert(s.skip(1) =~= seq![']'] + rest);
                assert((seq![']'] + rest).skip(1) =~= rest);
            } else {
                lemma_items_read(a, inner, pad, rest);
                let x = closed_items(a, inner, pad, rest);
                let after = seq!['\n'] + x;
                assert(s.skip(1) =~= after);
                assert(s[0] == '[');
                lemma_opened(after, false);
                lemma_list_after_blanks(seq!['\n'], x, false);
                lemma_blanks_skipped(seq!['\n'], x);
            }
        },
        JsonView::Obj(kv) => {
            json::lemma_value_rule(s, false);
            if kv.len() == 0 {
                assert(kv =~= Seq::empty());
                assert(s.skip(1) =~= seq!['}'] + rest);
                assert((seq!['}'] + rest).skip(1) =~= rest);
            } else {
                lemma_members_read(kv, inner, pad, rest);
                let x = closed_members(kv, inner, pad, rest);
                let after = seq!['\n'] + x;
                assert(s.skip(1) =~= after);
                assert(s[0] == '{');
                lemma_opened(after, false);
                lemma_list_after_blanks(seq!['\n'], x, false);
                lemma_blanks_skipped(seq!['\n'], x);
            }
        },
        _ => {
            lemma_scalar_reads(j, pad, rest);
        },
    }
}

#[verifier::spinoff_prover]
proof fn lemma_items_read(a: Seq<JsonView>, pad: Seq<char>, outer: Seq<char>, rest: Seq<char>)
    requires
        a.len() > 0,
        plain_items(a),
        spaces(pad),
        spaces(outer),
    ensures
        json::items_at(closed_items(a, pad, outer, rest), false) == Some((a, rest)),
        ({
            let t = json::after_blanks(closed_items(a, pad, outer, rest));
            t.len() > 0 && t[0] != ']'
        }),
    decreases a, 1int,
{
    let x = closed_items(a, pad, outer, rest);
    let more = a.skip(1);
    let v = json::pretty(a[0], pad);
    let end = json::line_end(a.len() == 1);
    let lines = json::item_lines(more, pad);
    let closing = outer + seq![']'] + rest;
    let y = end + lines + closing;
    assert(y[0] == '\n' || y[0] == ',');
    lemma_value_reads(a[0], pad, y);
    assert(x =~= pad + (v + y));
    assert((v + y)[0] == v[0]);
    lemma_spaces_skipped(pad, v + y);
    json::lemma_items_rule(x, false);
    if a.len() == 1 {
        assert(lines =~= Seq::empty());
        assert(seq![a[0]] =~= a);
        let z = seq![']'] + rest;
        assert(y =~= seq!['\n'] + outer + z);
        lemma_spaces_skipped(outer, z);
        assert(z.skip(1) =~= rest);
    } else {
        lemma_items_read(more, pad, outer, rest);
        let z = closed_items(more, pad, outer, rest);
        assert(y.skip(1) =~= seq!['\n'] + z);
        assert(json::after_blanks(y) == y);
        lemma_list_after_blanks(seq!['\n'], z, false);
        assert(seq![a[0]] + more =~= a);
    }
}

#[verifier::spinoff_prover]
proof fn lemma_members_read(
    kv: Seq<(Seq<char>, JsonView)>,
    pad: Seq<char>,
    outer: Seq<char>,
    rest: Seq<char>,
)
    requires
        kv.len() > 0,
        plain_members(kv),
        spaces(pad),
        spaces(outer),
    ensures
        json::members_at(closed_members(kv, pad, outer, rest), false) == Some((kv, rest)),
        ({
            let t = json::after_blanks(closed_members(kv, pad, outer, rest));
            t.len() > 0 && t[0] != '}'
        }),
    decreases kv, 1int,
{
    let x = closed_members(kv, pad, outer, rest);
    let more = kv.skip(1);
    let k = kv[0].0;
    let v = json::pretty(kv[0].1, pad);
    let end = json::line_end(kv.len() == 1);
    let lines = json::member_lines(more, pad);
    let closing = outer + seq!['}'] + rest;
    let y = end + lines + closing;
    assert(y[0] == '\n' || y[0] == ',');
    assert(decreases_to!(kv => kv[0]));
    assert(decreases_to!(kv[0] => kv[0].1));
    lemma_value_reads(kv[0].1, pad, y);
    let w = v + y;
    assert(w[0] == v[0]);
    lemma_key_reads(k, pad, w);
    assert(x =~= pad + json::quoted(k) + seq![':', ' '] + w);
    json::lemma_members_rule(x, false);
    if kv.len() == 1 {
        assert(lines =~= Seq::empty());
        assert(seq![(k, kv[0].1)] =~= kv);
        let z = seq!['}'] + rest;
        assert(y =~= seq!['\n'] + outer + z);
        lemma_spaces_skipped(outer, z);
        assert(z.skip(1) =~= rest);
    } else {
        lemma_members_read(more, pad, outer, rest);
        let z = closed_members(more, pad, outer, rest);
        assert(y.skip(1) =~= seq!['\n'] + z);
        assert(json::after_blanks(y) == y);
        lemma_list_after_blanks(seq!['\n'], z, false);
        assert(seq![(k, kv[0].1)] + more =~= kv);
    }
}

/// A key reads back, up to the value behind it.
proof fn lemma_key_reads(k: Seq<char>, pad: Seq<char>, w: Seq<char>)
    requires
        spaces(pad),
        w.len() > 0,
        !json::is_blank(w[0]),
    ensures
        ({
            let x = pad + json::quoted(k) + seq![':', ' '] + w;
            &&& json::key_at(x, false) == Some((k, w))
            &&& json::after_blanks(x).len() > 0
            &&& json::after_blanks(x)[0] == '"'
        }),
{
    let x = pad + json::quoted(k) + seq![':', ' '] + w;
    let behind = seq![':', ' '] + w;
    let e = json::escaped(k);
    string_reads_back(k, behind, false);
    let t = seq!['"'] + (e + seq!['"'] + behind);
    assert(x =~= pad + t);
    lemma_spaces_skipped(pad, t);
    assert(t.skip(1) =~= e + seq!['"'] + behind);
    assert(json::after_blanks(behind) == behind);
    assert(behind.skip(1) =~= seq![' '] + w);
    lemma_blanks_skipped(seq![' '], w);
}

/// A document whose numbers are finite.
pub open spec fn finite_document(j: JsonView) -> bool
    decreases j,
{
    match j {
        JsonView::Num(n) => n.finite(),
        JsonView::Arr(a) => finite_items(a),
        JsonView::Obj(kv) => finite_members(kv),
        _ => true,
    }
}

pub open spec fn finite_items(a: Seq<JsonView>) -> bool
    decreases a,
{
    a.len() == 0 || (finite_document(a[0]) && finite_items(a.skip(1)))
}

pub open spec fn finite_members(kv: Seq<(Seq<char>, JsonView)>) -> bool
    decreases kv,
{
    kv.len() == 0 || (finite_document(kv[0].1) && finite_members(kv.skip(1)))
}

/// Two documents say the same: their numbers compare equal, and all else is
/// equal.
pub open spec fn same(j: JsonView, k: JsonView) -> bool
    decreases j,
{
    match (j, k) {
        (JsonView::Num(m), JsonView::Num(n)) => m == n || (m.magnitude() == 0 && n.magnitude()
            == 0),
        (JsonView::Arr(a), JsonView::Arr(b)) => same_items(a, b),
        (JsonView::Obj(a), JsonView::Obj(b)) => same_members(a, b),
        _ => j == k,
    }
}

pub open spec fn same_items(a: Seq<JsonView>, b: Seq<JsonView>) -> bool
    decreases a,
{
    a.len() == b.len() && (a.len() == 0 || (same(a[0], b[0]) && same_items(a.skip(1), b.skip(1))))
}

pub open spec fn same_members(
    a: Seq<(Seq<char>, JsonView)>,
    b: Seq<(Seq<char>, JsonView)>,
) -> bool
    decreases a,
{
    a.len() == b.len() && (a.len() == 0 || (a[0].0 == b[0].0 && same(a[0].1, b[0].1)
        && same_members(a.skip(1), b.skip(1))))
}

/// A number with the negative zero turned into the other one.
spec fn unsigned_zero(n: Binary64) -> Binary64 {
    if n.bits == 0x8000_0000_0000_0000 {
        Binary64 { bits: 0 }
    } else {
        n
    }
}

/// A document with its negative zeros turned into the other ones.
spec fn settled(j: JsonView) -> JsonView
    decreases j,
{
    match j {
        JsonView::Num(n) => JsonView::Num(unsigned_zero(n)),
        JsonView::Arr(a) => JsonView::Arr(settled_items(a)),
        JsonView::Obj(kv) => JsonView::Obj(settled_members(kv)),
        _ => j,
    }
}

spec fn settled_items(a: Seq<JsonView>) -> Seq<JsonView>
    decreases a,
{
    if a.len() == 0 {
        Seq::empty()
    } else {
        seq![settled(a[0])] + settled_items(a.skip(1))
    }
}

spec fn settled_members(kv: Seq<(Seq<char>, JsonView)>) -> Seq<(Seq<char>, JsonView)>
    decreases kv,
{
    if kv.len() == 0 {
        Seq::empty()
    } else {
        seq![(kv[0].0, settled(kv[0].1))] + settled_members(kv.skip(1))
    }
}

/// The two zeros have one text.
proof fn lemma_zero_text(n: Binary64)
    ensures
        json::number_text(unsigned_zero(n)) == json::number_text(n),
{
    if n.bits == 0x8000_0000_0000_0000 {
        let one = ieee::one_64();
        lemma_pow2_pos(1074);
        lemma_mul_basics(pow2(0) as int);
        lemma_small_mod(0, one);
        lemma_div_of0(one as int);
        assert(ieee::units_64(0) == 0);
    }
}

/// A settled document says the same, has the same text, and is plain.
proof fn lemma_settled(j: JsonView, pad: Seq<char>)
    requires
        finite_document(j),
    ensures
        same(settled(j), j),
        plain_document(settled(j)),
        json::pretty(settled(j), pad) == json::pretty(j, pad),
        plain_document(j) ==> settled(j) == j,
    decreases j, 0int,
{
    let inner = pad + seq![' ', ' '];
    match j {
        JsonView::Num(n) => lemma_zero_text(n),
        JsonView::Arr(a) => lemma_settled_items(a, inner),
        JsonView::Obj(kv) => lemma_settled_members(kv, inner),
        _ => {},
    }
}

proof fn lemma_settled_items(a: Seq<JsonView>, pad: Seq<char>)
    requires
        finite_items(a),
    ensures
        settled_items(a).len() == a.len(),
        same_items(settled_items(a), a),
        plain_items(settled_items(a)),
        json::item_lines(settled_items(a), pad) == json::item_lines(a, pad),
        plain_items(a) ==> settled_items(a) == a,
    decreases a, 1int,
{
    if a.len() > 0 {
        let b = settled_items(a);
        lemma_settled(a[0], pad);
        lemma_settled_items(a.skip(1), pad);
        assert(b[0] == settled(a[0]));
        assert(b.skip(1) =~= settled_items(a.skip(1)));
        assert(seq![a[0]] + a.skip(1) =~= a);
    } else {
        assert(a =~= Seq::empty());
    }
}

proof fn lemma_settled_members(kv: Seq<(Seq<char>, JsonView)>, pad: Seq<char>)
    requires
        finite_members(kv),
    ensures
        settled_members(kv).len() == kv.len(),
        same_members(settled_members(kv), kv),
        plain_members(settled_members(kv)),
        json::member_lines(settled_members(kv), pad) == json::member_lines(kv, pad),
        plain_members(kv) ==> settled_members(kv) == kv,
    decreases kv, 1int,
{
    if kv.len() > 0 {
        let b = settled_members(kv);
        assert(decreases_to!(kv => kv[0]));
        assert(decreases_to!(kv[0] => kv[0].1));
        lemma_settled(kv[0].1, pad);
        lemma_settled_members(kv.skip(1), pad);
        assert(b[0] == (kv[0].0, settled(kv[0].1)));
        assert(b.skip(1) =~= settled_members(kv.skip(1)));
        assert(seq![kv[0]] + kv.skip(1) =~= kv);
    } else {
        assert(kv =~= Seq::empty());
    }
}

/// A document parses out of its own text: every structure, every string and
/// every finite number survives, the negative zero as the zero that it
/// equals, all others to the bit.
pub proof fn document_reads_back(j: JsonView)
    requires
        finite_document(j),
    ensures
        json::document(json::pretty(j, Seq::empty()).push('\n'), false) matches Some(k) && same(
            k,
            j,
        ) && (plain_document(j) ==> k == j),
{
    let pad = Seq::<char>::empty();
    lemma_settled(j, pad);
    let t = json::pretty(j, pad);
    let rest = seq!['\n'];
    lemma_value_reads(settled(j), pad, rest);
    let s = t + rest;
    assert(t.push('\n') =~= s);
    assert(s[0] == t[0]);
    assert(json::after_blanks(s) == s);
    assert(rest.skip(1) =~= Seq::empty());
    assert(json::after_blanks(Seq::<char>::empty()) =~= Seq::empty());
}

// ---------------------------------------------------------------------
// ASCII.
// ---------------------------------------------------------------------
/// What was read of `s`, up to `rest`, is ASCII.
spec fn clean(s: Seq<char>, rest: Seq<char>) -> bool {
    &&& rest.len() <= s.len()
    &&& rest == s.skip(s.len() - rest.len())
    &&& forall|i: int| 0 <= i < s.len() - rest.len() ==> #[trigger] s[i] as u32 <= 0x7f
}

proof fn lemma_clean_add(s: Seq<char>, t: Seq<char>, rest: Seq<char>)
    requires
        clean(s, t),
        clean(t, rest),
    ensures
        clean(s, rest),
{
    let k = s.len() - t.len();
    assert(rest =~= s.skip(s.len() - rest.len()));
    assert forall|i: int| 0 <= i < s.len() - rest.len() implies #[trigger] s[i] as u32
        <= 0x7f by {
        if i >= k {
            assert(t[i - k] == s[i]);
        }
    }
}

proof fn lemma_clean_skip(s: Seq<char>, n: int)
    requires
        0 <= n <= s.len(),
        forall|i: int| 0 <= i < n ==> #[trigger] s[i] as u32 <= 0x7f,
    ensures
        clean(s, s.skip(n)),
{
}

proof fn lemma_blanks_clean(s: Seq<char>)
    ensures
        clean(s, json::after_blanks(s)),
{
    json::lemma_after_blanks(s);
    assert forall|i: int| 0 <= i < s.len() - json::after_blanks(s).len() implies #[trigger] s[i] as u32
        <= 0x7f by {
        assert(json::is_blank(s[i]));
    }
}

/// Hexadecimal digits are ASCII.
proof fn lemma_code_unit_clean(s: Seq<char>)
    requires
        json::code_unit(s) is Some,
    ensures
        s.len() >= 4,
        s[0] as u32 <= 0x7f && s[1] as u32 <= 0x7f && s[2] as u32 <= 0x7f && s[3] as u32 <= 0x7f,
{
}

proof fn lemma_string_char_clean(s: Seq<char>)
    ensures
        json::string_char(s, false) matches Some((c, n)) ==> 0 < n <= s.len() && clean(
            s,
            s.skip(n),
        ),
{
    if let Some((c, n)) = json::string_char(s, false) {
        if s[0] == '\\' && s[1] == 'u' {
            let t = s.skip(2);
            lemma_code_unit_clean(t);
            assert(t[0] == s[2] && t[1] == s[3] && t[2] == s[4] && t[3] == s[5]);
            if n == 12 {
                let u = s.skip(8);
                lemma_code_unit_clean(u);
                assert(u[0] == s[8] && u[1] == s[9] && u[2] == s[10] && u[3] == s[11]);
            }
        }
        lemma_clean_skip(s, n);
    }
}

proof fn lemma_string_clean(s: Seq<char>)
    ensures
        json::string_at(s, false) matches Some((t, rest)) ==> clean(s, rest),
    decreases s.len(),
{
    if s.len() > 0 && s[0] == '"' {
        lemma_clean_skip(s, 1);
    } else if let Some((c, n)) = json::string_char(s, false) {
        lemma_string_char_clean(s);
        lemma_string_clean(s.skip(n));
        if let Some((t, rest)) = json::string_at(s.skip(n), false) {
            lemma_clean_add(s, s.skip(n), rest);
        }
    }
}

proof fn lemma_word_clean(s: Seq<char>, word: Seq<char>, v: JsonView)
    requires
        forall|i: int| 0 <= i < word.len() ==> #[trigger] word[i] as u32 <= 0x7f,
    ensures
        json::word_at(s, word, v) matches Some((w, rest)) ==> clean(s, rest),
{
    if json::word_at(s, word, v) is Some {
        let n = word.len() as int;
        assert forall|i: int| 0 <= i < n implies #[trigger] s[i] as u32 <= 0x7f by {
            assert(s.take(n)[i] == word[i]);
        }
        lemma_clean_skip(s, n);
    }
}

proof fn lemma_scalar_clean(s: Seq<char>)
    requires
        s.len() > 0,
    ensures
        json::scalar_at(s, false) matches Some((v, rest)) ==> clean(s, rest),
{
    if let Some((v, rest)) = json::scalar_at(s, false) {
        if s[0] == '"' {
            lemma_string_clean(s.skip(1));
            lemma_clean_skip(s, 1);
            lemma_clean_add(s, s.skip(1), rest);
        } else if s[0] == 't' {
            lemma_word_clean(s, json::word_true(), JsonView::Bool(true));
        } else if s[0] == 'f' {
            lemma_word_clean(s, json::word_false(), JsonView::Bool(false));
        } else if s[0] == 'n' {
            lemma_word_clean(s, json::word_null(), JsonView::Null);
        } else {
            json::lemma_numeral_len(s);
            let n = json::numeral_len(s) as int;
            assert forall|i: int| 0 <= i < n implies #[trigger] s[i] as u32 <= 0x7f by {
                assert(json::in_numeral(s[i]));
            }
            lemma_clean_skip(s, n);
        }
    }
}

proof fn lemma_key_clean(s: Seq<char>)
    ensures
        json::key_at(s, false) matches Some((k, rest)) ==> clean(s, rest),
{
    if let Some((k, u)) = json::key_at(s, false) {
        let t = json::after_blanks(s);
        lemma_blanks_clean(s);
        lemma_clean_skip(t, 1);
        lemma_clean_add(s, t, t.skip(1));
        lemma_string_clean(t.skip(1));
        if let Some((x, rest)) = json::string_at(t.skip(1), false) {
            let w = json::after_blanks(rest);
            lemma_clean_add(s, t.skip(1), rest);
            lemma_blanks_clean(rest);
            lemma_clean_add(s, rest, w);
            lemma_clean_skip(w, 1);
            lemma_clean_add(s, w, w.skip(1));
            lemma_blanks_clean(w.skip(1));
            lemma_clean_add(s, w.skip(1), u);
        }
    }
}

proof fn lemma_value_clean(s: Seq<char>)
    ensures
        json::value_at(s, false) matches Some((v, rest)) ==> clean(s, rest),
    decreases s.len(), 0int,
{
    json::lemma_value_rule(s, false);
    if s.len() > 0 {
        if s[0] == '{' || s[0] == '[' {
            let t = json::after_blanks(s.skip(1));
            lemma_clean_skip(s, 1);
            lemma_blanks_clean(s.skip(1));
            lemma_clean_add(s, s.skip(1), t);
            if t.len() > 0 && (t[0] == ']' || t[0] == '}') {
                lemma_clean_skip(t, 1);
                lemma_clean_add(s, t, t.skip(1));
            }
            if s[0] == '{' {
                lemma_members_clean(t);
                if let Some((kv, rest)) = json::members_at(t, false) {
                    lemma_clean_add(s, t, rest);
                }
            } else {
                lemma_items_clean(t);
                if let Some((a, rest)) = json::items_at(t, false) {
                    lemma_clean_add(s, t, rest);
                }
            }
        } else {
            lemma_scalar_clean(s);
        }
    }
}

/// What follows an item or a member: a comma or a closing bracket.
proof fn lemma_separator_clean(s: Seq<char>, rest: Seq<char>)
    requires
        clean(s, rest),
    ensures
        ({
            let t = json::after_blanks(rest);
            t.len() > 0 && t[0] as u32 <= 0x7f ==> clean(s, t.skip(1))
        }),
{
    let t = json::after_blanks(rest);
    lemma_blanks_clean(rest);
    lemma_clean_add(s, rest, t);
    if t.len() > 0 && t[0] as u32 <= 0x7f {
        lemma_clean_skip(t, 1);
        lemma_clean_add(s, t, t.skip(1));
    }
}

proof fn lemma_items_clean(s: Seq<char>)
    ensures
        json::items_at(s, false) matches Some((a, rest)) ==> clean(s, rest),
    decreases s.len(), 1int,
{
    json::lemma_items_rule(s, false);
    lemma_blanks_clean(s);
    let b = json::after_blanks(s);
    lemma_value_clean(b);
    if let Some((v, rest)) = json::value_at(b, false) {
        lemma_clean_add(s, b, rest);
        lemma_separator_clean(s, rest);
        let t = json::after_blanks(rest);
        if t.len() > 0 && t[0] == ',' {
            lemma_items_clean(t.skip(1));
            if let Some((more, end)) = json::items_at(t.skip(1), false) {
                lemma_clean_add(s, t.skip(1), end);
            }
        }
    }
}

proof fn lemma_members_clean(s: Seq<char>)
    ensures
        json::members_at(s, false) matches Some((kv, rest)) ==> clean(s, rest),
    decreases s.len(), 1int,
{
    json::lemma_members_rule(s, false);
    lemma_key_clean(s);
    if let Some((k, u)) = json::key_at(s, false) {
        lemma_value_clean(u);
        if let Some((v, rest)) = json::value_at(u, false) {
            lemma_clean_add(s, u, rest);
            lemma_separator_clean(s, rest);
            let t = json::after_blanks(rest);
            if t.len() > 0 && t[0] == ',' {
                lemma_members_clean(t.skip(1));
                if let Some((more, end)) = json::members_at(t.skip(1), false) {
                    lemma_clean_add(s, t.skip(1), end);
                }
            }
        }
    }
}

proof fn lemma_ascii_char(c: char)
    requires
        c as u32 <= 0x7f,
    ensures
        '\0' <= c <= '\u{7f}',
{
}

/// ASCII only: what [`json::Json::parse`] takes for a document holds no
/// other character.
pub proof fn parsed_text_is_ascii(s: Seq<char>)
    ensures
        json::document(s, false) is Some ==> is_ascii_chars(s),
{
    let t = json::after_blanks(s);
    lemma_blanks_clean(s);
    lemma_value_clean(t);
    if let Some((v, rest)) = json::value_at(t, false) {
        lemma_clean_add(s, t, rest);
        lemma_blanks_clean(rest);
        lemma_clean_add(s, rest, json::after_blanks(rest));
        if json::document(s, false) is Some {
            assert forall|i: int| 0 <= i < s.len() implies '\0' <= #[trigger] s[i] <= '\u{7f}' by {
                lemma_ascii_char(s[i]);
            }
        }
    }
}

} // verus!
