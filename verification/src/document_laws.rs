//! What documents say, character by character: how JSON values are written
//! and read, whatever reads them back.
use crate::decimal;
use crate::ieee;
use crate::ieee::{Binary64, HIDDEN_64, TOP_64};
use crate::json;
use crate::json::{Json, JsonView};
use crate::json_laws;
use crate::number;
use crate::numeral_laws;
use crate::sidecar;
use crate::text;
use vstd::arithmetic::div_mod::*;
use vstd::arithmetic::mul::*;
use vstd::arithmetic::power::*;
use vstd::arithmetic::power2::*;
use vstd::prelude::*;
use vstd::string::*;

verus! {

// ---------------------------------------------------------------------
// Strings, written.
// ---------------------------------------------------------------------
/// A hexadecimal digit, letters in lower case.
pub open spec fn is_lower_hex(c: char) -> bool {
    '0' <= c <= '9' || 'a' <= c <= 'f'
}

/// What it is worth.
pub open spec fn lower_worth(c: char) -> int {
    if c <= '9' {
        c as int - 48
    } else {
        c as int - 87
    }
}

/// An escape by number: `\u` and four digits that are worth `v`.
pub open spec fn escapes_unit(e: Seq<char>, v: int) -> bool {
    &&& e.len() == 6
    &&& e[0] == '\\' && e[1] == 'u'
    &&& is_lower_hex(e[2]) && is_lower_hex(e[3]) && is_lower_hex(e[4]) && is_lower_hex(e[5])
    &&& 4096 * lower_worth(e[2]) + 256 * lower_worth(e[3]) + 16 * lower_worth(e[4]) + lower_worth(
        e[5],
    ) == v
}

proof fn lemma_escapes_unit(v: int)
    requires
        0 <= v < 0x1_0000,
    ensures
        escapes_unit(text::unicode_escape(v), v),
{
    let a = v / 16;
    let b = v / 256;
    let c = v / 4096;
    assert(v == 16 * a + v % 16 && a == 16 * b + a % 16 && b == 16 * c + b % 16 && 0 <= c < 16);
    lemma_lower(c);
    lemma_lower(b % 16);
    lemma_lower(a % 16);
    lemma_lower(v % 16);
}

proof fn lemma_lower(d: int)
    requires
        0 <= d < 16,
    ensures
        is_lower_hex(text::lower_digit(d)),
        lower_worth(text::lower_digit(d)) == d,
{
}

/// How a document writes each character of a string: what has a short escape
/// by its letter, other ASCII from the space on as itself, and all else by
/// number, in two code units where one is not enough.
pub proof fn characters_are_written(c: char)
    ensures
        ({
            let e = json::escape(c);
            let v = c as int;
            &&& c == '"' ==> e == seq!['\\', '"']
            &&& c == '\\' ==> e == seq!['\\', '\\']
            &&& c == '\n' ==> e == seq!['\\', 'n']
            &&& c == '\t' ==> e == seq!['\\', 't']
            &&& c == '\r' ==> e == seq!['\\', 'r']
            &&& ' ' <= c <= '\u{7f}' && c != '"' && c != '\\' ==> e == seq![c]
            &&& (c as u32) < 0x20 && c != '\n' && c != '\t' && c != '\r' ==> escapes_unit(e, v)
            &&& 0x80 <= v <= 0xFFFF ==> escapes_unit(e, v)
            &&& v > 0xFFFF ==> {
                let high = e.take(6);
                let low = e.skip(6);
                let h = 4096 * lower_worth(high[2]) + 256 * lower_worth(high[3]) + 16 * lower_worth(
                    high[4],
                ) + lower_worth(high[5]);
                let l = 4096 * lower_worth(low[2]) + 256 * lower_worth(low[3]) + 16 * lower_worth(
                    low[4],
                ) + lower_worth(low[5]);
                &&& e.len() == 12
                &&& escapes_unit(high, h) && 0xD800 <= h < 0xDC00
                &&& escapes_unit(low, l) && 0xDC00 <= l < 0xE000
                &&& v == 0x1_0000 + 0x400 * (h - 0xD800) + (l - 0xDC00)
            }
        }),
{
    let v = c as int;
    if v <= 0xFFFF {
        lemma_escapes_unit(v);
    } else {
        lemma_escapes_unit(json::high_surrogate(c));
        lemma_escapes_unit(json::low_surrogate(c));
        let e = json::escape(c);
        assert(e.take(6) =~= text::unicode_escape(json::high_surrogate(c)));
        assert(e.skip(6) =~= text::unicode_escape(json::low_surrogate(c)));
    }
}

/// How a sidecar's document writes each character of a string: quotes and
/// backslashes behind a backslash, control characters by number, and all
/// else as itself.
pub proof fn sidecar_characters_are_written(c: char)
    ensures
        ({
            let e = sidecar::escape(c);
            &&& c == '"' ==> e == seq!['\\', '"']
            &&& c == '\\' ==> e == seq!['\\', '\\']
            &&& (c as u32) < 0x20 ==> escapes_unit(e, c as int)
            &&& c >= ' ' && c != '"' && c != '\\' ==> e == seq![c]
        }),
{
    if (c as u32) < 0x20 {
        lemma_escapes_unit(c as int);
    }
}

/// Strings are written character by character, in their order, between
/// quotes.
pub proof fn strings_are_written_in_order(s: Seq<char>, t: Seq<char>, c: char)
    ensures
        json::escaped(s + t) == json::escaped(s) + json::escaped(t),
        json::escaped(seq![c]) == json::escape(c),
        json::escaped(Seq::empty()).len() == 0,
        json::quoted(s) == seq!['"'] + json::escaped(s) + seq!['"'],
        sidecar::escaped(s + t) == sidecar::escaped(s) + sidecar::escaped(t),
        sidecar::escaped(seq![c]) == sidecar::escape(c),
        sidecar::escaped(Seq::empty()).len() == 0,
        sidecar::string_text(s) == seq!['"'] + sidecar::escaped(s) + seq!['"'],
    decreases s.len(),
{
    let one = seq![c];
    assert(one.skip(1) =~= Seq::empty());
    assert(json::escaped(one) =~= json::escape(c) + json::escaped(Seq::empty()));
    assert(json::escaped(one) =~= json::escape(c));
    assert(sidecar::escaped(one) =~= sidecar::escape(c) + sidecar::escaped(Seq::empty()));
    assert(sidecar::escaped(one) =~= sidecar::escape(c));
    if s.len() == 0 {
        assert(s + t =~= t);
        assert(json::escaped(s) + json::escaped(t) =~= json::escaped(t));
        assert(sidecar::escaped(s) + sidecar::escaped(t) =~= sidecar::escaped(t));
    } else {
        strings_are_written_in_order(s.skip(1), t, c);
        assert((s + t).skip(1) =~= s.skip(1) + t);
        assert((s + t)[0] == s[0]);
        assert(json::escaped(s + t) =~= json::escaped(s) + json::escaped(t));
        assert(sidecar::escaped(s + t) =~= sidecar::escaped(s) + sidecar::escaped(t));
    }
}

// ---------------------------------------------------------------------
// Values, written.
// ---------------------------------------------------------------------
/// Lines with a comma and a line break between them.
pub open spec fn comma_lines(lines: Seq<Seq<char>>) -> Seq<char>
    decreases lines.len(),
{
    if lines.len() == 0 {
        Seq::empty()
    } else if lines.len() == 1 {
        lines[0]
    } else {
        lines[0] + seq![',', '\n'] + comma_lines(lines.skip(1))
    }
}

proof fn lemma_item_lines(a: Seq<JsonView>, pad: Seq<char>)
    requires
        a.len() > 0,
    ensures
        json::item_lines(a, pad) == comma_lines(
            Seq::new(a.len(), |i: int| pad + json::pretty(a[i], pad)),
        ) + seq!['\n'],
    decreases a.len(),
{
    let lines = Seq::new(a.len(), |i: int| pad + json::pretty(a[i], pad));
    let more = a.skip(1);
    if a.len() == 1 {
        assert(json::item_lines(more, pad) =~= Seq::empty());
        assert(json::item_lines(a, pad) =~= lines[0] + seq!['\n']);
    } else {
        lemma_item_lines(more, pad);
        assert(lines.skip(1) =~= Seq::new(more.len(), |i: int| pad + json::pretty(more[i], pad)));
        assert(json::item_lines(a, pad) =~= comma_lines(lines) + seq!['\n']);
    }
}

proof fn lemma_member_lines(kv: Seq<(Seq<char>, JsonView)>, pad: Seq<char>)
    requires
        kv.len() > 0,
    ensures
        json::member_lines(kv, pad) == comma_lines(
            Seq::new(
                kv.len(),
                |i: int|
                    pad + json::quoted(kv[i].0) + seq![':', ' '] + json::pretty(kv[i].1, pad),
            ),
        ) + seq!['\n'],
    decreases kv.len(),
{
    let lines = Seq::new(
        kv.len(),
        |i: int| pad + json::quoted(kv[i].0) + seq![':', ' '] + json::pretty(kv[i].1, pad),
    );
    let more = kv.skip(1);
    if kv.len() == 1 {
        assert(json::member_lines(more, pad) =~= Seq::empty());
        assert(json::member_lines(kv, pad) =~= lines[0] + seq!['\n']);
    } else {
        lemma_member_lines(more, pad);
        assert(lines.skip(1) =~= Seq::new(
            more.len(),
            |i: int| pad + json::quoted(more[i].0) + seq![':', ' '] + json::pretty(more[i].1, pad),
        ));
        assert(json::member_lines(kv, pad) =~= comma_lines(lines) + seq!['\n']);
    }
}

/// How each value is written: words; strings in quotes; the items of an array
/// and the members of an object in their order, one a line, two spaces
/// further in, with commas between them.
pub proof fn values_are_written(
    s: Seq<char>,
    a: Seq<JsonView>,
    kv: Seq<(Seq<char>, JsonView)>,
    pad: Seq<char>,
)
    ensures
        json::pretty(JsonView::Null, pad) == "null"@,
        json::pretty(JsonView::Bool(true), pad) == "true"@,
        json::pretty(JsonView::Bool(false), pad) == "false"@,
        json::pretty(JsonView::Str(s), pad) == json::quoted(s),
        a.len() == 0 ==> json::pretty(JsonView::Arr(a), pad) == seq!['[', ']'],
        kv.len() == 0 ==> json::pretty(JsonView::Obj(kv), pad) == seq!['{', '}'],
        ({
            let inner = pad + seq![' ', ' '];
            a.len() > 0 ==> json::pretty(JsonView::Arr(a), pad) == seq!['[', '\n'] + comma_lines(
                Seq::new(a.len(), |i: int| inner + json::pretty(a[i], inner)),
            ) + seq!['\n'] + pad + seq![']']
        }),
        ({
            let inner = pad + seq![' ', ' '];
            kv.len() > 0 ==> json::pretty(JsonView::Obj(kv), pad) == seq!['{', '\n'] + comma_lines(
                Seq::new(
                    kv.len(),
                    |i: int|
                        inner + json::quoted(kv[i].0) + seq![':', ' '] + json::pretty(
                            kv[i].1,
                            inner,
                        ),
                ),
            ) + seq!['\n'] + pad + seq!['}']
        }),
{
    reveal_strlit("null");
    reveal_strlit("true");
    reveal_strlit("false");
    assert("null"@ =~= seq!['n', 'u', 'l', 'l']);
    assert("true"@ =~= seq!['t', 'r', 'u', 'e']);
    assert("false"@ =~= seq!['f', 'a', 'l', 's', 'e']);
    let inner = pad + seq![' ', ' '];
    if a.len() > 0 {
        lemma_item_lines(a, inner);
        let x = comma_lines(Seq::new(a.len(), |i: int| inner + json::pretty(a[i], inner)));
        assert(seq!['[', '\n'] + (x + seq!['\n']) + pad + seq![']'] =~= seq!['[', '\n'] + x + seq![
            '\n',
        ] + pad + seq![']']);
    }
    if kv.len() > 0 {
        lemma_member_lines(kv, inner);
        let x = comma_lines(
            Seq::new(
                kv.len(),
                |i: int|
                    inner + json::quoted(kv[i].0) + seq![':', ' '] + json::pretty(kv[i].1, inner),
            ),
        );
        assert(seq!['{', '\n'] + (x + seq!['\n']) + pad + seq!['}'] =~= seq!['{', '\n'] + x + seq![
            '\n',
        ] + pad + seq!['}']);
    }
}

/// Whole numbers below nine quadrillion are written without a point, as a
/// minus sign where they are negative and the digits of their size.
pub proof fn whole_numbers_are_written(n: Binary64, v: nat)
    requires
        n.finite(),
        ieee::units_64(n.magnitude()) == v * ieee::one_64(),
        v < 9_000_000_000_000_000,
    ensures
        ({
            let t = json::number_text(n);
            &&& !n.negative() || v == 0 ==> numeral_laws::says_shortly(t, 10, v as int)
            &&& n.negative() && v > 0 ==> t[0] == '-' && numeral_laws::says_shortly(
                t.skip(1),
                10,
                v as int,
            )
        }),
{
    let one = ieee::one_64();
    lemma_pow2_pos(1074);
    lemma_mod_multiples_basic(v as int, one as int);
    lemma_div_by_multiple(v as int, one as int);
    numeral_laws::signed_numerals_say_their_number(
        if n.negative() {
            -(v as int)
        } else {
            v as int
        },
    );
}

// ---------------------------------------------------------------------
// Numbers, read.
// ---------------------------------------------------------------------
/// Text of decimal digits.
pub open spec fn digits(s: Seq<char>) -> bool {
    forall|i: int| 0 <= i < s.len() ==> '0' <= #[trigger] s[i] <= '9'
}

proof fn lemma_spelled_total(s: Seq<char>)
    requires
        digits(s),
    ensures
        number::spelled(json::octets(s)) == numeral_laws::total(s, 10),
    decreases s.len(),
{
    if s.len() > 0 {
        let t = s.drop_last();
        assert forall|i: int| 0 <= i < t.len() implies '0' <= #[trigger] t[i] <= '9' by {
            assert(t[i] == s[i]);
        }
        lemma_spelled_total(t);
        assert(json::octets(s).drop_last() =~= json::octets(t));
        assert(json::octets(s).last() == s.last() as u8);
        assert('0' <= s[s.len() - 1] <= '9');
    }
}

proof fn lemma_all_digits(s: Seq<char>)
    requires
        digits(s),
        s.len() > 0,
    ensures
        number::all_digits(json::octets(s)) == Some(numeral_laws::total(s, 10) as nat),
        numeral_laws::total(s, 10) >= 0,
{
    let b = json::octets(s);
    lemma_spelled_total(s);
    number::lemma_leading_is(b, b.len());
}

/// The exponent of a numeral, as text.
spec fn power_text(exponent: Seq<char>, down: bool) -> Seq<char> {
    if exponent.len() > 0 && down {
        seq!['e', '-'] + exponent
    } else if exponent.len() > 0 {
        seq!['e'] + exponent
    } else {
        Seq::empty()
    }
}

/// The digits behind the point, as text.
spec fn point_text(fraction: Seq<char>) -> Seq<char> {
    if fraction.len() > 0 {
        seq!['.'] + fraction
    } else {
        Seq::empty()
    }
}

proof fn lemma_exponent_read(exponent: Seq<char>, down: bool)
    requires
        digits(exponent),
    ensures
        ({
            let x = numeral_laws::total(exponent, 10);
            &&& x >= 0
            &&& number::exponent_part(json::octets(power_text(exponent, down))) == Some(
                if down {
                    -x
                } else {
                    x
                },
            )
        }),
{
    let power = power_text(exponent, down);
    let rest = json::octets(power);
    if exponent.len() > 0 {
        lemma_all_digits(exponent);
        assert(rest[0] == 101);
        let u = rest.skip(1);
        if down {
            assert(u[0] == 45);
            assert(u.skip(1) =~= json::octets(exponent));
        } else {
            assert(u =~= json::octets(exponent));
            assert('0' <= exponent[0] <= '9');
            assert(u[0] == exponent[0] as u8);
        }
    }
}

proof fn lemma_unsigned_read(whole: Seq<char>, fraction: Seq<char>, exponent: Seq<char>, down: bool)
    requires
        digits(whole) && whole.len() > 0,
        digits(fraction),
        digits(exponent),
    ensures
        ({
            let x = numeral_laws::total(exponent, 10);
            let c = numeral_laws::total(whole + fraction, 10);
            let s = whole + point_text(fraction) + power_text(exponent, down);
            &&& c >= 0
            &&& number::unsigned_part(json::octets(s)) == Some(
                (
                    c as nat,
                    (if down {
                        -x
                    } else {
                        x
                    }) - fraction.len(),
                ),
            )
        }),
{
    let point = point_text(fraction);
    let power = power_text(exponent, down);
    let body = whole + point + power;
    let c = json::octets(body);
    lemma_exponent_read(exponent, down);
    assert(digits(whole + fraction)) by {
        let w = whole + fraction;
        assert forall|k: int| 0 <= k < w.len() implies '0' <= #[trigger] w[k] <= '9' by {
            if k < whole.len() {
                assert(w[k] == whole[k]);
            } else {
                assert(w[k] == fraction[k - whole.len()]);
            }
        }
    }
    lemma_spelled_total(whole + fraction);
    let i = whole.len() as int;
    assert forall|k: int| 0 <= k < i implies number::is_digit(#[trigger] c[k]) by {
        assert(body[k] == whole[k]);
    }
    if body.len() > i {
        assert(c[i] == body[i] as u8);
        if fraction.len() > 0 {
            assert(body[i] == point[0]);
        } else {
            assert(body[i] == power[0]);
        }
    }
    number::lemma_leading_is(c, i as nat);
    let j = fraction.len() as int;
    let rest = json::octets(power);
    if j > 0 {
        let after = c.skip(i + 1);
        assert forall|k: int| 0 <= k < j implies number::is_digit(#[trigger] after[k]) by {
            assert(body[i + 1 + k] == fraction[k]);
        }
        if after.len() > j {
            assert(after[j] == body[i + 1 + j] as u8);
            assert(body[i + 1 + j] == power[0]);
        }
        number::lemma_leading_is(after, j as nat);
        assert(c[i] == 46);
        assert(c.take(i) + c.subrange(i + 1, i + 1 + j) =~= json::octets(whole + fraction));
        assert(c.skip(i + 1 + j) =~= rest);
    } else {
        assert(fraction =~= Seq::empty());
        assert(c.take(i) =~= json::octets(whole + fraction));
        assert(c.skip(i) =~= rest);
    }
}

/// How numbers are read: a minus sign where there is one, digits, a point and
/// digits where there are some, and an exponent where there is one. The digits
/// are worth what they are by their places; each behind the point is a tenth
/// of that, and the exponent moves the point. The double is the nearest.
pub proof fn numbers_are_read_by_place(
    negative: bool,
    whole: Seq<char>,
    fraction: Seq<char>,
    exponent: Seq<char>,
    down: bool,
)
    requires
        digits(whole) && whole.len() > 0,
        digits(fraction),
        digits(exponent),
    ensures
        ({
            let sign = if negative {
                seq!['-']
            } else {
                Seq::empty()
            };
            let point = if fraction.len() > 0 {
                seq!['.'] + fraction
            } else {
                Seq::empty()
            };
            let power = if exponent.len() > 0 && down {
                seq!['e', '-'] + exponent
            } else if exponent.len() > 0 {
                seq!['e'] + exponent
            } else {
                Seq::empty()
            };
            let x = numeral_laws::total(exponent, 10);
            let e = (if down {
                -x
            } else {
                x
            }) - fraction.len();
            let c = numeral_laws::total(whole + fraction, 10);
            let up = if e >= 0 {
                pow(10, e as nat)
            } else {
                1
            };
            let by = if e < 0 {
                pow(10, (-e) as nat)
            } else {
                1
            };
            &&& c >= 0 && x >= 0 && up > 0 && by > 0
            &&& number::read_number(json::octets(sign + whole + point + power)) == Some(
                Binary64::signed(
                    negative,
                    ieee::nearest(
                        HIDDEN_64 as nat,
                        TOP_64 as nat,
                        (c as nat) * (up as nat) * ieee::one_64(),
                        by as nat,
                    ),
                ),
            )
        }),
{
    let sign = if negative {
        seq!['-']
    } else {
        Seq::<char>::empty()
    };
    let body = whole + point_text(fraction) + power_text(exponent, down);
    let all = sign + whole + point_text(fraction) + power_text(exponent, down);
    let b = json::octets(all);
    lemma_exponent_read(exponent, down);
    lemma_unsigned_read(whole, fraction, exponent, down);
    if negative {
        assert(b[0] == 45);
        assert(b.skip(1) =~= json::octets(body));
    } else {
        assert(all =~= body);
        assert('0' <= whole[0] <= '9');
        assert(b[0] == whole[0] as u8);
    }
    let x = numeral_laws::total(exponent, 10);
    let e = (if down {
        -x
    } else {
        x
    }) - fraction.len();
    if e >= 0 {
        lemma_pow_positive(10, e as nat);
    } else {
        lemma_pow_positive(10, (-e) as nat);
    }
    lemma_pow0(10);
}

/// An exponent is read alike behind a letter of either case, and with a plus
/// sign or without one; a minus sign turns it round. Anything but digits there
/// is no number.
pub proof fn exponents_are_read(s: Seq<char>, e: char)
    requires
        e == 'e' || e == 'E',
    ensures
        digits(s) && s.len() > 0 ==> {
            let x = numeral_laws::total(s, 10);
            &&& x >= 0
            &&& number::exponent_part(json::octets(seq![e] + s)) == Some(x)
            &&& number::exponent_part(json::octets(seq![e, '+'] + s)) == Some(x)
            &&& number::exponent_part(json::octets(seq![e, '-'] + s)) == Some(-x)
        },
        s.len() == 0 ==> {
            &&& number::exponent_part(json::octets(seq![e] + s)) is None
            &&& number::exponent_part(json::octets(seq![e, '+'] + s)) is None
            &&& number::exponent_part(json::octets(seq![e, '-'] + s)) is None
        },
{
    let a = json::octets(seq![e] + s);
    let b = json::octets(seq![e, '+'] + s);
    let c = json::octets(seq![e, '-'] + s);
    assert(a[0] == e as u8 && b[0] == e as u8 && c[0] == e as u8);
    assert(a.skip(1) =~= json::octets(s));
    assert(b.skip(1)[0] == 43 && b.skip(1).skip(1) =~= json::octets(s));
    assert(c.skip(1)[0] == 45 && c.skip(1).skip(1) =~= json::octets(s));
    if digits(s) && s.len() > 0 {
        lemma_all_digits(s);
        assert('0' <= s[0] <= '9');
        assert(json::octets(s)[0] == s[0] as u8);
    }
}

// ---------------------------------------------------------------------
// Values, read.
// ---------------------------------------------------------------------
/// How the characters of a string are read, whatever follows: an escape by
/// letter is the character of its letter, and every other character from the
/// space on is itself.
pub proof fn characters_are_read(c: char, s: Seq<char>, wide: bool)
    ensures
        json::string_at(seq!['"'] + s, wide) == Some((Seq::<char>::empty(), s)),
        json::string_at(seq!['\\', '"'] + s, wide) == preceded('"', json::string_at(s, wide)),
        json::string_at(seq!['\\', '\\'] + s, wide) == preceded('\\', json::string_at(s, wide)),
        json::string_at(seq!['\\', '/'] + s, wide) == preceded('/', json::string_at(s, wide)),
        json::string_at(seq!['\\', 'n'] + s, wide) == preceded('\n', json::string_at(s, wide)),
        json::string_at(seq!['\\', 't'] + s, wide) == preceded('\t', json::string_at(s, wide)),
        json::string_at(seq!['\\', 'r'] + s, wide) == preceded('\r', json::string_at(s, wide)),
        (c as u32) < 0x20 ==> json::string_at(seq![c] + s, wide) is None,
        c > '\u{7f}' && !wide ==> json::string_at(seq![c] + s, wide) is None,
        c >= ' ' && c != '"' && c != '\\' && (wide || c <= '\u{7f}') ==> json::string_at(
            seq![c] + s,
            wide,
        ) == preceded(c, json::string_at(s, wide)),
{
    assert((seq!['"'] + s).skip(1) =~= s);
    assert((seq!['\\', '"'] + s).skip(2) =~= s);
    assert((seq!['\\', '\\'] + s).skip(2) =~= s);
    assert((seq!['\\', '/'] + s).skip(2) =~= s);
    assert((seq!['\\', 'n'] + s).skip(2) =~= s);
    assert((seq!['\\', 't'] + s).skip(2) =~= s);
    assert((seq!['\\', 'r'] + s).skip(2) =~= s);
    assert((seq![c] + s).skip(1) =~= s);
}

/// A hexadecimal digit, letters in either case.
pub open spec fn is_hex(c: char) -> bool {
    '0' <= c <= '9' || 'a' <= c <= 'f' || 'A' <= c <= 'F'
}

/// What it is worth.
pub open spec fn hex_worth(c: char) -> int {
    if c <= '9' {
        c as int - 48
    } else if c <= 'F' {
        c as int - 55
    } else {
        c as int - 87
    }
}

/// What four of them are worth together.
pub open spec fn unit_worth(d: Seq<char>) -> int {
    4096 * hex_worth(d[0]) + 256 * hex_worth(d[1]) + 16 * hex_worth(d[2]) + hex_worth(d[3])
}

proof fn lemma_hex_digit(c: char)
    requires
        is_hex(c),
    ensures
        text::digit_value(c, 16) == Some(hex_worth(c) as nat),
        0 <= hex_worth(c) < 16,
{
}

proof fn lemma_unit_read(d: Seq<char>, s: Seq<char>)
    requires
        d.len() == 4,
        is_hex(d[0]) && is_hex(d[1]) && is_hex(d[2]) && is_hex(d[3]),
    ensures
        json::code_unit(d + s) == Some(unit_worth(d) as nat),
        0 <= unit_worth(d) < 0x1_0000,
{
    lemma_hex_digit(d[0]);
    lemma_hex_digit(d[1]);
    lemma_hex_digit(d[2]);
    lemma_hex_digit(d[3]);
    let t = d + s;
    assert(t[0] == d[0] && t[1] == d[1] && t[2] == d[2] && t[3] == d[3]);
}

/// How an escape by number is read: four hexadecimal digits in either case are
/// the character of what they are worth, or two such escapes are, the first of
/// a high surrogate and the second of a low one. A surrogate by itself is no
/// character.
pub proof fn escapes_by_number_are_read(d: Seq<char>, e: Seq<char>, s: Seq<char>, wide: bool)
    requires
        d.len() == 4,
        is_hex(d[0]) && is_hex(d[1]) && is_hex(d[2]) && is_hex(d[3]),
        e.len() == 4,
        is_hex(e[0]) && is_hex(e[1]) && is_hex(e[2]) && is_hex(e[3]),
    ensures
        ({
            let v = unit_worth(d);
            let w = unit_worth(e);
            let one = seq!['\\', 'u'] + d + s;
            let two = seq!['\\', 'u'] + d + seq!['\\', 'u'] + e + s;
            &&& v < 0xD800 || v >= 0xE000 ==> json::string_at(one, wide) == preceded(
                v as char,
                json::string_at(s, wide),
            )
            &&& 0xDC00 <= v < 0xE000 ==> json::string_at(one, wide) is None
            &&& 0xD800 <= v < 0xDC00 && (s.len() < 2 || s[0] != '\\' || s[1] != 'u')
                ==> json::string_at(one, wide) is None
            &&& 0xD800 <= v < 0xDC00 && 0xDC00 <= w < 0xE000 ==> json::string_at(two, wide)
                == preceded(
                (0x1_0000 + 0x400 * (v - 0xD800) + (w - 0xDC00)) as char,
                json::string_at(s, wide),
            )
            &&& 0xD800 <= v < 0xDC00 && !(0xDC00 <= w < 0xE000) ==> json::string_at(two, wide)
                is None
        }),
{
    let v = unit_worth(d);
    let w = unit_worth(e);
    let one = seq!['\\', 'u'] + d + s;
    let tail = seq!['\\', 'u'] + e + s;
    let two = seq!['\\', 'u'] + d + seq!['\\', 'u'] + e + s;
    lemma_unit_read(d, s);
    lemma_unit_read(d, tail);
    lemma_unit_read(e, s);
    assert(one.skip(2) =~= d + s);
    assert(one.skip(6) =~= s);
    assert(s.len() >= 2 ==> one[6] == s[0] && one[7] == s[1]);
    assert(two.skip(2) =~= d + tail);
    assert(two.skip(8) =~= e + s);
    assert(two.skip(12) =~= s);
    assert(two[6] == '\\' && two[7] == 'u');
    assert(one[0] == '\\' && one[1] == 'u' && two[0] == '\\' && two[1] == 'u');
}

/// What was read, with a character before it.
pub open spec fn preceded(c: char, r: Option<(Seq<char>, Seq<char>)>) -> Option<
    (Seq<char>, Seq<char>),
> {
    match r {
        Some((t, rest)) => Some((seq![c] + t, rest)),
        None => None,
    }
}

/// How words and strings are read, whatever follows.
pub proof fn words_are_read(rest: Seq<char>, wide: bool)
    ensures
        json::value_at("null"@ + rest, wide) == Some((JsonView::Null, rest)),
        json::value_at("true"@ + rest, wide) == Some((JsonView::Bool(true), rest)),
        json::value_at("false"@ + rest, wide) == Some((JsonView::Bool(false), rest)),
        json::value_at(seq!['"'] + rest, wide) == match json::string_at(rest, wide) {
            Some((t, more)) => Some((JsonView::Str(t), more)),
            None => None,
        },
        json::value_at(seq!['[', ']'] + rest, wide) == Some(
            (JsonView::Arr(Seq::empty()), rest),
        ),
        json::value_at(seq!['{', '}'] + rest, wide) == Some(
            (JsonView::Obj(Seq::empty()), rest),
        ),
{
    reveal_strlit("null");
    reveal_strlit("true");
    reveal_strlit("false");
    let a = "null"@ + rest;
    json::lemma_value_rule(a, wide);
    assert(a.take(4) =~= json::word_null());
    assert(a.skip(4) =~= rest);
    let b = "true"@ + rest;
    json::lemma_value_rule(b, wide);
    assert(b.take(4) =~= json::word_true());
    assert(b.skip(4) =~= rest);
    let c = "false"@ + rest;
    json::lemma_value_rule(c, wide);
    assert(c.take(5) =~= json::word_false());
    assert(c.skip(5) =~= rest);
    let d = seq!['"'] + rest;
    json::lemma_value_rule(d, wide);
    assert(d.skip(1) =~= rest);
    let e = seq!['[', ']'] + rest;
    json::lemma_value_rule(e, wide);
    assert(e.skip(1) =~= seq![']'] + rest);
    assert((seq![']'] + rest).skip(1) =~= rest);
    let f = seq!['{', '}'] + rest;
    json::lemma_value_rule(f, wide);
    assert(f.skip(1) =~= seq!['}'] + rest);
    assert((seq!['}'] + rest).skip(1) =~= rest);
}

/// How arrays are read: the item that is read first stands first, and behind
/// a comma come the items of the array that the rest would be.
pub proof fn arrays_are_read_in_order(item: Seq<char>, v: JsonView, more: Seq<char>, wide: bool)
    requires
        item.len() > 0,
        !json::is_blank(item[0]),
        item[0] != ']',
        json::value_at(item + seq![','] + more, wide) == Some((v, seq![','] + more)),
        json::value_at(item + seq![']'] + more, wide) == Some((v, seq![']'] + more)),
        !(json::after_blanks(more).len() > 0 && json::after_blanks(more)[0] == ']'),
    ensures
        json::value_at(seq!['['] + item + seq![']'] + more, wide) == Some(
            (JsonView::Arr(seq![v]), more),
        ),
        json::value_at(seq!['['] + item + seq![','] + more, wide) == match json::value_at(
            seq!['['] + more,
            wide,
        ) {
            Some((JsonView::Arr(a), rest)) => Some((JsonView::Arr(seq![v] + a), rest)),
            _ => None,
        },
{
    let x = seq!['['] + item + seq![']'] + more;
    let y = item + seq![']'] + more;
    json::lemma_value_rule(x, wide);
    assert(x.skip(1) =~= y);
    assert(y[0] == item[0]);
    assert(json::after_blanks(y) == y);
    json::lemma_items_rule(y, wide);
    let e = seq![']'] + more;
    assert(json::after_blanks(e) == e);
    assert(e.skip(1) =~= more);
    let p = seq!['['] + item + seq![','] + more;
    let q = item + seq![','] + more;
    json::lemma_value_rule(p, wide);
    assert(p.skip(1) =~= q);
    assert(q[0] == item[0]);
    assert(json::after_blanks(q) == q);
    json::lemma_items_rule(q, wide);
    let f = seq![','] + more;
    assert(json::after_blanks(f) == f);
    assert(f.skip(1) =~= more);
    let r = seq!['['] + more;
    json::lemma_value_rule(r, wide);
    assert(r.skip(1) =~= more);
    json_laws::lemma_opened(more, wide);
}

/// How objects are read: the member that is read first stands first, under
/// its key, and behind a comma come the members of the object that the rest
/// would be.
pub proof fn objects_are_read_in_order(
    key: Seq<char>,
    k: Seq<char>,
    item: Seq<char>,
    v: JsonView,
    more: Seq<char>,
    wide: bool,
)
    requires
        item.len() > 0,
        !json::is_blank(item[0]),
        json::string_at(key + seq![':'] + item + seq![','] + more, wide) == Some(
            (k, seq![':'] + item + seq![','] + more),
        ),
        json::string_at(key + seq![':'] + item + seq!['}'] + more, wide) == Some(
            (k, seq![':'] + item + seq!['}'] + more),
        ),
        json::value_at(item + seq![','] + more, wide) == Some((v, seq![','] + more)),
        json::value_at(item + seq!['}'] + more, wide) == Some((v, seq!['}'] + more)),
        !(json::after_blanks(more).len() > 0 && json::after_blanks(more)[0] == '}'),
    ensures
        json::value_at(seq!['{', '"'] + key + seq![':'] + item + seq!['}'] + more, wide) == Some(
            (JsonView::Obj(seq![(k, v)]), more),
        ),
        json::value_at(seq!['{', '"'] + key + seq![':'] + item + seq![','] + more, wide)
            == match json::value_at(seq!['{'] + more, wide) {
            Some((JsonView::Obj(kv), rest)) => Some((JsonView::Obj(seq![(k, v)] + kv), rest)),
            _ => None,
        },
{
    lemma_one_member(key, k, item, v, '}', more, wide);
    lemma_one_member(key, k, item, v, ',', more, wide);
    let e = seq!['}'] + more;
    assert(json::after_blanks(e) == e);
    assert(e.skip(1) =~= more);
    let f = seq![','] + more;
    assert(json::after_blanks(f) == f);
    assert(f.skip(1) =~= more);
    let r = seq!['{'] + more;
    json::lemma_value_rule(r, wide);
    assert(r.skip(1) =~= more);
    json_laws::lemma_opened(more, wide);
}

proof fn lemma_one_member(
    key: Seq<char>,
    k: Seq<char>,
    item: Seq<char>,
    v: JsonView,
    end: char,
    more: Seq<char>,
    wide: bool,
)
    requires
        item.len() > 0,
        !json::is_blank(item[0]),
        end == ',' || end == '}',
        json::string_at(key + seq![':'] + item + seq![end] + more, wide) == Some(
            (k, seq![':'] + item + seq![end] + more),
        ),
        json::value_at(item + seq![end] + more, wide) == Some((v, seq![end] + more)),
    ensures
        ({
            let x = seq!['{', '"'] + key + seq![':'] + item + seq![end] + more;
            let t = json::after_blanks(seq![end] + more);
            &&& t == seq![end] + more
            &&& json::value_at(x, wide) == json::object_of(
                seq!['"'],
                if end == ',' {
                    json::after_members(seq![(k, v)], json::members_at(more, wide))
                } else {
                    Some((seq![(k, v)], more))
                },
            )
        }),
{
    let x = seq!['{', '"'] + key + seq![':'] + item + seq![end] + more;
    let y = seq!['"'] + (key + seq![':'] + item + seq![end] + more);
    json::lemma_value_rule(x, wide);
    assert(x.skip(1) =~= y);
    assert(json::after_blanks(y) == y);
    assert(y.skip(1) =~= key + seq![':'] + item + seq![end] + more);
    json::lemma_members_rule(y, wide);
    let u = seq![':'] + item + seq![end] + more;
    assert(json::after_blanks(u) == u);
    let w = item + seq![end] + more;
    assert(u.skip(1) =~= w);
    assert(w[0] == item[0]);
    assert(json::after_blanks(w) == w);
    let t = seq![end] + more;
    assert(json::after_blanks(t) == t);
    assert(t.skip(1) =~= more);
}

/// Numerals of the grammar are read, whatever stops them: a minus sign or
/// none; digits, with no zero in front of another; a point with digits behind
/// it, or none; an exponent or none.
#[verifier::spinoff_prover]
pub proof fn numerals_are_read(
    negative: bool,
    whole: Seq<char>,
    fraction: Seq<char>,
    exponent: Seq<char>,
    down: bool,
    rest: Seq<char>,
    wide: bool,
)
    requires
        digits(whole) && whole.len() > 0,
        whole.len() > 1 ==> whole[0] != '0',
        digits(fraction),
        digits(exponent),
        rest.len() == 0 || !(rest[0] == '.' || rest[0] == 'e' || rest[0] == 'E' || rest[0] == '+'
            || rest[0] == '-' || '0' <= rest[0] <= '9'),
    ensures
        ({
            let sign = if negative {
                seq!['-']
            } else {
                Seq::empty()
            };
            let point = if fraction.len() > 0 {
                seq!['.'] + fraction
            } else {
                Seq::empty()
            };
            let power = if exponent.len() > 0 && down {
                seq!['e', '-'] + exponent
            } else if exponent.len() > 0 {
                seq!['e'] + exponent
            } else {
                Seq::empty()
            };
            let t = sign + whole + point + power;
            number::read_number(json::octets(t)) matches Some(n) && json::value_at(t + rest, wide)
                == Some((JsonView::Num(n), rest))
        }),
{
    let t = numeral_text(negative, whole, fraction, exponent, down);
    numbers_are_read_by_place(negative, whole, fraction, exponent, down);
    lemma_numeral_well_formed(negative, whole, fraction, exponent, down);
    lemma_numeral_characters(negative, whole, fraction, exponent, down);
    assert('0' <= whole[0] <= '9');
    let n = number::read_number(json::octets(t))->0;
    lemma_numeral_at(t, n, rest, wide);
}

proof fn lemma_in_numeral_add(a: Seq<char>, b: Seq<char>)
    requires
        forall|k: int| 0 <= k < a.len() ==> json::in_numeral(#[trigger] a[k]),
        forall|k: int| 0 <= k < b.len() ==> json::in_numeral(#[trigger] b[k]),
    ensures
        forall|k: int| 0 <= k < (a + b).len() ==> json::in_numeral(#[trigger] (a + b)[k]),
{
    assert forall|k: int| 0 <= k < (a + b).len() implies json::in_numeral(
        #[trigger] (a + b)[k],
    ) by {
        if k < a.len() {
            assert((a + b)[k] == a[k]);
        } else {
            assert((a + b)[k] == b[k - a.len()]);
        }
    }
}

/// A minus sign, where there is one.
spec fn sign_text(negative: bool) -> Seq<char> {
    if negative {
        seq!['-']
    } else {
        Seq::empty()
    }
}

/// A numeral.
spec fn numeral_text(
    negative: bool,
    whole: Seq<char>,
    fraction: Seq<char>,
    exponent: Seq<char>,
    down: bool,
) -> Seq<char> {
    sign_text(negative) + whole + point_text(fraction) + power_text(exponent, down)
}

/// A numeral is made of the characters of numerals.
proof fn lemma_numeral_characters(
    negative: bool,
    whole: Seq<char>,
    fraction: Seq<char>,
    exponent: Seq<char>,
    down: bool,
)
    requires
        digits(whole),
        digits(fraction),
        digits(exponent),
    ensures
        forall|k: int|
            0 <= k < numeral_text(negative, whole, fraction, exponent, down).len()
                ==> json::in_numeral(
                #[trigger] numeral_text(negative, whole, fraction, exponent, down)[k],
            ),
{
    let sign = sign_text(negative);
    if fraction.len() > 0 {
        lemma_in_numeral_add(seq!['.'], fraction);
    }
    if exponent.len() > 0 && down {
        lemma_in_numeral_add(seq!['e', '-'], exponent);
    } else if exponent.len() > 0 {
        lemma_in_numeral_add(seq!['e'], exponent);
    }
    lemma_in_numeral_add(sign, whole);
    lemma_in_numeral_add(sign + whole, point_text(fraction));
    lemma_in_numeral_add(sign + whole + point_text(fraction), power_text(exponent, down));
}

/// A numeral is well formed.
proof fn lemma_numeral_well_formed(
    negative: bool,
    whole: Seq<char>,
    fraction: Seq<char>,
    exponent: Seq<char>,
    down: bool,
)
    requires
        digits(whole) && whole.len() > 0,
        whole.len() > 1 ==> whole[0] != '0',
        digits(fraction),
        digits(exponent),
    ensures
        number::well_formed(json::octets(numeral_text(negative, whole, fraction, exponent, down))),
        numeral_text(negative, whole, fraction, exponent, down).len() > 0,
        numeral_text(negative, whole, fraction, exponent, down)[0] == if negative {
            '-'
        } else {
            whole[0]
        },
{
    let t = numeral_text(negative, whole, fraction, exponent, down);
    let body = whole + point_text(fraction) + power_text(exponent, down);
    let b = json::octets(t);
    lemma_body_well_formed(whole, fraction, exponent, down);
    assert('0' <= whole[0] <= '9');
    if negative {
        assert(b.skip(1) =~= json::octets(body));
        assert(b[0] == 45);
    } else {
        assert(t =~= body);
        assert(b[0] == whole[0] as u8);
    }
}

/// A numeral is read, whatever stops it.
proof fn lemma_numeral_at(t: Seq<char>, n: Binary64, rest: Seq<char>, wide: bool)
    requires
        t.len() > 0,
        t[0] == '-' || '0' <= t[0] <= '9',
        forall|k: int| 0 <= k < t.len() ==> json::in_numeral(#[trigger] t[k]),
        number::well_formed(json::octets(t)),
        number::read_number(json::octets(t)) == Some(n),
        rest.len() == 0 || !json::in_numeral(rest[0]),
    ensures
        json::value_at(t + rest, wide) == Some((JsonView::Num(n), rest)),
{
    let s = t + rest;
    assert forall|k: int| 0 <= k < t.len() implies json::in_numeral(#[trigger] s[k]) by {
        assert(s[k] == t[k]);
    }
    if rest.len() > 0 {
        assert(s[t.len() as int] == rest[0]);
    }
    json::lemma_numeral_len_is(s, t.len());
    assert(s.take(t.len() as int) =~= t);
    assert(s.skip(t.len() as int) =~= rest);
    json::lemma_value_rule(s, wide);
    assert(s[0] == t[0]);
}

proof fn lemma_body_well_formed(
    whole: Seq<char>,
    fraction: Seq<char>,
    exponent: Seq<char>,
    down: bool,
)
    requires
        digits(whole) && whole.len() > 0,
        whole.len() > 1 ==> whole[0] != '0',
        digits(fraction),
        digits(exponent),
    ensures
        ({
            let c = json::octets(whole + point_text(fraction) + power_text(exponent, down));
            let i = number::leading(c) as int;
            &&& i > 0
            &&& c[0] == 48 ==> i == 1
            &&& number::fraction_part(c.skip(i))
        }),
{
    let point = point_text(fraction);
    let power = power_text(exponent, down);
    let body = whole + point + power;
    let c = json::octets(body);
    lemma_exponent_read(exponent, down);
    let i = whole.len() as int;
    assert forall|k: int| 0 <= k < i implies number::is_digit(#[trigger] c[k]) by {
        assert(body[k] == whole[k]);
    }
    if body.len() > i {
        assert(c[i] == body[i] as u8);
        if fraction.len() > 0 {
            assert(body[i] == point[0]);
        } else {
            assert(body[i] == power[0]);
        }
    }
    number::lemma_leading_is(c, i as nat);
    assert(c[0] == whole[0] as u8);
    assert('0' <= whole[0] <= '9');
    let rest = c.skip(i);
    let j = fraction.len() as int;
    if j > 0 {
        let after = rest.skip(1);
        assert forall|k: int| 0 <= k < j implies number::is_digit(#[trigger] after[k]) by {
            assert(body[i + 1 + k] == fraction[k]);
        }
        if after.len() > j {
            assert(after[j] == body[i + 1 + j] as u8);
            assert(body[i + 1 + j] == power[0]);
        }
        number::lemma_leading_is(after, j as nat);
        assert(rest[0] == 46);
        assert(after.skip(j) =~= json::octets(power));
    } else {
        assert(rest =~= json::octets(power));
    }
}

/// What the grammar refuses: a plus sign or a point in front, a zero in front
/// of another digit, a point without a digit behind it.
pub proof fn other_numerals_are_refused(s: Seq<char>, wide: bool)
    ensures
        s.len() > 0 && (s[0] == '+' || s[0] == '.') ==> json::value_at(s, wide) is None,
        s.len() > 1 && s[0] == '0' && '0' <= s[1] <= '9' ==> json::value_at(s, wide) is None,
        s.len() > 2 && s[0] == '-' && s[1] == '0' && '0' <= s[2] <= '9' ==> json::value_at(s, wide)
            is None,
        s.len() == 1 && s[0] == '-' ==> json::value_at(s, wide) is None,
{
    json::lemma_value_rule(s, wide);
    json::lemma_numeral_len(s);
    let n = json::numeral_len(s) as int;
    let b = json::octets(s.take(n));
    if s.len() > 0 && (s[0] == '+' || s[0] == '.') {
        assert(json::in_numeral(s[0]));
        assert(n > 0) by {
            if n == 0 {
                assert(!json::in_numeral(s[0]));
            }
        }
        assert(b[0] == s[0] as u8);
        number::lemma_leading_is(b, 0);
    } else if s.len() > 1 && s[0] == '0' && '0' <= s[1] <= '9' {
        assert(n > 1) by {
            if n == 0 {
                assert(!json::in_numeral(s[0]));
            } else if n == 1 {
                assert(!json::in_numeral(s[1]));
            }
        }
        assert(b[0] == 48 && b[1] == s[1] as u8);
        number::lemma_leading(b);
        if number::leading(b) == 1 {
            assert(!number::is_digit(b[1]));
        }
    } else if s.len() > 2 && s[0] == '-' && s[1] == '0' && '0' <= s[2] <= '9' {
        assert(n > 2) by {
            if n == 0 {
                assert(!json::in_numeral(s[0]));
            } else if n == 1 {
                assert(!json::in_numeral(s[1]));
            } else if n == 2 {
                assert(!json::in_numeral(s[2]));
            }
        }
        let t = b.skip(1);
        assert(b[0] == 45 && t[0] == 48 && t[1] == s[2] as u8);
        number::lemma_leading(t);
        if number::leading(t) == 1 {
            assert(!number::is_digit(t[1]));
        }
    } else if s.len() == 1 && s[0] == '-' {
        assert(n == 1) by {
            if n == 0 {
                assert(!json::in_numeral(s[0]));
            }
        }
        assert(b[0] == 45);
        assert(b.skip(1) =~= Seq::empty());
    }
}

/// A whole document is one value with nothing but blanks around it.
pub proof fn documents_are_one_value(s: Seq<char>, v: JsonView, rest: Seq<char>, wide: bool)
    requires
        json::value_at(s, wide) == Some((v, rest)),
        s.len() > 0,
        !(s[0] == ' ' || s[0] == '\t' || s[0] == '\n' || s[0] == '\r'),
    ensures
        (forall|i: int|
            0 <= i < rest.len() ==> #[trigger] rest[i] == ' ' || rest[i] == '\t' || rest[i] == '\n'
                || rest[i] == '\r') ==> json::document(s, wide) == Some(v),
        (exists|i: int|
            0 <= i < rest.len() && !(#[trigger] rest[i] == ' ' || rest[i] == '\t' || rest[i]
                == '\n' || rest[i] == '\r')) ==> json::document(s, wide) is None,
        json::document(Seq::empty(), wide) is None,
{
    assert(json::after_blanks(s) == s);
    json::lemma_after_blanks(rest);
    let t = json::after_blanks(rest);
    if t.len() > 0 {
        let k = rest.len() - t.len();
        assert(t[0] == rest[k]);
    } else {
        assert forall|i: int| 0 <= i < rest.len() implies #[trigger] rest[i] == ' ' || rest[i]
            == '\t' || rest[i] == '\n' || rest[i] == '\r' by {
            assert(json::is_blank(rest[i]));
        }
    }
    json::lemma_value_rule(Seq::empty(), wide);
}

/// Blanks between tokens are spaces, tabs and line ends, and nothing else.
pub proof fn blanks_are_skipped(c: char, s: Seq<char>)
    ensures
        c == ' ' || c == '\t' || c == '\n' || c == '\r' ==> json::after_blanks(seq![c] + s)
            == json::after_blanks(s),
        c != ' ' && c != '\t' && c != '\n' && c != '\r' ==> json::after_blanks(seq![c] + s)
            == seq![c] + s,
{
    assert((seq![c] + s).skip(1) =~= s);
}

// ---------------------------------------------------------------------
// Documents, asked.
// ---------------------------------------------------------------------
/// A member is the first of its key, and only an object has members.
pub proof fn the_first_member_answers(kv: Seq<(Seq<char>, JsonView)>, key: Seq<char>, i: int)
    ensures
        0 <= i < kv.len() && kv[i].0 == key && (forall|k: int|
            0 <= k < i ==> #[trigger] kv[k].0 != key) ==> JsonView::Obj(kv).get(key) == Some(
            kv[i].1,
        ),
        (forall|k: int| 0 <= k < kv.len() ==> #[trigger] kv[k].0 != key) ==> JsonView::Obj(kv).get(
            key,
        ) is None,
    decreases kv.len(),
{
    if kv.len() > 0 {
        let t = kv.skip(1);
        the_first_member_answers(t, key, i - 1);
        if forall|k: int| 0 <= k < kv.len() ==> #[trigger] kv[k].0 != key {
            assert(kv[0].0 != key);
            assert forall|k: int| 0 <= k < t.len() implies #[trigger] t[k].0 != key by {
                assert(t[k] == kv[k + 1]);
            }
        }
        if 0 < i < kv.len() && kv[i].0 == key && (forall|k: int|
            0 <= k < i ==> #[trigger] kv[k].0 != key) {
            assert(kv[0].0 != key);
            assert(t[i - 1] == kv[i]);
            assert forall|k: int| 0 <= k < i - 1 implies #[trigger] t[k].0 != key by {
                assert(t[k] == kv[k + 1]);
            }
        }
    }
}

/// An integer accessor gives the integer nearest to the number, of two that
/// are equally near the one further from zero, and the nearest end of its
/// range for what lies outside.
pub proof fn accessors_round_to_nearest(n: Binary64, lo: int, hi: int)
    requires
        n.finite(),
        lo <= 0 <= hi,
    ensures
        ({
            let u = ieee::units_64(n.magnitude()) as int;
            let one = ieee::one_64() as int;
            let r = n.rounded(lo, hi);
            &&& lo <= r <= hi
            &&& !n.negative() && r < hi ==> r >= 0 && 2 * (r * one) - one <= 2 * u && 2 * u < 2 * (r
                * one) + one
            &&& !n.negative() && r == hi ==> 2 * (hi * one) - one <= 2 * u
            &&& n.negative() && r > lo ==> r <= 0 && 2 * (-r * one) - one <= 2 * u && 2 * u < 2 * (
            -r * one) + one
            &&& n.negative() && r == lo ==> 2 * (-lo * one) - one <= 2 * u
        }),
{
    let u = ieee::units_64(n.magnitude()) as int;
    let one = ieee::one_64() as int;
    lemma_pow2_pos(1074);
    let q = (2 * u + one) / (2 * one);
    lemma_fundamental_div_mod(2 * u + one, 2 * one);
    lemma_mod_bound(2 * u + one, 2 * one);
    assert((2 * one) * q == 2 * (q * one)) by (nonlinear_arith);
    lemma_div_pos_is_pos(2 * u + one, 2 * one);
    if !n.negative() && q > hi {
        assert(hi * one <= q * one) by (nonlinear_arith)
            requires
                hi <= q,
                one > 0,
        ;
    }
    if n.negative() && -q < lo {
        assert(-lo * one <= q * one) by (nonlinear_arith)
            requires
                -lo <= q,
                one > 0,
        ;
    }
}

/// The view of a document is the document, in its order.
pub proof fn views_are_the_documents(
    b: bool,
    n: Binary64,
    s: String,
    a: Vec<Json>,
    kv: Vec<(String, Json)>,
)
    ensures
        Json::Null@ == JsonView::Null,
        Json::Bool(b)@ == JsonView::Bool(b),
        Json::Num(n)@ == JsonView::Num(n),
        Json::Str(s)@ == JsonView::Str(s@),
        Json::Arr(a)@ == JsonView::Arr(Seq::new(a@.len(), |i: int| a@[i]@)),
        Json::Obj(kv)@ == JsonView::Obj(Seq::new(kv@.len(), |i: int| (kv@[i].0@, kv@[i].1@))),
{
    json::lemma_meanings(a@);
    json::lemma_members(kv@);
    assert(Json::meanings(a@) =~= Seq::new(a@.len(), |i: int| a@[i]@));
    assert(Json::members(kv@) =~= Seq::new(kv@.len(), |i: int| (kv@[i].0@, kv@[i].1@)));
}

} // verus!
