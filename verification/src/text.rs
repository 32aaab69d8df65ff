//! Numbers as text, and text as numbers.
use vstd::prelude::*;
use vstd::string::*;
use vstd::utf8::*;

verus! {

/// `String::push` of the standard library appends one character.
pub assume_specification[ String::push ](s: &mut String, c: char)
    ensures
        final(s)@ == old(s)@.push(c),
;

/// `char::from_u32` of the standard library gives the character of a scalar
/// value: a number up to `0x10FFFF` that is no surrogate. Every other number
/// has none.
pub assume_specification[ char::from_u32 ](i: u32) -> (c: Option<char>)
    ensures
        c == if i < 0xD800 || 0xE000 <= i <= 0x10_FFFF {
            Some(i as char)
        } else {
            None
        },
;

/// The character of a digit below sixteen, letters in upper case.
pub open spec fn digit_char(d: int) -> char {
    if d < 10 {
        (48 + d) as char
    } else {
        (55 + d) as char
    }
}

/// `v` in base `base`, with no leading zero.
pub open spec fn numeral(v: nat, base: nat) -> Seq<char>
    decreases v,
{
    if v < base || base < 2 {
        seq![digit_char(v as int)]
    } else {
        proof {
            vstd::arithmetic::div_mod::lemma_div_decreases(v as int, base as int);
        }
        numeral(v / base, base).push(digit_char((v % base) as int))
    }
}

/// `v` in decimal.
pub open spec fn decimal(v: nat) -> Seq<char> {
    numeral(v, 10)
}

/// `v` in decimal, with a minus sign where it is negative.
pub open spec fn signed_decimal(v: int) -> Seq<char> {
    if v < 0 {
        seq!['-'] + decimal((-v) as nat)
    } else {
        decimal(v as nat)
    }
}

/// Numerals are ASCII.
pub proof fn lemma_numeral_ascii(v: nat, base: nat)
    requires
        2 <= base <= 16,
    ensures
        is_ascii_chars(numeral(v, base)),
    decreases v,
{
    let s = numeral(v, base);
    if v < base {
        assert(s =~= seq![digit_char(v as int)]);
    } else {
        vstd::arithmetic::div_mod::lemma_div_decreases(v as int, base as int);
        vstd::arithmetic::div_mod::lemma_mod_bound(v as int, base as int);
        lemma_numeral_ascii(v / base, base);
        let t = numeral(v / base, base);
        let c = digit_char((v % base) as int);
        assert('\0' <= c <= '\u{7f}');
        assert forall|i: int| 0 <= i < s.len() implies '\0' <= #[trigger] s[i] <= '\u{7f}' by {
            if i < t.len() {
                assert(s[i] == t[i]);
            } else {
                assert(s[i] == c);
            }
        }
    }
}

/// `n` zeros.
pub open spec fn zero_chars(n: int) -> Seq<char> {
    Seq::new(if n < 0 { 0 } else { n as nat }, |i: int| '0')
}

/// `s` filled up with zeros on the left to `width` characters.
pub open spec fn zero_filled(s: Seq<char>, width: int) -> Seq<char> {
    zero_chars(width - s.len()) + s
}

/// `v` in decimal, filled up with zeros to `width` characters, the minus
/// sign counted and in front.
pub open spec fn signed_zero_filled(v: int, width: int) -> Seq<char> {
    if v < 0 {
        seq!['-'] + zero_filled(decimal((-v) as nat), width - 1)
    } else {
        zero_filled(decimal(v as nat), width)
    }
}

fn push_digit(out: &mut String, d: u8)
    requires
        d < 16,
    ensures
        final(out)@ == old(out)@.push(digit_char(d as int)),
{
    if d < 10 {
        out.push((48 + d) as char);
    } else {
        out.push((55 + d) as char);
    }
}

/// The character of a digit below sixteen, letters in lower case.
pub open spec fn lower_digit(d: int) -> char {
    if d < 10 {
        (48 + d) as char
    } else {
        (87 + d) as char
    }
}

/// The escape of a sixteen-bit code unit in a JSON string: `\uXXXX`.
pub open spec fn unicode_escape(v: int) -> Seq<char> {
    seq![
        '\\',
        'u',
        lower_digit(v / 4096),
        lower_digit(v / 256 % 16),
        lower_digit(v / 16 % 16),
        lower_digit(v % 16),
    ]
}

proof fn lemma_lower_digit_ascii(d: int)
    requires
        0 <= d < 16,
    ensures
        '\0' <= lower_digit(d) <= '\u{7f}',
{
}

/// Escapes are ASCII.
pub proof fn lemma_unicode_escape_ascii(v: int)
    requires
        0 <= v < 0x1_0000,
    ensures
        is_ascii_chars(unicode_escape(v)),
{
    assert(0 <= v / 4096 < 16);
    lemma_lower_digit_ascii(v / 4096);
    lemma_lower_digit_ascii(v / 256 % 16);
    lemma_lower_digit_ascii(v / 16 % 16);
    lemma_lower_digit_ascii(v % 16);
}

fn push_lower_digit(out: &mut String, d: u8)
    requires
        d < 16,
    ensures
        final(out)@ == old(out)@.push(lower_digit(d as int)),
{
    if d < 10 {
        out.push((48 + d) as char);
    } else {
        out.push((87 + d) as char);
    }
}

/// Append the escape of a code unit.
pub fn push_unicode_escape(out: &mut String, v: u32)
    requires
        v < 0x1_0000,
    ensures
        final(out)@ == old(out)@ + unicode_escape(v as int),
{
    out.push('\\');
    out.push('u');
    push_lower_digit(out, (v / 4096) as u8);
    push_lower_digit(out, (v / 256 % 16) as u8);
    push_lower_digit(out, (v / 16 % 16) as u8);
    push_lower_digit(out, (v % 16) as u8);
    assert(out@ =~= old(out)@ + unicode_escape(v as int));
}

/// Append `v` in base `base`.
pub fn push_numeral(out: &mut String, v: u128, base: u8)
    requires
        2 <= base <= 16,
    ensures
        final(out)@ == old(out)@ + numeral(v as nat, base as nat),
    decreases v,
{
    if v >= base as u128 {
        assert(v / (base as u128) < v) by (nonlinear_arith)
            requires
                v >= base,
                base >= 2,
        ;
        push_numeral(out, v / base as u128, base);
    }
    proof {
        if v < base {
            vstd::arithmetic::div_mod::lemma_small_mod(v as nat, base as nat);
        }
        vstd::arithmetic::div_mod::lemma_mod_bound(v as int, base as int);
    }
    push_digit(out, (v % base as u128) as u8);
    assert(out@ =~= old(out)@ + numeral(v as nat, base as nat));
}

/// Append `v` in decimal.
pub fn push_decimal(out: &mut String, v: u128)
    ensures
        final(out)@ == old(out)@ + decimal(v as nat),
{
    push_numeral(out, v, 10)
}

/// Append `v` in decimal, signed.
pub fn push_signed(out: &mut String, v: i128)
    requires
        v > i128::MIN,
    ensures
        final(out)@ == old(out)@ + signed_decimal(v as int),
{
    if v < 0 {
        out.push('-');
        push_decimal(out, (-v) as u128);
        assert(out@ =~= old(out)@ + signed_decimal(v as int));
    } else {
        push_decimal(out, v as u128);
    }
}

/// Append `s` filled up with zeros to `width` characters.
fn push_zero_filled(out: &mut String, s: &str, width: usize)
    ensures
        final(out)@ == old(out)@ + zero_filled(s@, width as int),
{
    let mut n: usize = s.unicode_len();
    let ghost len = n;
    while n < width
        invariant
            len <= n,
            n <= width || n == len,
            out@ =~= old(out)@ + zero_chars(n - len),
        decreases width - n,
    {
        out.push('0');
        n = n + 1;
    }
    out.append(s);
    assert(out@ =~= old(out)@ + zero_filled(s@, width as int));
}

/// Append `v` in base `base`, filled up with zeros to `width` characters.
pub fn push_filled(out: &mut String, v: u128, base: u8, width: usize)
    requires
        2 <= base <= 16,
    ensures
        final(out)@ == old(out)@ + zero_filled(numeral(v as nat, base as nat), width as int),
{
    let mut s = String::new();
    push_numeral(&mut s, v, base);
    assert(s@ =~= numeral(v as nat, base as nat));
    push_zero_filled(out, s.as_str(), width);
}

/// Append `v` in decimal, filled up with zeros to `width` characters.
pub fn push_signed_filled(out: &mut String, v: i128, width: usize)
    requires
        v > i128::MIN,
        width >= 1,
    ensures
        final(out)@ == old(out)@ + signed_zero_filled(v as int, width as int),
{
    if v < 0 {
        out.push('-');
        push_filled(out, (-v) as u128, 10, width - 1);
        assert(out@ =~= old(out)@ + signed_zero_filled(v as int, width as int));
    } else {
        push_filled(out, v as u128, 10, width);
    }
}

// ---------------------------------------------------------------------
// Text to unsigned integers.
// ---------------------------------------------------------------------
/// The value of a digit in base `base`, letters in either case.
pub open spec fn digit_value(c: char, base: nat) -> Option<nat> {
    let v = if '0' <= c <= '9' {
        (c as nat - 48) as nat
    } else if 'a' <= c <= 'z' {
        (c as nat - 87) as nat
    } else if 'A' <= c <= 'Z' {
        (c as nat - 55) as nat
    } else {
        base
    };
    if v < base {
        Some(v)
    } else {
        None
    }
}

/// The number that digits in base `base` spell, where they are all digits.
pub open spec fn digits_value(s: Seq<char>, base: nat) -> Option<nat>
    decreases s.len(),
{
    if s.len() == 0 {
        Some(0)
    } else {
        match digits_value(s.drop_last(), base) {
            Some(v) => match digit_value(s.last(), base) {
                Some(d) => Some(v * base + d),
                None => None,
            },
            None => None,
        }
    }
}

/// The unsigned integer up to `max` that a text spells in base `base`: one
/// digit or more, and a plus sign before them where there is one.
pub open spec fn unsigned_value(s: Seq<char>, base: nat, max: nat) -> Option<nat> {
    let t = if s.len() > 0 && s[0] == '+' {
        s.skip(1)
    } else {
        s
    };
    match digits_value(t, base) {
        Some(v) if t.len() > 0 && v <= max => Some(v),
        _ => None,
    }
}

pub fn digit_of(c: char, base: u8) -> (r: Option<u8>)
    requires
        2 <= base <= 36,
    ensures
        r is Some <==> digit_value(c, base as nat) is Some,
        r matches Some(d) ==> digit_value(c, base as nat) == Some(d as nat),
{
    let v: u32 = if '0' <= c && c <= '9' {
        c as u32 - 48
    } else if 'a' <= c && c <= 'z' {
        c as u32 - 87
    } else if 'A' <= c && c <= 'Z' {
        c as u32 - 55
    } else {
        base as u32
    };
    if v < base as u32 {
        Some(v as u8)
    } else {
        None
    }
}

/// Read an unsigned integer up to `max` in base `base`.
pub fn parse_unsigned(s: &str, base: u8, max: u64) -> (r: Option<u64>)
    requires
        2 <= base <= 36,
    ensures
        r is Some <==> unsigned_value(s@, base as nat, max as nat) is Some,
        r matches Some(v) ==> unsigned_value(s@, base as nat, max as nat) == Some(v as nat),
{
    broadcast use vstd::string::axiom_spec_iter;

    // More than `max` stands for all that is.
    let limit: u128 = max as u128 + 1;
    let mut v: u128 = 0;
    let mut first = true;
    let mut any = false;
    let ghost mut seen = Seq::<char>::empty();
    for c in it: s.chars()
        invariant
            it.seq() == s@,
            2 <= base <= 36,
            limit == max + 1,
            v <= limit,
            first == (it.index() == 0),
            seen == ({
                let t = s@.take(it.index() as int);
                if t.len() > 0 && t[0] == '+' {
                    t.skip(1)
                } else {
                    t
                }
            }),
            any == (seen.len() > 0),
            digits_value(seen, base as nat) matches Some(x) && (v == x || (v == limit && x
                >= limit)),
    {
        let ghost k = it.index() as int;
        assert(s@.take(k + 1) =~= s@.take(k).push(c));
        if first && c == '+' {
            first = false;
            proof {
                assert(s@.take(k + 1).skip(1) =~= Seq::empty());
            }
        } else {
            first = false;
            let ghost before = seen;
            proof {
                seen = seen.push(c);
                assert(seen.drop_last() =~= before);
                let t = s@.take(k + 1);
                if k > 0 {
                    assert(t[0] == s@.take(k)[0]);
                    if t[0] == '+' {
                        assert(t.skip(1) =~= s@.take(k).skip(1).push(c));
                    }
                }
            }
            match digit_of(c, base) {
                Some(d) => {
                    let ghost x = digits_value(before, base as nat)->0;
                    proof {
                        assert(0 <= v * base <= 0x1_0000_0000_0000_0000 * 36)
                            by (nonlinear_arith)
                            requires
                                0 <= v <= 0x1_0000_0000_0000_0000,
                                0 <= base <= 36,
                        ;
                        assert(x >= limit ==> x * base + d >= limit) by (nonlinear_arith)
                            requires
                                base >= 1,
                                d >= 0,
                                limit >= 0,
                        ;
                        assert(v >= limit ==> v * base + d >= limit) by (nonlinear_arith)
                            requires
                                base >= 1,
                                d >= 0,
                                limit >= 0,
                        ;
                    }
                    v = v * base as u128 + d as u128;
                    if v > limit {
                        v = limit;
                    }
                    any = true;
                },
                None => {
                    proof {
                        lemma_no_digits(s@, k, base as nat);
                    }
                    return None;
                },
            }
        }
    }
    assert(s@.take(s@.len() as int) =~= s@);
    if any && v < limit {
        Some(v as u64)
    } else {
        None
    }
}

/// The unsigned integer up to `max` that digits in base `base` spell: one
/// digit or more, and nothing else.
pub open spec fn digits_number(s: Seq<char>, base: nat, max: nat) -> Option<nat> {
    match digits_value(s, base) {
        Some(v) if s.len() > 0 && v <= max => Some(v),
        _ => None,
    }
}

/// Read an unsigned integer up to `max` in base `base` that has no sign.
pub fn parse_digits(s: &str, base: u8, max: u64) -> (r: Option<u64>)
    requires
        2 <= base <= 36,
    ensures
        r is Some <==> digits_number(s@, base as nat, max as nat) is Some,
        r matches Some(v) ==> digits_number(s@, base as nat, max as nat) == Some(v as nat),
{
    if !s.is_empty() && s.get_char(0) == '+' {
        proof {
            lemma_bad_digit(s@, 0, base as nat);
        }
        return None;
    }
    parse_unsigned(s, base, max)
}

/// One character that is no digit, and the text spells no number.
proof fn lemma_no_digits(s: Seq<char>, k: int, base: nat)
    requires
        0 <= k < s.len(),
        digit_value(s[k], base) is None,
        k > 0 || s[0] != '+',
    ensures
        forall|max: nat| unsigned_value(s, base, max) is None,
{
    let t = if s[0] == '+' {
        s.skip(1)
    } else {
        s
    };
    let j = if s[0] == '+' {
        k - 1
    } else {
        k
    };
    assert(t[j] == s[k]);
    lemma_bad_digit(t, j, base);
}

proof fn lemma_bad_digit(t: Seq<char>, j: int, base: nat)
    requires
        0 <= j < t.len(),
        digit_value(t[j], base) is None,
    ensures
        digits_value(t, base) is None,
    decreases t.len(),
{
    if j < t.len() - 1 {
        lemma_bad_digit(t.drop_last(), j, base);
    }
}

} // verus!
