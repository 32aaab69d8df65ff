//! What holds of the sidecar as a whole: what a recorder embeds reads back.
use crate::decimal;
use crate::ieee;
use crate::ieee::Binary32;
use crate::json;
use crate::json::JsonView;
use crate::json_laws;
use crate::number;
use crate::number_laws;
use crate::numeral_laws;
use crate::sidecar;
use crate::sidecar::SidecarView;
use crate::text;
use vstd::arithmetic::div_mod::*;
use vstd::arithmetic::mul::*;
use vstd::arithmetic::power2::*;
use vstd::prelude::*;

verus! {

// ---------------------------------------------------------------------
// The text of values, read.
// ---------------------------------------------------------------------
/// A text reads as a value, whatever stops it.
pub open spec fn reads(raw: Seq<char>, v: JsonView) -> bool {
    &&& raw.len() > 0
    &&& !json::is_blank(raw[0])
    &&& raw[0] != ']'
    &&& forall|rest: Seq<char>|
        json_laws::stops(rest) ==> #[trigger] json::value_at(raw + rest, true) == Some((v, rest))
}

/// Numerals read as their double.
proof fn lemma_numeral_reads(negative: bool, c: nat, e: int)
    ensures
        reads(
            number::sign(negative) + number::plain(c, e),
            JsonView::Num(number_laws::double_of(negative, c, e)),
        ),
{
    let body = number::plain(c, e);
    let raw = number::sign(negative) + body;
    let n = number_laws::double_of(negative, c, e);
    json_laws::lemma_plain_reads(c, e);
    if e >= 0 {
        lemma_mul_basics((c * decimal::tenfold(e)) as int);
    }
    json_laws::lemma_sign_reads(negative, body, n);
    assert forall|i: int| 0 <= i < raw.len() implies json::in_numeral(#[trigger] raw[i]) by {
        let k = if negative {
            i - 1
        } else {
            i
        };
        if k >= 0 {
            assert(raw[i] == body[k]);
        }
    }
    assert(raw[0] == if negative {
        '-'
    } else {
        body[0]
    });
    assert forall|rest: Seq<char>| json_laws::stops(rest) implies #[trigger] json::value_at(
        raw + rest,
        true,
    ) == Some((JsonView::Num(n), rest)) by {
        let s = raw + rest;
        assert forall|i: int| 0 <= i < raw.len() implies json::in_numeral(#[trigger] s[i]) by {
            assert(s[i] == raw[i]);
        }
        json::lemma_numeral_len_is(s, raw.len());
        assert(s.take(raw.len() as int) =~= raw);
        assert(s.skip(raw.len() as int) =~= rest);
        assert(s[0] == raw[0]);
        json::lemma_value_rule(s, true);
    }
}

/// An unsigned integer reads as its double.
proof fn lemma_decimal_reads(v: nat)
    ensures
        reads(text::decimal(v), JsonView::Num(number_laws::double_of(false, v, 0))),
{
    lemma_numeral_reads(false, v, 0);
    lemma_mul_basics(v as int);
    assert(number::sign(false) + number::plain(v, 0) =~= text::decimal(v));
}

/// A signed integer reads as its double.
proof fn lemma_signed_reads(v: int)
    ensures
        reads(
            text::signed_decimal(v),
            JsonView::Num(number_laws::double_of(v < 0, if v < 0 {
                (-v) as nat
            } else {
                v as nat
            }, 0)),
        ),
{
    let mag = if v < 0 {
        (-v) as nat
    } else {
        v as nat
    };
    lemma_numeral_reads(v < 0, mag, 0);
    lemma_mul_basics(mag as int);
    assert(number::sign(v < 0) + number::plain(mag, 0) =~= text::signed_decimal(v));
}

/// Words read as what they say.
proof fn lemma_words_read()
    ensures
        reads(sidecar::null_text(), JsonView::Null),
        reads(sidecar::bool_text(true), JsonView::Bool(true)),
        reads(sidecar::bool_text(false), JsonView::Bool(false)),
{
    let raw = sidecar::null_text();
    assert forall|rest: Seq<char>| json_laws::stops(rest) implies #[trigger] json::value_at(
        raw + rest,
        true,
    ) == Some((JsonView::Null, rest)) by {
        let s = raw + rest;
        json::lemma_value_rule(s, true);
        assert(s.take(4) =~= json::word_null());
        assert(s.skip(4) =~= rest);
    }
    let raw = sidecar::bool_text(true);
    assert forall|rest: Seq<char>| json_laws::stops(rest) implies #[trigger] json::value_at(
        raw + rest,
        true,
    ) == Some((JsonView::Bool(true), rest)) by {
        let s = raw + rest;
        json::lemma_value_rule(s, true);
        assert(s.take(4) =~= json::word_true());
        assert(s.skip(4) =~= rest);
    }
    let raw = sidecar::bool_text(false);
    assert forall|rest: Seq<char>| json_laws::stops(rest) implies #[trigger] json::value_at(
        raw + rest,
        true,
    ) == Some((JsonView::Bool(false), rest)) by {
        let s = raw + rest;
        json::lemma_value_rule(s, true);
        assert(s.take(5) =~= json::word_false());
        assert(s.skip(5) =~= rest);
    }
}

/// Text without quotes and backslashes stands as it is.
pub open spec fn bare(s: Seq<char>) -> bool {
    forall|i: int|
        0 <= i < s.len() ==> ' ' <= #[trigger] s[i] <= '\u{7f}' && s[i] != '"' && s[i] != '\\'
}

proof fn lemma_bare(s: Seq<char>)
    requires
        bare(s),
    ensures
        json::escaped(s) == s,
        sidecar::escaped(s) == s,
    decreases s.len(),
{
    if s.len() > 0 {
        let t = s.skip(1);
        assert forall|i: int| 0 <= i < t.len() implies ' ' <= #[trigger] t[i] <= '\u{7f}' && t[i]
            != '"' && t[i] != '\\' by {
            assert(t[i] == s[i + 1]);
        }
        lemma_bare(t);
        assert(seq![s[0]] + t =~= s);
    } else {
        assert(json::escaped(s) =~= s);
        assert(sidecar::escaped(s) =~= s);
    }
}

/// A character reads back out of a document.
proof fn lemma_escape_reads(c: char, rest: Seq<char>)
    ensures
        ({
            let e = sidecar::escape(c);
            let s = e + rest;
            &&& json::string_char(s, true) == Some((c, e.len() as int))
            &&& s[0] != '"'
            &&& s.skip(e.len() as int) == rest
        }),
{
    let e = sidecar::escape(c);
    let s = e + rest;
    assert(s.skip(e.len() as int) =~= rest);
    assert(s[0] == e[0]);
    if c == '"' || c == '\\' {
        assert(s[1] == e[1]);
    } else if (c as u32) < 0x20 {
        json_laws::lemma_unicode_reads(c, rest, true);
    }
}

/// Text reads back out of the quotes of a document.
#[verifier::spinoff_prover]
proof fn lemma_escaped_reads(t: Seq<char>, rest: Seq<char>)
    ensures
        json::string_at(sidecar::escaped(t) + seq!['"'] + rest, true) == Some((t, rest)),
    decreases t.len(),
{
    let s = sidecar::escaped(t) + seq!['"'] + rest;
    if t.len() == 0 {
        assert(sidecar::escaped(t) =~= Seq::empty());
        assert(s[0] == '"');
        assert(s.skip(1) =~= rest);
        assert(t =~= Seq::empty());
    } else {
        let c = t[0];
        let u = t.skip(1);
        lemma_escaped_reads(u, rest);
        let after = sidecar::escaped(u) + seq!['"'] + rest;
        lemma_escape_reads(c, after);
        json_laws::lemma_string_step(c, sidecar::escape(c), after, u, rest, true);
        assert(s =~= sidecar::escape(c) + after);
        assert(seq![c] + u =~= t);
    }
}

proof fn lemma_string_text_reads(s: Seq<char>)
    ensures
        reads(sidecar::string_text(s), JsonView::Str(s)),
{
    let raw = sidecar::string_text(s);
    let e = sidecar::escaped(s);
    assert forall|rest: Seq<char>| json_laws::stops(rest) implies #[trigger] json::value_at(
        raw + rest,
        true,
    ) == Some((JsonView::Str(s), rest)) by {
        let b = raw + rest;
        json::lemma_value_rule(b, true);
        lemma_escaped_reads(s, rest);
        assert(b.skip(1) =~= e + seq!['"'] + rest);
        assert(b[0] == '"');
    }
}

// ---------------------------------------------------------------------
// Objects without blanks, read.
// ---------------------------------------------------------------------
/// Members with commas before each, taken apart at the front.
proof fn lemma_further_front(fs: Seq<(Seq<char>, Seq<char>)>)
    requires
        fs.len() > 0,
    ensures
        sidecar::further(fs) == seq![','] + sidecar::member_text(fs[0]) + sidecar::further(
            fs.skip(1),
        ),
    decreases fs.len(),
{
    if fs.len() == 1 {
        assert(fs.drop_last() =~= Seq::empty());
        assert(fs.skip(1) =~= Seq::empty());
        assert(sidecar::further(fs) =~= seq![','] + sidecar::member_text(fs[0])
            + sidecar::further(fs.skip(1)));
    } else {
        let init = fs.drop_last();
        lemma_further_front(init);
        assert(init.skip(1) =~= fs.skip(1).drop_last());
        assert(fs.skip(1).last() == fs.last());
        assert(sidecar::further(fs) =~= seq![','] + sidecar::member_text(fs[0])
            + sidecar::further(fs.skip(1)));
    }
}

/// The text of members reads as the members.
pub open spec fn members_read(
    fs: Seq<(Seq<char>, Seq<char>)>,
    kv: Seq<(Seq<char>, JsonView)>,
) -> bool {
    &&& fs.len() == kv.len()
    &&& forall|i: int|
        #![trigger fs[i]]
        #![trigger kv[i]]
        0 <= i < fs.len() ==> fs[i].0 == kv[i].0 && bare(fs[i].0) && reads(fs[i].1, kv[i].1)
}

/// One key and one value, up to what follows them.
proof fn lemma_member_reads(f: (Seq<char>, Seq<char>), v: JsonView, rest: Seq<char>)
    requires
        bare(f.0),
        reads(f.1, v),
        json_laws::stops(rest),
    ensures
        ({
            let s = sidecar::member_text(f) + rest;
            let w = f.1 + rest;
            &&& json::key_at(s, true) == Some((f.0, w))
            &&& json::value_at(w, true) == Some((v, rest))
            &&& s.len() > 0
            &&& s[0] == '"'
        }),
{
    let (k, raw) = f;
    let s = sidecar::member_text(f) + rest;
    let w = raw + rest;
    let behind = seq![':'] + w;
    lemma_bare(k);
    json_laws::string_reads_back(k, behind, true);
    assert(s =~= seq!['"'] + (k + seq!['"'] + behind));
    assert(s.skip(1) =~= k + seq!['"'] + behind);
    assert(json::after_blanks(s) == s);
    assert(json::after_blanks(behind) == behind);
    assert(behind.skip(1) =~= w);
    assert(w[0] == raw[0]);
    assert(json::after_blanks(w) == w);
}

/// Members, the first without its comma, up to the closing brace.
proof fn lemma_members_text_reads(
    fs: Seq<(Seq<char>, Seq<char>)>,
    kv: Seq<(Seq<char>, JsonView)>,
    rest: Seq<char>,
)
    requires
        fs.len() > 0,
        members_read(fs, kv),
    ensures
        json::members_at(
            sidecar::member_text(fs[0]) + sidecar::further(fs.skip(1)) + seq!['}'] + rest,
            true,
        ) == Some((kv, rest)),
    decreases fs.len(),
{
    let first = sidecar::member_text(fs[0]);
    let more = fs.skip(1);
    let tail = sidecar::further(more);
    let y = tail + seq!['}'] + rest;
    let s = first + tail + seq!['}'] + rest;
    assert(s =~= first + y);
    assert(kv[0].0 == fs[0].0);
    if fs.len() > 1 {
        lemma_further_front(more);
        assert(tail[0] == ',');
        assert(y[0] == ',');
    } else {
        assert(tail =~= Seq::empty());
        assert(y[0] == '}');
    }
    lemma_member_reads(fs[0], kv[0].1, y);
    json::lemma_members_rule(s, true);
    assert(json::after_blanks(y) == y);
    let one = seq![(fs[0].0, kv[0].1)];
    if fs.len() > 1 {
        let rest_kv = kv.skip(1);
        assert forall|i: int|
            #![trigger more[i]]
            #![trigger rest_kv[i]]
            0 <= i < more.len() implies more[i].0 == rest_kv[i].0 && bare(more[i].0) && reads(
            more[i].1,
            rest_kv[i].1,
        ) by {
            assert(more[i] == fs[i + 1]);
            assert(rest_kv[i] == kv[i + 1]);
        }
        lemma_members_text_reads(more, rest_kv, rest);
        let next = sidecar::member_text(more[0]) + sidecar::further(more.skip(1));
        assert(tail =~= seq![','] + next);
        assert(y.skip(1) =~= next + seq!['}'] + rest);
        assert(one + rest_kv =~= kv);
    } else {
        assert(y.skip(1) =~= rest);
        assert(one =~= kv);
    }
}

/// An object without blanks reads as its members.
proof fn lemma_object_reads(fs: Seq<(Seq<char>, Seq<char>)>, kv: Seq<(Seq<char>, JsonView)>)
    requires
        fs.len() > 0,
        members_read(fs, kv),
    ensures
        reads(sidecar::object_text(fs), JsonView::Obj(kv)),
{
    let body = sidecar::member_text(fs[0]) + sidecar::further(fs.skip(1));
    let raw = sidecar::object_text(fs);
    assert(raw =~= seq!['{'] + body + seq!['}']);
    lemma_members_text_reads(fs, kv, Seq::empty());
    assert forall|rest: Seq<char>| json_laws::stops(rest) implies #[trigger] json::value_at(
        raw + rest,
        true,
    ) == Some((JsonView::Obj(kv), rest)) by {
        let s = raw + rest;
        let t = body + seq!['}'] + rest;
        lemma_members_text_reads(fs, kv, rest);
        json::lemma_value_rule(s, true);
        assert(s.skip(1) =~= t);
        assert(s[0] == '{');
        assert(t[0] == '"') by {
            assert(body[0] == '"');
        }
        assert(json::after_blanks(t) == t);
    }
}

// ---------------------------------------------------------------------
// Hexadecimal text.
// ---------------------------------------------------------------------
/// A numeral is made of digits and spells its number.
pub proof fn lemma_numeral_spells(v: nat, base: nat)
    requires
        2 <= base <= 16,
    ensures
        text::digits_value(text::numeral(v, base), base) == Some(v),
        text::numeral(v, base).len() > 0,
        forall|i: int|
            0 <= i < text::numeral(v, base).len() ==> {
                let c = #[trigger] text::numeral(v, base)[i];
                '0' <= c <= '9' || 'A' <= c <= 'F'
            },
    decreases v,
{
    let s = text::numeral(v, base);
    if v < base {
        assert(s =~= seq![text::digit_char(v as int)]);
        assert(s.drop_last() =~= Seq::empty());
        assert(text::digits_value(Seq::empty(), base) == Some(0nat));
        assert(0 * base == 0);
    } else {
        let q = v / base;
        let r = v % base;
        lemma_div_decreases(v as int, base as int);
        lemma_numeral_spells(q, base);
        lemma_mod_bound(v as int, base as int);
        lemma_fundamental_div_mod(v as int, base as int);
        lemma_mul_is_commutative(base as int, q as int);
        let t = text::numeral(q, base);
        assert(s =~= t.push(text::digit_char(r as int)));
        assert(s.drop_last() =~= t);
        assert forall|i: int| 0 <= i < s.len() implies {
            let c = #[trigger] s[i];
            '0' <= c <= '9' || 'A' <= c <= 'F'
        } by {
            if i < t.len() {
                assert(s[i] == t[i]);
            }
        }
    }
}

/// Zeros in front change nothing.
pub proof fn lemma_zeros_in_front(n: nat, s: Seq<char>, base: nat)
    requires
        base >= 2,
    ensures
        text::digits_value(text::zero_chars(n as int) + s, base) == text::digits_value(s, base),
    decreases s.len(), n,
{
    let z = text::zero_chars(n as int);
    let t = z + s;
    if s.len() > 0 {
        lemma_zeros_in_front(n, s.drop_last(), base);
        assert(t.drop_last() =~= z + s.drop_last());
        assert(t.last() == s.last());
    } else if n > 0 {
        lemma_zeros_in_front((n - 1) as nat, s, base);
        assert(t.drop_last() =~= text::zero_chars(n - 1) + s);
        assert(t.last() == '0');
        assert(0 * base == 0);
    } else {
        assert(t =~= s);
    }
}

/// A zero-filled hexadecimal number reads back, as text and as a number.
proof fn lemma_hex_reads(v: u16, width: nat)
    ensures
        ({
            let s = text::zero_filled(text::numeral(v as nat, 16), width as int);
            &&& reads(sidecar::hex_text(v as nat, width as int), JsonView::Str(s))
            &&& sidecar::hex_number(s) == Some(v)
        }),
{
    let t = text::numeral(v as nat, 16);
    let s = text::zero_filled(t, width as int);
    lemma_numeral_spells(v as nat, 16);
    let n = if width > t.len() {
        (width - t.len()) as nat
    } else {
        0
    };
    assert(s =~= text::zero_chars(n as int) + t);
    lemma_zeros_in_front(n, t, 16);
    assert forall|i: int| 0 <= i < s.len() implies ' ' <= #[trigger] s[i] <= '\u{7f}' && s[i]
        != '"' && s[i] != '\\' && s[i] != '+' by {
        if i >= n {
            assert(s[i] == t[i - n]);
        }
    }
    lemma_bare(s);
    lemma_string_text_reads(s);
    assert(s[0] != '+');
}

// ---------------------------------------------------------------------
// Numbers that doubles and singles hold.
// ---------------------------------------------------------------------
/// A level that its one decimal gives back: written with one decimal, read
/// as a double and narrowed, it is the same.
pub open spec fn one_decimal(x: Binary32) -> bool {
    &&& x.magnitude() < ieee::TOP_32
    &&& number_laws::double_of(x.negative(), tenths(x), -1).narrowed() == x
}

/// The tenths of a level, rounded, without its sign.
pub open spec fn tenths(x: Binary32) -> nat {
    number::half_even(ieee::units_32(x.magnitude()) * decimal::tenfold(1), ieee::one_32())
}

proof fn lemma_level_reads(x: Binary32)
    requires
        x.magnitude() < ieee::TOP_32,
    ensures
        reads(x.fixed(1), JsonView::Num(number_laws::double_of(x.negative(), tenths(x), -1))),
{
    lemma_numeral_reads(x.negative(), tenths(x), -1);
}

// ---------------------------------------------------------------------
// Packets.
// ---------------------------------------------------------------------
/// What a packet says.
spec fn packet_members(p: (u8, u8, u16)) -> Seq<(Seq<char>, JsonView)> {
    seq![
        ("op"@, JsonView::Num(number_laws::double_of(false, p.0 as nat, 0))),
        ("arg"@, JsonView::Num(number_laws::double_of(false, p.1 as nat, 0))),
        ("unit_id"@, JsonView::Str(text::zero_filled(text::numeral(p.2 as nat, 16), 4))),
    ]
}

spec fn packet_values(ps: Seq<(u8, u8, u16)>) -> Seq<JsonView> {
    Seq::new(ps.len(), |i: int| JsonView::Obj(packet_members(ps[i])))
}

proof fn lemma_packet_keys()
    ensures
        "op"@ =~= seq!['o', 'p'],
        "arg"@ =~= seq!['a', 'r', 'g'],
        "unit_id"@ =~= seq!['u', 'n', 'i', 't', '_', 'i', 'd'],
        bare("op"@),
        bare("arg"@),
        bare("unit_id"@),
{
    reveal_strlit("op");
    reveal_strlit("arg");
    reveal_strlit("unit_id");
}

proof fn lemma_packet_reads(p: (u8, u8, u16))
    ensures
        reads(sidecar::object_text(sidecar::packet_fields(p)), JsonView::Obj(packet_members(p))),
        sidecar::packet_of(JsonView::Obj(packet_members(p))) == Some(p),
{
    let fs = sidecar::packet_fields(p);
    let kv = packet_members(p);
    lemma_packet_keys();
    lemma_decimal_reads(p.0 as nat);
    lemma_decimal_reads(p.1 as nat);
    lemma_hex_reads(p.2, 4);
    assert(members_read(fs, kv)) by {
        assert forall|i: int|
            #![trigger fs[i]]
            #![trigger kv[i]]
            0 <= i < fs.len() implies fs[i].0 == kv[i].0 && bare(fs[i].0) && reads(
            fs[i].1,
            kv[i].1,
        ) by {
            assert(i == 0 || i == 1 || i == 2);
        }
    }
    lemma_object_reads(fs, kv);
    lemma_lookup(kv, 0, "op"@);
    lemma_lookup(kv, 1, "arg"@);
    lemma_lookup(kv, 2, "unit_id"@);
    number_laws::integers_are_held(p.0 as nat);
    number_laws::integers_are_held(p.1 as nat);
    number_laws::lemma_held_rounds(p.0 as nat, false);
    number_laws::lemma_held_rounds(p.1 as nat, false);
}

/// A key that no member before has is found at its place.
proof fn lemma_lookup(kv: Seq<(Seq<char>, JsonView)>, i: int, key: Seq<char>)
    requires
        0 <= i < kv.len(),
        kv[i].0 == key,
        forall|j: int| 0 <= j < i ==> #[trigger] kv[j].0 != key,
    ensures
        json::lookup(kv, key) == Some(kv[i].1),
    decreases i,
{
    if i > 0 {
        assert(kv[0].0 != key);
        let t = kv.skip(1);
        assert(t[i - 1] == kv[i]);
        assert forall|j: int| 0 <= j < i - 1 implies #[trigger] t[j].0 != key by {
            assert(t[j] == kv[j + 1]);
        }
        lemma_lookup(t, i - 1, key);
    }
}

/// A key that no member has is not found.
proof fn lemma_lookup_none(kv: Seq<(Seq<char>, JsonView)>, key: Seq<char>)
    requires
        forall|j: int| 0 <= j < kv.len() ==> #[trigger] kv[j].0 != key,
    ensures
        json::lookup(kv, key) is None,
    decreases kv.len(),
{
    if kv.len() > 0 {
        assert(kv[0].0 != key);
        let t = kv.skip(1);
        assert forall|j: int| 0 <= j < t.len() implies #[trigger] t[j].0 != key by {
            assert(t[j] == kv[j + 1]);
        }
        lemma_lookup_none(t, key);
    }
}

proof fn lemma_packets_front(ps: Seq<(u8, u8, u16)>)
    requires
        ps.len() > 1,
    ensures
        sidecar::packets_text(ps) == sidecar::object_text(sidecar::packet_fields(ps[0]))
            + seq![','] + sidecar::packets_text(ps.skip(1)),
    decreases ps.len(),
{
    let init = ps.drop_last();
    let first = sidecar::object_text(sidecar::packet_fields(ps[0]));
    if ps.len() == 2 {
        assert(init =~= seq![ps[0]]);
        assert(ps.skip(1) =~= seq![ps[1]]);
        assert(sidecar::packets_text(init) == first);
    } else {
        lemma_packets_front(init);
        let more = ps.skip(1);
        let last = sidecar::object_text(sidecar::packet_fields(ps.last()));
        assert(init[0] == ps[0]);
        assert(init.skip(1) =~= more.drop_last());
        assert(more.last() == ps.last());
        let inner = sidecar::packets_text(init.skip(1));
        assert(sidecar::packets_text(more) == inner + seq![','] + last);
        assert(sidecar::packets_text(ps) == first + seq![','] + inner + seq![','] + last);
        assert(first + seq![','] + inner + seq![','] + last =~= first + seq![','] + (inner
            + seq![','] + last));
    }
    assert(sidecar::packets_text(ps) =~= first + seq![','] + sidecar::packets_text(ps.skip(1)));
}

proof fn lemma_packets_read(ps: Seq<(u8, u8, u16)>, rest: Seq<char>)
    requires
        ps.len() > 0,
    ensures
        json::items_at(sidecar::packets_text(ps) + seq![']'] + rest, true) == Some(
            (packet_values(ps), rest),
        ),
        sidecar::packets_text(ps).len() > 0,
        sidecar::packets_text(ps)[0] == '{',
    decreases ps.len(),
{
    let first = sidecar::object_text(sidecar::packet_fields(ps[0]));
    let raw = sidecar::packets_text(ps);
    let v = JsonView::Obj(packet_members(ps[0]));
    let s = raw + seq![']'] + rest;
    lemma_packet_reads(ps[0]);
    assert(first[0] == '{');
    let y = if ps.len() == 1 {
        seq![']'] + rest
    } else {
        seq![','] + (sidecar::packets_text(ps.skip(1)) + seq![']'] + rest)
    };
    if ps.len() == 1 {
        assert(s =~= first + y);
        assert(y.skip(1) =~= rest);
        assert(seq![v] =~= packet_values(ps));
    } else {
        lemma_packets_front(ps);
        lemma_packets_read(ps.skip(1), rest);
        let more = sidecar::packets_text(ps.skip(1));
        assert(s =~= first + y);
        assert(y.skip(1) =~= more + seq![']'] + rest);
        assert(seq![v] + packet_values(ps.skip(1)) =~= packet_values(ps));
    }
    assert(s[0] == '{');
    assert(json::after_blanks(s) == s);
    assert(json::after_blanks(y) == y);
    json::lemma_items_rule(s, true);
}

/// A list of packets reads as the packets.
proof fn lemma_mdc_reads(ps: Seq<(u8, u8, u16)>)
    ensures
        reads(
            seq!['['] + sidecar::packets_text(ps) + seq![']'],
            JsonView::Arr(packet_values(ps)),
        ),
        sidecar::packets_of(packet_values(ps)) == Some(ps),
{
    let body = sidecar::packets_text(ps);
    let raw = seq!['['] + body + seq![']'];
    if ps.len() > 0 {
        lemma_packets_read(ps, Seq::empty());
    }
    assert forall|rest: Seq<char>| json_laws::stops(rest) implies #[trigger] json::value_at(
        raw + rest,
        true,
    ) == Some((JsonView::Arr(packet_values(ps)), rest)) by {
        let s = raw + rest;
        let t = body + seq![']'] + rest;
        json::lemma_value_rule(s, true);
        assert(s.skip(1) =~= t);
        assert(s[0] == '[');
        if ps.len() == 0 {
            assert(t =~= seq![']'] + rest);
            assert(t.skip(1) =~= rest);
            assert(packet_values(ps) =~= Seq::empty());
        } else {
            lemma_packets_read(ps, rest);
            assert(t[0] == body[0]);
            assert(json::after_blanks(t) == t);
        }
    }
    lemma_packets_of(ps);
}

proof fn lemma_packets_of(ps: Seq<(u8, u8, u16)>)
    ensures
        sidecar::packets_of(packet_values(ps)) == Some(ps),
    decreases ps.len(),
{
    let a = packet_values(ps);
    if ps.len() == 0 {
        assert(ps =~= Seq::empty());
    } else {
        lemma_packets_of(ps.drop_last());
        assert(a.drop_last() =~= packet_values(ps.drop_last()));
        lemma_packet_reads(ps.last());
        assert(a.last() == JsonView::Obj(packet_members(ps.last())));
        assert(ps.drop_last().push(ps.last()) =~= ps);
    }
}

// ---------------------------------------------------------------------
// The whole document.
// ---------------------------------------------------------------------
/// What tells the keys of the document apart: their lengths and their
/// first two letters.
spec fn tag(key: Seq<char>) -> (int, char, char) {
    (key.len() as int, key[0], key[1])
}

proof fn lemma_keys()
    ensures
        tag("version"@) == (7int, 'v', 'e'),
        bare("version"@),
        tag("start_ms"@) == (8int, 's', 't'),
        bare("start_ms"@),
        tag("duration_ms"@) == (11int, 'd', 'u'),
        bare("duration_ms"@),
        tag("hz"@) == (2int, 'h', 'z'),
        bare("hz"@),
        tag("mode"@) == (4int, 'm', 'o'),
        bare("mode"@),
        tag("emergency"@) == (9int, 'e', 'm'),
        bare("emergency"@),
        tag("encrypted"@) == (9int, 'e', 'n'),
        bare("encrypted"@),
        tag("system"@) == (6int, 's', 'y'),
        bare("system"@),
        tag("nac"@) == (3int, 'n', 'a'),
        bare("nac"@),
        tag("tg"@) == (2int, 't', 'g'),
        bare("tg"@),
        tag("alias"@) == (5int, 'a', 'l'),
        bare("alias"@),
        tag("tone"@) == (4int, 't', 'o'),
        bare("tone"@),
        tag("alphatag"@) == (8int, 'a', 'l'),
        bare("alphatag"@),
        tag("src"@) == (3int, 's', 'r'),
        bare("src"@),
        tag("delta_db"@) == (8int, 'd', 'e'),
        bare("delta_db"@),
        tag("signal_db"@) == (9int, 's', 'i'),
        bare("signal_db"@),
        tag("floor_db"@) == (8int, 'f', 'l'),
        bare("floor_db"@),
        tag("offset_hz"@) == (9int, 'o', 'f'),
        bare("offset_hz"@),
        tag("mdc"@) == (3int, 'm', 'd'),
        bare("mdc"@),
        tag("wav_rate"@) == (8int, 'w', 'a'),
        bare("wav_rate"@),
{
    reveal_strlit("version");
    reveal_strlit("start_ms");
    reveal_strlit("duration_ms");
    reveal_strlit("hz");
    reveal_strlit("mode");
    reveal_strlit("emergency");
    reveal_strlit("encrypted");
    reveal_strlit("system");
    reveal_strlit("nac");
    reveal_strlit("tg");
    reveal_strlit("alias");
    reveal_strlit("tone");
    reveal_strlit("alphatag");
    reveal_strlit("src");
    reveal_strlit("delta_db");
    reveal_strlit("signal_db");
    reveal_strlit("floor_db");
    reveal_strlit("offset_hz");
    reveal_strlit("mdc");
    reveal_strlit("wav_rate");
}

/// What the members up to the alias say.
spec fn identity_members(v: SidecarView) -> Seq<(Seq<char>, JsonView)> {
    seq![
        ("version"@, JsonView::Num(number_laws::double_of(false, 1, 0))),
        ("start_ms"@, JsonView::Num(number_laws::double_of(v.start_ms < 0, number_laws::size(v.start_ms as int), 0))),
        ("duration_ms"@, JsonView::Num(number_laws::double_of(false, v.duration_ms as nat, 0))),
        ("hz"@, JsonView::Num(number_laws::double_of(false, v.hz as nat, 0))),
        ("mode"@, JsonView::Str(v.mode)),
        ("emergency"@, JsonView::Bool(v.emergency)),
        ("encrypted"@, JsonView::Bool(v.encrypted)),
        ("system"@, JsonView::Str(v.system)),
        ("nac"@, match v.nac {
            Some(n) => JsonView::Str(text::zero_filled(text::numeral(n as nat, 16), 3)),
            None => JsonView::Null,
        }),
        ("tg"@, match v.tg {
            Some(t) => JsonView::Num(number_laws::double_of(false, t as nat, 0)),
            None => JsonView::Null,
        }),
        ("alias"@, match v.alias {
            Some(s) => JsonView::Str(s),
            None => JsonView::Null,
        }),
    ]
}

/// What a member says that appears only where there is a value.
spec fn label_member(key: Seq<char>, v: Option<Seq<char>>) -> Seq<(Seq<char>, JsonView)> {
    match v {
        Some(s) => seq![(key, JsonView::Str(s))],
        None => Seq::empty(),
    }
}

spec fn level_value(v: Option<Binary32>) -> JsonView {
    match v {
        Some(x) => JsonView::Num(number_laws::double_of(x.negative(), tenths(x), -1)),
        None => JsonView::Null,
    }
}

/// What the members from the source to the offset say.
spec fn signal_members(v: SidecarView) -> Seq<(Seq<char>, JsonView)> {
    seq![
        ("src"@, JsonView::Str(v.src)),
        ("delta_db"@, level_value(Some(v.delta_db))),
        ("signal_db"@, level_value(v.signal_db)),
        ("floor_db"@, level_value(v.floor_db)),
        ("offset_hz"@, match v.offset_hz {
            Some(x) => JsonView::Num(number_laws::double_of(x < 0, number_laws::size(x as int), 0)),
            None => JsonView::Null,
        }),
    ]
}

spec fn mdc_member(v: SidecarView) -> Seq<(Seq<char>, JsonView)> {
    match v.mdc {
        Some(ps) => seq![("mdc"@, JsonView::Arr(packet_values(ps)))],
        None => Seq::empty(),
    }
}

spec fn rate_member(v: SidecarView) -> Seq<(Seq<char>, JsonView)> {
    seq![("wav_rate"@, JsonView::Num(number_laws::double_of(false, v.wav_rate as nat, 0)))]
}

/// What the document says.
spec fn said(v: SidecarView) -> Seq<(Seq<char>, JsonView)> {
    identity_members(v) + label_member("tone"@, v.tone) + label_member("alphatag"@, v.alphatag)
        + signal_members(v) + mdc_member(v) + rate_member(v)
}

/// A level that may be absent and that one decimal gives back.
pub open spec fn opt_one_decimal(v: Option<Binary32>) -> bool {
    match v {
        Some(x) => one_decimal(x),
        None => true,
    }
}

/// A level that may be absent and is a number where it is not.
pub open spec fn opt_finite(v: Option<Binary32>) -> bool {
    match v {
        Some(x) => x.magnitude() < ieee::TOP_32,
        None => true,
    }
}

/// A sidecar whose levels are numbers.
pub open spec fn finite_levels(v: SidecarView) -> bool {
    opt_finite(Some(v.delta_db)) && opt_finite(v.signal_db) && opt_finite(v.floor_db)
}

/// A sidecar that its document holds in full: integers that are doubles, and
/// levels of one decimal.
pub open spec fn plain_sidecar(v: SidecarView) -> bool {
    &&& number_laws::held(number_laws::size(v.start_ms as int))
    &&& number_laws::held(v.duration_ms as nat)
    &&& number_laws::held(v.hz as nat)
    &&& one_decimal(v.delta_db)
    &&& opt_one_decimal(v.signal_db)
    &&& opt_one_decimal(v.floor_db)
}

proof fn lemma_opt_string_reads(s: Option<Seq<char>>)
    ensures
        reads(sidecar::opt_string_text(s), match s {
            Some(s) => JsonView::Str(s),
            None => JsonView::Null,
        }),
{
    lemma_words_read();
    if let Some(t) = s {
        lemma_string_text_reads(t);
    }
}

proof fn lemma_opt_level_reads(v: Option<Binary32>)
    requires
        opt_finite(v),
    ensures
        reads(sidecar::opt_level_text(v), level_value(v)),
{
    lemma_words_read();
    if let Some(x) = v {
        lemma_level_reads(x);
    }
}

/// The members up to the alias read as what they say.
#[verifier::spinoff_prover]
proof fn lemma_identity_reads(v: SidecarView)
    requires
        finite_levels(v),
    ensures
        members_read(v.identity_fields(), identity_members(v)),
{
    let fs = v.identity_fields();
    let kv = identity_members(v);
    lemma_keys();
    lemma_words_read();
    lemma_decimal_reads(1);
    lemma_signed_reads(v.start_ms as int);
    lemma_decimal_reads(v.duration_ms as nat);
    lemma_decimal_reads(v.hz as nat);
    lemma_string_text_reads(v.mode);
    lemma_string_text_reads(v.system);
    if let Some(n) = v.nac {
        lemma_hex_reads(n, 3);
    }
    if let Some(t) = v.tg {
        lemma_decimal_reads(t as nat);
    }
    lemma_opt_string_reads(v.alias);
    assert forall|i: int|
        #![trigger fs[i]]
        #![trigger kv[i]]
        0 <= i < fs.len() implies fs[i].0 == kv[i].0 && bare(fs[i].0) && reads(
        fs[i].1,
        kv[i].1,
    ) by {
        assert(i == 0 || i == 1 || i == 2 || i == 3 || i == 4 || i == 5 || i == 6 || i == 7 || i
            == 8 || i == 9 || i == 10);
    }
}

/// The members from the source to the offset read as what they say.
#[verifier::spinoff_prover]
proof fn lemma_signal_reads(v: SidecarView)
    requires
        finite_levels(v),
    ensures
        members_read(v.signal_fields(), signal_members(v)),
{
    let fs = v.signal_fields();
    let kv = signal_members(v);
    lemma_keys();
    lemma_words_read();
    lemma_string_text_reads(v.src);
    lemma_level_reads(v.delta_db);
    lemma_opt_level_reads(v.signal_db);
    lemma_opt_level_reads(v.floor_db);
    if let Some(x) = v.offset_hz {
        lemma_signed_reads(x as int);
    }
    assert forall|i: int|
        #![trigger fs[i]]
        #![trigger kv[i]]
        0 <= i < fs.len() implies fs[i].0 == kv[i].0 && bare(fs[i].0) && reads(
        fs[i].1,
        kv[i].1,
    ) by {
        assert(i == 0 || i == 1 || i == 2 || i == 3 || i == 4);
    }
}

proof fn lemma_label_reads(key: Seq<char>, v: Option<Seq<char>>)
    requires
        bare(key),
    ensures
        members_read(SidecarView::label_field(key, v), label_member(key, v)),
{
    if let Some(s) = v {
        lemma_string_text_reads(s);
    }
}

proof fn lemma_members_add(
    f: Seq<(Seq<char>, Seq<char>)>,
    a: Seq<(Seq<char>, JsonView)>,
    g: Seq<(Seq<char>, Seq<char>)>,
    b: Seq<(Seq<char>, JsonView)>,
)
    requires
        members_read(f, a),
        members_read(g, b),
    ensures
        members_read(f + g, a + b),
{
    let fs = f + g;
    let kv = a + b;
    assert forall|i: int|
        #![trigger fs[i]]
        #![trigger kv[i]]
        0 <= i < fs.len() implies fs[i].0 == kv[i].0 && bare(fs[i].0) && reads(
        fs[i].1,
        kv[i].1,
    ) by {
        if i < f.len() {
            assert(fs[i] == f[i]);
            assert(kv[i] == a[i]);
        } else {
            assert(fs[i] == g[i - f.len()]);
            assert(kv[i] == b[i - f.len()]);
        }
    }
}

/// The document reads as what it says.
proof fn lemma_document_reads(v: SidecarView)
    requires
        finite_levels(v),
    ensures
        json::document(v.json_text(), true) == Some(JsonView::Obj(said(v))),
{
    lemma_keys();
    let tone = SidecarView::label_field("tone"@, v.tone);
    let tag = SidecarView::label_field("alphatag"@, v.alphatag);
    let rate = seq![("wav_rate"@, text::decimal(v.wav_rate as nat))];
    lemma_identity_reads(v);
    lemma_label_reads("tone"@, v.tone);
    lemma_label_reads("alphatag"@, v.alphatag);
    lemma_signal_reads(v);
    if let Some(ps) = v.mdc {
        lemma_mdc_reads(ps);
    }
    assert(members_read(v.mdc_field(), mdc_member(v)));
    lemma_decimal_reads(v.wav_rate as nat);
    assert(members_read(rate, rate_member(v)));
    let f = v.identity_fields();
    let a = identity_members(v);
    lemma_members_add(f, a, tone, label_member("tone"@, v.tone));
    let f = f + tone;
    let a = a + label_member("tone"@, v.tone);
    lemma_members_add(f, a, tag, label_member("alphatag"@, v.alphatag));
    let f = f + tag;
    let a = a + label_member("alphatag"@, v.alphatag);
    lemma_members_add(f, a, v.signal_fields(), signal_members(v));
    let f = f + v.signal_fields();
    let a = a + signal_members(v);
    lemma_members_add(f, a, v.mdc_field(), mdc_member(v));
    let f = f + v.mdc_field();
    let a = a + mdc_member(v);
    lemma_members_add(f, a, rate, rate_member(v));
    lemma_object_reads(v.fields(), said(v));
    let raw = v.json_text();
    let none = Seq::<char>::empty();
    assert(raw + none =~= raw);
    assert(json::value_at(raw + none, true) == Some((JsonView::Obj(said(v)), none)));
    assert(json::after_blanks(raw) == raw);
    assert(json::after_blanks(none) =~= none);
}

/// Looking a key up in two lists, one behind the other.
proof fn lemma_lookup_add(
    a: Seq<(Seq<char>, JsonView)>,
    b: Seq<(Seq<char>, JsonView)>,
    key: Seq<char>,
)
    ensures
        json::lookup(a + b, key) == match json::lookup(a, key) {
            Some(v) => Some(v),
            None => json::lookup(b, key),
        },
    decreases a.len(),
{
    if a.len() == 0 {
        assert(a + b =~= b);
    } else {
        assert((a + b)[0] == a[0]);
        assert((a + b).skip(1) =~= a.skip(1) + b);
        lemma_lookup_add(a.skip(1), b, key);
    }
}

/// The keys up to the alias, and no others, are in the first list.
#[verifier::spinoff_prover]
proof fn lemma_identity_lookup(v: SidecarView)
    ensures
        json::lookup(identity_members(v), "version"@) == Some(identity_members(v)[0].1),
        json::lookup(identity_members(v), "start_ms"@) == Some(identity_members(v)[1].1),
        json::lookup(identity_members(v), "duration_ms"@) == Some(identity_members(v)[2].1),
        json::lookup(identity_members(v), "hz"@) == Some(identity_members(v)[3].1),
        json::lookup(identity_members(v), "mode"@) == Some(identity_members(v)[4].1),
        json::lookup(identity_members(v), "emergency"@) == Some(identity_members(v)[5].1),
        json::lookup(identity_members(v), "encrypted"@) == Some(identity_members(v)[6].1),
        json::lookup(identity_members(v), "system"@) == Some(identity_members(v)[7].1),
        json::lookup(identity_members(v), "nac"@) == Some(identity_members(v)[8].1),
        json::lookup(identity_members(v), "tg"@) == Some(identity_members(v)[9].1),
        json::lookup(identity_members(v), "alias"@) == Some(identity_members(v)[10].1),
        json::lookup(identity_members(v), "tone"@) is None,
        json::lookup(identity_members(v), "alphatag"@) is None,
        json::lookup(identity_members(v), "src"@) is None,
        json::lookup(identity_members(v), "delta_db"@) is None,
        json::lookup(identity_members(v), "signal_db"@) is None,
        json::lookup(identity_members(v), "floor_db"@) is None,
        json::lookup(identity_members(v), "offset_hz"@) is None,
        json::lookup(identity_members(v), "mdc"@) is None,
        json::lookup(identity_members(v), "wav_rate"@) is None,
{
    let kv = identity_members(v);
    lemma_keys();
    lemma_lookup(kv, 0, "version"@);
    lemma_lookup(kv, 1, "start_ms"@);
    lemma_lookup(kv, 2, "duration_ms"@);
    lemma_lookup(kv, 3, "hz"@);
    lemma_lookup(kv, 4, "mode"@);
    lemma_lookup(kv, 5, "emergency"@);
    lemma_lookup(kv, 6, "encrypted"@);
    lemma_lookup(kv, 7, "system"@);
    lemma_lookup(kv, 8, "nac"@);
    lemma_lookup(kv, 9, "tg"@);
    lemma_lookup(kv, 10, "alias"@);
    lemma_lookup_none(kv, "tone"@);
    lemma_lookup_none(kv, "alphatag"@);
    lemma_lookup_none(kv, "src"@);
    lemma_lookup_none(kv, "delta_db"@);
    lemma_lookup_none(kv, "signal_db"@);
    lemma_lookup_none(kv, "floor_db"@);
    lemma_lookup_none(kv, "offset_hz"@);
    lemma_lookup_none(kv, "mdc"@);
    lemma_lookup_none(kv, "wav_rate"@);
}

/// The keys from the source to the offset, and no others that follow the
/// alias, are in the list behind the labels.
#[verifier::spinoff_prover]
proof fn lemma_signal_lookup(v: SidecarView)
    ensures
        json::lookup(signal_members(v), "src"@) == Some(signal_members(v)[0].1),
        json::lookup(signal_members(v), "delta_db"@) == Some(signal_members(v)[1].1),
        json::lookup(signal_members(v), "signal_db"@) == Some(signal_members(v)[2].1),
        json::lookup(signal_members(v), "floor_db"@) == Some(signal_members(v)[3].1),
        json::lookup(signal_members(v), "offset_hz"@) == Some(signal_members(v)[4].1),
        json::lookup(signal_members(v), "mdc"@) is None,
        json::lookup(signal_members(v), "wav_rate"@) is None,
{
    let kv = signal_members(v);
    lemma_keys();
    lemma_lookup(kv, 0, "src"@);
    lemma_lookup(kv, 1, "delta_db"@);
    lemma_lookup(kv, 2, "signal_db"@);
    lemma_lookup(kv, 3, "floor_db"@);
    lemma_lookup(kv, 4, "offset_hz"@);
    lemma_lookup_none(kv, "mdc"@);
    lemma_lookup_none(kv, "wav_rate"@);
}

/// A label answers to its own key only.
proof fn lemma_label_lookup(name: Seq<char>, v: Option<Seq<char>>, key: Seq<char>)
    ensures
        json::lookup(label_member(name, v), key) == match v {
            Some(s) if name == key => Some(JsonView::Str(s)),
            _ => None,
        },
{
    let kv = label_member(name, v);
    if v is Some {
        if name == key {
            lemma_lookup(kv, 0, key);
        } else {
            lemma_lookup_none(kv, key);
        }
    }
}

/// Looking a key up in the whole document.
proof fn lemma_said_lookup(v: SidecarView, key: Seq<char>)
    ensures
        json::lookup(said(v), key) == match json::lookup(identity_members(v), key) {
            Some(x) => Some(x),
            None => match json::lookup(label_member("tone"@, v.tone), key) {
                Some(x) => Some(x),
                None => match json::lookup(label_member("alphatag"@, v.alphatag), key) {
                    Some(x) => Some(x),
                    None => match json::lookup(signal_members(v), key) {
                        Some(x) => Some(x),
                        None => match json::lookup(mdc_member(v), key) {
                            Some(x) => Some(x),
                            None => json::lookup(rate_member(v), key),
                        },
                    },
                },
            },
        },
{
    let a = identity_members(v);
    let b = label_member("tone"@, v.tone);
    let c = label_member("alphatag"@, v.alphatag);
    let d = signal_members(v);
    let e = mdc_member(v);
    let f = rate_member(v);
    lemma_lookup_add(a + b + c + d + e, f, key);
    lemma_lookup_add(a + b + c + d, e, key);
    lemma_lookup_add(a + b + c, d, key);
    lemma_lookup_add(a + b, c, key);
    lemma_lookup_add(a, b, key);
}

/// Each key of the document answers with what was said under it.
#[verifier::spinoff_prover]
proof fn lemma_answers(v: SidecarView)
    ensures
        ({
            let j = JsonView::Obj(said(v));
            &&& j.get("version"@) == Some(identity_members(v)[0].1)
            &&& j.get("start_ms"@) == Some(identity_members(v)[1].1)
            &&& j.get("duration_ms"@) == Some(identity_members(v)[2].1)
            &&& j.get("hz"@) == Some(identity_members(v)[3].1)
            &&& j.get("mode"@) == Some(identity_members(v)[4].1)
            &&& j.get("emergency"@) == Some(identity_members(v)[5].1)
            &&& j.get("encrypted"@) == Some(identity_members(v)[6].1)
            &&& j.get("system"@) == Some(identity_members(v)[7].1)
            &&& j.get("nac"@) == Some(identity_members(v)[8].1)
            &&& j.get("tg"@) == Some(identity_members(v)[9].1)
            &&& j.get("alias"@) == Some(identity_members(v)[10].1)
            &&& j.get("tone"@) == match v.tone {
                Some(s) => Some(JsonView::Str(s)),
                None => None,
            }
            &&& j.get("alphatag"@) == match v.alphatag {
                Some(s) => Some(JsonView::Str(s)),
                None => None,
            }
            &&& j.get("src"@) == Some(signal_members(v)[0].1)
            &&& j.get("delta_db"@) == Some(signal_members(v)[1].1)
            &&& j.get("signal_db"@) == Some(signal_members(v)[2].1)
            &&& j.get("floor_db"@) == Some(signal_members(v)[3].1)
            &&& j.get("offset_hz"@) == Some(signal_members(v)[4].1)
            &&& j.get("mdc"@) == match v.mdc {
                Some(ps) => Some(JsonView::Arr(packet_values(ps))),
                None => None,
            }
            &&& j.get("wav_rate"@) == Some(rate_member(v)[0].1)
        }),
{
    lemma_keys();
    lemma_identity_lookup(v);
    lemma_signal_lookup(v);
    lemma_said_lookup(v, "version"@);
    lemma_said_lookup(v, "start_ms"@);
    lemma_said_lookup(v, "duration_ms"@);
    lemma_said_lookup(v, "hz"@);
    lemma_said_lookup(v, "mode"@);
    lemma_said_lookup(v, "emergency"@);
    lemma_said_lookup(v, "encrypted"@);
    lemma_said_lookup(v, "system"@);
    lemma_said_lookup(v, "nac"@);
    lemma_said_lookup(v, "tg"@);
    lemma_said_lookup(v, "alias"@);
    lemma_said_lookup(v, "tone"@);
    lemma_said_lookup(v, "alphatag"@);
    lemma_said_lookup(v, "src"@);
    lemma_said_lookup(v, "delta_db"@);
    lemma_said_lookup(v, "signal_db"@);
    lemma_said_lookup(v, "floor_db"@);
    lemma_said_lookup(v, "offset_hz"@);
    lemma_said_lookup(v, "mdc"@);
    lemma_said_lookup(v, "wav_rate"@);
    lemma_label_lookup("tone"@, v.tone, "tone"@);
    lemma_label_lookup("alphatag"@, v.alphatag, "tone"@);
    lemma_label_lookup("tone"@, v.tone, "alphatag"@);
    lemma_label_lookup("alphatag"@, v.alphatag, "alphatag"@);
    lemma_label_lookup("tone"@, v.tone, "src"@);
    lemma_label_lookup("alphatag"@, v.alphatag, "src"@);
    lemma_label_lookup("tone"@, v.tone, "delta_db"@);
    lemma_label_lookup("alphatag"@, v.alphatag, "delta_db"@);
    lemma_label_lookup("tone"@, v.tone, "signal_db"@);
    lemma_label_lookup("alphatag"@, v.alphatag, "signal_db"@);
    lemma_label_lookup("tone"@, v.tone, "floor_db"@);
    lemma_label_lookup("alphatag"@, v.alphatag, "floor_db"@);
    lemma_label_lookup("tone"@, v.tone, "offset_hz"@);
    lemma_label_lookup("alphatag"@, v.alphatag, "offset_hz"@);
    lemma_label_lookup("tone"@, v.tone, "mdc"@);
    lemma_label_lookup("alphatag"@, v.alphatag, "mdc"@);
    lemma_label_lookup("tone"@, v.tone, "wav_rate"@);
    lemma_label_lookup("alphatag"@, v.alphatag, "wav_rate"@);
    let m = mdc_member(v);
    if v.mdc is Some {
        lemma_lookup(m, 0, "mdc"@);
        lemma_lookup_none(m, "wav_rate"@);
    }
    lemma_lookup(rate_member(v), 0, "wav_rate"@);
    lemma_lookup_none(rate_member(v), "mdc"@);
    lemma_lookup_none(rate_member(v), "tone"@);
    lemma_lookup_none(rate_member(v), "alphatag"@);
    lemma_mdc_absent(v);
    lemma_signal_absent(v);
}

proof fn lemma_mdc_absent(v: SidecarView)
    ensures
        json::lookup(mdc_member(v), "tone"@) is None,
        json::lookup(mdc_member(v), "alphatag"@) is None,
{
    lemma_keys();
    lemma_lookup_none(mdc_member(v), "tone"@);
    lemma_lookup_none(mdc_member(v), "alphatag"@);
}

proof fn lemma_signal_absent(v: SidecarView)
    ensures
        json::lookup(signal_members(v), "tone"@) is None,
        json::lookup(signal_members(v), "alphatag"@) is None,
{
    lemma_keys();
    lemma_lookup_none(signal_members(v), "tone"@);
    lemma_lookup_none(signal_members(v), "alphatag"@);
}

/// An integer that a double holds answers as itself.
proof fn lemma_integer_answer(j: JsonView, key: Seq<char>, x: int, lo: int, hi: int)
    requires
        j.get(key) == Some(
            JsonView::Num(number_laws::double_of(x < 0, number_laws::size(x), 0)),
        ),
        number_laws::held(number_laws::size(x)),
        lo <= x <= hi,
    ensures
        sidecar::integer_member(j, key, lo, hi) == Some(x),
        sidecar::opt_integer_member(j, key, lo, hi) == Some(Some(x)),
{
    number_laws::lemma_held_rounds(number_laws::size(x), x < 0);
}

/// A level of one decimal answers as itself.
proof fn lemma_level_answer(j: JsonView, key: Seq<char>, v: Option<Binary32>)
    requires
        j.get(key) == Some(level_value(v)),
        opt_one_decimal(v),
    ensures
        v matches Some(x) ==> sidecar::level_member(j, key) == Some(x),
        sidecar::opt_level_member(j, key) == Some(v),
{
}

/// The integers of a document answer as themselves.
#[verifier::spinoff_prover]
proof fn lemma_integers_answer(v: SidecarView)
    requires
        plain_sidecar(v),
    ensures
        ({
            let j = JsonView::Obj(said(v));
            &&& sidecar::integer_member(j, "version"@, 1, 1) == Some(1int)
            &&& sidecar::integer_member(j, "start_ms"@, i64::MIN as int, i64::MAX as int) == Some(
                v.start_ms as int,
            )
            &&& sidecar::integer_member(j, "duration_ms"@, 0, u64::MAX as int) == Some(
                v.duration_ms as int,
            )
            &&& sidecar::integer_member(j, "hz"@, 0, u64::MAX as int) == Some(v.hz as int)
            &&& sidecar::opt_integer_member(j, "tg"@, 0, u32::MAX as int) == Some(
                match v.tg {
                    Some(t) => Some(t as int),
                    None => None,
                },
            )
            &&& sidecar::opt_integer_member(j, "offset_hz"@, i32::MIN as int, i32::MAX as int)
                == Some(
                match v.offset_hz {
                    Some(x) => Some(x as int),
                    None => None,
                },
            )
            &&& sidecar::integer_member(j, "wav_rate"@, 0, u32::MAX as int) == Some(
                v.wav_rate as int,
            )
        }),
{
    let j = JsonView::Obj(said(v));
    lemma_answers(v);
    number_laws::integers_are_held(1);
    lemma_integer_answer(j, "version"@, 1, 1, 1);
    lemma_integer_answer(j, "start_ms"@, v.start_ms as int, i64::MIN as int, i64::MAX as int);
    lemma_integer_answer(j, "duration_ms"@, v.duration_ms as int, 0, u64::MAX as int);
    lemma_integer_answer(j, "hz"@, v.hz as int, 0, u64::MAX as int);
    number_laws::integers_are_held(v.wav_rate as nat);
    lemma_integer_answer(j, "wav_rate"@, v.wav_rate as int, 0, u32::MAX as int);
    if let Some(t) = v.tg {
        number_laws::integers_are_held(t as nat);
        lemma_integer_answer(j, "tg"@, t as int, 0, u32::MAX as int);
    }
    if let Some(x) = v.offset_hz {
        number_laws::integers_are_held(number_laws::size(x as int));
        lemma_integer_answer(j, "offset_hz"@, x as int, i32::MIN as int, i32::MAX as int);
    }
}

/// The levels, the NAC and the packets of a document answer as themselves.
#[verifier::spinoff_prover]
proof fn lemma_others_answer(v: SidecarView)
    requires
        plain_sidecar(v),
    ensures
        ({
            let j = JsonView::Obj(said(v));
            &&& sidecar::level_member(j, "delta_db"@) == Some(v.delta_db)
            &&& sidecar::opt_level_member(j, "signal_db"@) == Some(v.signal_db)
            &&& sidecar::opt_level_member(j, "floor_db"@) == Some(v.floor_db)
            &&& sidecar::nac_of(j) == Some(v.nac)
            &&& sidecar::mdc_of(j) == Some(v.mdc)
        }),
{
    let j = JsonView::Obj(said(v));
    lemma_answers(v);
    lemma_level_answer(j, "delta_db"@, Some(v.delta_db));
    lemma_level_answer(j, "signal_db"@, v.signal_db);
    lemma_level_answer(j, "floor_db"@, v.floor_db);
    if let Some(n) = v.nac {
        lemma_hex_reads(n, 3);
    }
    if let Some(ps) = v.mdc {
        lemma_mdc_reads(ps);
    }
}

/// What a recorder embeds, a reader reads back: the document of a sidecar
/// gives the sidecar again, with every text that it can have. An integer must
/// be one that a double holds, and a level must be what its one decimal says.
#[verifier::spinoff_prover]
pub proof fn sidecar_reads_back(v: SidecarView)
    requires
        plain_sidecar(v),
    ensures
        SidecarView::read(v.json_text()) == Some(v),
{
    lemma_document_reads(v);
    lemma_answers(v);
    lemma_integers_answer(v);
    lemma_others_answer(v);
    let j = JsonView::Obj(said(v));
    assert(SidecarView::complete(j));
    assert(SidecarView::of_json(j) =~= v);
}

// ---------------------------------------------------------------------
// What a document says, and what is taken from it.
// ---------------------------------------------------------------------
/// An integer in a document: a number, and the integer itself where a double
/// holds it.
pub open spec fn says_integer(v: Option<JsonView>, x: int) -> bool {
    v matches Some(JsonView::Num(n)) && (number_laws::held(number_laws::size(x)) ==> n.integral(
        x,
        x,
    ) == Some(x))
}

proof fn lemma_says_integer(x: int)
    ensures
        says_integer(
            Some(JsonView::Num(number_laws::double_of(x < 0, number_laws::size(x), 0))),
            x,
        ),
        -0x20_0000_0000_0000 <= x <= 0x20_0000_0000_0000 ==> number_laws::held(
            number_laws::size(x),
        ),
{
    if number_laws::held(number_laws::size(x)) {
        number_laws::lemma_held_rounds(number_laws::size(x), x < 0);
    }
    if -0x20_0000_0000_0000 <= x <= 0x20_0000_0000_0000 {
        number_laws::integers_are_held(number_laws::size(x));
    }
}

/// A level in a document: a number that narrows to the level, where one
/// decimal gives it back.
pub open spec fn says_level(v: Option<JsonView>, x: Binary32) -> bool {
    v matches Some(JsonView::Num(n)) && (one_decimal(x) ==> n.narrowed() == x)
}

/// A packet in a document: opcode and argument as numbers, the unit in four
/// hexadecimal digits.
pub open spec fn says_packet(v: JsonView, p: (u8, u8, u16)) -> bool {
    &&& v.get("op"@) matches Some(JsonView::Num(n)) && n.integral(0, 255) == Some(p.0 as int)
    &&& v.get("arg"@) matches Some(JsonView::Num(n)) && n.integral(0, 255) == Some(p.1 as int)
    &&& v.get("unit_id"@) matches Some(JsonView::Str(x)) && x.len() == 4 && numeral_laws::says(
        x,
        16,
        p.2 as int,
    )
}

proof fn lemma_says_packet(p: (u8, u8, u16))
    ensures
        says_packet(JsonView::Obj(packet_members(p)), p),
{
    let kv = packet_members(p);
    lemma_packet_keys();
    lemma_lookup(kv, 0, "op"@);
    lemma_lookup(kv, 1, "arg"@);
    lemma_lookup(kv, 2, "unit_id"@);
    number_laws::integers_are_held(p.0 as nat);
    number_laws::integers_are_held(p.1 as nat);
    number_laws::lemma_held_rounds(p.0 as nat, false);
    number_laws::lemma_held_rounds(p.1 as nat, false);
    numeral_laws::filled_numerals_say_their_number(p.2 as nat, 16, 4);
    lemma_four_digits(p.2 as nat);
}

proof fn lemma_four_digits(v: nat)
    requires
        v < 0x1_0000,
    ensures
        text::numeral(v, 16).len() <= 4,
{
    reveal_with_fuel(text::numeral, 5);
}

/// What the document of a sidecar says, key by key: each field under its own
/// name, and no other's. `version` comes first and is 1; what a call does not
/// have is `null`, and of the tone, the label and the packets there is no key.
#[verifier::spinoff_prover]
pub proof fn documents_say_the_call(v: SidecarView)
    requires
        finite_levels(v),
    ensures
        json::document(v.json_text(), true) matches Some(j) && {
            &&& j matches JsonView::Obj(kv) && kv[0].0 == "version"@
            &&& says_integer(j.get("version"@), 1)
            &&& says_integer(j.get("start_ms"@), v.start_ms as int)
            &&& says_integer(j.get("duration_ms"@), v.duration_ms as int)
            &&& says_integer(j.get("hz"@), v.hz as int)
            &&& j.get("mode"@) == Some(JsonView::Str(v.mode))
            &&& j.get("emergency"@) == Some(JsonView::Bool(v.emergency))
            &&& j.get("encrypted"@) == Some(JsonView::Bool(v.encrypted))
            &&& j.get("system"@) == Some(JsonView::Str(v.system))
            &&& v.nac matches Some(n) ==> (j.get("nac"@) matches Some(JsonView::Str(x)) && x.len()
                >= 3 && numeral_laws::says(x, 16, n as int))
            &&& v.nac is None ==> j.get("nac"@) == Some(JsonView::Null)
            &&& v.tg matches Some(n) ==> says_integer(j.get("tg"@), n as int)
            &&& v.tg is None ==> j.get("tg"@) == Some(JsonView::Null)
            &&& v.alias matches Some(x) ==> j.get("alias"@) == Some(JsonView::Str(x))
            &&& v.alias is None ==> j.get("alias"@) == Some(JsonView::Null)
            &&& v.tone matches Some(x) ==> j.get("tone"@) == Some(JsonView::Str(x))
            &&& v.tone is None ==> j.get("tone"@) is None
            &&& v.alphatag matches Some(x) ==> j.get("alphatag"@) == Some(JsonView::Str(x))
            &&& v.alphatag is None ==> j.get("alphatag"@) is None
            &&& j.get("src"@) == Some(JsonView::Str(v.src))
            &&& says_level(j.get("delta_db"@), v.delta_db)
            &&& v.signal_db matches Some(x) ==> says_level(j.get("signal_db"@), x)
            &&& v.signal_db is None ==> j.get("signal_db"@) == Some(JsonView::Null)
            &&& v.floor_db matches Some(x) ==> says_level(j.get("floor_db"@), x)
            &&& v.floor_db is None ==> j.get("floor_db"@) == Some(JsonView::Null)
            &&& v.offset_hz matches Some(n) ==> says_integer(j.get("offset_hz"@), n as int)
            &&& v.offset_hz is None ==> j.get("offset_hz"@) == Some(JsonView::Null)
            &&& v.mdc matches Some(ps) ==> (j.get("mdc"@) matches Some(JsonView::Arr(a)) && a.len()
                == ps.len() && forall|i: int|
                0 <= i < ps.len() ==> says_packet(#[trigger] a[i], ps[i]))
            &&& v.mdc is None ==> j.get("mdc"@) is None
            &&& says_integer(j.get("wav_rate"@), v.wav_rate as int)
        },
{
    lemma_document_reads(v);
    lemma_answers(v);
    lemma_says_integer(1);
    lemma_says_integer(v.start_ms as int);
    lemma_says_integer(v.duration_ms as int);
    lemma_says_integer(v.hz as int);
    lemma_says_integer(v.wav_rate as int);
    if let Some(n) = v.tg {
        lemma_says_integer(n as int);
    }
    if let Some(n) = v.offset_hz {
        lemma_says_integer(n as int);
    }
    if let Some(n) = v.nac {
        numeral_laws::filled_numerals_say_their_number(n as nat, 16, 3);
    }
    if let Some(ps) = v.mdc {
        let a = packet_values(ps);
        assert forall|i: int| 0 <= i < ps.len() implies says_packet(#[trigger] a[i], ps[i]) by {
            lemma_says_packet(ps[i]);
        }
    }
    assert(said(v)[0] == identity_members(v)[0]);
}

/// A hexadecimal digit, letters in either case.
pub open spec fn is_hex(c: char) -> bool {
    '0' <= c <= '9' || 'A' <= c <= 'F' || 'a' <= c <= 'f'
}

proof fn lemma_hex_digits(s: Seq<char>)
    ensures
        text::digits_value(s, 16) is Some <==> forall|i: int|
            0 <= i < s.len() ==> is_hex(#[trigger] s[i]),
    decreases s.len(),
{
    if s.len() > 0 {
        let t = s.drop_last();
        lemma_hex_digits(t);
        if text::digits_value(s, 16) is Some {
            assert forall|i: int| 0 <= i < s.len() implies is_hex(#[trigger] s[i]) by {
                if i < t.len() {
                    assert(is_hex(t[i]));
                }
            }
        }
        if forall|i: int| 0 <= i < s.len() ==> is_hex(#[trigger] s[i]) {
            assert(is_hex(s[s.len() - 1]));
            assert forall|i: int| 0 <= i < t.len() implies is_hex(#[trigger] t[i]) by {
                assert(t[i] == s[i]);
            }
        }
    }
}

/// Hexadecimal text is read as a number of 16 bits where it is digits, one at
/// least, and what they are worth by their places fits.
pub proof fn hexadecimal_by_place(s: Seq<char>)
    ensures
        s.len() == 0 ==> sidecar::hex_number(s) is None,
        (exists|i: int| 0 <= i < s.len() && !is_hex(#[trigger] s[i])) ==> sidecar::hex_number(s)
            is None,
        numeral_laws::says(s, 16, numeral_laws::total(s, 16)) ==> {
            let v = numeral_laws::total(s, 16);
            &&& v <= 0xFFFF ==> sidecar::hex_number(s) == Some(v as u16)
            &&& v > 0xFFFF ==> sidecar::hex_number(s) is None
        },
{
    lemma_hex_digits(s);
    numeral_laws::digits_are_read_by_place(s, 16);
}

/// What a reader takes from a document, key by key: each field from under its
/// own name.
pub proof fn readers_take_each_field_by_name(t: Seq<char>)
    ensures
        SidecarView::read(t) matches Some(s) ==> (json::document(t, true) matches Some(j) && {
            &&& j.get("version"@) matches Some(JsonView::Num(n)) && n.integral(1, 1) == Some(1int)
            &&& j.get("start_ms"@) matches Some(JsonView::Num(n)) && n.integral(
                -0x8000_0000_0000_0000,
                0x7FFF_FFFF_FFFF_FFFF,
            ) == Some(s.start_ms as int)
            &&& j.get("duration_ms"@) matches Some(JsonView::Num(n)) && n.integral(
                0,
                0xFFFF_FFFF_FFFF_FFFF,
            ) == Some(s.duration_ms as int)
            &&& j.get("hz"@) matches Some(JsonView::Num(n)) && n.integral(0, 0xFFFF_FFFF_FFFF_FFFF)
                == Some(s.hz as int)
            &&& j.get("mode"@) == Some(JsonView::Str(s.mode))
            &&& j.get("emergency"@) == Some(JsonView::Bool(s.emergency))
            &&& j.get("encrypted"@) == Some(JsonView::Bool(s.encrypted))
            &&& j.get("system"@) == Some(JsonView::Str(s.system))
            &&& s.nac is None ==> j.get("nac"@) == Some(JsonView::Null)
            &&& s.nac matches Some(v) ==> (j.get("nac"@) matches Some(JsonView::Str(x))
                && sidecar::hex_number(x) == Some(v))
            &&& s.tg is None ==> j.get("tg"@) == Some(JsonView::Null)
            &&& s.tg matches Some(v) ==> (j.get("tg"@) matches Some(JsonView::Num(n)) && n.integral(
                0,
                0xFFFF_FFFF,
            ) == Some(v as int))
            &&& s.alias is None ==> j.get("alias"@) == Some(JsonView::Null)
            &&& s.alias matches Some(x) ==> j.get("alias"@) == Some(JsonView::Str(x))
            &&& s.tone is None ==> j.get("tone"@) is None || j.get("tone"@) == Some(JsonView::Null)
            &&& s.tone matches Some(x) ==> j.get("tone"@) == Some(JsonView::Str(x))
            &&& s.alphatag is None ==> j.get("alphatag"@) is None || j.get("alphatag"@) == Some(
                JsonView::Null,
            )
            &&& s.alphatag matches Some(x) ==> j.get("alphatag"@) == Some(JsonView::Str(x))
            &&& j.get("src"@) == Some(JsonView::Str(s.src))
            &&& j.get("delta_db"@) matches Some(JsonView::Num(n)) && n.narrowed() == s.delta_db
            &&& s.signal_db is None ==> j.get("signal_db"@) == Some(JsonView::Null)
            &&& s.signal_db matches Some(x) ==> (j.get("signal_db"@) matches Some(JsonView::Num(n))
                && n.narrowed() == x)
            &&& s.floor_db is None ==> j.get("floor_db"@) == Some(JsonView::Null)
            &&& s.floor_db matches Some(x) ==> (j.get("floor_db"@) matches Some(JsonView::Num(n))
                && n.narrowed() == x)
            &&& s.offset_hz is None ==> j.get("offset_hz"@) == Some(JsonView::Null)
            &&& s.offset_hz matches Some(v) ==> (j.get("offset_hz"@) matches Some(JsonView::Num(n))
                && n.integral(-0x8000_0000, 0x7FFF_FFFF) == Some(v as int))
            &&& s.mdc is None ==> j.get("mdc"@) is None
            &&& s.mdc matches Some(ps) ==> (j.get("mdc"@) matches Some(JsonView::Arr(a)) && a.len()
                == ps.len() && forall|i: int|
                0 <= i < ps.len() ==> takes_packet(#[trigger] a[i], ps[i]))
            &&& j.get("wav_rate"@) matches Some(JsonView::Num(n)) && n.integral(0, 0xFFFF_FFFF)
                == Some(s.wav_rate as int)
        }),
{
    if SidecarView::read(t) is Some {
        let j = json::document(t, true)->0;
        if let Some(JsonView::Arr(a)) = j.get("mdc"@) {
            lemma_packets_taken(a);
        }
    }
}

/// A packet as a reader takes it.
pub open spec fn takes_packet(v: JsonView, p: (u8, u8, u16)) -> bool {
    &&& v.get("op"@) matches Some(JsonView::Num(n)) && n.integral(0, 255) == Some(p.0 as int)
    &&& v.get("arg"@) matches Some(JsonView::Num(n)) && n.integral(0, 255) == Some(p.1 as int)
    &&& v.get("unit_id"@) matches Some(JsonView::Str(x)) && sidecar::hex_number(x) == Some(p.2)
}

/// A packet that a reader takes.
pub open spec fn is_packet(v: JsonView) -> bool {
    exists|p: (u8, u8, u16)| takes_packet(v, p)
}

proof fn lemma_packets_taken(a: Seq<JsonView>)
    ensures
        sidecar::packets_of(a) matches Some(ps) ==> a.len() == ps.len() && forall|i: int|
            0 <= i < ps.len() ==> takes_packet(#[trigger] a[i], ps[i]),
    decreases a.len(),
{
    if a.len() > 0 {
        let init = a.drop_last();
        lemma_packets_taken(init);
        if let Some(ps) = sidecar::packets_of(a) {
            let qs = sidecar::packets_of(init)->0;
            assert forall|i: int| 0 <= i < ps.len() implies takes_packet(#[trigger] a[i], ps[i]) by {
                if i < qs.len() {
                    assert(takes_packet(init[i], qs[i]));
                }
            }
        }
    }
}

/// What a reader refuses: a document without one of the keys that are always
/// there, or with a value of another kind under it, or under one of those that
/// may be absent.
pub proof fn readers_refuse_what_they_do_not_know(t: Seq<char>, j: JsonView)
    requires
        json::document(t, true) == Some(j),
    ensures
        !(j.get("version"@) is Some) ==> SidecarView::read(t) is None,
        !(j.get("mode"@) matches Some(JsonView::Str(_))) ==> SidecarView::read(t) is None,
        !(j.get("emergency"@) matches Some(JsonView::Bool(_))) ==> SidecarView::read(t) is None,
        !(j.get("encrypted"@) matches Some(JsonView::Bool(_))) ==> SidecarView::read(t) is None,
        !(j.get("system"@) matches Some(JsonView::Str(_))) ==> SidecarView::read(t) is None,
        !(j.get("src"@) matches Some(JsonView::Str(_))) ==> SidecarView::read(t) is None,
        !(j.get("start_ms"@) matches Some(JsonView::Num(_))) ==> SidecarView::read(t) is None,
        !(j.get("duration_ms"@) matches Some(JsonView::Num(_))) ==> SidecarView::read(t) is None,
        !(j.get("hz"@) matches Some(JsonView::Num(_))) ==> SidecarView::read(t) is None,
        !(j.get("delta_db"@) matches Some(JsonView::Num(_))) ==> SidecarView::read(t) is None,
        !(j.get("wav_rate"@) matches Some(JsonView::Num(_))) ==> SidecarView::read(t) is None,
        j.get("nac"@) is None || j.get("tg"@) is None || j.get("alias"@) is None || j.get(
            "signal_db"@,
        ) is None || j.get("floor_db"@) is None || j.get("offset_hz"@) is None
            ==> SidecarView::read(t) is None,
        (j.get("mdc"@) is Some && !(j.get("mdc"@) matches Some(JsonView::Arr(_))))
            ==> SidecarView::read(t) is None,
{
}

/// What a reader takes: a document that has every key that is always there,
/// each of its kind and in its range.
pub proof fn readers_take_what_they_know(t: Seq<char>, j: JsonView)
    requires
        json::document(t, true) == Some(j),
        j.get("version"@) matches Some(JsonView::Num(n)) && n.integral(1, 1) is Some,
        j.get("start_ms"@) matches Some(JsonView::Num(n)) && n.integral(
            -0x8000_0000_0000_0000,
            0x7FFF_FFFF_FFFF_FFFF,
        ) is Some,
        j.get("duration_ms"@) matches Some(JsonView::Num(n)) && n.integral(
            0,
            0xFFFF_FFFF_FFFF_FFFF,
        ) is Some,
        j.get("hz"@) matches Some(JsonView::Num(n)) && n.integral(0, 0xFFFF_FFFF_FFFF_FFFF)
            is Some,
        j.get("mode"@) matches Some(JsonView::Str(_)),
        j.get("emergency"@) matches Some(JsonView::Bool(_)),
        j.get("encrypted"@) matches Some(JsonView::Bool(_)),
        j.get("system"@) matches Some(JsonView::Str(_)),
        j.get("nac"@) == Some(JsonView::Null) || (j.get("nac"@) matches Some(JsonView::Str(x))
            && sidecar::hex_number(x) is Some),
        j.get("tg"@) == Some(JsonView::Null) || (j.get("tg"@) matches Some(JsonView::Num(n))
            && n.integral(0, 0xFFFF_FFFF) is Some),
        j.get("alias"@) == Some(JsonView::Null) || (j.get("alias"@) matches Some(
            JsonView::Str(_),
        )),
        j.get("tone"@) is None || j.get("tone"@) == Some(JsonView::Null) || (j.get(
            "tone"@,
        ) matches Some(JsonView::Str(_))),
        j.get("alphatag"@) is None || j.get("alphatag"@) == Some(JsonView::Null) || (j.get(
            "alphatag"@,
        ) matches Some(JsonView::Str(_))),
        j.get("src"@) matches Some(JsonView::Str(_)),
        j.get("delta_db"@) matches Some(JsonView::Num(n)) && n.narrowed().magnitude()
            < 0x7F80_0000,
        j.get("signal_db"@) == Some(JsonView::Null) || (j.get("signal_db"@) matches Some(
            JsonView::Num(n),
        ) && n.narrowed().magnitude() < 0x7F80_0000),
        j.get("floor_db"@) == Some(JsonView::Null) || (j.get("floor_db"@) matches Some(
            JsonView::Num(n),
        ) && n.narrowed().magnitude() < 0x7F80_0000),
        j.get("offset_hz"@) == Some(JsonView::Null) || (j.get("offset_hz"@) matches Some(
            JsonView::Num(n),
        ) && n.integral(-0x8000_0000, 0x7FFF_FFFF) is Some),
        j.get("mdc"@) is None || (j.get("mdc"@) matches Some(JsonView::Arr(a)) && forall|i: int|
            0 <= i < a.len() ==> is_packet(#[trigger] a[i])),
        j.get("wav_rate"@) matches Some(JsonView::Num(n)) && n.integral(0, 0xFFFF_FFFF) is Some,
    ensures
        SidecarView::read(t) is Some,
{
    if let Some(JsonView::Arr(a)) = j.get("mdc"@) {
        lemma_packets_takeable(a);
    }
}

proof fn lemma_packets_takeable(a: Seq<JsonView>)
    requires
        forall|i: int|
            0 <= i < a.len() ==> is_packet(#[trigger] a[i]),
    ensures
        sidecar::packets_of(a) is Some,
    decreases a.len(),
{
    if a.len() > 0 {
        let init = a.drop_last();
        assert forall|i: int| 0 <= i < init.len() implies is_packet(#[trigger] init[i]) by {
            assert(init[i] == a[i]);
        }
        lemma_packets_takeable(init);
        let z = a[a.len() - 1];
        assert(is_packet(z));
        let p = choose|p: (u8, u8, u16)| takes_packet(z, p);
        assert(takes_packet(z, p));
    }
}

// ---------------------------------------------------------------------
// The text of a document.
// ---------------------------------------------------------------------
/// Texts with a comma between them.
pub open spec fn listed(parts: Seq<Seq<char>>) -> Seq<char>
    decreases parts.len(),
{
    if parts.len() == 0 {
        Seq::empty()
    } else if parts.len() == 1 {
        parts[0]
    } else {
        parts[0] + seq![','] + listed(parts.skip(1))
    }
}

/// A key in quotes, a colon, and the text of its value.
pub open spec fn entry(key: Seq<char>, value: Seq<char>) -> Seq<char> {
    seq!['"'] + key + seq!['"', ':'] + value
}

spec fn entries(fs: Seq<(Seq<char>, Seq<char>)>) -> Seq<Seq<char>> {
    Seq::new(fs.len(), |i: int| entry(fs[i].0, fs[i].1))
}

proof fn lemma_listed(fs: Seq<(Seq<char>, Seq<char>)>)
    requires
        fs.len() > 0,
    ensures
        sidecar::member_text(fs[0]) + sidecar::further(fs.skip(1)) == listed(entries(fs)),
    decreases fs.len(),
{
    let more = fs.skip(1);
    let first = sidecar::member_text(fs[0]);
    assert(entries(fs)[0] == first);
    assert(entries(fs).skip(1) =~= entries(more));
    if fs.len() == 1 {
        assert(first + sidecar::further(more) =~= first);
    } else {
        lemma_further_front(more);
        lemma_listed(more);
        let tail = sidecar::member_text(more[0]) + sidecar::further(more.skip(1));
        assert(first + (seq![','] + sidecar::member_text(more[0]) + sidecar::further(more.skip(1)))
            =~= first + seq![','] + tail);
    }
}

/// The text of an object without blanks.
proof fn lemma_object_listed(fs: Seq<(Seq<char>, Seq<char>)>)
    requires
        fs.len() > 0,
    ensures
        sidecar::object_text(fs) == seq!['{'] + listed(entries(fs)) + seq!['}'],
{
    lemma_listed(fs);
    assert(sidecar::object_text(fs) =~= seq!['{'] + (sidecar::member_text(fs[0])
        + sidecar::further(fs.skip(1))) + seq!['}']);
}

/// The text of a packet: opcode, argument and unit, in this order, the unit
/// in four hexadecimal digits.
pub open spec fn packet_entry(p: (u8, u8, u16)) -> Seq<char> {
    seq!['{'] + listed(
        seq![
            entry("op"@, text::decimal(p.0 as nat)),
            entry("arg"@, text::decimal(p.1 as nat)),
            entry(
                "unit_id"@,
                seq!['"'] + text::zero_filled(text::numeral(p.2 as nat, 16), 4) + seq!['"'],
            ),
        ],
    ) + seq!['}']
}

proof fn lemma_packet_listed(p: (u8, u8, u16))
    ensures
        sidecar::object_text(sidecar::packet_fields(p)) == packet_entry(p),
{
    let fs = sidecar::packet_fields(p);
    lemma_object_listed(fs);
    assert(entries(fs) =~= seq![
        entry("op"@, text::decimal(p.0 as nat)),
        entry("arg"@, text::decimal(p.1 as nat)),
        entry(
            "unit_id"@,
            seq!['"'] + text::zero_filled(text::numeral(p.2 as nat, 16), 4) + seq!['"'],
        ),
    ]);
}

proof fn lemma_packets_listed(ps: Seq<(u8, u8, u16)>)
    ensures
        sidecar::packets_text(ps) == listed(Seq::new(ps.len(), |i: int| packet_entry(ps[i]))),
    decreases ps.len(),
{
    let parts = Seq::new(ps.len(), |i: int| packet_entry(ps[i]));
    if ps.len() == 1 {
        lemma_packet_listed(ps[0]);
    } else if ps.len() > 1 {
        lemma_packets_front(ps);
        lemma_packet_listed(ps[0]);
        lemma_packets_listed(ps.skip(1));
        let more = ps.skip(1);
        assert(parts.skip(1) =~= Seq::new(more.len(), |i: int| packet_entry(more[i])));
    }
}

/// Text that may be absent, `null` where it is.
pub open spec fn text_or_null(v: Option<Seq<char>>) -> Seq<char> {
    match v {
        Some(x) => seq!['"'] + sidecar::escaped(x) + seq!['"'],
        None => "null"@,
    }
}

/// A level that may be absent, `null` where it is.
pub open spec fn level_or_null(v: Option<Binary32>) -> Seq<char> {
    match v {
        Some(x) => x.fixed(1),
        None => "null"@,
    }
}

/// A truth value.
pub open spec fn truth(b: bool) -> Seq<char> {
    if b {
        "true"@
    } else {
        "false"@
    }
}

/// The text of a sidecar's document, member by member in their order: without
/// blanks, the version first, and the keys of the tone, the label and the
/// packets only where there are any.
#[verifier::spinoff_prover]
pub proof fn documents_are_written_in_order(v: SidecarView)
    ensures
        ({
            let first = seq![
                entry("version"@, seq!['1']),
                entry("start_ms"@, text::signed_decimal(v.start_ms as int)),
                entry("duration_ms"@, text::decimal(v.duration_ms as nat)),
                entry("hz"@, text::decimal(v.hz as nat)),
                entry("mode"@, text_or_null(Some(v.mode))),
                entry("emergency"@, truth(v.emergency)),
                entry("encrypted"@, truth(v.encrypted)),
                entry("system"@, text_or_null(Some(v.system))),
                entry("nac"@, match v.nac {
                    Some(n) => seq!['"'] + text::zero_filled(text::numeral(n as nat, 16), 3) + seq![
                        '"',
                    ],
                    None => "null"@,
                }),
                entry("tg"@, match v.tg {
                    Some(n) => text::decimal(n as nat),
                    None => "null"@,
                }),
                entry("alias"@, text_or_null(v.alias)),
            ];
            let tone = match v.tone {
                Some(x) => seq![entry("tone"@, text_or_null(Some(x)))],
                None => Seq::empty(),
            };
            let tag = match v.alphatag {
                Some(x) => seq![entry("alphatag"@, text_or_null(Some(x)))],
                None => Seq::empty(),
            };
            let signal = seq![
                entry("src"@, text_or_null(Some(v.src))),
                entry("delta_db"@, v.delta_db.fixed(1)),
                entry("signal_db"@, level_or_null(v.signal_db)),
                entry("floor_db"@, level_or_null(v.floor_db)),
                entry("offset_hz"@, match v.offset_hz {
                    Some(n) => text::signed_decimal(n as int),
                    None => "null"@,
                }),
            ];
            let mdc = match v.mdc {
                Some(ps) => seq![
                    entry(
                        "mdc"@,
                        seq!['['] + listed(Seq::new(ps.len(), |i: int| packet_entry(ps[i]))) + seq![
                            ']',
                        ],
                    ),
                ],
                None => Seq::empty(),
            };
            let rate = seq![entry("wav_rate"@, text::decimal(v.wav_rate as nat))];
            v.json_text() == seq!['{'] + listed(first + tone + tag + signal + mdc + rate) + seq![
                '}',
            ]
        }),
{
    reveal_strlit("null");
    reveal_strlit("true");
    reveal_strlit("false");
    assert("null"@ =~= sidecar::null_text());
    assert("true"@ =~= sidecar::bool_text(true));
    assert("false"@ =~= sidecar::bool_text(false));
    assert(text::decimal(1) =~= seq!['1']);
    if let Some(ps) = v.mdc {
        lemma_packets_listed(ps);
    }
    lemma_object_listed(v.fields());
    let tone = SidecarView::label_field("tone"@, v.tone);
    let tag = SidecarView::label_field("alphatag"@, v.alphatag);
    let rate = seq![("wav_rate"@, text::decimal(v.wav_rate as nat))];
    let a = entries(v.identity_fields());
    let b = entries(tone);
    let c = entries(tag);
    let d = entries(v.signal_fields());
    let e = entries(v.mdc_field());
    let f = entries(rate);
    assert(entries(v.fields()) =~= a + b + c + d + e + f);
    assert(a =~= seq![
        entry("version"@, seq!['1']),
        entry("start_ms"@, text::signed_decimal(v.start_ms as int)),
        entry("duration_ms"@, text::decimal(v.duration_ms as nat)),
        entry("hz"@, text::decimal(v.hz as nat)),
        entry("mode"@, text_or_null(Some(v.mode))),
        entry("emergency"@, truth(v.emergency)),
        entry("encrypted"@, truth(v.encrypted)),
        entry("system"@, text_or_null(Some(v.system))),
        entry("nac"@, match v.nac {
            Some(n) => seq!['"'] + text::zero_filled(text::numeral(n as nat, 16), 3) + seq!['"'],
            None => "null"@,
        }),
        entry("tg"@, match v.tg {
            Some(n) => text::decimal(n as nat),
            None => "null"@,
        }),
        entry("alias"@, text_or_null(v.alias)),
    ]);
    assert(d =~= seq![
        entry("src"@, text_or_null(Some(v.src))),
        entry("delta_db"@, v.delta_db.fixed(1)),
        entry("signal_db"@, level_or_null(v.signal_db)),
        entry("floor_db"@, level_or_null(v.floor_db)),
        entry("offset_hz"@, match v.offset_hz {
            Some(n) => text::signed_decimal(n as int),
            None => "null"@,
        }),
    ]);
    assert(f =~= seq![entry("wav_rate"@, text::decimal(v.wav_rate as nat))]);
    if let Some(x) = v.tone {
        assert(b =~= seq![entry("tone"@, text_or_null(Some(x)))]);
    } else {
        assert(b =~= Seq::empty());
    }
    if let Some(x) = v.alphatag {
        assert(c =~= seq![entry("alphatag"@, text_or_null(Some(x)))]);
    } else {
        assert(c =~= Seq::empty());
    }
    if let Some(ps) = v.mdc {
        assert(e =~= seq![
            entry(
                "mdc"@,
                seq!['['] + listed(Seq::new(ps.len(), |i: int| packet_entry(ps[i]))) + seq![']'],
            ),
        ]);
    } else {
        assert(e =~= Seq::empty());
    }
}

} // verus!
