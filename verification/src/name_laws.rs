//! What holds of the archive names: they can be taken apart again.
use crate::calendar;
use crate::decimal;
use crate::ieee;
use crate::ieee::Binary32;
use crate::json_laws;
use crate::levels;
use crate::name;
use crate::number;
use crate::number_laws;
use crate::numeral_laws;
use crate::record::Mode;
use crate::sidecar::SidecarView;
use crate::sidecar_laws;
use crate::text;
use vstd::prelude::*;
use vstd::string::*;

verus! {

// ---------------------------------------------------------------------
// Dashes.
// ---------------------------------------------------------------------
/// The parts of a text between its dashes.
pub open spec fn split(s: Seq<char>) -> Seq<Seq<char>>
    decreases s.len(),
{
    if s.len() == 0 {
        seq![Seq::empty()]
    } else {
        let parts = split(s.drop_last());
        if s.last() == '-' {
            parts.push(Seq::empty())
        } else {
            parts.drop_last().push(parts.last().push(s.last()))
        }
    }
}

/// A text without dashes.
pub open spec fn dashless(s: Seq<char>) -> bool {
    forall|i: int| 0 <= i < s.len() ==> #[trigger] s[i] != '-'
}

proof fn lemma_split_nonempty(s: Seq<char>)
    ensures
        split(s).len() > 0,
    decreases s.len(),
{
    if s.len() > 0 {
        lemma_split_nonempty(s.drop_last());
    }
}

/// Text without dashes extends the last part.
proof fn lemma_split_extends(s: Seq<char>, t: Seq<char>)
    requires
        dashless(t),
    ensures
        split(s + t) == split(s).drop_last().push(split(s).last() + t),
    decreases t.len(),
{
    lemma_split_nonempty(s);
    if t.len() == 0 {
        assert(s + t =~= s);
        assert(split(s).last() + t =~= split(s).last());
        assert(split(s).drop_last().push(split(s).last()) =~= split(s));
    } else {
        let u = t.drop_last();
        assert(dashless(u)) by {
            assert forall|i: int| 0 <= i < u.len() implies #[trigger] u[i] != '-' by {
                assert(u[i] == t[i]);
            }
        }
        lemma_split_extends(s, u);
        assert((s + t).drop_last() =~= s + u);
        assert((s + t).last() == t.last());
        assert(t[t.len() - 1] != '-');
        let parts = split(s + u);
        assert(parts.last() == split(s).last() + u);
        assert(parts.drop_last() =~= split(s).drop_last());
        assert((split(s).last() + u).push(t.last()) =~= split(s).last() + t);
    }
}

/// A single split at the dashes gives back the fields that dashes joined.
pub proof fn dashes_split(fields: Seq<Seq<char>>)
    requires
        fields.len() > 0,
        forall|i: int| 0 <= i < fields.len() ==> dashless(#[trigger] fields[i]),
    ensures
        split(name::dashed(fields)) == fields,
    decreases fields.len(),
{
    let none = Seq::<char>::empty();
    if fields.len() == 1 {
        lemma_split_extends(none, fields[0]);
        assert(none + fields[0] =~= fields[0]);
        assert(split(none) =~= seq![none]);
        assert(split(fields[0]) =~= fields);
    } else {
        let init = fields.drop_last();
        assert forall|i: int| 0 <= i < init.len() implies dashless(#[trigger] init[i]) by {
            assert(init[i] == fields[i]);
        }
        dashes_split(init);
        let s = name::dashed(init) + seq!['-'];
        let last = fields.last();
        assert(dashless(fields[fields.len() - 1]));
        assert(s.drop_last() =~= name::dashed(init));
        assert(split(s) == init.push(none));
        lemma_split_extends(s, last);
        assert(name::dashed(fields) =~= s + last);
        assert(none + last =~= last);
        assert(split(s).drop_last() =~= init);
        assert(init.push(last) =~= fields);
    }
}

/// Digits have no dash.
proof fn lemma_padded_dashless(v: nat, width: int)
    ensures
        dashless(name::padded(v, width)),
        dashless(text::decimal(v)),
{
    json_laws::lemma_decimal_spells(v);
    let d = text::decimal(v);
    let s = name::padded(v, width);
    assert forall|i: int| 0 <= i < s.len() implies #[trigger] s[i] != '-' by {
        let k = i - (s.len() - d.len());
        if k >= 0 {
            assert(s[i] == d[k]);
        }
    }
}

proof fn lemma_dashless_add(a: Seq<char>, b: Seq<char>)
    requires
        dashless(a),
        dashless(b),
    ensures
        dashless(a + b),
{
    assert forall|i: int| 0 <= i < (a + b).len() implies #[trigger] (a + b)[i] != '-' by {
        if i < a.len() {
            assert((a + b)[i] == a[i]);
        } else {
            assert((a + b)[i] == b[i - a.len()]);
        }
    }
}

proof fn lemma_time_dashless(ms: int)
    ensures
        dashless(name::time_text(ms)),
{
    let h = name::padded((ms / 3_600_000) as nat, 2);
    let m = name::padded((ms / 60_000 % 60) as nat, 2);
    let s = name::padded((ms / 1000 % 60) as nat, 2);
    let f = name::padded((ms % 1000) as nat, 3);
    lemma_padded_dashless((ms / 3_600_000) as nat, 2);
    lemma_padded_dashless((ms / 60_000 % 60) as nat, 2);
    lemma_padded_dashless((ms / 1000 % 60) as nat, 2);
    lemma_padded_dashless((ms % 1000) as nat, 3);
    lemma_dashless_add(h, seq![':']);
    lemma_dashless_add(h + seq![':'], m);
    lemma_dashless_add(h + seq![':'] + m, seq![':']);
    lemma_dashless_add(h + seq![':'] + m + seq![':'], s);
    lemma_dashless_add(h + seq![':'] + m + seq![':'] + s, seq!['.']);
    lemma_dashless_add(h + seq![':'] + m + seq![':'] + s + seq!['.'], f);
}

/// A level that is not negative has no dash.
proof fn lemma_level_dashless(x: Binary32)
    requires
        !x.negative(),
    ensures
        dashless(x.fixed(0)),
{
    if !x.nan() && x.magnitude() != ieee::TOP_32 {
        let t = number::half_even(
            ieee::units_32(x.magnitude()) * decimal::tenfold(0),
            ieee::one_32(),
        );
        lemma_padded_dashless((t * decimal::tenfold(0)) as nat, 0);
        assert(x.fixed(0) =~= text::decimal((t * decimal::tenfold(0)) as nat));
    }
}

/// One dash-split parse serves every mode: the last component of an archive
/// path splits into its seven fields, wherever the fields that were handed
/// in have no dash of their own and the level is not negative.
pub proof fn file_name_splits(
    start_ms: int,
    tg: Seq<char>,
    src: Seq<char>,
    flags: Seq<char>,
    nac: Seq<char>,
    hz: nat,
    peak_delta_db: Binary32,
)
    requires
        dashless(tg),
        dashless(src),
        dashless(flags),
        dashless(nac),
        !peak_delta_db.negative(),
    ensures
        split(
            name::dashed(name::leaf_fields(start_ms, tg, src, flags, nac, hz, peak_delta_db)),
        ) == name::leaf_fields(start_ms, tg, src, flags, nac, hz, peak_delta_db),
{
    let f = name::leaf_fields(start_ms, tg, src, flags, nac, hz, peak_delta_db);
    lemma_time_dashless(start_ms % 86_400_000);
    lemma_padded_dashless(hz, 0);
    lemma_level_dashless(peak_delta_db);
    assert forall|i: int| 0 <= i < f.len() implies dashless(#[trigger] f[i]) by {
        assert(i == 0 || i == 1 || i == 2 || i == 3 || i == 4 || i == 5 || i == 6);
    }
    dashes_split(f);
}

// ---------------------------------------------------------------------
// Flags.
// ---------------------------------------------------------------------
/// The flag token says what it was made of: on the token of a mode, a `C`
/// is an emergency and a closing `E` is encryption.
pub proof fn flags_say_what_they_mean(m: Mode, slot: u8, emergency: bool, encrypted: bool)
    ensures
        ({
            let t = name::flags_text(m.token_text(slot), emergency, encrypted);
            &&& t.contains('C') == emergency
            &&& (t.last() == 'E') == encrypted
        }),
{
    let mode = m.token_text(slot);
    let t = name::flags_text(mode, emergency, encrypted);
    json_laws::lemma_decimal_spells(slot as nat);
    json_laws::lemma_decimal_spells((slot + 1) as nat);
    assert forall|i: int| 0 <= i < mode.len() implies #[trigger] mode[i] != 'C' && mode[i] != 'E'
        by {
        if i > 0 {
            match m {
                Mode::P25Tdma => {
                    assert(mode[i] == text::decimal(slot as nat)[i - 1]);
                },
                Mode::Dmr => {
                    assert(mode[i] == text::decimal((slot + 1) as nat)[i - 1]);
                },
                _ => {},
            }
        }
    }
    if emergency {
        assert(t[mode.len() as int] == 'C');
    } else if t.contains('C') {
        let i = choose|i: int| 0 <= i < t.len() && t[i] == 'C';
        if i < mode.len() {
            assert(t[i] == mode[i]);
        }
    }
    if !encrypted && !emergency {
        assert(t =~= mode);
        assert(mode[mode.len() - 1] != 'E');
    }
}

// ---------------------------------------------------------------------
// Times.
// ---------------------------------------------------------------------
/// A padded number is digits, of the width it was given where it has no
/// more, and gives the number back.
proof fn lemma_padded(v: nat, width: nat)
    ensures
        text::digits_value(name::padded(v, width as int), 10) == Some(v),
        json_laws::digits_only(name::padded(v, width as int)),
        name::padded(v, width as int).len() > 0,
        name::padded(v, width as int).len() >= width,
        v < 100 && width == 2 ==> name::padded(v, width as int).len() == 2,
        v < 1000 && width == 3 ==> name::padded(v, width as int).len() == 3,
        v < 10_000 && width == 4 ==> name::padded(v, width as int).len() == 4,
{
    let d = text::decimal(v);
    let s = name::padded(v, width as int);
    json_laws::lemma_decimal_spells(v);
    sidecar_laws::lemma_numeral_spells(v, 10);
    let n = if width > d.len() {
        (width - d.len()) as nat
    } else {
        0
    };
    assert(s =~= text::zero_chars(n as int) + d);
    sidecar_laws::lemma_zeros_in_front(n, d, 10);
    assert forall|i: int| 0 <= i < s.len() implies '0' <= #[trigger] s[i] <= '9' by {
        if i >= n {
            assert(s[i] == d[i - n]);
        }
    }
    reveal_with_fuel(text::numeral, 4);
}

/// Two texts of digits, each followed by something that is no digit, are
/// the same where the whole is.
proof fn lemma_digits_end(a: Seq<char>, x: Seq<char>, b: Seq<char>, y: Seq<char>)
    requires
        json_laws::digits_only(a),
        json_laws::digits_only(b),
        x.len() > 0,
        y.len() > 0,
        !('0' <= x[0] <= '9'),
        !('0' <= y[0] <= '9'),
        a + x == b + y,
    ensures
        a == b,
        x == y,
{
    let s = a + x;
    assert(s[a.len() as int] == x[0]);
    assert((b + y)[b.len() as int] == y[0]);
    if a.len() < b.len() {
        assert((b + y)[a.len() as int] == b[a.len() as int]);
    } else if b.len() < a.len() {
        assert(s[b.len() as int] == a[b.len() as int]);
    }
    assert(a =~= s.take(a.len() as int));
    assert(b =~= (b + y).take(b.len() as int));
    assert(x =~= s.skip(a.len() as int));
    assert(y =~= (b + y).skip(b.len() as int));
}

/// The digits of a year, without its sign.
spec fn year_digits(y: int) -> Seq<char> {
    if y < 0 {
        name::padded((-y) as nat, 3)
    } else {
        name::padded(y as nat, 4)
    }
}

proof fn lemma_year(y: int)
    ensures
        text::signed_zero_filled(y, 4) == number::sign(y < 0) + year_digits(y),
        json_laws::digits_only(year_digits(y)),
        year_digits(y).len() > 0,
        text::digits_value(year_digits(y), 10) == Some(number_laws::size(y)),
{
    if y < 0 {
        lemma_padded((-y) as nat, 3);
    } else {
        lemma_padded(y as nat, 4);
    }
    assert(text::signed_zero_filled(y, 4) =~= number::sign(y < 0) + year_digits(y));
}

/// A day's directory is that day's alone: no two days share one.
pub proof fn a_directory_is_a_day(a: int, b: int)
    requires
        name::day_text(a) == name::day_text(b),
    ensures
        a == b,
{
    let (y, m, d) = calendar::date_of(a);
    let (y1, m1, d1) = calendar::date_of(b);
    calendar::day_has_its_date(a);
    calendar::day_has_its_date(b);
    lemma_year(y);
    lemma_year(y1);
    lemma_padded(m as nat, 2);
    lemma_padded(m1 as nat, 2);
    lemma_padded(d as nat, 2);
    lemma_padded(d1 as nat, 2);
    let pm = name::padded(m as nat, 2);
    let pm1 = name::padded(m1 as nat, 2);
    let pd = name::padded(d as nat, 2);
    let pd1 = name::padded(d1 as nat, 2);
    let yd = year_digits(y);
    let yd1 = year_digits(y1);
    let t = name::day_text(a);
    let t1 = name::day_text(b);
    assert(t[0] == if y < 0 {
        '-'
    } else {
        yd[0]
    });
    assert(t1[0] == if y1 < 0 {
        '-'
    } else {
        yd1[0]
    });
    assert((y < 0) == (y1 < 0));
    let k = number::sign(y < 0).len() as int;
    let x = seq!['/'] + pm + seq!['/'] + pd;
    let x1 = seq!['/'] + pm1 + seq!['/'] + pd1;
    assert(t.skip(k) =~= yd + x);
    assert(t1.skip(k) =~= yd1 + x1);
    lemma_digits_end(yd, x, yd1, x1);
    let z = seq!['/'] + pd;
    let z1 = seq!['/'] + pd1;
    assert(x.skip(1) =~= pm + z);
    assert(x1.skip(1) =~= pm1 + z1);
    lemma_digits_end(pm, z, pm1, z1);
    assert(z.skip(1) =~= pd);
    assert(z1.skip(1) =~= pd1);
    assert(pd == pd1);
    assert(y == y1 && m == m1 && d == d1);
}

/// A time of day is written in twelve characters, and gives itself back.
proof fn lemma_time(ms: int)
    requires
        0 <= ms < 86_400_000,
    ensures
        ({
            let t = name::time_text(ms);
            &&& t.len() == 12
            &&& t.subrange(0, 2) == name::padded((ms / 3_600_000) as nat, 2)
            &&& t.subrange(3, 5) == name::padded((ms / 60_000 % 60) as nat, 2)
            &&& t.subrange(6, 8) == name::padded((ms / 1000 % 60) as nat, 2)
            &&& t.subrange(9, 12) == name::padded((ms % 1000) as nat, 3)
        }),
{
    let t = name::time_text(ms);
    lemma_padded((ms / 3_600_000) as nat, 2);
    lemma_padded((ms / 60_000 % 60) as nat, 2);
    lemma_padded((ms / 1000 % 60) as nat, 2);
    lemma_padded((ms % 1000) as nat, 3);
    assert(t.subrange(0, 2) =~= name::padded((ms / 3_600_000) as nat, 2));
    assert(t.subrange(3, 5) =~= name::padded((ms / 60_000 % 60) as nat, 2));
    assert(t.subrange(6, 8) =~= name::padded((ms / 1000 % 60) as nat, 2));
    assert(t.subrange(9, 12) =~= name::padded((ms % 1000) as nat, 3));
}

/// Every millisecond has a path of its own: no two times are written alike.
pub proof fn a_path_is_a_millisecond(a: int, b: int)
    requires
        name::utc_text(a) == name::utc_text(b),
    ensures
        a == b,
{
    let (da, ta) = (a / 86_400_000, a % 86_400_000);
    let (db, tb) = (b / 86_400_000, b % 86_400_000);
    lemma_time(ta);
    lemma_time(tb);
    let s = name::utc_text(a);
    let s1 = name::utc_text(b);
    let n = s.len() - 12;
    assert(s.skip(n) =~= name::time_text(ta));
    assert(s1.skip(n) =~= name::time_text(tb));
    assert(s.take(n - 1) =~= name::day_text(da));
    assert(s1.take(n - 1) =~= name::day_text(db));
    a_directory_is_a_day(da, db);
    lemma_padded((ta / 3_600_000) as nat, 2);
    lemma_padded((ta / 60_000 % 60) as nat, 2);
    lemma_padded((ta / 1000 % 60) as nat, 2);
    lemma_padded((ta % 1000) as nat, 3);
    lemma_padded((tb / 3_600_000) as nat, 2);
    lemma_padded((tb / 60_000 % 60) as nat, 2);
    lemma_padded((tb / 1000 % 60) as nat, 2);
    lemma_padded((tb % 1000) as nat, 3);
}

// ---------------------------------------------------------------------
// Order.
// ---------------------------------------------------------------------
/// A text stands before another where a list of names is sorted: at the
/// first place where they differ it has the lesser character, or it has
/// ended.
pub open spec fn sorts_before(a: Seq<char>, b: Seq<char>) -> bool
    decreases a.len(),
{
    if a.len() == 0 || b.len() == 0 {
        a.len() < b.len()
    } else {
        a[0] < b[0] || (a[0] == b[0] && sorts_before(a.skip(1), b.skip(1)))
    }
}

/// What two texts open with in common makes no difference.
proof fn lemma_common_front(p: Seq<char>, a: Seq<char>, b: Seq<char>)
    requires
        sorts_before(a, b),
    ensures
        sorts_before(p + a, p + b),
    decreases p.len(),
{
    if p.len() == 0 {
        assert(p + a =~= a);
        assert(p + b =~= b);
    } else {
        lemma_common_front(p.skip(1), a, b);
        assert((p + a).skip(1) =~= p.skip(1) + a);
        assert((p + b).skip(1) =~= p.skip(1) + b);
    }
}

/// What follows two texts of one length that differ makes no difference.
proof fn lemma_any_back(a: Seq<char>, x: Seq<char>, b: Seq<char>, y: Seq<char>)
    requires
        sorts_before(a, b),
        a.len() == b.len(),
    ensures
        sorts_before(a + x, b + y),
    decreases a.len(),
{
    assert((a + x)[0] == a[0]);
    assert((b + y)[0] == b[0]);
    if a[0] == b[0] {
        lemma_any_back(a.skip(1), x, b.skip(1), y);
        assert((a + x).skip(1) =~= a.skip(1) + x);
        assert((b + y).skip(1) =~= b.skip(1) + y);
    }
}

/// Two texts that differ first in a field of one length.
proof fn lemma_field(
    p: Seq<char>,
    a: Seq<char>,
    x: Seq<char>,
    b: Seq<char>,
    y: Seq<char>,
)
    requires
        sorts_before(a, b),
        a.len() == b.len(),
    ensures
        sorts_before(p + a + x, p + b + y),
{
    lemma_any_back(a, x, b, y);
    lemma_common_front(p, a + x, b + y);
    assert(p + a + x =~= p + (a + x));
    assert(p + b + y =~= p + (b + y));
}

/// Digits of one length sort as the numbers that they spell.
proof fn lemma_digits_sort(a: Seq<char>, b: Seq<char>)
    requires
        a.len() == b.len(),
        text::digits_value(a, 10) is Some,
        text::digits_value(b, 10) is Some,
        text::digits_value(a, 10)->0 <= text::digits_value(b, 10)->0,
    ensures
        text::digits_value(a, 10)->0 < text::digits_value(b, 10)->0 ==> sorts_before(a, b),
        text::digits_value(a, 10) == text::digits_value(b, 10) ==> a == b,
    decreases a.len(),
{
    if a.len() == 0 {
        assert(a =~= b);
    } else {
        let p = a.drop_last();
        let q = b.drop_last();
        lemma_digits_sort(p, q);
        assert(a =~= p + seq![a.last()]);
        assert(b =~= q + seq![b.last()]);
        if text::digits_value(p, 10)->0 < text::digits_value(q, 10)->0 {
            lemma_any_back(p, seq![a.last()], q, seq![b.last()]);
        } else if a.last() != b.last() {
            lemma_common_front(p, seq![a.last()], seq![b.last()]);
        }
    }
}

/// Padded numbers of one length sort as the numbers.
proof fn lemma_padded_sort(v: nat, w: nat, width: nat)
    requires
        v < w,
        name::padded(v, width as int).len() == name::padded(w, width as int).len(),
    ensures
        sorts_before(name::padded(v, width as int), name::padded(w, width as int)),
{
    lemma_padded(v, width);
    lemma_padded(w, width);
    lemma_digits_sort(name::padded(v, width as int), name::padded(w, width as int));
}

/// The directories of days of the years from 0 to 9999 sort as the days.
pub proof fn directories_sort_by_day(a: int, b: int)
    requires
        -719_528 <= a < b <= 2_932_896,
    ensures
        name::day_text(a).len() == 10,
        name::day_text(b).len() == 10,
        sorts_before(name::day_text(a), name::day_text(b)),
{
    let (y, m, d) = calendar::date_of(a);
    let (y1, m1, d1) = calendar::date_of(b);
    calendar::day_has_its_date(a);
    calendar::day_has_its_date(b);
    calendar::years_of_four_digits(a);
    calendar::years_of_four_digits(b);
    calendar::dates_follow_days(a, b);
    lemma_padded(y as nat, 4);
    lemma_padded(y1 as nat, 4);
    lemma_padded(m as nat, 2);
    lemma_padded(m1 as nat, 2);
    lemma_padded(d as nat, 2);
    lemma_padded(d1 as nat, 2);
    let s = name::day_text(a);
    let s1 = name::day_text(b);
    let py = name::padded(y as nat, 4);
    let py1 = name::padded(y1 as nat, 4);
    let pm = name::padded(m as nat, 2);
    let pm1 = name::padded(m1 as nat, 2);
    let pd = name::padded(d as nat, 2);
    let pd1 = name::padded(d1 as nat, 2);
    let none = Seq::<char>::empty();
    let slash = seq!['/'];
    if y < y1 {
        lemma_padded_sort(y as nat, y1 as nat, 4);
        lemma_field(none, py, slash + pm + slash + pd, py1, slash + pm1 + slash + pd1);
        assert(s =~= none + py + (slash + pm + slash + pd));
        assert(s1 =~= none + py1 + (slash + pm1 + slash + pd1));
    } else if m < m1 {
        lemma_padded_sort(m as nat, m1 as nat, 2);
        lemma_field(py + slash, pm, slash + pd, pm1, slash + pd1);
        assert(s =~= py + slash + pm + (slash + pd));
        assert(s1 =~= py + slash + pm1 + (slash + pd1));
    } else {
        lemma_padded_sort(d as nat, d1 as nat, 2);
        lemma_field(py + slash + pm + slash, pd, none, pd1, none);
        assert(s =~= py + slash + pm + slash + pd + none);
        assert(s1 =~= py + slash + pm + slash + pd1 + none);
    }
}

/// The hour, the minute, the second and the millisecond of a time of day.
spec fn clock(ms: int) -> (nat, nat, nat, nat) {
    (
        (ms / 3_600_000) as nat,
        (ms / 60_000 % 60) as nat,
        (ms / 1000 % 60) as nat,
        (ms % 1000) as nat,
    )
}

proof fn lemma_clock(ms: int)
    requires
        0 <= ms < 86_400_000,
    ensures
        ({
            let (h, m, s, f) = clock(ms);
            &&& ms == 3_600_000 * h + 60_000 * m + 1000 * s + f
            &&& h < 24 && m < 60 && s < 60 && f < 1000
        }),
{
    let (h, m, s) = (ms / 3_600_000, ms / 60_000, ms / 1000);
    assert(m / 60 == h);
    assert(s / 60 == m);
}

/// What a clock shows, as text.
spec fn clock_text(c: (nat, nat, nat, nat)) -> Seq<char> {
    name::padded(c.0, 2) + seq![':'] + name::padded(c.1, 2) + seq![':'] + name::padded(c.2, 2)
        + seq!['.'] + name::padded(c.3, 3)
}

proof fn lemma_clock_sorts(c: (nat, nat, nat, nat), d: (nat, nat, nat, nat))
    requires
        c.0 < 100 && c.1 < 100 && c.2 < 100 && c.3 < 1000,
        d.0 < 100 && d.1 < 100 && d.2 < 100 && d.3 < 1000,
        c.0 < d.0 || (c.0 == d.0 && (c.1 < d.1 || (c.1 == d.1 && (c.2 < d.2 || (c.2 == d.2 && c.3
            < d.3))))),
    ensures
        sorts_before(clock_text(c), clock_text(d)),
{
    lemma_padded(c.0, 2);
    lemma_padded(d.0, 2);
    lemma_padded(c.1, 2);
    lemma_padded(d.1, 2);
    lemma_padded(c.2, 2);
    lemma_padded(d.2, 2);
    lemma_padded(c.3, 3);
    lemma_padded(d.3, 3);
    let t = clock_text(c);
    let t1 = clock_text(d);
    let ph = name::padded(c.0, 2);
    let ph1 = name::padded(d.0, 2);
    let pm = name::padded(c.1, 2);
    let pm1 = name::padded(d.1, 2);
    let ps = name::padded(c.2, 2);
    let ps1 = name::padded(d.2, 2);
    let pf = name::padded(c.3, 3);
    let pf1 = name::padded(d.3, 3);
    let none = Seq::<char>::empty();
    let colon = seq![':'];
    let point = seq!['.'];
    if c.0 < d.0 {
        let x = colon + pm + colon + ps + point + pf;
        let x1 = colon + pm1 + colon + ps1 + point + pf1;
        lemma_padded_sort(c.0, d.0, 2);
        lemma_field(none, ph, x, ph1, x1);
        assert(t =~= none + ph + x);
        assert(t1 =~= none + ph1 + x1);
    } else if c.1 < d.1 {
        let p = ph + colon;
        let x = colon + ps + point + pf;
        let x1 = colon + ps1 + point + pf1;
        lemma_padded_sort(c.1, d.1, 2);
        lemma_field(p, pm, x, pm1, x1);
        assert(t =~= p + pm + x);
        assert(t1 =~= p + pm1 + x1);
    } else if c.2 < d.2 {
        let p = ph + colon + pm + colon;
        lemma_padded_sort(c.2, d.2, 2);
        lemma_field(p, ps, point + pf, ps1, point + pf1);
        assert(t =~= p + ps + (point + pf));
        assert(t1 =~= p + ps1 + (point + pf1));
    } else {
        let p = ph + colon + pm + colon + ps + point;
        lemma_padded_sort(c.3, d.3, 3);
        lemma_field(p, pf, none, pf1, none);
        assert(t =~= p + pf + none);
        assert(t1 =~= p + pf1 + none);
    }
}

/// Times of day sort as the milliseconds.
proof fn lemma_time_sorts(a: int, b: int)
    requires
        0 <= a < b < 86_400_000,
    ensures
        sorts_before(name::time_text(a), name::time_text(b)),
{
    lemma_clock(a);
    lemma_clock(b);
    lemma_clock_sorts(clock(a), clock(b));
    assert(clock_text(clock(a)) =~= name::time_text(a));
    assert(clock_text(clock(b)) =~= name::time_text(b));
}

/// Paths sort by time: of two milliseconds of the years from 0 to 9999, the
/// earlier one has the path that sorts first, and both paths have 23
/// characters.
pub proof fn paths_sort_by_time(a: int, b: int)
    requires
        -62_167_219_200_000 <= a < b <= 253_402_300_799_999,
    ensures
        name::utc_text(a).len() == 23,
        name::utc_text(b).len() == 23,
        sorts_before(name::utc_text(a), name::utc_text(b)),
{
    let (da, ta) = (a / 86_400_000, a % 86_400_000);
    let (db, tb) = (b / 86_400_000, b % 86_400_000);
    lemma_time(ta);
    lemma_time(tb);
    lemma_day_length(da);
    lemma_day_length(db);
    let s = name::utc_text(a);
    let s1 = name::utc_text(b);
    let none = Seq::<char>::empty();
    let x = seq!['/'] + name::time_text(ta);
    let x1 = seq!['/'] + name::time_text(tb);
    if da < db {
        directories_sort_by_day(da, db);
        lemma_field(none, name::day_text(da), x, name::day_text(db), x1);
        assert(s =~= none + name::day_text(da) + x);
        assert(s1 =~= none + name::day_text(db) + x1);
    } else {
        let p = name::day_text(da) + seq!['/'];
        lemma_time_sorts(ta, tb);
        lemma_field(p, name::time_text(ta), none, name::time_text(tb), none);
        assert(s =~= p + name::time_text(ta) + none);
        assert(s1 =~= p + name::time_text(tb) + none);
    }
}

proof fn lemma_day_length(days: int)
    requires
        -719_528 <= days <= 2_932_896,
    ensures
        name::day_text(days).len() == 10,
{
    let (y, m, d) = calendar::date_of(days);
    calendar::day_has_its_date(days);
    calendar::years_of_four_digits(days);
    lemma_padded(y as nat, 4);
    lemma_padded(m as nat, 2);
    lemma_padded(d as nat, 2);
}

/// Fields that dashes join open with the first of them.
proof fn lemma_dashed_front(fields: Seq<Seq<char>>)
    requires
        fields.len() > 0,
    ensures
        ({
            let s = name::dashed(fields);
            s.len() >= fields[0].len() && s == fields[0] + s.skip(fields[0].len() as int)
        }),
    decreases fields.len(),
{
    let s = name::dashed(fields);
    let n = fields[0].len() as int;
    if fields.len() == 1 {
        assert(s =~= fields[0] + s.skip(n));
    } else {
        let init = fields.drop_last();
        let t = name::dashed(init);
        lemma_dashed_front(init);
        assert(init[0] == fields[0]);
        assert(s =~= t + seq!['-'] + fields.last());
        assert(t.take(n) =~= fields[0]);
        assert(s.take(n) =~= t.take(n));
        assert(s =~= s.take(n) + s.skip(n));
    }
}

/// The directory of a system.
spec fn system_text(out_dir: Seq<char>, system_dir: Seq<char>) -> Seq<char> {
    out_dir + seq!['/'] + (if system_dir.len() == 0 {
        seq!['u', 'n', 'k', 'n', 'o', 'w', 'n']
    } else {
        system_dir
    }) + seq!['/']
}

/// A path is the system's directory, the time, and the rest of the name.
proof fn lemma_path_parts(out_dir: Seq<char>, system_dir: Seq<char>, ms: int, t: Seq<char>)
    requires
        t.len() >= name::time_text(ms % 86_400_000).len(),
        t == name::time_text(ms % 86_400_000) + t.skip(
            name::time_text(ms % 86_400_000).len() as int,
        ),
    ensures
        name::bucket_text(out_dir, system_dir, ms) + seq!['/'] + t == system_text(
            out_dir,
            system_dir,
        ) + name::utc_text(ms) + t.skip(name::time_text(ms % 86_400_000).len() as int),
{
    let front = system_text(out_dir, system_dir);
    let day = name::day_text(ms / 86_400_000);
    let time = name::time_text(ms % 86_400_000);
    let rest = t.skip(time.len() as int);
    let slash = seq!['/'];
    assert(name::bucket_text(out_dir, system_dir, ms) == front + day);
    assert(front + day + slash + (time + rest) =~= front + (day + slash + time) + rest);
}

/// The archive sorts by time: in one system's directory, the call that
/// began earlier has the path that sorts first, whatever else the two file
/// names say.
pub proof fn archive_sorts_by_time(
    out_dir: Seq<char>,
    system_dir: Seq<char>,
    a: int,
    b: int,
    tg: (Seq<char>, Seq<char>),
    src: (Seq<char>, Seq<char>),
    flags: (Seq<char>, Seq<char>),
    nac: (Seq<char>, Seq<char>),
    hz: (nat, nat),
    peak_delta_db: (Binary32, Binary32),
)
    requires
        -62_167_219_200_000 <= a < b <= 253_402_300_799_999,
    ensures
        sorts_before(
            name::base_text(
                out_dir,
                system_dir,
                a,
                tg.0,
                src.0,
                flags.0,
                nac.0,
                hz.0,
                peak_delta_db.0,
            ),
            name::base_text(
                out_dir,
                system_dir,
                b,
                tg.1,
                src.1,
                flags.1,
                nac.1,
                hz.1,
                peak_delta_db.1,
            ),
        ),
{
    let fa = name::leaf_fields(a, tg.0, src.0, flags.0, nac.0, hz.0, peak_delta_db.0);
    let fb = name::leaf_fields(b, tg.1, src.1, flags.1, nac.1, hz.1, peak_delta_db.1);
    let x = name::dashed(fa).skip(name::time_text(a % 86_400_000).len() as int);
    let y = name::dashed(fb).skip(name::time_text(b % 86_400_000).len() as int);
    lemma_dashed_front(fa);
    lemma_dashed_front(fb);
    lemma_path_parts(out_dir, system_dir, a, name::dashed(fa));
    lemma_path_parts(out_dir, system_dir, b, name::dashed(fb));
    paths_sort_by_time(a, b);
    lemma_field(system_text(out_dir, system_dir), name::utc_text(a), x, name::utc_text(b), y);
}

// ---------------------------------------------------------------------
// What a path says.
// ---------------------------------------------------------------------
/// Dashes split what stands before one and what stands behind it by
/// themselves.
proof fn lemma_split_at(s: Seq<char>, t: Seq<char>)
    ensures
        split(s + seq!['-'] + t) == split(s) + split(t),
    decreases t.len(),
{
    let u = s + seq!['-'];
    lemma_split_nonempty(s);
    lemma_split_nonempty(t);
    if t.len() == 0 {
        assert(u + t =~= u);
        assert(u.drop_last() =~= s);
        assert(split(s).push(Seq::empty()) =~= split(s) + split(t));
    } else {
        let v = t.drop_last();
        lemma_split_at(s, v);
        lemma_split_nonempty(v);
        assert((u + t).drop_last() =~= u + v);
        assert((u + t).last() == t.last());
        let parts = split(s) + split(v);
        assert(parts.last() == split(v).last());
        assert(parts.drop_last() =~= split(s) + split(v).drop_last());
        assert(split(u + t) =~= split(s) + split(t));
    }
}

/// The last component of a path: what stands behind its last slash.
pub open spec fn leaf(path: Seq<char>) -> Seq<char>
    decreases path.len(),
{
    if path.len() == 0 || path.last() == '/' {
        Seq::empty()
    } else {
        leaf(path.drop_last()).push(path.last())
    }
}

/// A text without slashes.
pub open spec fn slashless(s: Seq<char>) -> bool {
    forall|i: int| 0 <= i < s.len() ==> #[trigger] s[i] != '/'
}

proof fn lemma_leaf(p: Seq<char>, t: Seq<char>)
    requires
        slashless(t),
    ensures
        leaf(p + seq!['/'] + t) == t,
    decreases t.len(),
{
    let u = p + seq!['/'];
    if t.len() == 0 {
        assert(u + t =~= u);
        assert(t =~= Seq::empty());
    } else {
        let v = t.drop_last();
        assert forall|i: int| 0 <= i < v.len() implies #[trigger] v[i] != '/' by {
            assert(v[i] == t[i]);
        }
        lemma_leaf(p, v);
        assert((u + t).drop_last() =~= u + v);
        assert(t[t.len() - 1] != '/');
        assert(v.push(t.last()) =~= t);
    }
}

proof fn lemma_slashless_add(a: Seq<char>, b: Seq<char>)
    requires
        slashless(a),
        slashless(b),
    ensures
        slashless(a + b),
{
    assert forall|i: int| 0 <= i < (a + b).len() implies #[trigger] (a + b)[i] != '/' by {
        if i < a.len() {
            assert((a + b)[i] == a[i]);
        } else {
            assert((a + b)[i] == b[i - a.len()]);
        }
    }
}

/// Fields without slashes, joined by dashes, have no slash.
proof fn lemma_dashed_slashless(fields: Seq<Seq<char>>)
    requires
        forall|i: int| 0 <= i < fields.len() ==> slashless(#[trigger] fields[i]),
    ensures
        slashless(name::dashed(fields)),
    decreases fields.len(),
{
    if fields.len() > 1 {
        let init = fields.drop_last();
        assert forall|i: int| 0 <= i < init.len() implies slashless(#[trigger] init[i]) by {
            assert(init[i] == fields[i]);
        }
        lemma_dashed_slashless(init);
        assert(slashless(fields[fields.len() - 1]));
        lemma_slashless_add(name::dashed(init), seq!['-']);
        lemma_slashless_add(name::dashed(init) + seq!['-'], fields.last());
    }
}

/// A name's fields come apart at the dashes, up to the last, which may have
/// a dash of its own.
proof fn lemma_fields_split(f: Seq<Seq<char>>)
    requires
        f.len() == 7,
        forall|i: int| 0 <= i < 6 ==> dashless(#[trigger] f[i]),
    ensures
        split(name::dashed(f)) == f.take(6) + split(f[6]),
{
    let init = f.drop_last();
    assert forall|i: int| 0 <= i < init.len() implies dashless(#[trigger] init[i]) by {
        assert(init[i] == f[i]);
    }
    dashes_split(init);
    lemma_split_at(name::dashed(init), f[6]);
    assert(init =~= f.take(6));
}

proof fn lemma_digits_plain(s: Seq<char>, base: int, v: int)
    requires
        numeral_laws::says(s, base, v),
    ensures
        dashless(s),
        slashless(s),
{
    assert forall|i: int| 0 <= i < s.len() implies #[trigger] s[i] != '-' && s[i] != '/' by {
        assert(numeral_laws::is_digit(s[i], base));
    }
}

/// A time of day has neither dashes nor slashes.
proof fn lemma_time_plain(ms: int)
    requires
        0 <= ms < 86_400_000,
    ensures
        dashless(name::time_text(ms)),
        slashless(name::time_text(ms)),
{
    lemma_time_dashless(ms);
    lemma_clock(ms);
    let t = name::time_text(ms);
    let (h, m, s, f) = clock(ms);
    lemma_padded(h, 2);
    lemma_padded(m, 2);
    lemma_padded(s, 2);
    lemma_padded(f, 3);
    let a = name::padded(h, 2) + seq![':'] + name::padded(m, 2) + seq![':'] + name::padded(s, 2)
        + seq!['.'];
    assert(t =~= a + name::padded(f, 3));
    numeral_laws::filled_numerals_say_their_number(h, 10, 2);
    numeral_laws::filled_numerals_say_their_number(m, 10, 2);
    numeral_laws::filled_numerals_say_their_number(s, 10, 2);
    numeral_laws::filled_numerals_say_their_number(f, 10, 3);
    lemma_digits_plain(name::padded(h, 2), 10, h as int);
    lemma_digits_plain(name::padded(m, 2), 10, m as int);
    lemma_digits_plain(name::padded(s, 2), 10, s as int);
    lemma_digits_plain(name::padded(f, 3), 10, f as int);
    lemma_slashless_add(name::padded(h, 2), seq![':']);
    lemma_slashless_add(name::padded(h, 2) + seq![':'], name::padded(m, 2));
    lemma_slashless_add(name::padded(h, 2) + seq![':'] + name::padded(m, 2), seq![':']);
    lemma_slashless_add(
        name::padded(h, 2) + seq![':'] + name::padded(m, 2) + seq![':'],
        name::padded(s, 2),
    );
    lemma_slashless_add(
        name::padded(h, 2) + seq![':'] + name::padded(m, 2) + seq![':'] + name::padded(s, 2),
        seq!['.'],
    );
    lemma_slashless_add(a, name::padded(f, 3));
}

/// A level's text has no slash.
proof fn lemma_level_slashless(x: Binary32)
    ensures
        slashless(x.fixed(0)),
{
    let u = number::half_even(ieee::units_32(x.magnitude()) * decimal::tenfold(0), ieee::one_32());
    let v = (u * decimal::tenfold(0)) as nat;
    numeral_laws::numerals_say_their_number(v, 10);
    lemma_digits_plain(text::decimal(v), 10, v as int);
    lemma_slashless_add(number::sign(x.negative()), text::decimal(v));
}

/// A time of day, by its characters: hours, minutes, seconds and
/// milliseconds that add up to it.
pub proof fn times_by_digit(ms: int)
    requires
        0 <= ms < 86_400_000,
    ensures
        ({
            let t = name::time_text(ms);
            let h = numeral_laws::total(t.subrange(0, 2), 10);
            let m = numeral_laws::total(t.subrange(3, 5), 10);
            let s = numeral_laws::total(t.subrange(6, 8), 10);
            let f = numeral_laws::total(t.subrange(9, 12), 10);
            &&& t.len() == 12
            &&& t[2] == ':' && t[5] == ':' && t[8] == '.'
            &&& forall|i: int|
                #![trigger t[i]]
                0 <= i < 12 && i != 2 && i != 5 && i != 8 ==> '0' <= t[i] <= '9'
            &&& 0 <= h < 24 && 0 <= m < 60 && 0 <= s < 60 && 0 <= f < 1000
            &&& 3_600_000 * h + 60_000 * m + 1000 * s + f == ms
        }),
{
    let t = name::time_text(ms);
    lemma_time(ms);
    lemma_clock(ms);
    let (h, m, s, f) = clock(ms);
    lemma_padded(h, 2);
    lemma_padded(m, 2);
    lemma_padded(s, 2);
    lemma_padded(f, 3);
    numeral_laws::filled_numerals_say_their_number(h, 10, 2);
    numeral_laws::filled_numerals_say_their_number(m, 10, 2);
    numeral_laws::filled_numerals_say_their_number(s, 10, 2);
    numeral_laws::filled_numerals_say_their_number(f, 10, 3);
    assert forall|i: int|
        #![trigger t[i]]
        0 <= i < 12 && i != 2 && i != 5 && i != 8 implies '0' <= t[i] <= '9' by {
        if i < 2 {
            assert(t[i] == t.subrange(0, 2)[i]);
        } else if i < 5 {
            assert(t[i] == t.subrange(3, 5)[i - 3]);
        } else if i < 8 {
            assert(t[i] == t.subrange(6, 8)[i - 6]);
        } else {
            assert(t[i] == t.subrange(9, 12)[i - 9]);
        }
    }
}

/// A day's directory, by its characters: the year, the month and the day of
/// the calendar.
pub proof fn days_by_digit(days: int)
    requires
        -719_528 <= days <= 2_932_896,
    ensures
        ({
            let t = name::day_text(days);
            &&& t.len() == 10
            &&& t[4] == '/' && t[7] == '/'
            &&& numeral_laws::says(t.subrange(0, 4), 10, calendar::date_of(days).0)
            &&& numeral_laws::says(t.subrange(5, 7), 10, calendar::date_of(days).1)
            &&& numeral_laws::says(t.subrange(8, 10), 10, calendar::date_of(days).2)
        }),
{
    let t = name::day_text(days);
    let (y, m, d) = calendar::date_of(days);
    calendar::day_has_its_date(days);
    calendar::years_of_four_digits(days);
    lemma_padded(y as nat, 4);
    lemma_padded(m as nat, 2);
    lemma_padded(d as nat, 2);
    numeral_laws::filled_numerals_say_their_number(y as nat, 10, 4);
    numeral_laws::filled_numerals_say_their_number(m as nat, 10, 2);
    numeral_laws::filled_numerals_say_their_number(d as nat, 10, 2);
    assert(t.subrange(0, 4) =~= name::padded(y as nat, 4));
    assert(t.subrange(5, 7) =~= name::padded(m as nat, 2));
    assert(t.subrange(8, 10) =~= name::padded(d as nat, 2));
}

/// A day's directory of any year: the year in four characters or more, a
/// minus sign among them where it is before year zero, then the month and the
/// day in two digits each.
pub proof fn days_of_any_year_by_digit(days: int)
    ensures
        ({
            let t = name::day_text(days);
            let (y, m, d) = calendar::date_of(days);
            let k = t.len() - 6;
            &&& k >= 4
            &&& t[k] == '/' && t[k + 3] == '/'
            &&& y >= 0 ==> numeral_laws::says(t.take(k), 10, y) && (k > 4 ==> t[0] != '0')
            &&& y < 0 ==> t[0] == '-' && numeral_laws::says(t.subrange(1, k), 10, -y) && (k > 4
                ==> t[1] != '0')
            &&& numeral_laws::says(t.subrange(k + 1, k + 3), 10, m)
            &&& numeral_laws::says(t.subrange(k + 4, k + 6), 10, d)
        }),
{
    let t = name::day_text(days);
    let (y, m, d) = calendar::date_of(days);
    let k = t.len() - 6;
    calendar::day_has_its_date(days);
    lemma_padded(m as nat, 2);
    lemma_padded(d as nat, 2);
    numeral_laws::filled_numerals_say_their_number(m as nat, 10, 2);
    numeral_laws::filled_numerals_say_their_number(d as nat, 10, 2);
    let year = text::signed_zero_filled(y, 4);
    assert(k == year.len());
    if y >= 0 {
        numeral_laws::filled_numerals_say_their_number(y as nat, 10, 4);
        assert(t.take(k) =~= name::padded(y as nat, 4));
        assert(t[0] == name::padded(y as nat, 4)[0]);
    } else {
        numeral_laws::filled_numerals_say_their_number((-y) as nat, 10, 3);
        assert(t.subrange(1, k) =~= name::padded((-y) as nat, 3));
        assert(t[1] == name::padded((-y) as nat, 3)[0]);
    }
    assert(t.subrange(k + 1, k + 3) =~= name::padded(m as nat, 2));
    assert(t.subrange(k + 4, k + 6) =~= name::padded(d as nat, 2));
}

/// A whole path is its day's directory and its time of day: milliseconds are
/// counted from the first of January 1970, 86 400 000 to the day.
pub proof fn paths_are_day_and_time(millis: int, day: int, ms: int)
    requires
        millis == 86_400_000 * day + ms,
        0 <= ms < 86_400_000,
    ensures
        name::utc_text(millis) == name::day_text(day) + seq!['/'] + name::time_text(ms),
{
    assert(millis / 86_400_000 == day && millis % 86_400_000 == ms);
}

/// The archive path of a sidecar is its directories and its name: what was
/// given, the system or `unknown`, the day, and no slash behind that.
pub proof fn archive_paths_by_directory(out_dir: Seq<char>, s: SidecarView)
    requires
        nameable(s),
    ensures
        ({
            let path = name::sidecar_base(out_dir, s);
            let day = name::day_text(s.start_ms as int / 86_400_000);
            let system = if s.system.len() == 0 {
                "unknown"@
            } else {
                s.system
            };
            path == out_dir + seq!['/'] + system + seq!['/'] + day + seq!['/'] + leaf(path)
        }),
{
    reveal_strlit("unknown");
    let path = name::sidecar_base(out_dir, s);
    let f = sidecar_fields(s);
    let bucket = name::bucket_text(out_dir, s.system, s.start_ms as int);
    lemma_sidecar_fields(out_dir, s);
    lemma_dashed_slashless(f);
    lemma_leaf(bucket, name::dashed(f));
    assert("unknown"@ =~= seq!['u', 'n', 'k', 'n', 'o', 'w', 'n']);
}

/// A sidecar whose texts hold neither dashes nor slashes, as far as they go
/// into a name.
pub open spec fn nameable(s: SidecarView) -> bool {
    &&& dashless(s.mode) && slashless(s.mode)
    &&& s.tone matches Some(tone) ==> dashless(tone) && slashless(tone) && dashless(s.src)
        && slashless(s.src)
}

/// The fields of a sidecar's name.
spec fn sidecar_fields(s: SidecarView) -> Seq<Seq<char>> {
    let flags = name::flags_text(s.mode, s.emergency, s.encrypted);
    let (tg, src, nac) = match s.tone {
        Some(tone) => (tone, s.src, seq!['0', '0', '0']),
        None => (
            name::padded(match s.tg {
                Some(t) => t as nat,
                None => 0,
            }, 5),
            name::padded(name::source_number(s.src), 8),
            text::zero_filled(
                text::numeral(match s.nac {
                    Some(n) => n as nat,
                    None => 0,
                }, 16),
                3,
            ),
        ),
    };
    name::leaf_fields(s.start_ms as int, tg, src, flags, nac, s.hz as nat, s.delta_db)
}

proof fn lemma_sidecar_fields(out_dir: Seq<char>, s: SidecarView)
    requires
        nameable(s),
    ensures
        ({
            let f = sidecar_fields(s);
            let bucket = name::bucket_text(out_dir, s.system, s.start_ms as int);
            &&& f.len() == 7
            &&& forall|i: int| 0 <= i < 7 ==> slashless(#[trigger] f[i])
            &&& forall|i: int| 0 <= i < 6 ==> dashless(#[trigger] f[i])
            &&& name::sidecar_base(out_dir, s) == bucket + seq!['/'] + name::dashed(f)
        }),
{
    let f = sidecar_fields(s);
    lemma_time_plain(s.start_ms as int % 86_400_000);
    let c = if s.emergency {
        seq!['C']
    } else {
        Seq::empty()
    };
    let e = if s.encrypted {
        seq!['E']
    } else {
        Seq::empty()
    };
    lemma_dashless_add(s.mode, c);
    lemma_dashless_add(s.mode + c, e);
    lemma_slashless_add(s.mode, c);
    lemma_slashless_add(s.mode + c, e);
    numeral_laws::numerals_say_their_number(s.hz as nat, 10);
    lemma_digits_plain(text::decimal(s.hz as nat), 10, s.hz as int);
    lemma_level_slashless(s.delta_db);
    if s.tone is None {
        let tg = match s.tg {
            Some(t) => t as nat,
            None => 0,
        };
        let nac = match s.nac {
            Some(n) => n as nat,
            None => 0,
        };
        let src = name::source_number(s.src);
        numeral_laws::filled_numerals_say_their_number(tg, 10, 5);
        numeral_laws::filled_numerals_say_their_number(src, 10, 8);
        numeral_laws::filled_numerals_say_their_number(nac, 16, 3);
        lemma_digits_plain(f[1], 10, tg as int);
        lemma_digits_plain(f[2], 10, src as int);
        lemma_digits_plain(f[4], 16, nac as int);
    }
    assert forall|i: int| 0 <= i < 7 implies slashless(#[trigger] f[i]) && (i < 6 ==> dashless(
        f[i],
    )) by {
        assert(i == 0 || i == 1 || i == 2 || i == 3 || i == 4 || i == 5 || i == 6);
    }
}

/// The fields of a name come out of its path again, by a single split of the
/// last component at its dashes.
proof fn lemma_parts(out_dir: Seq<char>, s: SidecarView)
    requires
        nameable(s),
    ensures
        ({
            let f = sidecar_fields(s);
            split(leaf(name::sidecar_base(out_dir, s))) == f.take(6) + split(f[6])
        }),
{
    let f = sidecar_fields(s);
    let bucket = name::bucket_text(out_dir, s.system, s.start_ms as int);
    lemma_sidecar_fields(out_dir, s);
    lemma_dashed_slashless(f);
    lemma_leaf(bucket, name::dashed(f));
    lemma_fields_split(f);
}

/// The flags field of any name, digital or conventional, is the mode, a `C`
/// for an emergency, and an `E` for encryption.
pub proof fn names_carry_the_flags(out_dir: Seq<char>, s: SidecarView)
    requires
        nameable(s),
    ensures
        ({
            let flags = split(leaf(name::sidecar_base(out_dir, s)))[3];
            &&& s.emergency && s.encrypted ==> flags == s.mode + seq!['C', 'E']
            &&& s.emergency && !s.encrypted ==> flags == s.mode + seq!['C']
            &&& !s.emergency && s.encrypted ==> flags == s.mode + seq!['E']
            &&& !s.emergency && !s.encrypted ==> flags == s.mode
        }),
{
    lemma_parts(out_dir, s);
    flags_by_character(s.mode, s.emergency, s.encrypted);
}

/// The flag token is the mode, a `C` for an emergency, and an `E` for
/// encryption.
pub proof fn flags_by_character(mode: Seq<char>, emergency: bool, encrypted: bool)
    ensures
        ({
            let flags = name::flags_text(mode, emergency, encrypted);
            &&& emergency && encrypted ==> flags == mode + seq!['C', 'E']
            &&& emergency && !encrypted ==> flags == mode + seq!['C']
            &&& !emergency && encrypted ==> flags == mode + seq!['E']
            &&& !emergency && !encrypted ==> flags == mode
        }),
{
    let flags = name::flags_text(mode, emergency, encrypted);
    if emergency && encrypted {
        assert(flags =~= mode + seq!['C', 'E']);
    } else if emergency {
        assert(flags =~= mode + seq!['C']);
    } else if encrypted {
        assert(flags =~= mode + seq!['E']);
    } else {
        assert(flags =~= mode);
    }
}

/// A path that is built from fields has them between its dashes, in their
/// order, behind its directories.
pub proof fn built_paths_by_field(
    out_dir: Seq<char>,
    system_dir: Seq<char>,
    start_ms: int,
    tg: Seq<char>,
    src: Seq<char>,
    flags: Seq<char>,
    nac: Seq<char>,
    hz: nat,
    peak_delta_db: Binary32,
)
    requires
        dashless(tg) && slashless(tg),
        dashless(src) && slashless(src),
        dashless(flags) && slashless(flags),
        dashless(nac) && slashless(nac),
    ensures
        ({
            let path = name::base_text(
                out_dir,
                system_dir,
                start_ms,
                tg,
                src,
                flags,
                nac,
                hz,
                peak_delta_db,
            );
            let parts = split(leaf(path));
            let day = name::day_text(start_ms / 86_400_000);
            let system = if system_dir.len() == 0 {
                "unknown"@
            } else {
                system_dir
            };
            &&& path == out_dir + seq!['/'] + system + seq!['/'] + day + seq!['/'] + leaf(path)
            &&& parts.len() >= 7
            &&& parts[0] == name::time_text(start_ms % 86_400_000)
            &&& parts[1] == tg
            &&& parts[2] == src
            &&& parts[3] == flags
            &&& parts[4] == nac
            &&& numeral_laws::says_shortly(parts[5], 10, hz as int)
            &&& parts.skip(6) == split(peak_delta_db.fixed(0))
        }),
{
    reveal_strlit("unknown");
    assert("unknown"@ =~= seq!['u', 'n', 'k', 'n', 'o', 'w', 'n']);
    let f = name::leaf_fields(start_ms, tg, src, flags, nac, hz, peak_delta_db);
    let bucket = name::bucket_text(out_dir, system_dir, start_ms);
    lemma_time_plain(start_ms % 86_400_000);
    numeral_laws::numerals_say_their_number(hz, 10);
    lemma_digits_plain(text::decimal(hz), 10, hz as int);
    lemma_level_slashless(peak_delta_db);
    assert forall|i: int| 0 <= i < 7 implies slashless(#[trigger] f[i]) && (i < 6 ==> dashless(
        f[i],
    )) by {
        assert(i == 0 || i == 1 || i == 2 || i == 3 || i == 4 || i == 5 || i == 6);
    }
    lemma_dashed_slashless(f);
    lemma_leaf(bucket, name::dashed(f));
    lemma_fields_split(f);
    lemma_split_nonempty(f[6]);
    let parts = f.take(6) + split(f[6]);
    assert(parts.skip(6) =~= split(f[6]));
}

/// What the flags field of any name says, digital or conventional: the
/// mode, then a `C` for an emergency and for nothing else, then an `E` for
/// encryption and for nothing else. Where the mode's token has no `C` and
/// no `E`, as none has, a `C` anywhere is an emergency and a closing `E` is
/// encryption.
pub proof fn names_say_emergency_and_encryption(out_dir: Seq<char>, s: SidecarView)
    requires
        nameable(s),
        s.mode.len() > 0,
        !s.mode.contains('C'),
        !s.mode.contains('E'),
    ensures
        ({
            let flags = split(leaf(name::sidecar_base(out_dir, s)))[3];
            &&& flags.contains('C') <==> s.emergency
            &&& flags.last() == 'E' <==> s.encrypted
            &&& flags.take(s.mode.len() as int) == s.mode
            &&& s.emergency && s.encrypted ==> flags == s.mode + seq!['C', 'E']
            &&& s.emergency && !s.encrypted ==> flags == s.mode + seq!['C']
            &&& !s.emergency && s.encrypted ==> flags == s.mode + seq!['E']
            &&& !s.emergency && !s.encrypted ==> flags == s.mode
        }),
{
    lemma_parts(out_dir, s);
    let f = sidecar_fields(s);
    let flags = f[3];
    let n = s.mode.len() as int;
    assert(flags.take(n) =~= s.mode);
    if s.emergency && s.encrypted {
        assert(flags =~= s.mode + seq!['C', 'E']);
    } else if s.emergency {
        assert(flags =~= s.mode + seq!['C']);
    } else if s.encrypted {
        assert(flags =~= s.mode + seq!['E']);
    } else {
        assert(flags =~= s.mode);
        assert(s.mode.last() == s.mode[n - 1]);
    }
    if s.emergency {
        assert(flags[n] == 'C');
    } else if flags.contains('C') {
        let i = choose|i: int| 0 <= i < flags.len() && flags[i] == 'C';
        if i < n {
            assert(s.mode[i] == 'C');
        }
    }
}

/// No mode token has a `C` or an `E`, a dash or a slash.
pub proof fn mode_tokens_are_plain(m: Mode, slot: u8)
    ensures
        ({
            let t = m.token_text(slot);
            &&& t.len() > 0
            &&& !t.contains('C') && !t.contains('E')
            &&& dashless(t) && slashless(t)
        }),
{
    let t = m.token_text(slot);
    numeral_laws::numerals_say_their_number(slot as nat, 10);
    numeral_laws::numerals_say_their_number((slot + 1) as nat, 10);
    assert forall|i: int| 0 <= i < t.len() implies #[trigger] t[i] != 'C' && t[i] != 'E' && t[i]
        != '-' && t[i] != '/' by {
        if i > 0 {
            match m {
                Mode::P25Tdma => {
                    assert(t[i] == text::decimal(slot as nat)[i - 1]);
                    assert(numeral_laws::is_digit(text::decimal(slot as nat)[i - 1], 10));
                },
                Mode::Dmr => {
                    assert(t[i] == text::decimal((slot + 1) as nat)[i - 1]);
                    assert(numeral_laws::is_digit(text::decimal((slot + 1) as nat)[i - 1], 10));
                },
                _ => {},
            }
        }
    }
}

/// What the other fields of a digital call's name say: the time of day; the
/// talkgroup in five digits or more, zero where there is none; the radio in
/// eight or more; the NAC in three hexadecimal digits or more; the carrier.
pub proof fn digital_names_by_field(out_dir: Seq<char>, s: SidecarView, src: int)
    requires
        nameable(s),
        s.tone is None,
        numeral_laws::says(s.src, 10, src),
        src <= 0xFFFF_FFFF,
    ensures
        ({
            let parts = split(leaf(name::sidecar_base(out_dir, s)));
            let tg = match s.tg {
                Some(t) => t as int,
                None => 0,
            };
            let nac = match s.nac {
                Some(n) => n as int,
                None => 0,
            };
            &&& parts.len() >= 7
            &&& parts[0] == name::time_text(s.start_ms as int % 86_400_000)
            &&& numeral_laws::says(parts[1], 10, tg)
            &&& parts[1].len() >= 5 && (parts[1].len() > 5 ==> parts[1][0] != '0')
            &&& numeral_laws::says(parts[2], 10, src)
            &&& parts[2].len() >= 8 && (parts[2].len() > 8 ==> parts[2][0] != '0')
            &&& numeral_laws::says(parts[4], 16, nac)
            &&& parts[4].len() >= 3 && (parts[4].len() > 3 ==> parts[4][0] != '0')
            &&& numeral_laws::says_shortly(parts[5], 10, s.hz as int)
        }),
{
    lemma_parts(out_dir, s);
    let f = sidecar_fields(s);
    lemma_split_nonempty(f[6]);
    let tg = match s.tg {
        Some(t) => t as nat,
        None => 0,
    };
    let nac = match s.nac {
        Some(n) => n as nat,
        None => 0,
    };
    numeral_laws::digits_are_read_by_place(s.src, 10);
    assert(numeral_laws::is_digit(s.src[0], 10));
    assert(name::source_number(s.src) == src);
    numeral_laws::filled_numerals_say_their_number(tg, 10, 5);
    numeral_laws::filled_numerals_say_their_number(src as nat, 10, 8);
    numeral_laws::filled_numerals_say_their_number(nac, 16, 3);
    numeral_laws::numerals_say_their_number(s.hz as nat, 10);
}

/// A digital call whose source is no number up to 32 bits is named with
/// source zero: where it holds anything but digits, or nothing, or says too
/// much.
pub proof fn sources_that_are_no_numbers_are_zero(out_dir: Seq<char>, s: SidecarView)
    requires
        nameable(s),
        s.tone is None,
        s.src.len() == 0 || (exists|i: int|
            0 <= i < s.src.len() && !('0' <= #[trigger] s.src[i] <= '9') && s.src[i] != '+') || (
        numeral_laws::says(s.src, 10, numeral_laws::total(s.src, 10)) && numeral_laws::total(
            s.src,
            10,
        ) > 0xFFFF_FFFF),
    ensures
        split(leaf(name::sidecar_base(out_dir, s)))[2] == seq![
            '0',
            '0',
            '0',
            '0',
            '0',
            '0',
            '0',
            '0',
        ],
{
    lemma_parts(out_dir, s);
    let x = s.src;
    let f = sidecar_fields(s);
    numeral_laws::digits_are_read_by_place(x, 10);
    let t = if x.len() > 0 && x[0] == '+' {
        x.skip(1)
    } else {
        x
    };
    numeral_laws::digits_are_read_by_place(t, 10);
    if x.len() == 0 {
    } else if exists|i: int| 0 <= i < x.len() && !('0' <= #[trigger] x[i] <= '9') && x[i] != '+' {
        let i = choose|i: int|
            0 <= i < x.len() && !('0' <= #[trigger] x[i] <= '9') && x[i] != '+';
        let j = if x[0] == '+' {
            i - 1
        } else {
            i
        };
        assert(t[j] == x[i]);
        assert(!numeral_laws::is_digit(t[j], 10));
    } else {
        assert(numeral_laws::is_digit(x[0], 10));
    }
    assert(name::source_number(x) == 0);
    assert(text::decimal(0) =~= seq!['0']);
    assert(f[2] =~= seq!['0', '0', '0', '0', '0', '0', '0', '0']);
}

/// A plus sign in front of a source that is a number makes no difference.
pub proof fn a_plus_sign_makes_no_difference(x: Seq<char>, v: int)
    requires
        numeral_laws::says(x, 10, v),
        v <= 0xFFFF_FFFF,
    ensures
        name::source_number(x) == v,
        name::source_number(seq!['+'] + x) == v,
{
    let y = seq!['+'] + x;
    assert(y.skip(1) =~= x);
    numeral_laws::digits_are_read_by_place(x, 10);
    assert(numeral_laws::is_digit(x[0], 10));
}

/// What the other fields of a conventional call's name say: the time of day,
/// the tone and the radio as they are, no NAC, and the carrier.
pub proof fn conventional_names_by_field(out_dir: Seq<char>, s: SidecarView)
    requires
        nameable(s),
        s.tone is Some,
    ensures
        ({
            let parts = split(leaf(name::sidecar_base(out_dir, s)));
            &&& parts.len() >= 7
            &&& parts[0] == name::time_text(s.start_ms as int % 86_400_000)
            &&& Some(parts[1]) == s.tone
            &&& parts[2] == s.src
            &&& parts[4] == seq!['0', '0', '0']
            &&& numeral_laws::says_shortly(parts[5], 10, s.hz as int)
        }),
{
    lemma_parts(out_dir, s);
    let f = sidecar_fields(s);
    lemma_split_nonempty(f[6]);
    numeral_laws::numerals_say_their_number(s.hz as nat, 10);
}

/// The last field of a name says the level: the digits of the whole number
/// nearest to it, the even one of two that are equally near, after a dash of
/// its own where it is negative.
pub proof fn names_say_the_level(out_dir: Seq<char>, s: SidecarView)
    requires
        nameable(s),
        s.delta_db.magnitude() < ieee::TOP_32,
    ensures
        ({
            let parts = split(leaf(name::sidecar_base(out_dir, s)));
            let last = parts.last();
            let v = numeral_laws::total(last, 10);
            let x = ieee::units_32(s.delta_db.magnitude());
            &&& parts.len() == if s.delta_db.negative() {
                8nat
            } else {
                7
            }
            &&& s.delta_db.negative() ==> parts[6].len() == 0
            &&& numeral_laws::says_shortly(last, 10, v)
            &&& 2 * (v * ieee::one_32()) <= 2 * x + ieee::one_32()
            &&& 2 * x <= 2 * (v * ieee::one_32()) + ieee::one_32()
            &&& 2 * (v * ieee::one_32()) == 2 * x + ieee::one_32() || 2 * x == 2 * (v
                * ieee::one_32()) + ieee::one_32() ==> v % 2 == 0
        }),
{
    lemma_parts(out_dir, s);
    let f = sidecar_fields(s);
    let x = ieee::units_32(s.delta_db.magnitude());
    let u = number::half_even(x * decimal::tenfold(0), ieee::one_32());
    vstd::arithmetic::power2::lemma_pow2_pos(149);
    vstd::arithmetic::mul::lemma_mul_basics(x as int);
    vstd::arithmetic::mul::lemma_mul_basics(u as int);
    assert(decimal::tenfold(0) == 1);
    levels::lemma_half_even_bounds(x, ieee::one_32());
    let d = text::decimal(u);
    numeral_laws::numerals_say_their_number(u, 10);
    lemma_digits_plain(d, 10, u as int);
    let none = Seq::<char>::empty();
    if s.delta_db.negative() {
        assert(f[6] =~= none + seq!['-'] + d);
        lemma_split_at(none, d);
    } else {
        assert(f[6] =~= d);
    }
    lemma_split_extends(none, d);
    assert(none + d =~= d);
    assert(split(none) =~= seq![none]);
    assert(split(d) =~= seq![d]);
}

} // verus!
