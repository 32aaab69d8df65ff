//! The archive filename grammar — the same on
//! the receiver's disk and in the server's store (a server names what
//! it stores from the record's own metadata, never from a client's
//! filename):
//!
//! ```text
//! {out}/{system}/YYYY/MM/DD/HH:MM:SS.mmm-{tg}-{src}-{flags}-{nac}-{hz}-{dbfs}   (UTC)
//! audio/ABCDE123/2026/08/12/03:04:10.696-00100-01234567-F-293-851012500-50.sdr
//! audio/KA1ABC/2026/08/12/03:04:10.696-D466N-0042-A-000-460012500-22.wav
//! ```
//!
//! `system` is `{WACN}{SYSID}` for P25 and the FCC CALLSIGN for
//! conventional (licensee-unique where a shared frequency is not);
//! `tg`/`src`/`nac` arrive PRE-FORMATTED — P25 five digits / eight
//! digits / three hex digits, DMR the same, conventional the tone token /
//! the MDC ANI hex digits or `"0"` / `"000"` — so ONE builder serves
//! every mode and a reader keeps a single dash-split parse. `{dbfs}` is
//! the peak signal-over-floor (SNR-like, NOT absolute dBFS): uncalibrated
//! dongles compare best-copy by SNR, not level. Date buckets keep any
//! directory under a day of calls.
use crate::calendar;
use crate::calendar::civil_date;
use crate::ieee::Binary32;
use crate::number::floor_div;
use crate::sidecar::{Sidecar, SidecarView};
use crate::text;
use crate::text::{parse_unsigned, push_decimal, push_filled, push_signed_filled};
use vstd::prelude::*;
use vstd::string::*;

verus! {

/// The traffic-character flag token.
pub open spec fn flags_text(mode: Seq<char>, emergency: bool, encrypted: bool) -> Seq<char> {
    mode + (if emergency {
        seq!['C']
    } else {
        Seq::empty()
    }) + (if encrypted {
        seq!['E']
    } else {
        Seq::empty()
    })
}

/// The traffic-character flag token: mode token (`F`, `A`, `T0`/`T1`,
/// `D1`/`D2`), then `C` for emergency, then `E` for encrypted.
/// `ls *-*C*` = every emergency, `*-*E.*` = every ciphertext.
pub fn flags_token(mode: &str, emergency: bool, encrypted: bool) -> (t: String)
    ensures
        t@ == flags_text(mode@, emergency, encrypted),
{
    let mut t = mode.to_owned();
    if emergency {
        t.push('C');
    }
    if encrypted {
        t.push('E');
    }
    assert(t@ =~= flags_text(mode@, emergency, encrypted));
    t
}

/// A number in decimal, filled up with zeros to `width` digits.
pub open spec fn padded(v: nat, width: int) -> Seq<char> {
    text::zero_filled(text::decimal(v), width)
}

/// `YYYY/MM/DD`, the directory of a day.
pub open spec fn day_text(days: int) -> Seq<char> {
    let (y, m, d) = calendar::date_of(days);
    text::signed_zero_filled(y, 4) + seq!['/'] + padded(m as nat, 2) + seq!['/'] + padded(
        d as nat,
        2,
    )
}

/// `HH:MM:SS.mmm`, a time of day.
pub open spec fn time_text(ms: int) -> Seq<char> {
    padded((ms / 3_600_000) as nat, 2) + seq![':'] + padded((ms / 60_000 % 60) as nat, 2)
        + seq![':'] + padded((ms / 1000 % 60) as nat, 2) + seq!['.'] + padded(
        (ms % 1000) as nat,
        3,
    )
}

/// `YYYY/MM/DD/HH:MM:SS.mmm` of a Unix time in milliseconds.
pub open spec fn utc_text(millis: int) -> Seq<char> {
    day_text(millis / 86_400_000) + seq!['/'] + time_text(millis % 86_400_000)
}

/// `YYYY/MM/DD/HH:MM:SS.mmm` in UTC from Unix milliseconds — portable
/// civil math (no localtime, no DST hole), sub-second kept.
pub fn fmt_utc_path(millis: i64) -> (s: String)
    ensures
        s@ == utc_text(millis as int),
{
    let days: i64 = floor_div(millis, 86_400_000);
    let ms: i64 = (millis as i128 - days as i128 * 86_400_000) as i64;
    assert(ms == millis as int % 86_400_000);
    let (y, m, d) = civil_date(days);
    let mut s = String::new();
    push_signed_filled(&mut s, y as i128, 4);
    s.push('/');
    push_filled(&mut s, m as u128, 10, 2);
    s.push('/');
    push_filled(&mut s, d as u128, 10, 2);
    assert(s@ =~= day_text(days as int));
    s.push('/');
    let ghost day = s@;
    push_filled(&mut s, (ms / 3_600_000) as u128, 10, 2);
    s.push(':');
    push_filled(&mut s, (ms / 60_000 % 60) as u128, 10, 2);
    s.push(':');
    push_filled(&mut s, (ms / 1000 % 60) as u128, 10, 2);
    s.push('.');
    push_filled(&mut s, (ms % 1000) as u128, 10, 3);
    assert(s@ =~= day + time_text(ms as int));
    assert(s@ =~= utc_text(millis as int));
    s
}

/// The archive directory of a call: the system, `unknown` where it has no
/// name, and the day.
pub open spec fn bucket_text(out_dir: Seq<char>, system_dir: Seq<char>, start_ms: int) -> Seq<
    char,
> {
    out_dir + seq!['/'] + (if system_dir.len() == 0 {
        seq!['u', 'n', 'k', 'n', 'o', 'w', 'n']
    } else {
        system_dir
    }) + seq!['/'] + day_text(start_ms / 86_400_000)
}

/// The fields of a file name, in their order.
pub open spec fn leaf_fields(
    start_ms: int,
    tg: Seq<char>,
    src: Seq<char>,
    flags: Seq<char>,
    nac: Seq<char>,
    hz: nat,
    peak_delta_db: Binary32,
) -> Seq<Seq<char>> {
    seq![
        time_text(start_ms % 86_400_000),
        tg,
        src,
        flags,
        nac,
        text::decimal(hz),
        peak_delta_db.fixed(0),
    ]
}

/// Fields with dashes between them.
pub open spec fn dashed(fields: Seq<Seq<char>>) -> Seq<char>
    decreases fields.len(),
{
    if fields.len() == 0 {
        Seq::empty()
    } else if fields.len() == 1 {
        fields[0]
    } else {
        dashed(fields.drop_last()) + seq!['-'] + fields.last()
    }
}

/// The archive path, without extension.
pub open spec fn base_text(
    out_dir: Seq<char>,
    system_dir: Seq<char>,
    start_ms: int,
    tg: Seq<char>,
    src: Seq<char>,
    flags: Seq<char>,
    nac: Seq<char>,
    hz: nat,
    peak_delta_db: Binary32,
) -> Seq<char> {
    bucket_text(out_dir, system_dir, start_ms) + seq!['/'] + dashed(
        leaf_fields(start_ms, tg, src, flags, nac, hz, peak_delta_db),
    )
}

/// The archive path, without extension.
#[allow(clippy::too_many_arguments)]
pub fn wav_base(
    out_dir: &str,
    system_dir: &str,
    start_ms: i64,
    tg: &str,
    src: &str,
    flags: &str,
    nac: &str,
    hz: u64,
    peak_delta_db: Binary32,
) -> (s: String)
    ensures
        s@ == base_text(
            out_dir@,
            system_dir@,
            start_ms as int,
            tg@,
            src@,
            flags@,
            nac@,
            hz as nat,
            peak_delta_db,
        ),
{
    proof {
        reveal_strlit("unknown");
    }
    let mut s = out_dir.to_owned();
    s.push('/');
    if system_dir.is_empty() {
        s.append("unknown");
    } else {
        s.append(system_dir);
    }
    s.push('/');
    let ghost bucket = s@;
    let utc = fmt_utc_path(start_ms);
    s.append(utc.as_str());
    s.push('-');
    s.append(tg);
    s.push('-');
    s.append(src);
    s.push('-');
    s.append(flags);
    s.push('-');
    s.append(nac);
    s.push('-');
    push_decimal(&mut s, hz as u128);
    s.push('-');
    peak_delta_db.push_fixed(&mut s, 0);
    proof {
        let f = leaf_fields(start_ms as int, tg@, src@, flags@, nac@, hz as nat, peak_delta_db);
        let day = day_text(start_ms as int / 86_400_000);
        assert(bucket + day =~= bucket_text(out_dir@, system_dir@, start_ms as int));
        assert(bucket + utc@ =~= bucket + day + seq!['/'] + f[0]);
        lemma_seven(f);
        assert(s@ =~= bucket + utc@ + (seq!['-'] + f[1] + seq!['-'] + f[2] + seq!['-'] + f[3]
            + seq!['-'] + f[4] + seq!['-'] + f[5] + seq!['-'] + f[6]));
        assert(s@ =~= bucket + day + seq!['/'] + dashed(f));
    }
    s
}

proof fn lemma_seven(f: Seq<Seq<char>>)
    requires
        f.len() == 7,
    ensures
        dashed(f) == f[0] + (seq!['-'] + f[1] + seq!['-'] + f[2] + seq!['-'] + f[3] + seq!['-']
            + f[4] + seq!['-'] + f[5] + seq!['-'] + f[6]),
{
    reveal_with_fuel(dashed, 8);
    assert(dashed(f) =~= f[0] + (seq!['-'] + f[1] + seq!['-'] + f[2] + seq!['-'] + f[3] + seq!['-']
        + f[4] + seq!['-'] + f[5] + seq!['-'] + f[6]));
}

/// The source of a digital call as a number; zero where it is none.
pub open spec fn source_number(src: Seq<char>) -> nat {
    match text::unsigned_value(src, 10, u32::MAX as nat) {
        Some(v) => v,
        None => 0,
    }
}

/// The archive path that a sidecar names, without extension.
pub open spec fn sidecar_base(out_dir: Seq<char>, s: SidecarView) -> Seq<char> {
    let flags = flags_text(s.mode, s.emergency, s.encrypted);
    let (tg, src, nac) = match s.tone {
        Some(tone) => (tone, s.src, seq!['0', '0', '0']),
        None => (
            padded(match s.tg {
                Some(t) => t as nat,
                None => 0,
            }, 5),
            padded(source_number(s.src), 8),
            text::zero_filled(
                text::numeral(match s.nac {
                    Some(n) => n as nat,
                    None => 0,
                }, 16),
                3,
            ),
        ),
    };
    base_text(out_dir, s.system, s.start_ms as int, tg, src, flags, nac, s.hz as nat, s.delta_db)
}

fn padded_number(v: u64, base: u8, width: usize) -> (s: String)
    requires
        2 <= base <= 16,
    ensures
        s@ == text::zero_filled(text::numeral(v as nat, base as nat), width as int),
{
    let mut s = String::new();
    push_filled(&mut s, v as u128, base, width);
    assert(s@ =~= text::zero_filled(text::numeral(v as nat, base as nat), width as int));
    s
}

/// The archive path a sidecar names, without extension — what a server
/// stores a received `.sdr` or `.wav` under. Digital modes format tg
/// and src as the recorder does (five and eight digits, the NAC as three
/// hex digits); conventional carries the tone token in the tg slot,
/// the ANI in src, and `000` for the NAC.
pub fn base_for(out_dir: &str, s: &Sidecar) -> (r: String)
    ensures
        r@ == sidecar_base(out_dir@, s@),
{
    let flags = flags_token(s.mode.as_str(), s.emergency, s.encrypted);
    match &s.tone {
        Some(tone) => {
            proof {
                reveal_strlit("000");
                assert("000"@ =~= seq!['0', '0', '0']);
            }
            wav_base(
                out_dir,
                s.system.as_str(),
                s.start_ms,
                tone.as_str(),
                s.src.as_str(),
                flags.as_str(),
                "000",
                s.hz,
                s.delta_db,
            )
        },
        None => {
            let tg: u32 = match s.tg {
                Some(t) => t,
                None => 0,
            };
            let src: u64 = match parse_unsigned(s.src.as_str(), 10, u32::MAX as u64) {
                Some(v) => v,
                None => 0,
            };
            let nac: u16 = match s.nac {
                Some(n) => n,
                None => 0,
            };
            wav_base(
                out_dir,
                s.system.as_str(),
                s.start_ms,
                padded_number(tg as u64, 10, 5).as_str(),
                padded_number(src, 10, 8).as_str(),
                flags.as_str(),
                padded_number(nac as u64, 16, 3).as_str(),
                s.hz,
                s.delta_db,
            )
        },
    }
}

} // verus!
