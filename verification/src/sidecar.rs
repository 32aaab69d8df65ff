//! The call's metadata as ONE JSON document — the projection of an
//! `.sdr` file ([`Sidecar::from_records`]) or the `MSDR` chunk inside a
//! conventional WAV ([`Sidecar::to_json`] is what the recorder embeds,
//! [`Sidecar::parse`] reads it back). Nothing on disk or on the wire is
//! a sidecar file (the file is the record); this is what a server, a
//! browser or a phone derives from the bytes it holds, with this crate,
//! and what a database row is built from. Versioned — `"version": 1` is
//! the first key.
//!
//! Field conventions:
//! - Identity fields the mode doesn't have are `null` (a P25 call has
//!   no tone; a conventional keyup has no NAC) — the key is always
//!   present so a reader never guesses the schema from the mode.
//! - `tone`/`alphatag`/`mdc` appear only on conventional calls.
//! - MDC `unit_id` is the ANI's HEX-DIGIT STRING ("0042" = unit 4-2,
//!   the data says what it means, no conversions).
//! - dB values carry one decimal; `offset_hz` is a whole number.
//! - `wav_rate` is the archived PCM rate of a conventional WAV and 0
//!   for anything digital (there is no PCM; the client decodes).
use crate::ieee::{Binary32, TOP_32};
use crate::json;
use crate::json::{Json, JsonView};
use crate::record;
use crate::record::{
    CallHeader, CallHeaderView, CallTrailer, CallTrailerView, Mode, Record, RecordView,
    HDR_FLAG_SEEDED, OFFSET_UNKNOWN, TYP_DMR_VOICE, TYP_LDU, TYP_P2_VCH,
};
use crate::text;
use crate::text::{parse_digits, push_decimal, push_filled, push_signed, push_unicode_escape};
use vstd::prelude::*;
use vstd::string::*;

verus! {

#[derive(Debug, PartialEq)]
pub struct Sidecar {
    pub start_ms: i64,
    /// Milliseconds of the call. For a conventional WAV this is the
    /// ARCHIVED audio (post-trim) and matches the file; for a digital
    /// call the trailer's call length.
    pub duration_ms: u64,
    pub hz: u64,
    /// The filename's mode token: "F" / "A" / "T0" / "T1" / "D1" / "D2".
    pub mode: String,
    pub emergency: bool,
    pub encrypted: bool,
    /// The archive system dir: `{WACN}{SYSID}` or the FCC callsign.
    pub system: String,
    pub nac: Option<u16>,
    pub tg: Option<u32>,
    /// The P25 OTA (over-the-air) / DMR talker alias at close.
    pub alias: Option<String>,
    /// Conventional squelch token ("D466N") — `None` on digital.
    pub tone: Option<String>,
    /// Channel / talkgroup label — `None` when unknown.
    pub alphatag: Option<String>,
    /// P25/DMR src as decimal digits / MDC ANI as hex digits / "0".
    pub src: String,
    /// Peak signal-over-floor — the filename's `{dbfs}`.
    pub delta_db: Binary32,
    /// The absolutes behind the delta, measured at the peak-delta
    /// instant (so `signal - delta = floor` exactly).
    pub signal_db: Option<Binary32>,
    pub floor_db: Option<Binary32>,
    /// Mean carrier frequency offset — transmitter-drift health.
    pub offset_hz: Option<i32>,
    /// Every MDC-1200 packet heard in the keyup: (op, arg, unit_id).
    /// `None` on digital (key omitted); an empty Vec prints `[]`.
    pub mdc: Option<Vec<(u8, u8, u16)>>,
    pub wav_rate: u32,
}

/// A [`Sidecar`] with its text as characters.
#[verifier::ext_equal]
pub struct SidecarView {
    pub start_ms: i64,
    pub duration_ms: u64,
    pub hz: u64,
    pub mode: Seq<char>,
    pub emergency: bool,
    pub encrypted: bool,
    pub system: Seq<char>,
    pub nac: Option<u16>,
    pub tg: Option<u32>,
    pub alias: Option<Seq<char>>,
    pub tone: Option<Seq<char>>,
    pub alphatag: Option<Seq<char>>,
    pub src: Seq<char>,
    pub delta_db: Binary32,
    pub signal_db: Option<Binary32>,
    pub floor_db: Option<Binary32>,
    pub offset_hz: Option<i32>,
    pub mdc: Option<Seq<(u8, u8, u16)>>,
    pub wav_rate: u32,
}

/// Text that may be absent, as characters.
pub open spec fn text_of(s: Option<String>) -> Option<Seq<char>> {
    match s {
        Some(s) => Some(s@),
        None => None,
    }
}

impl View for Sidecar {
    type V = SidecarView;

    open spec fn view(&self) -> SidecarView {
        SidecarView {
            start_ms: self.start_ms,
            duration_ms: self.duration_ms,
            hz: self.hz,
            mode: self.mode@,
            emergency: self.emergency,
            encrypted: self.encrypted,
            system: self.system@,
            nac: self.nac,
            tg: self.tg,
            alias: text_of(self.alias),
            tone: text_of(self.tone),
            alphatag: text_of(self.alphatag),
            src: self.src@,
            delta_db: self.delta_db,
            signal_db: self.signal_db,
            floor_db: self.floor_db,
            offset_hz: self.offset_hz,
            mdc: match self.mdc {
                Some(v) => Some(v@),
                None => None,
            },
            wav_rate: self.wav_rate,
        }
    }
}

// ---------------------------------------------------------------------
// The document: keys with the text of their values, in order.
// ---------------------------------------------------------------------
/// A character as it stands in a string: quotes and backslashes escaped,
/// control characters as `\u00XX`.
pub open spec fn escape(c: char) -> Seq<char> {
    if c == '"' {
        seq!['\\', '"']
    } else if c == '\\' {
        seq!['\\', '\\']
    } else if (c as u32) < 0x20 {
        text::unicode_escape(c as int)
    } else {
        seq![c]
    }
}

/// Characters as they stand in a string.
pub open spec fn escaped(s: Seq<char>) -> Seq<char>
    decreases s.len(),
{
    if s.len() == 0 {
        Seq::empty()
    } else {
        escape(s[0]) + escaped(s.skip(1))
    }
}

pub open spec fn null_text() -> Seq<char> {
    seq!['n', 'u', 'l', 'l']
}

/// A string.
pub open spec fn string_text(s: Seq<char>) -> Seq<char> {
    seq!['"'] + escaped(s) + seq!['"']
}

/// A string that may be absent.
pub open spec fn opt_string_text(s: Option<Seq<char>>) -> Seq<char> {
    match s {
        Some(s) => string_text(s),
        None => null_text(),
    }
}

pub open spec fn bool_text(b: bool) -> Seq<char> {
    if b {
        seq!['t', 'r', 'u', 'e']
    } else {
        seq!['f', 'a', 'l', 's', 'e']
    }
}

/// A level that may be absent, with one decimal.
pub open spec fn opt_level_text(v: Option<Binary32>) -> Seq<char> {
    match v {
        Some(x) => x.fixed(1),
        None => null_text(),
    }
}

/// A number in hexadecimal, in quotes, filled up with zeros.
pub open spec fn hex_text(v: nat, width: int) -> Seq<char> {
    seq!['"'] + text::zero_filled(text::numeral(v, 16), width) + seq!['"']
}

/// A key and the text of its value.
pub open spec fn member_text(f: (Seq<char>, Seq<char>)) -> Seq<char> {
    seq!['"'] + f.0 + seq!['"', ':'] + f.1
}

/// Members with a comma before each.
pub open spec fn further(fs: Seq<(Seq<char>, Seq<char>)>) -> Seq<char>
    decreases fs.len(),
{
    if fs.len() == 0 {
        Seq::empty()
    } else {
        further(fs.drop_last()) + seq![','] + member_text(fs.last())
    }
}

/// An object of members, one at least, without blanks.
pub open spec fn object_text(fs: Seq<(Seq<char>, Seq<char>)>) -> Seq<char> {
    seq!['{'] + member_text(fs[0]) + further(fs.skip(1)) + seq!['}']
}

/// An MDC-1200 packet.
pub open spec fn packet_fields(p: (u8, u8, u16)) -> Seq<(Seq<char>, Seq<char>)> {
    seq![
        ("op"@, text::decimal(p.0 as nat)),
        ("arg"@, text::decimal(p.1 as nat)),
        ("unit_id"@, hex_text(p.2 as nat, 4)),
    ]
}

/// Packets with commas between them.
pub open spec fn packets_text(ps: Seq<(u8, u8, u16)>) -> Seq<char>
    decreases ps.len(),
{
    if ps.len() == 0 {
        Seq::empty()
    } else if ps.len() == 1 {
        object_text(packet_fields(ps[0]))
    } else {
        packets_text(ps.drop_last()) + seq![','] + object_text(packet_fields(ps.last()))
    }
}

impl SidecarView {
    /// The members up to the alias, which every call has.
    pub open spec fn identity_fields(self) -> Seq<(Seq<char>, Seq<char>)> {
        seq![
            ("version"@, text::decimal(1)),
            ("start_ms"@, text::signed_decimal(self.start_ms as int)),
            ("duration_ms"@, text::decimal(self.duration_ms as nat)),
            ("hz"@, text::decimal(self.hz as nat)),
            ("mode"@, string_text(self.mode)),
            ("emergency"@, bool_text(self.emergency)),
            ("encrypted"@, bool_text(self.encrypted)),
            ("system"@, string_text(self.system)),
            ("nac"@, match self.nac {
                Some(n) => hex_text(n as nat, 3),
                None => null_text(),
            }),
            ("tg"@, match self.tg {
                Some(t) => text::decimal(t as nat),
                None => null_text(),
            }),
            ("alias"@, opt_string_text(self.alias)),
        ]
    }

    /// A member that appears only where there is a value.
    pub open spec fn label_field(key: Seq<char>, v: Option<Seq<char>>) -> Seq<
        (Seq<char>, Seq<char>),
    > {
        match v {
            Some(s) => seq![(key, string_text(s))],
            None => Seq::empty(),
        }
    }

    /// The members from the source to the offset.
    pub open spec fn signal_fields(self) -> Seq<(Seq<char>, Seq<char>)> {
        seq![
            ("src"@, string_text(self.src)),
            ("delta_db"@, self.delta_db.fixed(1)),
            ("signal_db"@, opt_level_text(self.signal_db)),
            ("floor_db"@, opt_level_text(self.floor_db)),
            ("offset_hz"@, match self.offset_hz {
                Some(v) => text::signed_decimal(v as int),
                None => null_text(),
            }),
        ]
    }

    /// The packets of a conventional call.
    pub open spec fn mdc_field(self) -> Seq<(Seq<char>, Seq<char>)> {
        match self.mdc {
            Some(ps) => seq![("mdc"@, seq!['['] + packets_text(ps) + seq![']'])],
            None => Seq::empty(),
        }
    }

    /// All members, in their order.
    pub open spec fn fields(self) -> Seq<(Seq<char>, Seq<char>)> {
        self.identity_fields() + Self::label_field("tone"@, self.tone) + Self::label_field(
            "alphatag"@,
            self.alphatag,
        ) + self.signal_fields() + self.mdc_field() + seq![
            ("wav_rate"@, text::decimal(self.wav_rate as nat)),
        ]
    }

    /// The document.
    pub open spec fn json_text(self) -> Seq<char> {
        object_text(self.fields())
    }
}

// ---------------------------------------------------------------------
// Writing.
// ---------------------------------------------------------------------
proof fn lemma_escaped_push(s: Seq<char>, c: char)
    ensures
        escaped(s.push(c)) == escaped(s) + escape(c),
    decreases s.len(),
{
    if s.len() == 0 {
        assert(s.push(c).skip(1) =~= Seq::empty());
        assert(escaped(Seq::empty()) =~= Seq::empty());
        assert(s.push(c)[0] == c);
        assert(escaped(s.push(c)) =~= escaped(s) + escape(c));
    } else {
        lemma_escaped_push(s.skip(1), c);
        assert(s.push(c).skip(1) =~= s.skip(1).push(c));
        assert(s.push(c)[0] == s[0]);
        assert(escaped(s.push(c)) =~= escaped(s) + escape(c));
    }
}

/// Minimal JSON string escape — quotes, backslashes, control bytes
/// (alphatags and aliases are config- or air-supplied text).
pub fn json_escape(s: &str) -> (out: String)
    ensures
        out@ == escaped(s@),
{
    broadcast use vstd::string::axiom_spec_iter;

    let mut out = String::new();
    for c in it: s.chars()
        invariant
            it.seq() == s@,
            out@ =~= escaped(s@.take(it.index() as int)),
    {
        proof {
            let k = it.index() as int;
            assert(s@.take(k + 1) =~= s@.take(k).push(c));
            lemma_escaped_push(s@.take(k), c);
        }
        push_escape(&mut out, c);
    }
    assert(s@.take(s@.len() as int) =~= s@);
    out
}

fn push_escape(out: &mut String, c: char)
    ensures
        final(out)@ == old(out)@ + escape(c),
{
    if c == '"' {
        out.push('\\');
        out.push('"');
    } else if c == '\\' {
        out.push('\\');
        out.push('\\');
    } else if (c as u32) < 0x20 {
        push_unicode_escape(out, c as u32);
    } else {
        out.push(c);
    }
    assert(out@ =~= old(out)@ + escape(c));
}

/// An object that is not closed yet.
spec fn opened(fs: Seq<(Seq<char>, Seq<char>)>) -> Seq<char> {
    seq!['{'] + member_text(fs[0]) + further(fs.skip(1))
}

/// Append a member.
fn push_member(out: &mut String, key: &str, value: &str)
    ensures
        final(out)@ == old(out)@ + member_text((key@, value@)),
{
    out.push('"');
    out.append(key);
    out.push('"');
    out.push(':');
    out.append(value);
    assert(out@ =~= old(out)@ + member_text((key@, value@)));
}

/// Open an object with its first member.
fn open_with(out: &mut String, key: &str, value: &str)
    ensures
        final(out)@ == old(out)@ + opened(seq![(key@, value@)]),
{
    out.push('{');
    push_member(out, key, value);
    proof {
        let fs = seq![(key@, value@)];
        assert(fs.skip(1) =~= Seq::empty());
        assert(out@ =~= old(out)@ + opened(fs));
    }
}

/// Append a further member to an object that is open.
fn push_further(
    out: &mut String,
    key: &str,
    value: &str,
    Ghost(before): Ghost<Seq<char>>,
    Ghost(fs): Ghost<Seq<(Seq<char>, Seq<char>)>>,
)
    requires
        old(out)@ == before + opened(fs),
        fs.len() > 0,
    ensures
        final(out)@ == before + opened(fs.push((key@, value@))),
{
    out.push(',');
    push_member(out, key, value);
    proof {
        let more = fs.push((key@, value@));
        assert(more.skip(1).drop_last() =~= fs.skip(1));
        assert(more.skip(1).last() == (key@, value@));
        assert(more[0] == fs[0]);
        assert(out@ =~= before + opened(more));
    }
}

fn string_value(s: &str) -> (v: String)
    ensures
        v@ == string_text(s@),
{
    let mut v = String::new();
    v.push('"');
    v.append(json_escape(s).as_str());
    v.push('"');
    assert(v@ =~= string_text(s@));
    v
}

fn null_value() -> (v: String)
    ensures
        v@ == null_text(),
{
    proof {
        reveal_strlit("null");
    }
    let v = "null".to_owned();
    assert(v@ =~= null_text());
    v
}

fn opt_string_value(s: &Option<String>) -> (v: String)
    ensures
        v@ == opt_string_text(text_of(*s)),
{
    match s {
        Some(s) => string_value(s.as_str()),
        None => null_value(),
    }
}

fn bool_value(b: bool) -> (v: String)
    ensures
        v@ == bool_text(b),
{
    proof {
        reveal_strlit("true");
        reveal_strlit("false");
    }
    let v = if b {
        "true".to_owned()
    } else {
        "false".to_owned()
    };
    assert(v@ =~= bool_text(b));
    v
}

fn decimal_value(n: u64) -> (v: String)
    ensures
        v@ == text::decimal(n as nat),
{
    let mut v = String::new();
    push_decimal(&mut v, n as u128);
    assert(v@ =~= text::decimal(n as nat));
    v
}

fn signed_value(n: i64) -> (v: String)
    ensures
        v@ == text::signed_decimal(n as int),
{
    let mut v = String::new();
    push_signed(&mut v, n as i128);
    assert(v@ =~= text::signed_decimal(n as int));
    v
}

fn hex_value(n: u16, width: usize) -> (v: String)
    ensures
        v@ == hex_text(n as nat, width as int),
{
    let mut v = String::new();
    v.push('"');
    push_filled(&mut v, n as u128, 16, width);
    v.push('"');
    assert(v@ =~= hex_text(n as nat, width as int));
    v
}

fn level_value(x: Binary32) -> (v: String)
    ensures
        v@ == x.fixed(1),
{
    let mut v = String::new();
    x.push_fixed(&mut v, 1);
    assert(v@ =~= x.fixed(1));
    v
}

fn opt_level_value(x: Option<Binary32>) -> (v: String)
    ensures
        v@ == opt_level_text(x),
{
    match x {
        Some(x) => level_value(x),
        None => null_value(),
    }
}

fn packet_value(p: (u8, u8, u16)) -> (v: String)
    ensures
        v@ == object_text(packet_fields(p)),
{
    let (op, arg, unit) = p;
    let mut v = String::new();
    let op_text = decimal_value(op as u64);
    open_with(&mut v, "op", op_text.as_str());
    let ghost fs = seq![("op"@, op_text@)];
    let ghost none = Seq::<char>::empty();
    assert(v@ =~= none + opened(fs));
    let arg_text = decimal_value(arg as u64);
    push_further(&mut v, "arg", arg_text.as_str(), Ghost(none), Ghost(fs));
    let ghost fs = fs.push(("arg"@, arg_text@));
    let unit_text = hex_value(unit, 4);
    push_further(&mut v, "unit_id", unit_text.as_str(), Ghost(none), Ghost(fs));
    let ghost fs = fs.push(("unit_id"@, unit_text@));
    v.push('}');
    proof {
        assert(fs =~= packet_fields(p));
        assert(v@ =~= object_text(packet_fields(p)));
    }
    v
}

fn packets_value(ps: &Vec<(u8, u8, u16)>) -> (v: String)
    ensures
        v@ == seq!['['] + packets_text(ps@) + seq![']'],
{
    let mut v = String::new();
    v.push('[');
    let mut i: usize = 0;
    while i < ps.len()
        invariant
            i <= ps@.len(),
            v@ =~= seq!['['] + packets_text(ps@.take(i as int)),
        decreases ps.len() - i,
    {
        if i > 0 {
            v.push(',');
        }
        v.append(packet_value(ps[i]).as_str());
        proof {
            let t = ps@.take(i + 1);
            assert(t.drop_last() =~= ps@.take(i as int));
            assert(t.last() == ps@[i as int]);
        }
        i = i + 1;
    }
    assert(ps@.take(ps@.len() as int) =~= ps@);
    v.push(']');
    v
}

impl Sidecar {
    /// The members up to the alias.
    fn push_identity(&self, out: &mut String)
        ensures
            final(out)@ == old(out)@ + opened(self@.identity_fields()),
    {
        let ghost start = out@;
        let one = decimal_value(1);
        open_with(out, "version", one.as_str());
        let ghost fs = seq![("version"@, one@)];
        let v = signed_value(self.start_ms);
        push_further(out, "start_ms", v.as_str(), Ghost(start), Ghost(fs));
        let ghost fs = fs.push(("start_ms"@, v@));
        let v = decimal_value(self.duration_ms);
        push_further(out, "duration_ms", v.as_str(), Ghost(start), Ghost(fs));
        let ghost fs = fs.push(("duration_ms"@, v@));
        let v = decimal_value(self.hz);
        push_further(out, "hz", v.as_str(), Ghost(start), Ghost(fs));
        let ghost fs = fs.push(("hz"@, v@));
        let v = string_value(self.mode.as_str());
        push_further(out, "mode", v.as_str(), Ghost(start), Ghost(fs));
        let ghost fs = fs.push(("mode"@, v@));
        let v = bool_value(self.emergency);
        push_further(out, "emergency", v.as_str(), Ghost(start), Ghost(fs));
        let ghost fs = fs.push(("emergency"@, v@));
        let v = bool_value(self.encrypted);
        push_further(out, "encrypted", v.as_str(), Ghost(start), Ghost(fs));
        let ghost fs = fs.push(("encrypted"@, v@));
        let v = string_value(self.system.as_str());
        push_further(out, "system", v.as_str(), Ghost(start), Ghost(fs));
        let ghost fs = fs.push(("system"@, v@));
        let v = match self.nac {
            Some(n) => hex_value(n, 3),
            None => null_value(),
        };
        push_further(out, "nac", v.as_str(), Ghost(start), Ghost(fs));
        let ghost fs = fs.push(("nac"@, v@));
        let v = match self.tg {
            Some(t) => decimal_value(t as u64),
            None => null_value(),
        };
        push_further(out, "tg", v.as_str(), Ghost(start), Ghost(fs));
        let ghost fs = fs.push(("tg"@, v@));
        let v = opt_string_value(&self.alias);
        push_further(out, "alias", v.as_str(), Ghost(start), Ghost(fs));
        let ghost fs = fs.push(("alias"@, v@));
        assert(fs =~= self@.identity_fields());
    }

    /// The members from the source to the offset.
    fn push_signal(
        &self,
        out: &mut String,
        Ghost(start): Ghost<Seq<char>>,
        Ghost(before): Ghost<Seq<(Seq<char>, Seq<char>)>>,
    )
        requires
            old(out)@ == start + opened(before),
            before.len() > 0,
        ensures
            final(out)@ == start + opened(before + self@.signal_fields()),
    {
        let ghost fs = before;
        let v = string_value(self.src.as_str());
        push_further(out, "src", v.as_str(), Ghost(start), Ghost(fs));
        let ghost fs = fs.push(("src"@, v@));
        let v = level_value(self.delta_db);
        push_further(out, "delta_db", v.as_str(), Ghost(start), Ghost(fs));
        let ghost fs = fs.push(("delta_db"@, v@));
        let v = opt_level_value(self.signal_db);
        push_further(out, "signal_db", v.as_str(), Ghost(start), Ghost(fs));
        let ghost fs = fs.push(("signal_db"@, v@));
        let v = opt_level_value(self.floor_db);
        push_further(out, "floor_db", v.as_str(), Ghost(start), Ghost(fs));
        let ghost fs = fs.push(("floor_db"@, v@));
        let v = match self.offset_hz {
            Some(v) => signed_value(v as i64),
            None => null_value(),
        };
        push_further(out, "offset_hz", v.as_str(), Ghost(start), Ghost(fs));
        let ghost fs = fs.push(("offset_hz"@, v@));
        assert(fs =~= before + self@.signal_fields());
    }

    /// The document, without blanks.
    pub fn to_json(&self) -> (s: String)
        ensures
            s@ == self@.json_text(),
    {
        let mut s = String::new();
        let ghost none = Seq::<char>::empty();
        self.push_identity(&mut s);
        let ghost fs = self@.identity_fields();
        assert(s@ =~= none + opened(fs));
        if let Some(tone) = &self.tone {
            let v = string_value(tone.as_str());
            push_further(&mut s, "tone", v.as_str(), Ghost(none), Ghost(fs));
        }
        let ghost fs = fs + SidecarView::label_field("tone"@, self@.tone);
        assert(s@ == none + opened(fs)) by {
            match self.tone {
                Some(tone) => {
                    assert(fs =~= self@.identity_fields().push(("tone"@, string_text(tone@))));
                },
                None => {
                    assert(fs =~= self@.identity_fields());
                },
            }
        }
        let ghost before = fs;
        if let Some(tag) = &self.alphatag {
            let v = string_value(tag.as_str());
            push_further(&mut s, "alphatag", v.as_str(), Ghost(none), Ghost(fs));
        }
        let ghost fs = fs + SidecarView::label_field("alphatag"@, self@.alphatag);
        assert(s@ == none + opened(fs)) by {
            match self.alphatag {
                Some(tag) => {
                    assert(fs =~= before.push(("alphatag"@, string_text(tag@))));
                },
                None => {
                    assert(fs =~= before);
                },
            }
        }
        self.push_signal(&mut s, Ghost(none), Ghost(fs));
        let ghost fs = fs + self@.signal_fields();
        let ghost before = fs;
        if let Some(mdc) = &self.mdc {
            let v = packets_value(mdc);
            push_further(&mut s, "mdc", v.as_str(), Ghost(none), Ghost(fs));
        }
        let ghost fs = fs + self@.mdc_field();
        assert(s@ == none + opened(fs)) by {
            match self.mdc {
                Some(mdc) => {
                    assert(fs =~= before.push(
                        ("mdc"@, seq!['['] + packets_text(mdc@) + seq![']']),
                    ));
                },
                None => {
                    assert(fs =~= before);
                },
            }
        }
        let v = decimal_value(self.wav_rate as u64);
        push_further(&mut s, "wav_rate", v.as_str(), Ghost(none), Ghost(fs));
        s.push('}');
        proof {
            assert(fs.push(("wav_rate"@, v@)) =~= self@.fields());
            assert(s@ =~= self@.json_text());
        }
        s
    }
}

// ---------------------------------------------------------------------
// Reading.
// ---------------------------------------------------------------------
/// The string under a key.
pub open spec fn string_member(j: JsonView, key: Seq<char>) -> Option<Seq<char>> {
    match j.get(key) {
        Some(JsonView::Str(s)) => Some(s),
        _ => None,
    }
}

/// The string under a key that is always there, `null` where there is no
/// text.
pub open spec fn opt_string_member(j: JsonView, key: Seq<char>) -> Option<Option<Seq<char>>> {
    match j.get(key) {
        Some(JsonView::Null) => Some(None),
        Some(JsonView::Str(s)) => Some(Some(s)),
        _ => None,
    }
}

/// The string under a key that appears only where there is text.
pub open spec fn label_member(j: JsonView, key: Seq<char>) -> Option<Option<Seq<char>>> {
    match j.get(key) {
        None => Some(None),
        Some(_) => opt_string_member(j, key),
    }
}

/// The integer from `lo` to `hi` under a key.
pub open spec fn integer_member(j: JsonView, key: Seq<char>, lo: int, hi: int) -> Option<int> {
    match j.get(key) {
        Some(JsonView::Num(n)) => n.integral(lo, hi),
        _ => None,
    }
}

/// The integer from `lo` to `hi` under a key that is always there, or
/// `null`.
pub open spec fn opt_integer_member(j: JsonView, key: Seq<char>, lo: int, hi: int) -> Option<
    Option<int>,
> {
    match j.get(key) {
        Some(JsonView::Null) => Some(None),
        _ => match integer_member(j, key, lo, hi) {
            Some(v) => Some(Some(v)),
            None => None,
        },
    }
}

/// The number under a key, in single precision, which must be able to hold
/// it.
pub open spec fn level_member(j: JsonView, key: Seq<char>) -> Option<Binary32> {
    match j.get(key) {
        Some(JsonView::Num(n)) => if n.narrowed().magnitude() < TOP_32 {
            Some(n.narrowed())
        } else {
            None
        },
        _ => None,
    }
}

/// The level under a key that is always there, or `null`.
pub open spec fn opt_level_member(j: JsonView, key: Seq<char>) -> Option<Option<Binary32>> {
    match j.get(key) {
        Some(JsonView::Null) => Some(None),
        _ => match level_member(j, key) {
            Some(v) => Some(Some(v)),
            None => None,
        },
    }
}

/// The truth value under a key.
pub open spec fn flag_member(j: JsonView, key: Seq<char>) -> Option<bool> {
    match j.get(key) {
        Some(JsonView::Bool(b)) => Some(b),
        _ => None,
    }
}

/// The 16-bit number that a string of hexadecimal digits spells.
pub open spec fn hex_number(s: Seq<char>) -> Option<u16> {
    match text::digits_number(s, 16, 0xFFFF) {
        Some(v) => Some(v as u16),
        None => None,
    }
}

/// The NAC, or `null`.
pub open spec fn nac_of(j: JsonView) -> Option<Option<u16>> {
    match opt_string_member(j, "nac"@) {
        Some(Some(s)) => match hex_number(s) {
            Some(v) => Some(Some(v)),
            None => None,
        },
        Some(None) => Some(None),
        None => None,
    }
}

/// A packet.
pub open spec fn packet_of(j: JsonView) -> Option<(u8, u8, u16)> {
    match (
        integer_member(j, "op"@, 0, 255),
        integer_member(j, "arg"@, 0, 255),
        string_member(j, "unit_id"@),
    ) {
        (Some(op), Some(arg), Some(unit)) => match hex_number(unit) {
            Some(unit) => Some((op as u8, arg as u8, unit)),
            None => None,
        },
        _ => None,
    }
}

/// Packets, nothing where one of them is none.
pub open spec fn packets_of(a: Seq<JsonView>) -> Option<Seq<(u8, u8, u16)>>
    decreases a.len(),
{
    if a.len() == 0 {
        Some(Seq::empty())
    } else {
        match (packets_of(a.drop_last()), packet_of(a.last())) {
            (Some(ps), Some(p)) => Some(ps.push(p)),
            _ => None,
        }
    }
}

/// The packets of a document: none where the key is absent, and no reading
/// of the document at all where they are malformed.
pub open spec fn mdc_of(j: JsonView) -> Option<Option<Seq<(u8, u8, u16)>>> {
    match j.get("mdc"@) {
        None => Some(None),
        Some(JsonView::Arr(a)) => match packets_of(a) {
            Some(ps) => Some(Some(ps)),
            None => None,
        },
        _ => None,
    }
}

impl SidecarView {
    /// A document has every member that this version asks for, each of the
    /// kind and in the range that its field has.
    pub open spec fn complete(j: JsonView) -> bool {
        &&& integer_member(j, "version"@, 1, 1) is Some
        &&& integer_member(j, "start_ms"@, i64::MIN as int, i64::MAX as int) is Some
        &&& integer_member(j, "duration_ms"@, 0, u64::MAX as int) is Some
        &&& integer_member(j, "hz"@, 0, u64::MAX as int) is Some
        &&& string_member(j, "mode"@) is Some
        &&& flag_member(j, "emergency"@) is Some
        &&& flag_member(j, "encrypted"@) is Some
        &&& string_member(j, "system"@) is Some
        &&& nac_of(j) is Some
        &&& opt_integer_member(j, "tg"@, 0, u32::MAX as int) is Some
        &&& opt_string_member(j, "alias"@) is Some
        &&& label_member(j, "tone"@) is Some
        &&& label_member(j, "alphatag"@) is Some
        &&& string_member(j, "src"@) is Some
        &&& level_member(j, "delta_db"@) is Some
        &&& opt_level_member(j, "signal_db"@) is Some
        &&& opt_level_member(j, "floor_db"@) is Some
        &&& opt_integer_member(j, "offset_hz"@, i32::MIN as int, i32::MAX as int) is Some
        &&& mdc_of(j) is Some
        &&& integer_member(j, "wav_rate"@, 0, u32::MAX as int) is Some
    }

    /// The sidecar that a document holds.
    pub open spec fn of_json(j: JsonView) -> SidecarView {
        SidecarView {
            start_ms: integer_member(
                j,
                "start_ms"@,
                i64::MIN as int,
                i64::MAX as int,
            )->0 as i64,
            duration_ms: integer_member(j, "duration_ms"@, 0, u64::MAX as int)->0 as u64,
            hz: integer_member(j, "hz"@, 0, u64::MAX as int)->0 as u64,
            mode: string_member(j, "mode"@)->0,
            emergency: flag_member(j, "emergency"@)->0,
            encrypted: flag_member(j, "encrypted"@)->0,
            system: string_member(j, "system"@)->0,
            nac: nac_of(j)->0,
            tg: match opt_integer_member(j, "tg"@, 0, u32::MAX as int)->0 {
                Some(v) => Some(v as u32),
                None => None,
            },
            alias: opt_string_member(j, "alias"@)->0,
            tone: label_member(j, "tone"@)->0,
            alphatag: label_member(j, "alphatag"@)->0,
            src: string_member(j, "src"@)->0,
            delta_db: level_member(j, "delta_db"@)->0,
            signal_db: opt_level_member(j, "signal_db"@)->0,
            floor_db: opt_level_member(j, "floor_db"@)->0,
            offset_hz: match opt_integer_member(
                j,
                "offset_hz"@,
                i32::MIN as int,
                i32::MAX as int,
            )->0 {
                Some(v) => Some(v as i32),
                None => None,
            },
            mdc: mdc_of(j)->0,
            wav_rate: integer_member(j, "wav_rate"@, 0, u32::MAX as int)->0 as u32,
        }
    }

    /// The sidecar that a text holds.
    pub open spec fn read(t: Seq<char>) -> Option<SidecarView> {
        match json::document(t, true) {
            Some(j) => if Self::complete(j) {
                Some(Self::of_json(j))
            } else {
                None
            },
            None => None,
        }
    }
}

fn get_string(j: &Json, key: &str) -> (r: Option<String>)
    ensures
        text_of(r) == string_member(j@, key@),
{
    match j.get(key) {
        Some(v) => match v.as_str() {
            Some(s) => Some(s.to_owned()),
            None => None,
        },
        None => None,
    }
}

fn get_opt_string(j: &Json, key: &str) -> (r: Option<Option<String>>)
    ensures
        r is Some <==> opt_string_member(j@, key@) is Some,
        r matches Some(s) ==> opt_string_member(j@, key@) == Some(text_of(s)),
{
    match j.get(key) {
        Some(Json::Null) => Some(None),
        Some(Json::Str(s)) => Some(Some(s.clone())),
        _ => None,
    }
}

fn get_label(j: &Json, key: &str) -> (r: Option<Option<String>>)
    ensures
        r is Some <==> label_member(j@, key@) is Some,
        r matches Some(s) ==> label_member(j@, key@) == Some(text_of(s)),
{
    match j.get(key) {
        None => Some(None),
        Some(_) => get_opt_string(j, key),
    }
}

fn get_integer(j: &Json, key: &str, lo: i64, hi: u64) -> (r: Option<i128>)
    ensures
        r is Some <==> integer_member(j@, key@, lo as int, hi as int) is Some,
        r matches Some(v) ==> integer_member(j@, key@, lo as int, hi as int) == Some(v as int)
            && lo <= v <= hi,
{
    match j.get(key) {
        Some(Json::Num(n)) => n.to_integer(lo, hi),
        _ => None,
    }
}

fn get_opt_integer(j: &Json, key: &str, lo: i64, hi: u64) -> (r: Option<Option<i128>>)
    ensures
        r is Some <==> opt_integer_member(j@, key@, lo as int, hi as int) is Some,
        r matches Some(o) ==> opt_integer_member(j@, key@, lo as int, hi as int) == Some(
            match o {
                Some(v) => Some(v as int),
                None => None,
            },
        ) && (o matches Some(v) ==> lo <= v <= hi),
{
    if let Some(Json::Null) = j.get(key) {
        return Some(None);
    }
    match get_integer(j, key, lo, hi) {
        Some(v) => Some(Some(v)),
        None => None,
    }
}

fn get_level(j: &Json, key: &str) -> (r: Option<Binary32>)
    ensures
        r == level_member(j@, key@),
{
    match j.get(key) {
        Some(Json::Num(n)) => {
            let x = n.to_binary32();
            if ((x.bits % 0x8000_0000) as u64) < TOP_32 {
                Some(x)
            } else {
                None
            }
        },
        _ => None,
    }
}

fn get_opt_level(j: &Json, key: &str) -> (r: Option<Option<Binary32>>)
    ensures
        r == opt_level_member(j@, key@),
{
    if let Some(Json::Null) = j.get(key) {
        return Some(None);
    }
    match get_level(j, key) {
        Some(v) => Some(Some(v)),
        None => None,
    }
}

fn get_flag(j: &Json, key: &str) -> (r: Option<bool>)
    ensures
        r == flag_member(j@, key@),
{
    match j.get(key) {
        Some(Json::Bool(b)) => Some(*b),
        _ => None,
    }
}

fn parse_hex(s: &str) -> (r: Option<u16>)
    ensures
        r == hex_number(s@),
{
    match parse_digits(s, 16, 0xFFFF) {
        Some(v) => Some(v as u16),
        None => None,
    }
}

fn get_nac(j: &Json) -> (r: Option<Option<u16>>)
    ensures
        r == nac_of(j@),
{
    match get_opt_string(j, "nac") {
        Some(Some(s)) => match parse_hex(s.as_str()) {
            Some(v) => Some(Some(v)),
            None => None,
        },
        Some(None) => Some(None),
        None => None,
    }
}

fn get_packet(j: &Json) -> (r: Option<(u8, u8, u16)>)
    ensures
        r == packet_of(j@),
{
    match (
        get_integer(j, "op", 0, 255),
        get_integer(j, "arg", 0, 255),
        get_string(j, "unit_id"),
    ) {
        (Some(op), Some(arg), Some(unit)) => match parse_hex(unit.as_str()) {
            Some(unit) => Some((op as u8, arg as u8, unit)),
            None => None,
        },
        _ => None,
    }
}

fn get_packets(a: &[Json]) -> (r: Option<Vec<(u8, u8, u16)>>)
    ensures
        r is Some <==> packets_of(Json::meanings(a@)) is Some,
        r matches Some(ps) ==> packets_of(Json::meanings(a@)) == Some(ps@),
{
    let mut out: Vec<(u8, u8, u16)> = Vec::new();
    let mut i: usize = 0;
    let ghost all = Json::meanings(a@);
    proof {
        json::lemma_meanings(a@);
        assert(all.take(0) =~= Seq::empty());
        assert(out@ =~= Seq::empty());
    }
    while i < a.len()
        invariant
            i <= a@.len(),
            all == Json::meanings(a@),
            all.len() == a@.len(),
            packets_of(all.take(i as int)) == Some(out@),
        decreases a.len() - i,
    {
        proof {
            json::lemma_meanings(a@);
            assert(all.take(i + 1).drop_last() =~= all.take(i as int));
            assert(all.take(i + 1).last() == all[i as int]);
        }
        match get_packet(&a[i]) {
            Some(p) => out.push(p),
            None => {
                proof {
                    lemma_bad_packet(all, i as int);
                }
                return None;
            },
        }
        i = i + 1;
    }
    assert(all.take(all.len() as int) =~= all);
    Some(out)
}

proof fn lemma_bad_packet(a: Seq<JsonView>, i: int)
    requires
        0 <= i < a.len(),
        packet_of(a[i]) is None,
    ensures
        packets_of(a) is None,
    decreases a.len(),
{
    if i < a.len() - 1 {
        lemma_bad_packet(a.drop_last(), i);
    }
}

fn get_mdc(j: &Json) -> (r: Option<Option<Vec<(u8, u8, u16)>>>)
    ensures
        r is Some <==> mdc_of(j@) is Some,
        r matches Some(m) ==> mdc_of(j@) == Some(
            match m {
                Some(ps) => Some(ps@),
                None => None,
            },
        ),
{
    match j.get("mdc") {
        None => Some(None),
        Some(v) => match v.as_array() {
            Some(a) => match get_packets(a) {
                Some(ps) => Some(Some(ps)),
                None => None,
            },
            None => None,
        },
    }
}

impl Sidecar {
    /// Read a sidecar document back (an `MSDR` chunk). `None` on any
    /// shape this version does not know — malformed input is refused,
    /// never guessed. Strings may hold any text as it is, which is how
    /// [`Sidecar::to_json`] writes it.
    pub fn parse(text: &str) -> (r: Option<Sidecar>)
        ensures
            r is Some <==> SidecarView::read(text@) is Some,
            r matches Some(s) ==> SidecarView::read(text@) == Some(s@),
    {
        let j = match Json::read(text, true) {
            Some(j) => j,
            None => return None,
        };
        if get_integer(&j, "version", 1, 1).is_none() {
            return None;
        }
        let start_ms: i128 = match get_integer(&j, "start_ms", i64::MIN, i64::MAX as u64) {
            Some(v) => v,
            None => return None,
        };
        let duration_ms: i128 = match get_integer(&j, "duration_ms", 0, u64::MAX) {
            Some(v) => v,
            None => return None,
        };
        let hz: i128 = match get_integer(&j, "hz", 0, u64::MAX) {
            Some(v) => v,
            None => return None,
        };
        let mode = match get_string(&j, "mode") {
            Some(v) => v,
            None => return None,
        };
        let emergency = match get_flag(&j, "emergency") {
            Some(v) => v,
            None => return None,
        };
        let encrypted = match get_flag(&j, "encrypted") {
            Some(v) => v,
            None => return None,
        };
        let system = match get_string(&j, "system") {
            Some(v) => v,
            None => return None,
        };
        let nac: Option<u16> = match get_nac(&j) {
            Some(v) => v,
            None => return None,
        };
        let tg: Option<i128> = match get_opt_integer(&j, "tg", 0, u32::MAX as u64) {
            Some(v) => v,
            None => return None,
        };
        let alias = match get_opt_string(&j, "alias") {
            Some(v) => v,
            None => return None,
        };
        let tone = match get_label(&j, "tone") {
            Some(v) => v,
            None => return None,
        };
        let alphatag = match get_label(&j, "alphatag") {
            Some(v) => v,
            None => return None,
        };
        let src = match get_string(&j, "src") {
            Some(v) => v,
            None => return None,
        };
        let delta_db = match get_level(&j, "delta_db") {
            Some(v) => v,
            None => return None,
        };
        let signal_db = match get_opt_level(&j, "signal_db") {
            Some(v) => v,
            None => return None,
        };
        let floor_db = match get_opt_level(&j, "floor_db") {
            Some(v) => v,
            None => return None,
        };
        let offset_hz: Option<i128> = match get_opt_integer(&j, "offset_hz", i32::MIN as i64, i32::MAX as u64) {
            Some(v) => v,
            None => return None,
        };
        let mdc = match get_mdc(&j) {
            Some(v) => v,
            None => return None,
        };
        let wav_rate: i128 = match get_integer(&j, "wav_rate", 0, u32::MAX as u64) {
            Some(v) => v,
            None => return None,
        };
        let s = Sidecar {
            start_ms: start_ms as i64,
            duration_ms: duration_ms as u64,
            hz: hz as u64,
            mode,
            emergency,
            encrypted,
            system,
            nac,
            tg: match tg {
                Some(v) => Some(v as u32),
                None => None,
            },
            alias,
            tone,
            alphatag,
            src,
            delta_db,
            signal_db,
            floor_db,
            offset_hz: match offset_hz {
                Some(v) => Some(v as i32),
                None => None,
            },
            mdc,
            wav_rate: wav_rate as u32,
        };
        assert(s@ =~= SidecarView::of_json(j@));
        Some(s)
    }

    /// The sidecar as an insertion-ordered [`Json`] tree, for callers
    /// that compose it into a larger document.
    pub fn to_json_tree(&self) -> (j: Json)
        ensures
            j@ == match json::document(self@.json_text(), true) {
                Some(v) => v,
                None => JsonView::Null,
            },
    {
        match Json::read(self.to_json().as_str(), true) {
            Some(j) => j,
            None => Json::Null,
        }
    }
}

// ---------------------------------------------------------------------
// The projection.
// ---------------------------------------------------------------------
/// The last call header of a file.
pub open spec fn last_header(rs: Seq<RecordView>) -> Option<CallHeaderView>
    decreases rs.len(),
{
    if rs.len() == 0 {
        None
    } else {
        match rs.last() {
            RecordView::Header(h) => Some(h),
            _ => last_header(rs.drop_last()),
        }
    }
}

/// The last call trailer of a file.
pub open spec fn last_trailer(rs: Seq<RecordView>) -> Option<CallTrailerView>
    decreases rs.len(),
{
    if rs.len() == 0 {
        None
    } else {
        match rs.last() {
            RecordView::Trailer(t) => Some(t),
            _ => last_trailer(rs.drop_last()),
        }
    }
}

/// A file holds an ESS.
pub open spec fn has_ess(rs: Seq<RecordView>) -> bool {
    exists|i: int| 0 <= i < rs.len() && #[trigger] rs[i] is Ess
}

/// The milliseconds of audio in a voice record of type `typ`; zero for
/// what carries no voice.
pub open spec fn voice_unit_ms(typ: u8) -> nat {
    if typ == TYP_LDU {
        180
    } else if typ == TYP_P2_VCH || typ == TYP_DMR_VOICE {
        360
    } else {
        0
    }
}

/// The clock and the length of the last voice record of a file, zeros
/// where there is none.
pub open spec fn last_voice(rs: Seq<RecordView>) -> (nat, nat)
    decreases rs.len(),
{
    if rs.len() == 0 {
        (0, 0)
    } else {
        match rs.last() {
            RecordView::Raw(raw) if voice_unit_ms(raw.typ) > 0 => (
                raw.head.epoch_us as nat,
                voice_unit_ms(raw.typ),
            ),
            _ => last_voice(rs.drop_last()),
        }
    }
}

/// Text, absent where it is empty.
pub open spec fn nonempty(s: Seq<char>) -> Option<Seq<char>> {
    if s.len() == 0 {
        None
    } else {
        Some(s)
    }
}

/// A level, absent where it was not measured.
pub open spec fn measured(v: Binary32) -> Option<Binary32> {
    if v.nan() {
        None
    } else {
        Some(v)
    }
}

/// Zero.
pub open spec fn zero_level() -> Binary32 {
    Binary32 { bits: 0 }
}

impl SidecarView {
    /// What the header of a digital call says of it, with the identity and
    /// the length that are known of the call.
    pub open spec fn of_header(
        h: CallHeaderView,
        duration_ms: nat,
        tg: u32,
        src: u32,
        encrypted: bool,
    ) -> SidecarView {
        SidecarView {
            start_ms: (h.head.epoch_us / 1000) as i64,
            duration_ms: duration_ms as u64,
            hz: h.head.hz as u64,
            mode: match Mode::of(h.mode) {
                Some(m) => m.token_text(h.slot),
                None => seq!['?'] + text::decimal(h.mode as nat),
            },
            emergency: false,
            encrypted,
            system: h.system,
            nac: if Mode::of(h.mode) == Some(Mode::Analog) {
                None
            } else {
                Some(h.head.nac)
            },
            tg: if tg == 0 {
                None
            } else {
                Some(tg)
            },
            alias: None,
            tone: None,
            alphatag: None,
            src: text::decimal(src as nat),
            delta_db: zero_level(),
            signal_db: None,
            floor_db: None,
            offset_hz: None,
            mdc: None,
            wav_rate: 0,
        }
    }

    /// A call with its close-time facts; the label is a conventional call's.
    pub open spec fn of_call(h: CallHeaderView, t: CallTrailerView) -> SidecarView {
        SidecarView {
            emergency: t.emergency(),
            alias: nonempty(t.alias),
            alphatag: if Mode::of(h.mode) == Some(Mode::Analog) {
                nonempty(t.alphatag)
            } else {
                None
            },
            delta_db: t.delta_db,
            signal_db: measured(t.signal_db),
            floor_db: measured(t.floor_db),
            offset_hz: if t.offset_hz == OFFSET_UNKNOWN {
                None
            } else {
                Some(t.offset_hz)
            },
            ..Self::of_header(h, t.duration_ms as nat, t.tg, t.src, t.encrypted())
        }
    }

    /// A digital call that was cut before its trailer: the voice clock
    /// sizes it, the header's seed names it, the ESS is the verdict.
    pub open spec fn of_cut_call(h: CallHeaderView, rs: Seq<RecordView>) -> SidecarView {
        let (last_us, unit_ms) = last_voice(rs);
        let start_us = h.head.epoch_us as nat;
        let heard_ms = if last_us > start_us {
            ((last_us - start_us) / 1000) as nat
        } else {
            0
        };
        let seeded = h.head.flags & HDR_FLAG_SEEDED != 0;
        Self::of_header(
            h,
            heard_ms + unit_ms,
            if seeded {
                h.tg
            } else {
                0
            },
            if seeded {
                h.src
            } else {
                0
            },
            has_ess(rs),
        )
    }

    /// The sidecar of a digital call's records.
    pub open spec fn of_records(rs: Seq<RecordView>) -> Option<SidecarView> {
        match last_header(rs) {
            Some(h) => match last_trailer(rs) {
                Some(t) => Some(Self::of_call(h, t)),
                None => Some(Self::of_cut_call(h, rs)),
            },
            None => None,
        }
    }
}

fn opt_nonempty(s: &String) -> (r: Option<String>)
    ensures
        text_of(r) == nonempty(s@),
{
    if s.as_str().is_empty() {
        None
    } else {
        Some(s.clone())
    }
}

fn opt_measured(v: Binary32) -> (r: Option<Binary32>)
    ensures
        r == measured(v),
{
    if v.is_nan() {
        None
    } else {
        Some(v)
    }
}

impl Sidecar {
    fn of_header(h: &CallHeader, duration_ms: u64, tg: u32, src: u32, encrypted: bool) -> (r:
        Sidecar)
        ensures
            r@ == SidecarView::of_header(h@, duration_ms as nat, tg, src, encrypted),
    {
        let mode = Mode::from_u8(h.mode);
        let analog = match mode {
            Some(Mode::Analog) => true,
            _ => false,
        };
        let token = match mode {
            Some(m) => m.token(h.slot),
            None => {
                let mut s = String::new();
                s.push('?');
                push_decimal(&mut s, h.mode as u128);
                assert(s@ =~= seq!['?'] + text::decimal(h.mode as nat));
                s
            },
        };
        let r = Sidecar {
            start_ms: (h.head.epoch_us / 1000) as i64,
            duration_ms,
            hz: h.head.hz as u64,
            mode: token,
            emergency: false,
            encrypted,
            system: h.system.clone(),
            nac: if analog {
                None
            } else {
                Some(h.head.nac)
            },
            tg: if tg == 0 {
                None
            } else {
                Some(tg)
            },
            alias: None,
            tone: None,
            alphatag: None,
            src: decimal_value(src as u64),
            delta_db: Binary32 { bits: 0 },
            signal_db: None,
            floor_db: None,
            offset_hz: None,
            mdc: None,
            wav_rate: 0,
        };
        assert(r@ =~= SidecarView::of_header(h@, duration_ms as nat, tg, src, encrypted));
        r
    }

    /// THE PROJECTION: a digital call's metadata from its records — the
    /// CallHeader (identity at grant, the carrier, the site), the
    /// CallTrailer (the close-time facts) and the ESS (encryption), plus
    /// the voice records' clock when the trailer is missing (a crash-cut
    /// file: the duration is the last voice record's epoch plus one
    /// unit, the identity the header's seed, the verdict the ESS).
    /// `None` without a CallHeader.
    pub fn from_records(recs: &[Record]) -> (r: Option<Sidecar>)
        ensures
            r is Some <==> SidecarView::of_records(record::views(recs@)) is Some,
            r matches Some(s) ==> SidecarView::of_records(record::views(recs@)) == Some(s@),
    {
        let mut header: Option<&CallHeader> = None;
        let mut trailer: Option<&CallTrailer> = None;
        let mut ess = false;
        let mut last_voice_us: u64 = 0;
        let mut unit_ms: u64 = 0;
        let ghost all = record::views(recs@);
        let mut i: usize = 0;
        while i < recs.len()
            invariant
                i <= recs@.len(),
                all == record::views(recs@),
                unit_ms <= 360,
                last_header(all.take(i as int)) == (match header {
                    Some(h) => Some(h@),
                    None => None,
                }),
                last_trailer(all.take(i as int)) == (match trailer {
                    Some(t) => Some(t@),
                    None => None,
                }),
                ess == has_ess(all.take(i as int)),
                last_voice(all.take(i as int)) == (last_voice_us as nat, unit_ms as nat),
            decreases recs.len() - i,
        {
            proof {
                let t = all.take(i + 1);
                let before = all.take(i as int);
                assert(t.drop_last() =~= before);
                assert(t.last() == recs@[i as int]@);
                if has_ess(before) {
                    let k = choose|k: int| 0 <= k < before.len() && #[trigger] before[k] is Ess;
                    assert(t[k] is Ess);
                }
                if t.last() is Ess {
                    assert(t[i as int] is Ess);
                } else if has_ess(t) {
                    let k = choose|k: int| 0 <= k < t.len() && #[trigger] t[k] is Ess;
                    assert(before[k] is Ess);
                }
            }
            match &recs[i] {
                Record::Header(h) => header = Some(h),
                Record::Trailer(t) => trailer = Some(t),
                Record::Ess(_) => ess = true,
                Record::Raw(raw) => {
                    if raw.typ == TYP_LDU {
                        last_voice_us = raw.head.epoch_us;
                        unit_ms = 180;
                    } else if raw.typ == TYP_P2_VCH || raw.typ == TYP_DMR_VOICE {
                        last_voice_us = raw.head.epoch_us;
                        unit_ms = 360;
                    }
                },
            }
            i = i + 1;
        }
        assert(all.take(all.len() as int) =~= all);
        let h = match header {
            Some(h) => h,
            None => return None,
        };
        match trailer {
            Some(t) => {
                let mut s = Sidecar::of_header(
                    h,
                    t.duration_ms as u64,
                    t.tg,
                    t.src,
                    t.encrypted(),
                );
                s.emergency = t.emergency();
                s.alias = opt_nonempty(&t.alias);
                s.alphatag = match Mode::from_u8(h.mode) {
                    Some(Mode::Analog) => opt_nonempty(&t.alphatag),
                    _ => None,
                };
                s.delta_db = t.delta_db;
                s.signal_db = opt_measured(t.signal_db);
                s.floor_db = opt_measured(t.floor_db);
                s.offset_hz = if t.offset_hz == OFFSET_UNKNOWN {
                    None
                } else {
                    Some(t.offset_hz)
                };
                assert(s@ =~= SidecarView::of_call(h@, t@));
                Some(s)
            },
            None => {
                let heard_us: u64 = if last_voice_us > h.head.epoch_us {
                    last_voice_us - h.head.epoch_us
                } else {
                    0
                };
                let seeded = h.head.flags & HDR_FLAG_SEEDED != 0;
                Some(
                    Sidecar::of_header(
                        h,
                        heard_us / 1000 + unit_ms,
                        if seeded {
                            h.tg
                        } else {
                            0
                        },
                        if seeded {
                            h.src
                        } else {
                            0
                        },
                        ess,
                    ),
                )
            },
        }
    }
}

impl Clone for Sidecar {
    fn clone(&self) -> (r: Self)
        ensures
            r@ == self@,
    {
        let r = Sidecar {
            start_ms: self.start_ms,
            duration_ms: self.duration_ms,
            hz: self.hz,
            mode: self.mode.clone(),
            emergency: self.emergency,
            encrypted: self.encrypted,
            system: self.system.clone(),
            nac: self.nac,
            tg: self.tg,
            alias: opt_copy(&self.alias),
            tone: opt_copy(&self.tone),
            alphatag: opt_copy(&self.alphatag),
            src: self.src.clone(),
            delta_db: self.delta_db,
            signal_db: self.signal_db,
            floor_db: self.floor_db,
            offset_hz: self.offset_hz,
            mdc: match &self.mdc {
                Some(ps) => Some(packets_copy(ps)),
                None => None,
            },
            wav_rate: self.wav_rate,
        };
        assert(r@ =~= self@);
        r
    }
}

fn opt_copy(s: &Option<String>) -> (r: Option<String>)
    ensures
        text_of(r) == text_of(*s),
{
    match s {
        Some(s) => Some(s.clone()),
        None => None,
    }
}

fn packets_copy(ps: &Vec<(u8, u8, u16)>) -> (r: Vec<(u8, u8, u16)>)
    ensures
        r@ == ps@,
{
    let mut r: Vec<(u8, u8, u16)> = Vec::new();
    let mut i: usize = 0;
    while i < ps.len()
        invariant
            i <= ps@.len(),
            r@ =~= ps@.take(i as int),
        decreases ps.len() - i,
    {
        r.push(ps[i]);
        i = i + 1;
    }
    assert(ps@.take(ps@.len() as int) =~= ps@);
    r
}

} // verus!
