use sdr_stream::ieee::Binary32;
use sdr_stream::json::Json;
use sdr_stream::riff::sidecar_text;
use sdr_stream::sidecar::{json_escape, Sidecar};
use sdr_stream::{
    push_head, records, CallHeader, CallTrailer, EssRecord, Mode, MsgHead, Record, HDR_FLAG_SEEDED, OFFSET_UNKNOWN,
    TRL_FLAG_EMERGENCY, TRL_FLAG_ENCRYPTED, TYP_DMR_VOICE, TYP_LDU, TYP_P2_VCH,
};

fn db(v: f32) -> Binary32 {
    Binary32 { bits: v.to_bits() }
}

/// The P25 sidecar, byte-exact — the anchor call's metadata.
/// nac/tg/alias filled, tone/alphatag/mdc keys ABSENT, absolutes
/// null until the P25 path plumbs them.
#[test]
fn sidecar_p25_golden() {
    let s = Sidecar {
        start_ms: 1786503850696,
        duration_ms: 4250,
        hz: 851012500,
        mode: "F".into(),
        emergency: false,
        encrypted: false,
        system: "ABCDE123".into(),
        nac: Some(0x293),
        tg: Some(100),
        alias: Some("UNIT1".into()),
        tone: None,
        alphatag: None,
        src: "1234567".into(),
        delta_db: db(50.4),
        signal_db: None,
        floor_db: None,
        offset_hz: None,
        mdc: None,
        wav_rate: 0,
    };
    let text = "{\"version\":1,\"start_ms\":1786503850696,\"duration_ms\":4250,\
         \"hz\":851012500,\"mode\":\"F\",\"emergency\":false,\"encrypted\":false,\
         \"system\":\"ABCDE123\",\"nac\":\"293\",\"tg\":100,\"alias\":\"UNIT1\",\
         \"src\":\"1234567\",\"delta_db\":50.4,\"signal_db\":null,\"floor_db\":null,\
         \"offset_hz\":null,\"wav_rate\":0}";
    assert_eq!(s.to_json(), text);
    assert_eq!(Sidecar::parse(text).unwrap(), s, "parse is the inverse of to_json");
}

fn conventional() -> Sidecar {
    Sidecar {
        start_ms: 1786503850696,
        duration_ms: 9470,
        hz: 460012500,
        mode: "A".into(),
        emergency: false,
        encrypted: false,
        system: "KA1ABC".into(),
        nac: None,
        tg: None,
        alias: None,
        tone: Some("D466N".into()),
        alphatag: Some("Ops 1".into()),
        src: "0042".into(),
        delta_db: db(56.0),
        signal_db: Some(db(-22.0)),
        floor_db: Some(db(-78.0)),
        offset_hz: Some(120),
        mdc: Some(vec![(0x01, 0x80, 0x0042)]),
        wav_rate: 16_000,
    }
}

/// The conventional sidecar, byte-exact — a conventional keyup with an MDC-1200 ANI:
/// tone/alphatag/mdc present, unit_id as HEX DIGITS (0042 = unit
/// 4-2, no conversions), nac/tg/alias null.
#[test]
fn sidecar_conventional_golden() {
    let s = conventional();
    let text = "{\"version\":1,\"start_ms\":1786503850696,\"duration_ms\":9470,\
         \"hz\":460012500,\"mode\":\"A\",\"emergency\":false,\"encrypted\":false,\
         \"system\":\"KA1ABC\",\"nac\":null,\"tg\":null,\"alias\":null,\
         \"tone\":\"D466N\",\"alphatag\":\"Ops 1\",\"src\":\"0042\",\
         \"delta_db\":56.0,\"signal_db\":-22.0,\"floor_db\":-78.0,\"offset_hz\":120,\
         \"mdc\":[{\"op\":1,\"arg\":128,\"unit_id\":\"0042\"}],\"wav_rate\":16000}";
    assert_eq!(s.to_json(), text);
    assert_eq!(Sidecar::parse(text).unwrap(), s);
    assert!(Sidecar::parse("{\"version\":2}").is_none(), "a foreign version is refused");
    assert!(Sidecar::parse("{\"version\":1,\"start_ms\":1}").is_none(), "a missing field is refused");
}

/// Air- and config-supplied text is escaped, never trusted.
#[test]
fn sidecar_escapes_text() {
    let mut s = Sidecar {
        start_ms: 0,
        duration_ms: 0,
        hz: 0,
        mode: "A".into(),
        emergency: false,
        encrypted: false,
        system: "K\"B".into(),
        nac: None,
        tg: None,
        alias: None,
        tone: Some("CSQ".into()),
        alphatag: Some("a\\b\"c".into()),
        src: "0".into(),
        delta_db: db(0.0),
        signal_db: None,
        floor_db: None,
        offset_hz: None,
        mdc: Some(vec![]),
        wav_rate: 16_000,
    };
    let j = s.to_json();
    assert!(j.contains("\"system\":\"K\\\"B\""));
    assert!(j.contains("\"alphatag\":\"a\\\\b\\\"c\""));
    assert!(j.contains("\"mdc\":[]"), "empty packet list prints []: {j}");
    s.alias = Some("x\ny".into());
    assert!(s.to_json().contains("\"alias\":\"x\\u000ay\""));
}

fn head(seq: u32, epoch_us: u64) -> MsgHead {
    MsgHead { seq, epoch_us, hz: 851_012_500, nac: 0x293, flags: 0, site: 13 }
}

/// A digital call's sidecar IS its records: header + trailer give
/// the whole document; without a trailer the voice clock and the
/// ESS stand in.
#[test]
fn projection_from_records() {
    let start = 1_786_503_850_696_000u64;
    let mut buf = Vec::new();
    CallHeader {
        head: MsgHead { flags: HDR_FLAG_SEEDED, ..head(0, start) },
        mode: Mode::P25Fdma.to_u8(),
        slot: 0xFF,
        tg: 100,
        src: 1_234_567,
        wacn: 0xABCDE,
        sysid: 0x123,
        system: "ABCDE123".into(),
    }
    .encode_into(&mut buf);
    for k in 1..=3u32 {
        push_head(&mut buf, TYP_LDU, 40, &head(k, start + k as u64 * 180_000));
        buf.extend_from_slice(&[0; 8]);
    }
    let cut = buf.len();
    EssRecord { head: head(4, start), ess: [0, 0, 0, 0, 0, 0, 0, 0, 0, 0xAA, 0x00, 0x2A] }.encode_into(&mut buf);
    CallTrailer {
        head: MsgHead { flags: TRL_FLAG_ENCRYPTED | TRL_FLAG_EMERGENCY, ..head(5, start + 4_250_000) },
        duration_ms: 4250,
        tg: 100,
        src: 1_234_567,
        delta_db: db(50.4),
        signal_db: db(f32::NAN),
        floor_db: db(f32::NAN),
        offset_hz: OFFSET_UNKNOWN,
        alias: "UNIT1".into(),
        alphatag: String::new(),
    }
    .encode_into(&mut buf);
    let recs: Vec<Record> = records(&buf).collect();
    let s = Sidecar::from_records(&recs).unwrap();
    assert_eq!(
        s.to_json(),
        "{\"version\":1,\"start_ms\":1786503850696,\"duration_ms\":4250,\
         \"hz\":851012500,\"mode\":\"F\",\"emergency\":true,\"encrypted\":true,\
         \"system\":\"ABCDE123\",\"nac\":\"293\",\"tg\":100,\"alias\":\"UNIT1\",\
         \"src\":\"1234567\",\"delta_db\":50.4,\"signal_db\":null,\"floor_db\":null,\
         \"offset_hz\":null,\"wav_rate\":0}"
    );
    // Crash-cut before the ESS and trailer: the header's seed names
    // it, the voice clock sizes it, nothing claims encryption.
    let cut: Vec<Record> = records(&buf[..cut]).collect();
    let c = Sidecar::from_records(&cut).unwrap();
    assert_eq!((c.duration_ms, c.tg, c.src.as_str(), c.encrypted, c.emergency), (720, Some(100), "1234567", false, false));
    // A DMR header names its slot in the token.
    let mut d = Vec::new();
    CallHeader {
        head: MsgHead { nac: 1, ..head(0, start) },
        mode: Mode::Dmr.to_u8(),
        slot: 1,
        tg: 0,
        src: 0,
        wacn: 0,
        sysid: 0,
        system: "BAOFENG".into(),
    }
    .encode_into(&mut d);
    let d: Vec<Record> = records(&d).collect();
    let s = Sidecar::from_records(&d).unwrap();
    assert_eq!((s.mode.as_str(), s.nac, s.tg, s.duration_ms), ("D2", Some(1), None, 0));
    assert!(Sidecar::from_records(&[]).is_none());
}

fn header(mode: u8, flags: u16, epoch_us: u64) -> CallHeader {
    CallHeader {
        head: MsgHead { flags, ..head(0, epoch_us) },
        mode,
        slot: 0,
        tg: 7,
        src: 8,
        wacn: 0,
        sysid: 0,
        system: "S".into(),
    }
}

fn voice(typ: u8, epoch_us: u64) -> Record {
    let mut b = Vec::new();
    push_head(&mut b, typ, 40, &head(1, epoch_us));
    b.extend_from_slice(&[0; 8]);
    records(&b).collect().remove(0)
}

#[test]
fn a_cut_call_is_sized_by_its_last_voice_record() {
    let h = || Record::Header(header(1, 0, 1_000_000));
    let of = |recs: &[Record]| Sidecar::from_records(recs).unwrap();
    let s = of(&[h()]);
    assert_eq!((s.start_ms, s.duration_ms, s.tg, s.src.as_str()), (1000, 0, None, "0"));
    assert_eq!(s.delta_db.bits, 0);
    assert_eq!(of(&[h(), voice(TYP_P2_VCH, 1_500_999)]).duration_ms, 860);
    assert_eq!(of(&[h(), voice(TYP_DMR_VOICE, 1_500_000), voice(TYP_LDU, 900_000)]).duration_ms, 180, "a clock that ran back");
    assert_eq!(of(&[voice(TYP_DMR_VOICE, 2_000_000), h(), voice(77, 9_000_000)]).duration_ms, 1360, "strangers change nothing");
    let e = Record::Ess(EssRecord { head: head(2, 0), ess: [0; 12] });
    assert!(of(&[e, h()]).encrypted);
    assert!(Sidecar::from_records(&[voice(TYP_LDU, 5)]).is_none(), "no header, no sidecar");
}

#[test]
fn the_last_header_and_trailer_count() {
    let t = |duration_ms: u32, tg: u32| {
        Record::Trailer(CallTrailer {
            head: head(9, 0),
            duration_ms,
            tg,
            src: 5,
            delta_db: db(1.25),
            signal_db: db(-20.5),
            floor_db: db(f32::NAN),
            offset_hz: -40,
            alias: String::new(),
            alphatag: "Fire".into(),
        })
    };
    let recs = [
        Record::Header(header(1, HDR_FLAG_SEEDED, 0)),
        t(1, 1),
        Record::Header(header(2, HDR_FLAG_SEEDED, 3_000)),
        t(2, 0),
    ];
    let s = Sidecar::from_records(&recs).unwrap();
    assert_eq!((s.start_ms, s.duration_ms, s.mode.as_str(), s.nac, s.tg, s.src.as_str()), (3, 2, "A", None, None, "5"));
    assert_eq!((s.signal_db, s.floor_db, s.offset_hz), (Some(db(-20.5)), None, Some(-40)));
    assert_eq!((s.alias, s.alphatag.as_deref()), (None, Some("Fire")));
    let u = Sidecar::from_records(&[Record::Header(header(200, 0, 0))]).unwrap();
    assert_eq!((u.mode.as_str(), u.nac), ("?200", Some(0x293)));
}

#[test]
fn unreadable_documents_are_refused() {
    let good = conventional().to_json();
    assert!(Sidecar::parse(&good).is_some());
    for key in [
        "version", "start_ms", "duration_ms", "hz", "mode", "emergency", "encrypted", "system", "nac", "tg", "alias", "src",
        "delta_db", "signal_db", "floor_db", "offset_hz", "wav_rate",
    ] {
        let bad = good.replace(&format!("\"{key}\""), "\"other\"");
        assert!(Sidecar::parse(&bad).is_none(), "{key}");
    }
    assert!(Sidecar::parse(&good.replace("\"0042\"}", "\"00G2\"}")).is_none(), "a unit id that is no number");
    assert!(Sidecar::parse(&good.replace("\"op\":1,", "")).is_none(), "a packet without its op");
    assert!(Sidecar::parse(&good.replace("[{", "{\"a\":{").replace("}]", "}}")).is_none(), "packets that are no list");
    assert!(Sidecar::parse(&good.replace("\"src\":\"0042\"", "\"src\":42")).is_none());
    assert!(Sidecar::parse(&good.replace("[{", "null,\"a\":[{")).is_none(), "packets that are nothing");
}

#[test]
fn a_member_of_another_kind_is_refused() {
    let good = conventional().to_json();
    for (from, to) in [
        ("\"emergency\":false", "\"emergency\":1"),
        ("\"emergency\":false", "\"emergency\":null"),
        ("\"encrypted\":false", "\"encrypted\":\"false\""),
        ("\"nac\":null", "\"nac\":659"),
        ("\"nac\":null", "\"nac\":\"\""),
        ("\"nac\":null", "\"nac\":\"29x\""),
        ("\"nac\":null", "\"nac\":\"+2aF\""),
        ("\"nac\":null", "\"nac\":\"10000\""),
        ("\"tg\":null", "\"tg\":\"100\""),
        ("\"tg\":null", "\"tg\":true"),
        ("\"alias\":null", "\"alias\":7"),
        ("\"tone\":\"D466N\"", "\"tone\":466"),
        ("\"alphatag\":\"Ops 1\"", "\"alphatag\":[]"),
        ("\"signal_db\":-22.0", "\"signal_db\":\"x\""),
        ("\"floor_db\":-78.0", "\"floor_db\":{}"),
        ("\"offset_hz\":120", "\"offset_hz\":\"x\""),
        ("\"delta_db\":56.0", "\"delta_db\":null"),
        ("\"delta_db\":56.0", "\"delta_db\":1e39"),
    ] {
        assert!(good.contains(from), "{from}");
        assert!(Sidecar::parse(&good.replace(from, to)).is_none(), "{to}");
    }
    let s = Sidecar::parse(&good.replace("\"nac\":null", "\"nac\":\"2aF\"").replace("\"tone\":\"D466N\"", "\"tone\":null")).unwrap();
    assert_eq!((s.nac, s.tone), (Some(0x2AF), None));
}

#[test]
fn numbers_out_of_range_are_refused() {
    let good = conventional().to_json();
    let try_one = |from: &str, to: &str| {
        assert!(good.contains(from), "{from}");
        Sidecar::parse(&good.replace(from, to))
    };
    for (from, key, bad) in [
        ("\"op\":1,", "\"op\":", ["256", "-1", "1.5", "513"]),
        ("\"arg\":128,", "\"arg\":", ["256", "-1", "0.1", "1e300"]),
        ("\"wav_rate\":16000", "\"wav_rate\":", ["4294967296", "-1", "16000.5", "4294967297"]),
        ("\"tg\":null", "\"tg\":", ["4294967296", "-1", "2.5", "8589934595"]),
        ("\"offset_hz\":120", "\"offset_hz\":", ["2147483648", "-2147483649", "120.5", "1e999"]),
        ("\"version\":1", "\"version\":", ["2", "0", "1.25", "-1"]),
        ("\"hz\":460012500", "\"hz\":", ["-1", "0.5", "18446744073709551616", "-1e30"]),
        ("\"duration_ms\":9470", "\"duration_ms\":", ["-1", "9470.1", "18446744073709551615", "1e20"]),
        ("\"start_ms\":1786503850696", "\"start_ms\":", ["9223372036854775808", "-9223372036854777856", "0.5", "1e19"]),
    ] {
        for b in bad {
            let to = if from.ends_with(',') { format!("{key}{b},") } else { format!("{key}{b}") };
            assert_eq!(try_one(from, &to), None, "{to}");
        }
    }
    let of = |from: &str, to: &str| try_one(from, to).unwrap();
    assert_eq!(of("\"op\":1,", "\"op\":255,").mdc, Some(vec![(255, 0x80, 0x42)]));
    assert_eq!(of("\"op\":1,", "\"op\":0.0,").mdc, Some(vec![(0, 0x80, 0x42)]));
    assert_eq!(of("\"wav_rate\":16000", "\"wav_rate\":4294967295").wav_rate, u32::MAX);
    assert_eq!(of("\"tg\":null", "\"tg\":1e2").tg, Some(100));
    assert_eq!(of("\"offset_hz\":120", "\"offset_hz\":-2147483648").offset_hz, Some(i32::MIN));
    assert_eq!(of("\"start_ms\":1786503850696", "\"start_ms\":-9223372036854775808").start_ms, i64::MIN);
    assert_eq!(of("\"hz\":460012500", "\"hz\":-0").hz, 0);
}

/// Tone, label and packets belong to conventional calls.
#[test]
fn a_digital_call_has_no_label() {
    for (mode, label) in [(1u8, None), (2, Some("Fire")), (3, None), (4, None), (200, None)] {
        let t = Record::Trailer(CallTrailer {
            head: head(9, 0),
            duration_ms: 1,
            tg: 1,
            src: 5,
            delta_db: db(1.0),
            signal_db: db(f32::NAN),
            floor_db: db(f32::NAN),
            offset_hz: 0,
            alias: "Unit".into(),
            alphatag: "Fire".into(),
        });
        let s = Sidecar::from_records(&[Record::Header(header(mode, 0, 0)), t]).unwrap();
        assert_eq!(s.alphatag.as_deref(), label, "{mode}");
        assert_eq!(s.alias.as_deref(), Some("Unit"));
        assert_eq!((s.tone, s.mdc, s.wav_rate), (None, None, 0));
    }
}

#[test]
fn a_sidecar_reads_back_out_of_its_document() {
    let mut s = conventional();
    s.start_ms = -(1 << 53);
    s.duration_ms = 1 << 53;
    s.hz = (1 << 53) - 1;
    s.mode = "".into();
    s.system = "a\\\"/ ~\u{7f}\0\n\u{1f}é\u{1f600}".into();
    s.nac = Some(0xFFFF);
    s.tg = Some(u32::MAX);
    s.alias = Some("".into());
    s.tone = Some("\u{1b}".into());
    s.alphatag = Some("Südbezirk €".into());
    s.src = "\t\r".into();
    s.offset_hz = Some(i32::MIN);
    s.delta_db = db(999_999.9);
    s.signal_db = Some(db(-0.0));
    s.floor_db = Some(db(-0.1));
    s.mdc = Some(vec![(0, 255, 0), (255, 0, 0xFFFF), (1, 2, 0xABC)]);
    s.wav_rate = u32::MAX;
    let back = Sidecar::parse(&s.to_json()).unwrap();
    assert_eq!(back, s);
    assert_eq!(back.signal_db.unwrap().bits, (-0.0f32).to_bits());
    for t in 0..2_000u32 {
        s.delta_db = db((t * 5_003 % 10_000_000) as f32 / 10.0);
        assert!(Sidecar::parse(&s.to_json()).unwrap().delta_db.bits == s.delta_db.bits, "{t}");
    }
}

#[test]
fn what_a_document_cannot_hold() {
    let read = |change: &dyn Fn(&mut Sidecar)| {
        let mut s = conventional();
        change(&mut s);
        (Sidecar::parse(&s.to_json()), s)
    };
    assert!(read(&|s| s.delta_db = db(f32::NAN)).0.is_none());
    assert!(read(&|s| s.delta_db = db(f32::INFINITY)).0.is_none());
    let (back, s) = read(&|s| s.hz = (1 << 53) + 1);
    assert_ne!(back.unwrap().hz, s.hz);
    assert!(read(&|s| s.hz = u64::MAX).0.is_none());
    let (back, s) = read(&|s| s.delta_db = db(0.25));
    assert_ne!(back.unwrap().delta_db, s.delta_db);
}

/// A level comes back as its one decimal says it.
#[test]
fn levels_come_back_in_tenths() {
    let mut s = conventional();
    for (level, back) in [(0.25, 0.2), (0.35, 0.3), (-3.14159, -3.1), (49.96, 50.0), (-0.04, -0.0), (123456.78, 123456.8)] {
        s.delta_db = db(level);
        s.signal_db = Some(db(-level));
        let r = Sidecar::parse(&s.to_json()).unwrap();
        assert_eq!(r.delta_db.bits, db(back).bits, "{level}");
        assert_eq!(r.signal_db.unwrap().bits, db(-back).bits, "{level}");
    }
    // Between a million and two to the twentieth, and on: levels lie so far
    // apart that one decimal is enough.
    for level in [1_000_000.06f32, 1_048_575.94, 1_048_576.0, 1_048_576.1, 2_097_152.25, 8_388_607.5, 16_777_216.0, 1e30, f32::MAX] {
        for x in [level, -level] {
            s.delta_db = db(x);
            let r = Sidecar::parse(&s.to_json()).unwrap();
            let tenths: f32 = format!("{x:.1}").parse().unwrap();
            assert_eq!(r.delta_db.bits, db(tenths).bits, "{x}");
            assert!(level < 1_048_576.0 || tenths == x, "{x}");
        }
    }
}

#[test]
fn the_tree_is_the_document() {
    let s = conventional();
    let tree = s.to_json_tree();
    assert_eq!(tree.get("version").and_then(Json::as_u64), Some(1));
    assert_eq!(tree.get("tone").and_then(Json::as_str), Some("D466N"));
    assert_eq!(tree.get("mdc").and_then(Json::as_array).map(|a| a.len()), Some(1));
    assert_eq!(Sidecar::parse(&tree.to_pretty()).unwrap(), s);
    let mut odd = s.clone();
    odd.alias = Some("\u{1}é".into());
    assert_eq!(odd.to_json_tree().get("alias").and_then(Json::as_str), Some("\u{1}é"));
    assert_eq!(Sidecar::parse(&odd.to_json_tree().to_pretty()).unwrap(), odd);
    let mut bad = s.clone();
    bad.delta_db = db(f32::NAN);
    assert_eq!(bad.to_json_tree(), Json::Null);
}

#[test]
fn escapes_cover_quotes_backslashes_and_controls() {
    assert_eq!(json_escape("a\"b\\c\u{0}\u{1f} \u{7f}é"), "a\\\"b\\\\c\\u0000\\u001f \u{7f}é");
    assert_eq!(json_escape(""), "");
}

/// What a recorder embeds behind the audio, a reader pulls out.
#[test]
fn an_embedded_sidecar_reads_back() {
    let s = conventional();
    let text = s.to_json();
    let mut wav = b"RIFF\0\0\0\0WAVEdata\x03\0\0\0abc\0MSDR".to_vec();
    wav.extend_from_slice(&(text.len() as u32).to_le_bytes());
    wav.extend_from_slice(text.as_bytes());
    assert_eq!(Sidecar::parse(sidecar_text(&wav).unwrap()), Some(s));
}
