use sdr_stream::ieee::Binary32;
use sdr_stream::{
    f32le, i32le, pad8, pad_to, parse, parse_head, push_head, push_str, records, take_str, u16le, u32le, u64le, CallHeader,
    CallTrailer, EssRecord, Mode, MsgHead, Record, HDR_FLAG_SEEDED, OFFSET_UNKNOWN, TRL_FLAG_EMERGENCY, TRL_FLAG_ENCRYPTED,
    TYP_CALL_HEADER, TYP_ESS, TYP_LDU,
};

fn db(v: f32) -> Binary32 {
    Binary32 { bits: v.to_bits() }
}

fn head() -> MsgHead {
    MsgHead { seq: 0, epoch_us: 0x1122334455667788, hz: 851_012_500, nac: 0x293, flags: 0, site: 13 }
}

/// The CallHeader, byte for byte: the v1 head (magic, ver, typ, len
/// in octets, epoch at 8, hz/seq, nac/flags/site) and the body.
#[test]
fn golden_call_header() {
    let h = CallHeader {
        head: MsgHead { flags: HDR_FLAG_SEEDED, ..head() },
        mode: Mode::P25Fdma.to_u8(),
        slot: 0xFF,
        tg: 100,
        src: 1_234_567,
        wacn: 0xABCDE,
        sysid: 0x123,
        system: "ABCDE123".into(),
    };
    let mut out = Vec::new();
    h.encode_into(&mut out);
    let expect: [u8; 64] = [
        b's', b'd', b'r', 0x00, //
        0x01, 0x01, 0x40, 0x00, //
        0x88, 0x77, 0x66, 0x55, 0x44, 0x33, 0x22, 0x11, //
        0x94, 0x6B, 0xB9, 0x32, //
        0x00, 0x00, 0x00, 0x00, //
        0x93, 0x02, 0x02, 0x00, //
        0x0D, 0x00, 0x00, 0x00, //
        0x01, 0xFF, 0x23, 0x01, //
        0x64, 0x00, 0x00, 0x00, //
        0x87, 0xD6, 0x12, 0x00, //
        0xDE, 0xBC, 0x0A, 0x00, //
        0x08, b'A', b'B', b'C', b'D', b'E', b'1', b'2', b'3', //
        0x00, 0x00, 0x00, 0x00, 0x00, 0x00, 0x00,
    ];
    assert_eq!(out, expect);
    let (rec, used) = parse(&out).unwrap();
    assert_eq!(used, 64);
    assert_eq!(rec, Record::Header(h));
}

#[test]
fn mode_registry_round_trips_and_tokens() {
    for m in [Mode::P25Fdma, Mode::Analog, Mode::P25Tdma, Mode::Dmr] {
        assert_eq!(Mode::from_u8(m.to_u8()), Some(m));
    }
    assert_eq!(Mode::from_u8(0), None, "zeroed memory never parses as a mode");
    assert_eq!(Mode::Dmr.letter(), "D");
    assert_eq!(Mode::Dmr.token(1), "D2");
    assert_eq!(Mode::P25Tdma.token(0), "T0");
    assert_eq!(Mode::P25Fdma.token(0xFF), "F");
    assert_eq!(Mode::Analog.token(0xFF), "A");
}

#[test]
fn mode_wire_values_are_pinned() {
    assert_eq!([Mode::P25Fdma, Mode::Analog, Mode::P25Tdma, Mode::Dmr].map(|m| m.to_u8()), [1, 2, 3, 4]);
    assert_eq!(Mode::from_u8(5), None);
    assert_eq!(Mode::Dmr.token(0xFF), "D256");
}

#[test]
fn golden_ess() {
    let e = EssRecord { head: MsgHead { seq: 7, ..head() }, ess: [9, 8, 7, 6, 5, 4, 3, 2, 1, 0x84, 0x12, 0x34] };
    let mut out = Vec::new();
    e.encode_into(&mut out);
    assert_eq!(out.len(), 48);
    assert_eq!(&out[..8], &[b's', b'd', b'r', 0, 1, TYP_ESS, 48, 0]);
    assert_eq!(&out[32..44], &e.ess);
    let (rec, used) = parse(&out).unwrap();
    assert_eq!(used, 48);
    match rec {
        Record::Ess(p) => {
            assert_eq!(p, e);
            assert_eq!(p.mi(), [9, 8, 7, 6, 5, 4, 3, 2, 1]);
            assert_eq!(p.algid(), 0x84);
            assert_eq!(p.kid(), 0x1234);
        }
        other => panic!("{other:?}"),
    }
}

#[test]
fn golden_trailer() {
    let t = CallTrailer {
        head: MsgHead { seq: 42, flags: TRL_FLAG_ENCRYPTED, ..head() },
        duration_ms: 4_260,
        tg: 100,
        src: 1_234_567,
        delta_db: db(21.5),
        signal_db: db(-21.4),
        floor_db: db(-42.9),
        offset_hz: 139,
        alias: "DISP01".into(),
        alphatag: "SCPD Disp".into(),
    };
    let mut out = Vec::new();
    t.encode_into(&mut out);
    assert_eq!(out.len(), 80);
    assert_eq!(u16le(&out, 6), 80);
    assert_eq!(u32le(&out, 32), 4_260);
    assert_eq!(f32le(&out, 44), db(21.5));
    assert_eq!(f32le(&out, 52), db(-42.9));
    assert_eq!(i32le(&out, 56), 139);
    assert_eq!(&out[61..67], b"DISP01");
    assert_eq!(&out[68..77], b"SCPD Disp");
    let (rec, used) = parse(&out).unwrap();
    assert_eq!(used, 80);
    match rec {
        Record::Trailer(p) => {
            assert!(p.encrypted() && !p.emergency());
            assert_eq!(p, t);
        }
        other => panic!("{other:?}"),
    }
    // Unknown absolutes are NaN and survive the wire as NaN.
    let u = CallTrailer { signal_db: db(f32::NAN), floor_db: db(f32::NAN), offset_hz: OFFSET_UNKNOWN, ..t };
    let mut out = Vec::new();
    u.encode_into(&mut out);
    match parse(&out).unwrap().0 {
        Record::Trailer(p) => {
            assert!(p.signal_db.is_nan() && p.floor_db.is_nan());
            assert_eq!(p.offset_hz, OFFSET_UNKNOWN);
        }
        other => panic!("{other:?}"),
    }
}

/// Unknown typ from a future sender: handed back RAW with its bytes,
/// stream continues. And a codec-owned typ (an LDU, 2) comes back
/// the same way — the head parser never guesses at a body.
#[test]
fn unowned_typs_come_back_raw_and_the_stream_continues() {
    let mut buf = Vec::new();
    push_head(&mut buf, 200, 40, &MsgHead { seq: 5, ..head() });
    buf.extend_from_slice(&[1, 2, 3, 4, 5, 6, 7, 8]);
    push_head(&mut buf, TYP_LDU, 40, &MsgHead { seq: 6, ..head() });
    buf.extend_from_slice(&[9; 8]);
    EssRecord { head: head(), ess: [0; 12] }.encode_into(&mut buf);
    let all: Vec<Record> = records(&buf).collect();
    assert_eq!(all.len(), 3);
    match &all[0] {
        Record::Raw(r) => {
            assert_eq!((r.typ, r.head.seq, r.bytes.len()), (200, 5, 40));
            assert_eq!(&r.bytes[32..], &[1, 2, 3, 4, 5, 6, 7, 8]);
        }
        other => panic!("{other:?}"),
    }
    assert!(matches!(&all[1], Record::Raw(r) if r.typ == TYP_LDU));
    assert!(matches!(all[2], Record::Ess(_)));
    // Re-encoding a raw record emits its bytes verbatim.
    let mut again = Vec::new();
    all[0].encode_into(&mut again);
    assert_eq!(again, buf[..40]);
}

#[test]
fn stream_stops_at_a_cut_and_ignores_trailing_garbage() {
    let mut buf = Vec::new();
    EssRecord { head: head(), ess: [1; 12] }.encode_into(&mut buf);
    EssRecord { head: head(), ess: [2; 12] }.encode_into(&mut buf);
    assert_eq!(records(&buf).count(), 2);
    assert_eq!(records(&buf[..buf.len() - 10]).count(), 1, "a cut loses at most one record");
    let mut junk = buf.clone();
    junk.extend_from_slice(&[0xDE, 0xAD, 0xBE, 0xEF, 0, 0, 0, 0]);
    assert_eq!(records(&junk).count(), 2);
}

/// A later minor revision with tail fields we don't know: len is
/// authoritative, the tail is ignored, parsing succeeds.
#[test]
fn longer_len_tail_ignored() {
    let e = EssRecord { head: head(), ess: [1; 12] };
    let mut buf = Vec::new();
    e.encode_into(&mut buf);
    buf[6] += 8;
    buf.extend_from_slice(&[0xAA, 0xBB, 0xCC, 0xDD, 0, 0, 0, 0]);
    let (rec, used) = parse(&buf).unwrap();
    assert_eq!(used, 56);
    assert_eq!(rec, Record::Ess(e));
}

/// What is refused: the v0 magic, a foreign version, a misaligned
/// length, and the `MC` referee packet.
#[test]
fn foreign_heads_rejected() {
    let e = EssRecord { head: head(), ess: [1; 12] };
    let mut buf = Vec::new();
    e.encode_into(&mut buf);
    let mut v0 = buf.clone();
    v0[..4].copy_from_slice(&[b'M', b'S', 4, 9]);
    assert!(parse(&v0).is_none(), "v0 files are not read");
    let mut v2 = buf.clone();
    v2[4] = 2;
    assert!(parse(&v2).is_none(), "a version this crate does not know");
    let mut odd = buf.clone();
    odd[6] = 44;
    assert!(parse(&odd).is_none(), "records are 8-aligned");
    let mut mc = [0u8; 36];
    mc[..4].copy_from_slice(&[b'M', b'C', 8, 9]);
    assert!(parse(&mc).is_none());
    assert!(parse(&buf[..20]).is_none(), "a cut head");
}

#[test]
fn lengths_out_of_range_are_refused() {
    let mut buf = Vec::new();
    EssRecord { head: head(), ess: [1; 12] }.encode_into(&mut buf);
    let mut short = buf.clone();
    short[6] = 24;
    assert!(parse_head(&short).is_none(), "shorter than a head");
    let mut long = buf.clone();
    long[6] = 56;
    assert!(parse_head(&long).is_none(), "longer than the buffer");
    assert_eq!(parse_head(&buf), Some((TYP_ESS, head(), 48)));
    let mut bare = buf.clone();
    bare[6] = 32;
    assert!(parse(&bare).is_none(), "an ESS without its body");
    bare[5] = TYP_CALL_HEADER;
    assert!(parse(&bare).is_none(), "a header without its body");
    bare[5] = 3;
    assert!(parse(&bare).is_none(), "a trailer without its body");
    bare[5] = 77;
    assert!(parse(&bare).is_some(), "an unknown typ needs no body");
}

#[test]
fn reading_resumes_at_any_record() {
    let mut buf = Vec::new();
    EssRecord { head: head(), ess: [1; 12] }.encode_into(&mut buf);
    let second = buf.len();
    push_head(&mut buf, 99, 40, &head());
    buf.extend_from_slice(&[7; 8]);
    EssRecord { head: head(), ess: [3; 12] }.encode_into(&mut buf);
    let all = records(&buf).collect();
    assert_eq!(records(&buf[second..]).collect(), all[1..]);
    let mut walk = records(&buf);
    assert_eq!(walk.next().as_ref(), Some(&all[0]));
    assert_eq!(walk.next().as_ref(), Some(&all[1]));
    assert_eq!(walk.next().as_ref(), Some(&all[2]));
    assert_eq!(walk.next(), None);
    assert_eq!(walk.next(), None);
    assert_eq!(all.iter().map(|r| r.typ()).collect::<Vec<u8>>(), [TYP_ESS, 99, TYP_ESS]);
    assert_eq!(all[1].head(), &head());
}

#[test]
fn text_is_cut_at_its_field_and_repaired_when_it_is_no_utf8() {
    let h = CallHeader {
        head: head(),
        mode: 9,
        slot: 0,
        tg: 0,
        src: 0,
        wacn: 0,
        sysid: 0,
        system: "é".repeat(200),
    };
    let mut out = Vec::new();
    h.encode_into(&mut out);
    match parse(&out).unwrap().0 {
        Record::Header(p) => {
            assert_eq!(p.mode, 9, "an unknown mode survives");
            assert_eq!(p.system, format!("{}\u{FFFD}", "é".repeat(127)), "255 octets cut the last letter in two");
        }
        other => panic!("{other:?}"),
    }
    assert_eq!(take_str(&[3, b'a', 0xFF, b'b', 9], 0), Some(("a\u{FFFD}b".to_string(), 4)));
    assert_eq!(take_str(&[9, 3, b'x', b'y'], 1), None);
    assert_eq!(take_str(&[0], 0), Some((String::new(), 1)));
    assert_eq!(take_str(&[0], 1), None);
}

#[test]
fn octet_helpers() {
    let b = [1u8, 2, 3, 4, 5, 6, 7, 0xFF, 0xFF, 0xFF, 0xFF];
    assert_eq!(u16le(&b, 1), 0x0302);
    assert_eq!(u32le(&b, 0), 0x0403_0201);
    assert_eq!(i32le(&b, 7), -1);
    assert_eq!(u64le(&b, 0), 0xFF07_0605_0403_0201);
    assert_eq!((pad8(0), pad8(1), pad8(8), pad8(61)), (0, 8, 8, 64));
    let mut v = vec![9u8];
    pad_to(&mut v, 8);
    pad_to(&mut v, 3);
    assert_eq!(v, [9, 0, 0, 0, 0, 0, 0, 0]);
    let mut s = Vec::new();
    push_str(&mut s, "hi");
    assert_eq!(s, [2, b'h', b'i']);
    push_str(&mut s, &"x".repeat(300));
    assert_eq!((s[3], s.len()), (255, 3 + 256));
}

#[test]
fn trailer_flags_are_bits() {
    let t = |flags: u16| CallTrailer {
        head: MsgHead { flags, ..head() },
        duration_ms: 0,
        tg: 0,
        src: 0,
        delta_db: db(0.0),
        signal_db: db(0.0),
        floor_db: db(0.0),
        offset_hz: -1,
        alias: String::new(),
        alphatag: String::new(),
    };
    assert!(!t(0).encrypted() && !t(0).emergency());
    assert!(t(TRL_FLAG_EMERGENCY).emergency() && !t(TRL_FLAG_EMERGENCY).encrypted());
    assert!(t(0xFFFF).emergency() && t(0xFFFF).encrypted());
    let mut out = Vec::new();
    t(4).encode_into(&mut out);
    assert_eq!(parse(&out).unwrap().0, Record::Trailer(t(4)));
}
