use sdr_stream::dmr::{
    lc_info, parse_dmr, DmrAlias, DmrFix, DmrLc, DmrPacket, DmrRecord, DmrVoice, LcInfo, FIX_FLAG_VALID, LC_KIND_HEADER,
    PKT_FLAG_CRC_OK, PKT_FLAG_TRUNCATED,
};
use sdr_stream::number::floor_div;
use sdr_stream::{i32le, parse, records, u16le, MsgHead, Raw, Record, MAX_RECORD_BYTES, TYP_DMR_VOICE};

fn head() -> MsgHead {
    MsgHead { seq: 3, epoch_us: 0x1122334455667788, hz: 446_500_000, nac: 9, flags: 0, site: 0 }
}

fn raw(buf: &[u8]) -> Raw {
    match parse(buf).unwrap().0 {
        Record::Raw(r) => r,
        other => panic!("{other:?}"),
    }
}

#[test]
fn voice_superframe_pins_its_layout_and_round_trips_frames() {
    let mut frames = [[0u8; 9]; 18];
    let mut bits = [0u8; 72];
    for (i, b) in bits.iter_mut().enumerate() {
        *b = ((i * 7 + 3) % 5 == 0) as u8;
    }
    frames[0] = DmrVoice::pack_frame(&bits);
    assert_eq!(DmrVoice::unpack_frame(&frames[0]), bits, "pack/unpack is a bijection");
    frames[17] = [0xFF; 9];
    let v = DmrVoice { head: head(), slot: 1, burst_valid: 0b11_1101, slots: 6, frames };
    let mut out = Vec::new();
    v.encode_into(&mut out);
    assert_eq!(out.len(), DmrVoice::BYTES);
    assert_eq!(&out[..8], &[b's', b'd', b'r', 0, 1, TYP_DMR_VOICE, 200, 0]);
    assert_eq!(u16le(&out, 24), 9, "the colour code rides nac");
    assert_eq!((out[32], out[33], out[34]), (1, 0b11_1101, 6));
    assert_eq!(&out[36..45], &frames[0]);
    assert_eq!(&out[189..198], &[0xFF; 9]);
    let back = DmrVoice::from_raw(&raw(&out)).expect("parses");
    assert_eq!(back, v);
    assert!(back.burst_present(0) && !back.burst_present(1) && back.burst_present(5));
}

#[test]
fn lc_packet_fix_and_alias_round_trip() {
    let lc = DmrLc { head: head(), kind: LC_KIND_HEADER, slot: 0, lc: [0x00, 0x00, 0x20, 0x00, 0x00, 0x63, 0x31, 0x25, 0xE2] };
    let mut out = Vec::new();
    lc.encode_into(&mut out);
    assert_eq!(out.len(), DmrLc::BYTES);
    assert_eq!(DmrLc::from_raw(&raw(&out)).unwrap(), lc);
    assert_eq!(lc.flco(), 0);

    let pkt = DmrPacket {
        head: MsgHead { flags: PKT_FLAG_CRC_OK, ..head() },
        slot: 0,
        header: [0x82, 0x38, 0x00, 0x00, 0x63, 0x31, 0x25, 0xE2, 0x88, 0x00, 0x34, 0x5C],
        user_data: b"\x00\x01\x00\x00\x00\x27\x7E\x27\x7E$GPRMC,032228.000,A*67\r\n\0".to_vec(),
    };
    let mut out = Vec::new();
    pkt.encode_into(&mut out);
    assert_eq!(out.len() % 8, 0);
    assert_eq!(u16le(&out, 34), pkt.user_data.len() as u16);
    assert_eq!(DmrPacket::from_raw(&raw(&out)).unwrap(), pkt);
    // Oversized user data is cut and flagged, never a malformed record.
    let big = DmrPacket { user_data: vec![7u8; 70_000], ..pkt.clone() };
    let mut out = Vec::new();
    big.encode_into(&mut out);
    assert!(out.len() <= MAX_RECORD_BYTES);
    let back = raw(&out);
    assert_ne!(back.head.flags & PKT_FLAG_TRUNCATED, 0);
    assert_eq!(DmrPacket::from_raw(&back).unwrap().user_data.len(), DmrPacket::MAX_USER);

    let fix = DmrFix {
        head: MsgHead { flags: FIX_FLAG_VALID, ..head() },
        slot: 0,
        lat_udeg: 40_850_350,
        lon_udeg: -73_197_190,
        utc_ms: 12_148_000,
        speed_mknots: 0,
        course_cdeg: 18_015,
        date: (2026, 8, 27),
        src: 7_654_321,
        sentence: "$GPRMC,032228.000,A,4051.02098,N,07311.83141,W,0.00,180.15,270826,,,A*67".into(),
    };
    let mut out = Vec::new();
    fix.encode_into(&mut out);
    assert_eq!(out.len() % 8, 0);
    assert_eq!(i32le(&out, 40), -73_197_190);
    assert_eq!(DmrFix::from_raw(&raw(&out)).unwrap(), fix);

    let alias = DmrAlias { head: head(), slot: 1, format: 1, src: 7_654_321, alias: "KE2HLF".into() };
    let mut out = Vec::new();
    alias.encode_into(&mut out);
    assert_eq!(DmrAlias::from_raw(&raw(&out)).unwrap(), alias);

    // A stream of all of them iterates through the generic reader
    // and parse_dmr names each.
    let mut buf = Vec::new();
    lc.encode_into(&mut buf);
    pkt.encode_into(&mut buf);
    fix.encode_into(&mut buf);
    alias.encode_into(&mut buf);
    let kinds: Vec<&str> = records(&buf)
        .collect()
        .into_iter()
        .map(|r| match r {
            Record::Raw(r) => match parse_dmr(&r) {
                Some(DmrRecord::Lc(_)) => "lc",
                Some(DmrRecord::Packet(_)) => "packet",
                Some(DmrRecord::Fix(_)) => "fix",
                Some(DmrRecord::Alias(_)) => "alias",
                Some(DmrRecord::Voice(_)) => "voice",
                None => "?",
            },
            _ => "generic",
        })
        .collect();
    assert_eq!(kinds, ["lc", "packet", "fix", "alias"]);
    // The wrong typ never parses as another record.
    let mut wrong = raw(&out);
    wrong.typ = TYP_DMR_VOICE;
    assert!(DmrVoice::from_raw(&wrong).is_none());
}

#[test]
fn packing_takes_the_first_bit_first() {
    let mut bits = [0u8; 72];
    bits[0] = 1;
    bits[15] = 1;
    bits[71] = 1;
    assert_eq!(DmrVoice::pack_frame(&bits), [0x80, 0x01, 0, 0, 0, 0, 0, 0, 0x01]);
    let octets = [0xA5, 0, 0xFF, 1, 2, 3, 4, 5, 0x7E];
    assert_eq!(DmrVoice::pack_frame(&DmrVoice::unpack_frame(&octets)), octets);
}

#[test]
fn link_control_says_what_it_means() {
    match lc_info(&[0x00, 0x00, 0x20, 0x00, 0x00, 0x63, 0x31, 0x25, 0xE2]) {
        LcInfo::GroupVoice { tg, src } => assert_eq!((tg, src), (99, 0x3125E2)),
        other => panic!("{other:?}"),
    }
    match lc_info(&[0xC3, 0x00, 0x80, 0x01, 0x00, 0x01, 0x00, 0x00, 0x02]) {
        LcInfo::UnitVoice { dst, src } => assert_eq!((dst, src), (65537, 2)),
        other => panic!("{other:?}"),
    }
    // One step below zero on both axes, rounded down to a microdegree.
    match lc_info(&[0x08, 0x00, 0x0F, 0xFF, 0xFF, 0xFF, 0xFF, 0xFF, 0xFF]) {
        LcInfo::GpsInfo { err, lon_udeg, lat_udeg } => assert_eq!((err, lon_udeg, lat_udeg), (7, -11, -11)),
        other => panic!("{other:?}"),
    }
    match lc_info(&[0x08, 0x00, 0x01, 0x00, 0x00, 0x00, 0x40, 0x00, 0x00]) {
        LcInfo::GpsInfo { err, lon_udeg, lat_udeg } => assert_eq!((err, lon_udeg, lat_udeg), (0, -180_000_000, 45_000_000)),
        other => panic!("{other:?}"),
    }
    match lc_info(&[0x04, 0x00, 0x4E, 1, 2, 3, 4, 5, 6]) {
        LcInfo::TalkerAliasHeader { format, len, data } => assert_eq!((format, len, data), (1, 7, [1, 2, 3, 4, 5, 6])),
        other => panic!("{other:?}"),
    }
    match lc_info(&[0x07, 0x00, 1, 2, 3, 4, 5, 6, 7]) {
        LcInfo::TalkerAliasBlock { n, data } => assert_eq!((n, data), (3, [1, 2, 3, 4, 5, 6, 7])),
        other => panic!("{other:?}"),
    }
    assert!(matches!(lc_info(&[0x00, 0x10, 0, 0, 0, 0, 0, 0, 0]), LcInfo::Other));
    assert!(matches!(lc_info(&[0x3F, 0x00, 0, 0, 0, 0, 0, 0, 0]), LcInfo::Other));
}

#[test]
fn floor_division_rounds_down() {
    assert_eq!([floor_div(7, 2), floor_div(-7, 2), floor_div(-8, 2), floor_div(0, 5)], [3, -4, -4, 0]);
    assert_eq!(floor_div(i64::MIN, 1000), -9_223_372_036_854_776);
}
