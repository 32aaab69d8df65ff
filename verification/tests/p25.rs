use sdr_stream::p25::{LduFrame, P2VchFrame};
use sdr_stream::{parse, u16le, u32le, MsgHead, Raw, Record, LDU_FLAG_LDU2, LDU_FLAG_RS_OK, P2V_FLAG_DESCRAMBLED, TYP_LDU};

fn head() -> MsgHead {
    MsgHead { seq: 0, epoch_us: 0x1122334455667788, hz: 851_012_500, nac: 0x293, flags: 0, site: 0 }
}

fn raw(buf: &[u8]) -> Raw {
    match parse(buf).unwrap().0 {
        Record::Raw(r) => r,
        other => panic!("{other:?}"),
    }
}

#[test]
fn ldu_layout_pinned() {
    let mut body = [0u8; 194];
    for (i, b) in body.iter_mut().enumerate() {
        *b = (i % 251) as u8;
    }
    let f = LduFrame {
        head: MsgHead { seq: 3, flags: LDU_FLAG_LDU2 | LDU_FLAG_RS_OK, ..head() },
        slot_valid: 0x1EF,
        errors: [0, 1, 2, 3, 0xFF, 5, 6, 7, 8],
        body,
    };
    let mut out = Vec::new();
    f.encode_into(&mut out);
    assert_eq!(out.len(), LduFrame::BYTES);
    assert_eq!(u16le(&out, 6), 240);
    assert_eq!(u16le(&out, 32), 0x1EF);
    assert_eq!(&out[34..43], &f.errors);
    assert_eq!(out[43], 0);
    assert_eq!(&out[44..238], &body[..]);
    assert_eq!(&out[238..240], &[0, 0]);
    let back = LduFrame::from_raw(&raw(&out)).unwrap();
    assert_eq!(back, f);
    assert!(!back.ldu1() && back.extra_rs_ok());
}

#[test]
fn p2_vch_layout_pinned() {
    let mut phase = [[0u8; 36]; 18];
    phase[0][..4].copy_from_slice(&[160, 224, 96, 32]);
    phase[17][35] = 0x7F;
    let f = P2VchFrame {
        head: MsgHead { seq: 5, flags: P2V_FLAG_DESCRAMBLED, ..head() },
        slot: 1,
        frame_valid: ((1 << 18) - 1) & !(1 << 6),
        phase,
        flush_cause: 2,
        gap_fragments: 7,
    };
    let mut out = Vec::new();
    f.encode_into(&mut out);
    assert_eq!(out.len(), P2VchFrame::BYTES);
    assert_eq!(u16le(&out, 6), 696);
    assert_eq!(out[32], 1);
    assert_eq!(&out[33..36], &[0, 0, 0]);
    assert_eq!(u32le(&out, 36), f.frame_valid);
    assert_eq!(&out[40..44], &[160, 224, 96, 32]);
    assert_eq!(out[687], 0x7F);
    assert_eq!(out[688], 2);
    assert_eq!(u16le(&out, 689), 7);
    assert_eq!(P2VchFrame::from_raw(&raw(&out)).unwrap(), f);
    // The wrong typ never parses as this record.
    let mut wrong = raw(&out);
    wrong.typ = TYP_LDU;
    assert!(P2VchFrame::from_raw(&wrong).is_none());
    assert!(LduFrame::from_raw(&wrong).is_some(), "an LDU-typed 696-byte record parses as an LDU (len is authoritative)");
}

#[test]
fn short_bodies_are_refused() {
    let f = LduFrame { head: head(), slot_valid: 0, errors: [0; 9], body: [0; 194] };
    assert!(f.ldu1() && !f.extra_rs_ok());
    let mut out = Vec::new();
    f.encode_into(&mut out);
    let mut cut = raw(&out);
    cut.bytes.truncate(232);
    assert!(LduFrame::from_raw(&cut).is_none());
    let v = P2VchFrame { head: head(), slot: 0, frame_valid: 0, phase: [[0; 36]; 18], flush_cause: 0, gap_fragments: 0 };
    let mut out = Vec::new();
    v.encode_into(&mut out);
    let mut cut = raw(&out);
    cut.bytes.truncate(688);
    assert!(P2VchFrame::from_raw(&cut).is_none());
}
