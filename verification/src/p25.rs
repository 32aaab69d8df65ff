//! P25 record body LAYOUTS: the Phase 1 LDU (typ 2) and the Phase 2
//! VCH superframe (typ 5). This module is bytes only — what the
//! receiver writes and any reader parses without a vocoder. The
//! conversions between these layouts and the live decode live in the p25
//! codec crate, which is the only place a Golay or an IMBE decoder exists.
//!
//! ```text
//! Ldu (typ 2), 240 octets:
//!  32  2    slot_valid   bit i = voice slot i carried a Golay-valid frame
//!  34  9    errors       per-slot Golay correction count (0xFF = invalid)
//!  43  1    pad
//!  44  194  body         the corrected on-air LDU body, dibits packed
//!                        4 per octet MSB-first (776 dibits)
//! 238  2    pad
//!
//! P2Vch (typ 5), 696 octets:
//!  32  1    slot         the LCH (0/1)
//!  33  3    pad
//!  36  4    frame_valid  bit i = frame i assembled
//!  40  648  phase        18 frames × 36 symbols, the MEASURED symbol
//!                        phase (u8 half-step ring; dibit = top two bits)
//! 688  1    flush_cause
//! 689  2    gap_fragments
//! 691  5    pad
//! ```
use crate::laws;
use crate::record;
use crate::record::{
    push_record, MsgHead, Raw, RawView, HEAD_BYTES, LDU_FLAG_LDU2, LDU_FLAG_RS_OK, TYP_LDU,
    TYP_P2_VCH,
};
use crate::wire;
use crate::wire::{copy_octets, copy_rows, push_bytes, push_rows, push_u16, push_u32, u16le, u32le};
use vstd::prelude::*;

verus! {

/// One P25 Phase 1 LDU: the corrected on-air body plus the live decode
/// verdicts re-encoding would launder (slot validity, error counts, the
/// RS-ok flag in the head).
#[derive(Clone, Debug, PartialEq, Eq)]
pub struct LduFrame {
    pub head: MsgHead,
    pub slot_valid: u16,
    pub errors: [u8; 9],
    pub body: [u8; 194],
}

/// An [`LduFrame`] with its octets as sequences.
#[verifier::ext_equal]
pub struct LduView {
    pub head: MsgHead,
    pub slot_valid: u16,
    pub errors: Seq<u8>,
    pub body: Seq<u8>,
}

impl View for LduFrame {
    type V = LduView;

    open spec fn view(&self) -> LduView {
        LduView {
            head: self.head,
            slot_valid: self.slot_valid,
            errors: self.errors@,
            body: self.body@,
        }
    }
}

impl LduView {
    /// The sizes that the layout fixes.
    pub open spec fn sized(self) -> bool {
        self.errors.len() == 9 && self.body.len() == 194
    }

    pub open spec fn record_body(self) -> Seq<u8> {
        wire::le16(self.slot_valid as int) + self.errors + seq![0u8] + self.body
    }

    pub open spec fn octets(self) -> Seq<u8> {
        record::framed(TYP_LDU, self.head, self.record_body())
    }

    pub open spec fn read(r: RawView) -> Option<LduView> {
        if r.typ == TYP_LDU && r.bytes.len() >= 240 {
            Some(
                LduView {
                    head: r.head,
                    slot_valid: wire::at16(r.bytes, 32) as u16,
                    errors: r.bytes.subrange(34, 43),
                    body: r.bytes.subrange(44, 238),
                },
            )
        } else {
            None
        }
    }
}

impl LduFrame {
    /// Wire size of every Ldu record.
    pub const BYTES: usize = 240;

    pub const BODY_OCTETS: usize = 194;

    pub fn encode_into(&self, out: &mut Vec<u8>)
        ensures
            final(out)@ == old(out)@ + self@.octets(),
    {
        let mut body: Vec<u8> = Vec::new();
        push_u16(&mut body, self.slot_valid);
        push_bytes(&mut body, &self.errors);
        body.push(0);
        push_bytes(&mut body, &self.body);
        assert(body@ =~= self@.record_body());
        push_record(out, TYP_LDU, &self.head, &body);
    }

    pub fn from_raw(r: &Raw) -> (f: Option<LduFrame>)
        ensures
            f is Some <==> LduView::read(r@) is Some,
            f matches Some(v) ==> LduView::read(r@) == Some(v@),
    {
        let b = r.bytes.as_slice();
        if r.typ != TYP_LDU || b.len() < 240 {
            return None;
        }
        let mut errors: [u8; 9] = [0; 9];
        copy_octets(&mut errors, b, HEAD_BYTES + 2);
        let mut body: [u8; 194] = [0; 194];
        copy_octets(&mut body, b, HEAD_BYTES + 12);
        Some(LduFrame { head: r.head, slot_valid: u16le(b, HEAD_BYTES), errors, body })
    }

    pub fn ldu1(&self) -> (v: bool)
        ensures
            v == (self.head.flags & LDU_FLAG_LDU2 == 0),
            v == (self.head.flags % 2 == 0),
    {
        let flags: u16 = self.head.flags;
        assert((flags & 0x0001 == 0) == (flags % 2 == 0)) by (bit_vector);
        self.head.flags & LDU_FLAG_LDU2 == 0
    }

    pub fn extra_rs_ok(&self) -> (v: bool)
        ensures
            v == (self.head.flags & LDU_FLAG_RS_OK != 0),
            v == (self.head.flags / 8 % 2 == 1),
    {
        let flags: u16 = self.head.flags;
        assert((flags & 0x0008 != 0) == (flags / 8 % 2 == 1)) by (bit_vector);
        self.head.flags & LDU_FLAG_RS_OK != 0
    }
}

/// One P25 Phase 2 VCH superframe on one LCH: the measured symbol phase
/// of 18 frames, the assembler's validity mask, and its flush verdict.
#[derive(Clone, Debug, PartialEq, Eq)]
pub struct P2VchFrame {
    pub head: MsgHead,
    pub slot: u8,
    pub frame_valid: u32,
    pub phase: [[u8; 36]; 18],
    pub flush_cause: u8,
    pub gap_fragments: u16,
}

/// A [`P2VchFrame`] with its phases as sequences.
#[verifier::ext_equal]
pub struct P2VchView {
    pub head: MsgHead,
    pub slot: u8,
    pub frame_valid: u32,
    pub phase: Seq<Seq<u8>>,
    pub flush_cause: u8,
    pub gap_fragments: u16,
}

impl View for P2VchFrame {
    type V = P2VchView;

    open spec fn view(&self) -> P2VchView {
        P2VchView {
            head: self.head,
            slot: self.slot,
            frame_valid: self.frame_valid,
            phase: wire::rows(self.phase),
            flush_cause: self.flush_cause,
            gap_fragments: self.gap_fragments,
        }
    }
}

impl P2VchView {
    /// The sizes that the layout fixes.
    pub open spec fn sized(self) -> bool {
        self.phase.len() == 18 && forall|i: int|
            0 <= i < 18 ==> (#[trigger] self.phase[i]).len() == 36
    }

    pub open spec fn record_body(self) -> Seq<u8> {
        seq![self.slot, 0u8, 0u8, 0u8] + wire::le32(self.frame_valid as int) + wire::joined(
            self.phase,
        ) + seq![self.flush_cause] + wire::le16(self.gap_fragments as int)
    }

    pub open spec fn octets(self) -> Seq<u8> {
        record::framed(TYP_P2_VCH, self.head, self.record_body())
    }

    pub open spec fn read(r: RawView) -> Option<P2VchView> {
        if r.typ == TYP_P2_VCH && r.bytes.len() >= 696 {
            Some(
                P2VchView {
                    head: r.head,
                    slot: r.bytes[32],
                    frame_valid: wire::at32(r.bytes, 36) as u32,
                    phase: wire::rows_at(r.bytes, 40, 18, 36),
                    flush_cause: r.bytes[688],
                    gap_fragments: wire::at16(r.bytes, 689) as u16,
                },
            )
        } else {
            None
        }
    }
}

impl P2VchFrame {
    /// Wire size of every P2 VCH record.
    pub const BYTES: usize = 696;

    pub fn encode_into(&self, out: &mut Vec<u8>)
        ensures
            final(out)@ == old(out)@ + self@.octets(),
    {
        let mut body: Vec<u8> = Vec::new();
        body.push(self.slot);
        body.push(0);
        body.push(0);
        body.push(0);
        push_u32(&mut body, self.frame_valid);
        push_rows(&mut body, &self.phase);
        body.push(self.flush_cause);
        push_u16(&mut body, self.gap_fragments);
        assert(body@ =~= self@.record_body());
        proof {
            let j = wire::joined(wire::rows(self.phase));
            assert(j.subrange(0, j.len() as int) =~= j);
            wire::lemma_joined(wire::rows(self.phase), 36, j, 0);
        }
        push_record(out, TYP_P2_VCH, &self.head, &body);
    }

    pub fn from_raw(r: &Raw) -> (f: Option<P2VchFrame>)
        ensures
            f is Some <==> P2VchView::read(r@) is Some,
            f matches Some(v) ==> P2VchView::read(r@) == Some(v@),
    {
        let b = r.bytes.as_slice();
        if r.typ != TYP_P2_VCH || b.len() < 696 {
            return None;
        }
        let mut phase: [[u8; 36]; 18] = [[0; 36]; 18];
        copy_rows(&mut phase, b, HEAD_BYTES + 8);
        Some(
            P2VchFrame {
                head: r.head,
                slot: b[HEAD_BYTES],
                frame_valid: u32le(b, HEAD_BYTES + 4),
                phase,
                flush_cause: b[HEAD_BYTES + 656],
                gap_fragments: u16le(b, HEAD_BYTES + 657),
            },
        )
    }
}

/// An LDU whose body opens the body of `b` is read from `b`, whatever
/// follows it.
proof fn ldu_read(b: Seq<u8>, f: LduView)
    requires
        f.sized(),
        b.len() >= 240,
        b.subrange(32, 238) == f.record_body(),
    ensures
        LduView::read(RawView { typ: TYP_LDU, head: f.head, bytes: b }) == Some(f),
{
    let body = f.record_body();
    let w = b.subrange(32, 238);
    assert(b.subrange(32, 34) =~= w.subrange(0, 2));
    assert(body.subrange(0, 2) =~= wire::le16(f.slot_valid as int));
    wire::lemma_at16(b, 32, f.slot_valid as int);
    assert(b.subrange(34, 43) =~= w.subrange(2, 11));
    assert(body.subrange(2, 11) =~= f.errors);
    assert(b.subrange(44, 238) =~= w.subrange(12, 206));
    assert(body.subrange(12, 206) =~= f.body);
}

/// A superframe whose body opens the body of `b` is read from `b`,
/// whatever follows it.
proof fn p2_vch_read(b: Seq<u8>, f: P2VchView)
    requires
        f.sized(),
        b.len() >= 696,
        b.subrange(32, 691) == f.record_body(),
    ensures
        P2VchView::read(RawView { typ: TYP_P2_VCH, head: f.head, bytes: b }) == Some(f),
{
    let body = f.record_body();
    let j = wire::joined(f.phase);
    assert(j.subrange(0, j.len() as int) =~= j);
    wire::lemma_joined(f.phase, 36, j, 0);
    let w = b.subrange(32, 691);
    assert(b[32] == w[0]);
    assert(b.subrange(36, 40) =~= w.subrange(4, 8));
    assert(body.subrange(4, 8) =~= wire::le32(f.frame_valid as int));
    wire::lemma_at32(b, 36, f.frame_valid as int);
    assert(b.subrange(40, 688) =~= w.subrange(8, 656));
    assert(body.subrange(8, 656) =~= j);
    wire::lemma_joined(f.phase, 36, b, 40);
    assert(b[688] == w[656]);
    assert(b.subrange(689, 691) =~= w.subrange(657, 659));
    assert(body.subrange(657, 659) =~= wire::le16(f.gap_fragments as int));
    wire::lemma_at16(b, 689, f.gap_fragments as int);
}

/// An LDU that was encoded is a raw record of 240 octets, which reads back
/// as the LDU.
pub proof fn ldu_reads_back(f: LduView, rest: Seq<u8>)
    requires
        f.sized(),
    ensures
        f.octets().len() == 240,
        ({
            let raw = RawView { typ: TYP_LDU, head: f.head, bytes: f.octets() };
            &&& record::record_at(f.octets() + rest) == Some((record::RecordView::Raw(raw), 240int))
            &&& LduView::read(raw) == Some(f)
        }),
{
    assert(f.record_body().len() == 206);
    laws::unowned_reads_back(TYP_LDU, f.head, f.record_body(), rest);
    laws::framed_head(TYP_LDU, f.head, f.record_body(), rest);
    ldu_read(f.octets(), f);
}

/// A Phase 2 superframe that was encoded is a raw record of 696 octets,
/// which reads back as the superframe.
pub proof fn p2_vch_reads_back(f: P2VchView, rest: Seq<u8>)
    requires
        f.sized(),
    ensures
        f.octets().len() == 696,
        ({
            let raw = RawView { typ: TYP_P2_VCH, head: f.head, bytes: f.octets() };
            &&& record::record_at(f.octets() + rest) == Some((record::RecordView::Raw(raw), 696int))
            &&& P2VchView::read(raw) == Some(f)
        }),
{
    let j = wire::joined(f.phase);
    assert(j.subrange(0, j.len() as int) =~= j);
    wire::lemma_joined(f.phase, 36, j, 0);
    assert(f.record_body().len() == 659);
    laws::unowned_reads_back(TYP_P2_VCH, f.head, f.record_body(), rest);
    laws::framed_head(TYP_P2_VCH, f.head, f.record_body(), rest);
    p2_vch_read(f.octets(), f);
}

} // verus!
