//! DMR record bodies (ETSI TS 102 361): the archive's second digital
//! mode, defined here as plain byte layouts because no codec crate owns
//! them — the signal-processing side decodes the air, the vocoder speaks
//! the voice, and this crate is where the wire format of what they found
//! lives.
//!
//! Every DMR record's head carries the colour code in `nac` and the
//! TDMA slot (0/1) in its body; a call is one slot of one carrier.
//!
//! - [`DmrVoice`] (typ 6) — one 360 ms voice superframe: 6 bursts ×
//!   3 AMBE+2 half-rate frames of 72 bits, stored as the 72 air bits
//!   packed 8/byte (9 octets a frame, 162 in all) with a burst-valid
//!   mask; missing bursts are holes that replay as concealment, never
//!   fabricated audio.
//! - [`DmrLc`] (typ 7) — a Full Link Control word: the RS-verified
//!   voice header or terminator, or the checksum-verified embedded LC
//!   assembled across bursts B–E. Nine octets, FLCO/FID first.
//! - [`DmrPacket`] (typ 8) — a reassembled data packet: the 12-octet
//!   data header and the user data (pad octets stripped), with the
//!   message CRC-32 verdict in the flags.
//! - [`DmrFix`] (typ 9) — a position parsed from an RMC sentence the
//!   packet layer carried, with the raw sentence beside it.
//! - [`DmrAlias`] (typ 10) — a talker alias assembled from the
//!   embedded-LC alias header and blocks.
use crate::laws;
use crate::number::floor_div;
use crate::record;
use crate::record::{
    push_record, MsgHead, Raw, RawView, HEAD_BYTES, MAX_RECORD_BYTES, TYP_DMR_ALIAS, TYP_DMR_FIX,
    TYP_DMR_LC, TYP_DMR_PACKET, TYP_DMR_VOICE,
};
use crate::wire;
use crate::wire::{
    copy_octets, copy_rows, i32le, push_bytes, push_i32, push_rows, push_str, push_u16, push_u32,
    take_str, u16le, u32le,
};
use vstd::arithmetic::power2::*;
use vstd::prelude::*;
use vstd::slice::slice_to_vec;
use vstd::utf8::*;

verus! {

// DmrVoice flags.
/// The superframe's bursts carried a Privacy Indicator (encrypted).
pub const DV_FLAG_ENCRYPTED: u16 = 0x0001;
/// One or more bursts were BACKFILLED from a later anchor (a missed
/// burst-A sync) rather than carved forward.
pub const DV_FLAG_BACKFILL: u16 = 0x0002;

// DmrLc kinds.
pub const LC_KIND_HEADER: u8 = 1;
pub const LC_KIND_TERMINATOR: u8 = 2;
pub const LC_KIND_EMBEDDED: u8 = 3;

// DmrPacket flags.
pub const PKT_FLAG_CRC_OK: u16 = 0x0001;
/// The user data was longer than a record can hold and was cut.
pub const PKT_FLAG_TRUNCATED: u16 = 0x0002;

// DmrFix flags.
/// The sentence's status was `A` (active).
pub const FIX_FLAG_VALID: u16 = 0x0001;
/// The sentence's own `*hh` checksum verified (reported, never
/// enforced — the message CRC-32 already vouched for the bytes).
pub const FIX_FLAG_NMEA_CHECKSUM_OK: u16 = 0x0002;

/// Frames per superframe: 6 bursts × 3.
pub const VOICE_FRAMES: usize = 18;
/// A 72-bit AMBE+2 frame packed 8 bits per octet.
pub const FRAME_OCTETS: usize = 9;

// ---------------------------------------------------------------------
// Voice.
// ---------------------------------------------------------------------
/// One voice superframe on one slot. Always 200 bytes on the wire:
///
/// ```text
/// offset  size  field
///    0     32   head          (typ = 6, len = 200; nac = colour code)
///   32      1   slot          0 or 1
///   33      1   burst_valid   bits 0..6: lattice slot i carried a burst
///   34      1   slots         lattice slots this record covers (1..=6);
///                             slots ≥ this are past the call's end, not holes
///   35      1   pad
///   36    162   frames        18 × 9 octets, lattice order, 3 per slot
///  198      2   pad
/// ```
#[derive(Clone, Debug, PartialEq, Eq)]
pub struct DmrVoice {
    pub head: MsgHead,
    pub slot: u8,
    pub burst_valid: u8,
    /// Lattice slots this record covers (1..=6). A superframe is 6;
    /// a call's last record may cover fewer — the rest are not holes.
    pub slots: u8,
    /// The 72 air bits of each frame, MSB-first, 9 octets a frame.
    pub frames: [[u8; 9]; 18],
}

/// A [`DmrVoice`] with its frames as sequences.
#[verifier::ext_equal]
pub struct DmrVoiceView {
    pub head: MsgHead,
    pub slot: u8,
    pub burst_valid: u8,
    pub slots: u8,
    pub frames: Seq<Seq<u8>>,
}

impl View for DmrVoice {
    type V = DmrVoiceView;

    open spec fn view(&self) -> DmrVoiceView {
        DmrVoiceView {
            head: self.head,
            slot: self.slot,
            burst_valid: self.burst_valid,
            slots: self.slots,
            frames: wire::rows(self.frames),
        }
    }
}

impl DmrVoiceView {
    /// The sizes that the layout fixes.
    pub open spec fn sized(self) -> bool {
        self.frames.len() == 18 && forall|i: int|
            0 <= i < 18 ==> (#[trigger] self.frames[i]).len() == 9
    }

    pub open spec fn body(self) -> Seq<u8> {
        seq![self.slot, self.burst_valid, self.slots, 0u8] + wire::joined(self.frames)
    }

    pub open spec fn octets(self) -> Seq<u8> {
        record::framed(TYP_DMR_VOICE, self.head, self.body())
    }

    pub open spec fn read(r: RawView) -> Option<DmrVoiceView> {
        if r.typ == TYP_DMR_VOICE && r.bytes.len() >= 200 {
            Some(
                DmrVoiceView {
                    head: r.head,
                    slot: r.bytes[32],
                    burst_valid: r.bytes[33],
                    slots: r.bytes[34],
                    frames: wire::rows_at(r.bytes, 36, 18, 9),
                },
            )
        } else {
            None
        }
    }
}

/// The octet whose bits, most significant first, are the low bits of the
/// eight elements of `bits` at `i`.
pub open spec fn packed_octet(bits: Seq<u8>, i: int) -> int {
    128 * (bits[i] % 2) + 64 * (bits[i + 1] % 2) + 32 * (bits[i + 2] % 2) + 16 * (bits[i + 3] % 2)
        + 8 * (bits[i + 4] % 2) + 4 * (bits[i + 5] % 2) + 2 * (bits[i + 6] % 2) + bits[i + 7] % 2
}

/// Bit `j` of an octet, counted from the most significant.
pub open spec fn octet_bit(octet: u8, j: int) -> int {
    octet as int / pow2((7 - j) as nat) as int % 2
}

/// A frame's 72 air bits packed into nine octets.
pub open spec fn packed(bits: Seq<u8>) -> Seq<u8> {
    Seq::new(9, |k: int| packed_octet(bits, 8 * k) as u8)
}

/// The 72 air bits of nine octets.
pub open spec fn unpacked(octets: Seq<u8>) -> Seq<u8> {
    Seq::new(72, |i: int| octet_bit(octets[i / 8], i % 8) as u8)
}

/// Two to the power of `i`.
fn weight(i: usize) -> (w: u8)
    requires
        i < 8,
    ensures
        w == pow2(i as nat),
{
    proof {
        lemma2_to64();
    }
    match i {
        0 => 1,
        1 => 2,
        2 => 4,
        3 => 8,
        4 => 16,
        5 => 32,
        6 => 64,
        _ => 128,
    }
}

impl DmrVoice {
    pub const BYTES: usize = 200;

    /// Pack a frame's 72 air bits (one per element, 0/1) into 9 octets.
    pub fn pack_frame(bits: &[u8; 72]) -> (octets: [u8; 9])
        ensures
            octets@ == packed(bits@),
    {
        let mut out: [u8; 9] = [0; 9];
        let mut k: usize = 0;
        while k < 9
            invariant
                k <= 9,
                forall|j: int| 0 <= j < k ==> out@[j] == packed_octet(bits@, 8 * j),
            decreases 9 - k,
        {
            let i: usize = 8 * k;
            out[k] = 128 * (bits[i] % 2) + 64 * (bits[i + 1] % 2) + 32 * (bits[i + 2] % 2) + 16 * (
            bits[i + 3] % 2) + 8 * (bits[i + 4] % 2) + 4 * (bits[i + 5] % 2) + 2 * (bits[i + 6] % 2)
                + bits[i + 7] % 2;
            k = k + 1;
        }
        assert(out@ =~= packed(bits@));
        out
    }

    /// Unpack back to the 72 bits, one per element.
    pub fn unpack_frame(octets: &[u8; 9]) -> (bits: [u8; 72])
        ensures
            bits@ == unpacked(octets@),
    {
        let mut out: [u8; 72] = [0; 72];
        let mut i: usize = 0;
        while i < 72
            invariant
                i <= 72,
                forall|j: int| 0 <= j < i ==> out@[j] == octet_bit(octets@[j / 8], j % 8),
            decreases 72 - i,
        {
            proof {
                lemma_pow2_pos((7 - i % 8) as nat);
            }
            out[i] = octets[i / 8] / weight(7 - i % 8) % 2;
            i = i + 1;
        }
        assert(out@ =~= unpacked(octets@));
        out
    }

    /// Whether the mask says that `burst` carried voice.
    pub fn burst_present(&self, burst: usize) -> (r: bool)
        requires
            burst < 8,
        ensures
            r == (octet_bit(self.burst_valid, 7 - burst as int) == 1),
            r == (self.burst_valid as int / pow2(burst as nat) as int % 2 == 1),
    {
        proof {
            lemma_pow2_pos(burst as nat);
        }
        self.burst_valid / weight(burst) % 2 == 1
    }

    pub fn encode_into(&self, out: &mut Vec<u8>)
        ensures
            final(out)@ == old(out)@ + self@.octets(),
    {
        let mut body: Vec<u8> = Vec::new();
        body.push(self.slot);
        body.push(self.burst_valid);
        body.push(self.slots);
        body.push(0);
        push_rows(&mut body, &self.frames);
        assert(body@ =~= self@.body());
        proof {
            let j = wire::joined(wire::rows(self.frames));
            assert(j.subrange(0, j.len() as int) =~= j);
            wire::lemma_joined(wire::rows(self.frames), 9, j, 0);
        }
        push_record(out, TYP_DMR_VOICE, &self.head, &body);
    }

    pub fn from_raw(r: &Raw) -> (v: Option<DmrVoice>)
        ensures
            v is Some <==> DmrVoiceView::read(r@) is Some,
            v matches Some(f) ==> DmrVoiceView::read(r@) == Some(f@),
    {
        let b = r.bytes.as_slice();
        if r.typ != TYP_DMR_VOICE || b.len() < 200 {
            return None;
        }
        let mut frames: [[u8; 9]; 18] = [[0; 9]; 18];
        copy_rows(&mut frames, b, HEAD_BYTES + 4);
        Some(
            DmrVoice {
                head: r.head,
                slot: b[HEAD_BYTES],
                burst_valid: b[HEAD_BYTES + 1],
                slots: b[HEAD_BYTES + 2],
                frames,
            },
        )
    }
}

// ---------------------------------------------------------------------
// Full Link Control.
// ---------------------------------------------------------------------
/// A Full Link Control word. Always 48 bytes on the wire: head, kind,
/// slot, the 9 LC octets, pad.
#[derive(Clone, Debug, PartialEq, Eq)]
pub struct DmrLc {
    pub head: MsgHead,
    /// [`LC_KIND_HEADER`] / [`LC_KIND_TERMINATOR`] / [`LC_KIND_EMBEDDED`].
    pub kind: u8,
    pub slot: u8,
    /// The 72-bit LC as decoded: octet 0 = PF·R·FLCO(6), octet 1 = FID,
    /// octets 2..9 the FLCO-specific fields (Grp/UU voice: service
    /// options, group/target, source).
    pub lc: [u8; 9],
}

/// A [`DmrLc`] with its octets as a sequence.
#[verifier::ext_equal]
pub struct DmrLcView {
    pub head: MsgHead,
    pub kind: u8,
    pub slot: u8,
    pub lc: Seq<u8>,
}

impl View for DmrLc {
    type V = DmrLcView;

    open spec fn view(&self) -> DmrLcView {
        DmrLcView { head: self.head, kind: self.kind, slot: self.slot, lc: self.lc@ }
    }
}

impl DmrLcView {
    pub open spec fn body(self) -> Seq<u8> {
        seq![self.kind, self.slot] + self.lc
    }

    pub open spec fn octets(self) -> Seq<u8> {
        record::framed(TYP_DMR_LC, self.head, self.body())
    }

    pub open spec fn read(r: RawView) -> Option<DmrLcView> {
        if r.typ == TYP_DMR_LC && r.bytes.len() >= 48 {
            Some(
                DmrLcView {
                    head: r.head,
                    kind: r.bytes[32],
                    slot: r.bytes[33],
                    lc: r.bytes.subrange(34, 43),
                },
            )
        } else {
            None
        }
    }
}

impl DmrLc {
    pub const BYTES: usize = 48;

    /// The Full Link Control Opcode: the low six bits of the first octet.
    pub fn flco(&self) -> (v: u8)
        ensures
            v == self.lc@[0] % 64,
    {
        self.lc[0] % 64
    }

    pub fn encode_into(&self, out: &mut Vec<u8>)
        ensures
            final(out)@ == old(out)@ + self@.octets(),
    {
        let mut body: Vec<u8> = Vec::new();
        body.push(self.kind);
        body.push(self.slot);
        push_bytes(&mut body, &self.lc);
        assert(body@ =~= self@.body());
        push_record(out, TYP_DMR_LC, &self.head, &body);
    }

    pub fn from_raw(r: &Raw) -> (v: Option<DmrLc>)
        ensures
            v is Some <==> DmrLcView::read(r@) is Some,
            v matches Some(f) ==> DmrLcView::read(r@) == Some(f@),
    {
        let b = r.bytes.as_slice();
        if r.typ != TYP_DMR_LC || b.len() < 48 {
            return None;
        }
        let mut lc: [u8; 9] = [0; 9];
        copy_octets(&mut lc, b, HEAD_BYTES + 2);
        Some(DmrLc { head: r.head, kind: b[HEAD_BYTES], slot: b[HEAD_BYTES + 1], lc })
    }
}

// ---------------------------------------------------------------------
// Packets.
// ---------------------------------------------------------------------
/// A reassembled data packet. Variable length:
///
/// ```text
/// offset  size  field
///    0     32   head          (typ = 8; flags: CRC_OK, TRUNCATED)
///   32      1   slot
///   33      1   pad
///   34      2   user_len      u16 LE, octets that follow the header
///   36     12   header        the CRC-valid data header, raw
///   48      n   user_data     pad octets already stripped
///          pad  to a multiple of 8
/// ```
#[derive(Clone, Debug, PartialEq, Eq)]
pub struct DmrPacket {
    pub head: MsgHead,
    pub slot: u8,
    pub header: [u8; 12],
    pub user_data: Vec<u8>,
}

/// A [`DmrPacket`] with its octets as sequences.
#[verifier::ext_equal]
pub struct DmrPacketView {
    pub head: MsgHead,
    pub slot: u8,
    pub header: Seq<u8>,
    pub user_data: Seq<u8>,
}

impl View for DmrPacket {
    type V = DmrPacketView;

    open spec fn view(&self) -> DmrPacketView {
        DmrPacketView {
            head: self.head,
            slot: self.slot,
            header: self.header@,
            user_data: self.user_data@,
        }
    }
}

impl DmrPacketView {
    /// The packet as one record can carry it: user data that is too long
    /// is cut, and the cut is flagged.
    pub open spec fn carried(self) -> DmrPacketView {
        if self.user_data.len() <= 65_480 {
            self
        } else {
            DmrPacketView {
                head: MsgHead { flags: self.head.flags | PKT_FLAG_TRUNCATED, ..self.head },
                user_data: self.user_data.take(65_480),
                ..self
            }
        }
    }

    pub open spec fn body(self) -> Seq<u8> {
        seq![self.slot, 0u8] + wire::le16(self.user_data.len() as int) + self.header
            + self.user_data
    }

    pub open spec fn octets(self) -> Seq<u8> {
        record::framed(TYP_DMR_PACKET, self.carried().head, self.carried().body())
    }

    pub open spec fn read(r: RawView) -> Option<DmrPacketView> {
        let n = wire::at16(r.bytes, 34);
        if r.typ == TYP_DMR_PACKET && r.bytes.len() >= 48 && 48 + n <= r.bytes.len() {
            Some(
                DmrPacketView {
                    head: r.head,
                    slot: r.bytes[32],
                    header: r.bytes.subrange(36, 48),
                    user_data: r.bytes.subrange(48, 48 + n),
                },
            )
        } else {
            None
        }
    }
}

impl DmrPacket {
    /// The most user data one record can carry.
    pub const MAX_USER: usize = MAX_RECORD_BYTES - 48;

    pub fn encode_into(&self, out: &mut Vec<u8>)
        ensures
            final(out)@ == old(out)@ + self@.octets(),
    {
        let mut head = self.head;
        let mut n: usize = self.user_data.len();
        if n > 65_480 {
            n = 65_480;
            head.flags = head.flags | PKT_FLAG_TRUNCATED;
        }
        let user = &self.user_data.as_slice()[0..n];
        assert(user@ =~= self@.carried().user_data);
        let mut body: Vec<u8> = Vec::new();
        body.push(self.slot);
        body.push(0);
        push_u16(&mut body, n as u16);
        push_bytes(&mut body, &self.header);
        push_bytes(&mut body, user);
        assert(body@ =~= self@.carried().body());
        push_record(out, TYP_DMR_PACKET, &head, &body);
    }

    pub fn from_raw(r: &Raw) -> (v: Option<DmrPacket>)
        ensures
            v is Some <==> DmrPacketView::read(r@) is Some,
            v matches Some(f) ==> DmrPacketView::read(r@) == Some(f@),
    {
        let b = r.bytes.as_slice();
        if r.typ != TYP_DMR_PACKET || b.len() < HEAD_BYTES + 16 {
            return None;
        }
        let n: usize = u16le(b, HEAD_BYTES + 2) as usize;
        let mut header: [u8; 12] = [0; 12];
        copy_octets(&mut header, b, HEAD_BYTES + 4);
        if n > b.len() - (HEAD_BYTES + 16) {
            return None;
        }
        let user_data = slice_to_vec(&b[HEAD_BYTES + 16..HEAD_BYTES + 16 + n]);
        Some(DmrPacket { head: r.head, slot: b[HEAD_BYTES], header, user_data })
    }
}

// ---------------------------------------------------------------------
// Position fixes.
// ---------------------------------------------------------------------
/// A position fix. Variable length:
///
/// ```text
/// offset  size  field
///    0     32   head          (typ = 9; flags: VALID, NMEA_CHECKSUM_OK)
///   32      1   slot
///   33      1   pad
///   34      2   course_cdeg   u16 LE, centidegrees
///   36      4   lat_udeg      i32 LE, microdegrees, north positive
///   40      4   lon_udeg      i32 LE, microdegrees, east positive
///   44      4   utc_ms        u32 LE, ms since midnight UTC
///   48      4   speed_mknots  u32 LE, milli-knots
///   52      2   year          u16 LE
///   54      1   month
///   55      1   day
///   56      4   src           u32 LE, the reporting radio (LLID)
///   60    1+n   sentence      length-prefixed raw NMEA
///          pad  to a multiple of 8
/// ```
#[derive(Debug, PartialEq, Eq)]
pub struct DmrFix {
    pub head: MsgHead,
    pub slot: u8,
    pub lat_udeg: i32,
    pub lon_udeg: i32,
    pub utc_ms: u32,
    pub speed_mknots: u32,
    pub course_cdeg: u16,
    pub date: (u16, u8, u8),
    pub src: u32,
    pub sentence: String,
}

/// A [`DmrFix`] with its sentence as characters.
#[verifier::ext_equal]
pub struct DmrFixView {
    pub head: MsgHead,
    pub slot: u8,
    pub lat_udeg: i32,
    pub lon_udeg: i32,
    pub utc_ms: u32,
    pub speed_mknots: u32,
    pub course_cdeg: u16,
    pub date: (u16, u8, u8),
    pub src: u32,
    pub sentence: Seq<char>,
}

impl View for DmrFix {
    type V = DmrFixView;

    open spec fn view(&self) -> DmrFixView {
        DmrFixView {
            head: self.head,
            slot: self.slot,
            lat_udeg: self.lat_udeg,
            lon_udeg: self.lon_udeg,
            utc_ms: self.utc_ms,
            speed_mknots: self.speed_mknots,
            course_cdeg: self.course_cdeg,
            date: self.date,
            src: self.src,
            sentence: self.sentence@,
        }
    }
}

impl Clone for DmrFix {
    fn clone(&self) -> (f: DmrFix)
        ensures
            f@ == self@,
    {
        DmrFix {
            head: self.head,
            slot: self.slot,
            lat_udeg: self.lat_udeg,
            lon_udeg: self.lon_udeg,
            utc_ms: self.utc_ms,
            speed_mknots: self.speed_mknots,
            course_cdeg: self.course_cdeg,
            date: self.date,
            src: self.src,
            sentence: self.sentence.clone(),
        }
    }
}

impl DmrFixView {
    pub open spec fn body(self) -> Seq<u8> {
        let (year, month, day) = self.date;
        seq![self.slot, 0u8] + wire::le16(self.course_cdeg as int) + wire::le32(
            self.lat_udeg as int,
        ) + wire::le32(self.lon_udeg as int) + wire::le32(self.utc_ms as int) + wire::le32(
            self.speed_mknots as int,
        ) + wire::le16(year as int) + seq![month, day] + wire::le32(self.src as int)
            + wire::str_field(self.sentence)
    }

    pub open spec fn octets(self) -> Seq<u8> {
        record::framed(TYP_DMR_FIX, self.head, self.body())
    }

    pub open spec fn read(r: RawView) -> Option<DmrFixView> {
        let b = r.bytes;
        match wire::str_at(b, 60) {
            Some((sentence, _)) if r.typ == TYP_DMR_FIX => Some(
                DmrFixView {
                    head: r.head,
                    slot: b[32],
                    lat_udeg: wire::signed32(wire::at32(b, 36)) as i32,
                    lon_udeg: wire::signed32(wire::at32(b, 40)) as i32,
                    utc_ms: wire::at32(b, 44) as u32,
                    speed_mknots: wire::at32(b, 48) as u32,
                    course_cdeg: wire::at16(b, 34) as u16,
                    date: (wire::at16(b, 52) as u16, b[54], b[55]),
                    src: wire::at32(b, 56) as u32,
                    sentence,
                },
            ),
            _ => None,
        }
    }
}

impl DmrFix {
    pub fn encode_into(&self, out: &mut Vec<u8>)
        ensures
            final(out)@ == old(out)@ + self@.octets(),
    {
        let mut body: Vec<u8> = Vec::new();
        body.push(self.slot);
        body.push(0);
        push_u16(&mut body, self.course_cdeg);
        push_i32(&mut body, self.lat_udeg);
        push_i32(&mut body, self.lon_udeg);
        push_u32(&mut body, self.utc_ms);
        push_u32(&mut body, self.speed_mknots);
        push_u16(&mut body, self.date.0);
        body.push(self.date.1);
        body.push(self.date.2);
        push_u32(&mut body, self.src);
        push_str(&mut body, self.sentence.as_str());
        assert(body@ =~= self@.body());
        push_record(out, TYP_DMR_FIX, &self.head, &body);
    }

    pub fn from_raw(r: &Raw) -> (v: Option<DmrFix>)
        ensures
            v is Some <==> DmrFixView::read(r@) is Some,
            v matches Some(f) ==> DmrFixView::read(r@) == Some(f@),
    {
        let b = r.bytes.as_slice();
        if r.typ != TYP_DMR_FIX {
            return None;
        }
        match take_str(b, HEAD_BYTES + 28) {
            None => None,
            Some((sentence, _)) => Some(
                DmrFix {
                    head: r.head,
                    slot: b[HEAD_BYTES],
                    course_cdeg: u16le(b, HEAD_BYTES + 2),
                    lat_udeg: i32le(b, HEAD_BYTES + 4),
                    lon_udeg: i32le(b, HEAD_BYTES + 8),
                    utc_ms: u32le(b, HEAD_BYTES + 12),
                    speed_mknots: u32le(b, HEAD_BYTES + 16),
                    date: (u16le(b, HEAD_BYTES + 20), b[HEAD_BYTES + 22], b[HEAD_BYTES + 23]),
                    src: u32le(b, HEAD_BYTES + 24),
                    sentence,
                },
            ),
        }
    }
}

// ---------------------------------------------------------------------
// Talker aliases.
// ---------------------------------------------------------------------
/// A talker alias. Variable length: head, slot, format (Table 7.25:
/// 0 = 7-bit, 1 = ISO 8-bit, 2 = UTF-8, 3 = UTF-16BE), source LLID,
/// then the alias as a length-prefixed UTF-8 string, padded to 8.
#[derive(Clone, Debug, PartialEq, Eq)]
pub struct DmrAlias {
    pub head: MsgHead,
    pub slot: u8,
    pub format: u8,
    pub src: u32,
    pub alias: String,
}

/// A [`DmrAlias`] with its alias as characters.
#[verifier::ext_equal]
pub struct DmrAliasView {
    pub head: MsgHead,
    pub slot: u8,
    pub format: u8,
    pub src: u32,
    pub alias: Seq<char>,
}

impl View for DmrAlias {
    type V = DmrAliasView;

    open spec fn view(&self) -> DmrAliasView {
        DmrAliasView {
            head: self.head,
            slot: self.slot,
            format: self.format,
            src: self.src,
            alias: self.alias@,
        }
    }
}

impl DmrAliasView {
    pub open spec fn body(self) -> Seq<u8> {
        seq![self.slot, self.format, 0u8, 0u8] + wire::le32(self.src as int) + wire::str_field(
            self.alias,
        )
    }

    pub open spec fn octets(self) -> Seq<u8> {
        record::framed(TYP_DMR_ALIAS, self.head, self.body())
    }

    pub open spec fn read(r: RawView) -> Option<DmrAliasView> {
        let b = r.bytes;
        match wire::str_at(b, 40) {
            Some((alias, _)) if r.typ == TYP_DMR_ALIAS => Some(
                DmrAliasView {
                    head: r.head,
                    slot: b[32],
                    format: b[33],
                    src: wire::at32(b, 36) as u32,
                    alias,
                },
            ),
            _ => None,
        }
    }
}

impl DmrAlias {
    pub fn encode_into(&self, out: &mut Vec<u8>)
        ensures
            final(out)@ == old(out)@ + self@.octets(),
    {
        let mut body: Vec<u8> = Vec::new();
        body.push(self.slot);
        body.push(self.format);
        body.push(0);
        body.push(0);
        push_u32(&mut body, self.src);
        push_str(&mut body, self.alias.as_str());
        assert(body@ =~= self@.body());
        push_record(out, TYP_DMR_ALIAS, &self.head, &body);
    }

    pub fn from_raw(r: &Raw) -> (v: Option<DmrAlias>)
        ensures
            v is Some <==> DmrAliasView::read(r@) is Some,
            v matches Some(f) ==> DmrAliasView::read(r@) == Some(f@),
    {
        let b = r.bytes.as_slice();
        if r.typ != TYP_DMR_ALIAS {
            return None;
        }
        match take_str(b, HEAD_BYTES + 8) {
            None => None,
            Some((alias, _)) => Some(
                DmrAlias {
                    head: r.head,
                    slot: b[HEAD_BYTES],
                    format: b[HEAD_BYTES + 1],
                    src: u32le(b, HEAD_BYTES + 4),
                    alias,
                },
            ),
        }
    }
}

// ---------------------------------------------------------------------
// Any DMR record.
// ---------------------------------------------------------------------
/// The DMR records this module knows, from a [`Raw`] record.
#[derive(Clone, Debug, PartialEq)]
pub enum DmrRecord {
    Voice(DmrVoice),
    Lc(DmrLc),
    Packet(DmrPacket),
    Fix(DmrFix),
    Alias(DmrAlias),
}

/// A [`DmrRecord`] with its text and octets as sequences.
#[verifier::ext_equal]
pub enum DmrRecordView {
    Voice(DmrVoiceView),
    Lc(DmrLcView),
    Packet(DmrPacketView),
    Fix(DmrFixView),
    Alias(DmrAliasView),
}

impl View for DmrRecord {
    type V = DmrRecordView;

    open spec fn view(&self) -> DmrRecordView {
        match self {
            DmrRecord::Voice(r) => DmrRecordView::Voice(r@),
            DmrRecord::Lc(r) => DmrRecordView::Lc(r@),
            DmrRecord::Packet(r) => DmrRecordView::Packet(r@),
            DmrRecord::Fix(r) => DmrRecordView::Fix(r@),
            DmrRecord::Alias(r) => DmrRecordView::Alias(r@),
        }
    }
}

impl DmrRecordView {
    /// The DMR record that a raw record of a DMR type holds.
    pub open spec fn read(r: RawView) -> Option<DmrRecordView> {
        match (
            DmrVoiceView::read(r),
            DmrLcView::read(r),
            DmrPacketView::read(r),
            DmrFixView::read(r),
            DmrAliasView::read(r),
        ) {
            (Some(v), _, _, _, _) => Some(DmrRecordView::Voice(v)),
            (_, Some(v), _, _, _) => Some(DmrRecordView::Lc(v)),
            (_, _, Some(v), _, _) => Some(DmrRecordView::Packet(v)),
            (_, _, _, Some(v), _) => Some(DmrRecordView::Fix(v)),
            (_, _, _, _, Some(v)) => Some(DmrRecordView::Alias(v)),
            _ => None,
        }
    }

    pub open spec fn octets(self) -> Seq<u8> {
        match self {
            DmrRecordView::Voice(r) => r.octets(),
            DmrRecordView::Lc(r) => r.octets(),
            DmrRecordView::Packet(r) => r.octets(),
            DmrRecordView::Fix(r) => r.octets(),
            DmrRecordView::Alias(r) => r.octets(),
        }
    }
}

pub fn parse_dmr(r: &Raw) -> (v: Option<DmrRecord>)
    ensures
        v is Some <==> DmrRecordView::read(r@) is Some,
        v matches Some(f) ==> DmrRecordView::read(r@) == Some(f@),
{
    match r.typ {
        TYP_DMR_VOICE => match DmrVoice::from_raw(r) {
            Some(f) => Some(DmrRecord::Voice(f)),
            None => None,
        },
        TYP_DMR_LC => match DmrLc::from_raw(r) {
            Some(f) => Some(DmrRecord::Lc(f)),
            None => None,
        },
        TYP_DMR_PACKET => match DmrPacket::from_raw(r) {
            Some(f) => Some(DmrRecord::Packet(f)),
            None => None,
        },
        TYP_DMR_FIX => match DmrFix::from_raw(r) {
            Some(f) => Some(DmrRecord::Fix(f)),
            None => None,
        },
        TYP_DMR_ALIAS => match DmrAlias::from_raw(r) {
            Some(f) => Some(DmrRecord::Alias(f)),
            None => None,
        },
        _ => None,
    }
}

// ---------------------------------------------------------------------
// What a Link Control says.
// ---------------------------------------------------------------------
/// What a Full LC payload MEANS, for the standard-feature FLCOs (Full
/// Link Control Opcodes) of TS 102 361-2 Table B.1. Applies to the
/// header/terminator LC and the embedded LC alike — same nine octets.
/// A record's meaning belongs with its layout, so a reader of a
/// [`DmrLc`] record needs no signal-processing crate to name the talker.
#[derive(Clone, Copy, Debug, PartialEq, Eq)]
pub enum LcInfo {
    /// FLCO 000000 — who is talking to which talkgroup (table 7.1).
    GroupVoice { tg: u32, src: u32 },
    /// FLCO 000011 — unit-to-unit call (table 7.2).
    UnitVoice { dst: u32, src: u32 },
    /// FLCO 001000 — inband position (table 7.3): 3-bit error bucket
    /// (7 = no fix), then microdegrees so that no floats are needed —
    /// longitude in steps of 360/2²⁵ °, latitude 180/2²⁴ °, both
    /// two's complement (§7.2.16/17).
    GpsInfo { err: u8, lon_udeg: i64, lat_udeg: i64 },
    /// FLCO 000100 — Talker Alias header (table 7.4): data format
    /// (Table 7.25: 0 = 7-bit ASCII, 1 = ISO 8-bit, 2 = UTF-8,
    /// 3 = UTF-16BE), total length in code units, and the header's
    /// 48 octet-aligned data bits (the 49th, its MSB, is reserved for
    /// the 8/16-bit formats).
    TalkerAliasHeader { format: u8, len: u8, data: [u8; 6] },
    /// FLCO 000101..000111 — Talker Alias blocks 1..3 (table 7.5),
    /// seven more octets of alias each.
    TalkerAliasBlock { n: u8, data: [u8; 7] },
    /// Any other FLCO/FID combination — the bytes are the caller's to
    /// interpret.
    Other,
}

/// An [`LcInfo`] with its octets as sequences.
#[verifier::ext_equal]
pub enum LcInfoView {
    GroupVoice { tg: int, src: int },
    UnitVoice { dst: int, src: int },
    GpsInfo { err: int, lon_udeg: int, lat_udeg: int },
    TalkerAliasHeader { format: int, len: int, data: Seq<u8> },
    TalkerAliasBlock { n: int, data: Seq<u8> },
    Other,
}

impl View for LcInfo {
    type V = LcInfoView;

    open spec fn view(&self) -> LcInfoView {
        match *self {
            LcInfo::GroupVoice { tg, src } => LcInfoView::GroupVoice {
                tg: tg as int,
                src: src as int,
            },
            LcInfo::UnitVoice { dst, src } => LcInfoView::UnitVoice {
                dst: dst as int,
                src: src as int,
            },
            LcInfo::GpsInfo { err, lon_udeg, lat_udeg } => LcInfoView::GpsInfo {
                err: err as int,
                lon_udeg: lon_udeg as int,
                lat_udeg: lat_udeg as int,
            },
            LcInfo::TalkerAliasHeader { format, len, data } => LcInfoView::TalkerAliasHeader {
                format: format as int,
                len: len as int,
                data: data@,
            },
            LcInfo::TalkerAliasBlock { n, data } => LcInfoView::TalkerAliasBlock {
                n: n as int,
                data: data@,
            },
            LcInfo::Other => LcInfoView::Other,
        }
    }
}

/// The big-endian value of the three octets of `b` at `i`.
pub open spec fn be24(b: Seq<u8>, i: int) -> int {
    0x1_0000 * b[i] + 0x100 * b[i + 1] + b[i + 2]
}

/// A pattern of `2 * half` values read as a two's complement number.
pub open spec fn twos_complement(v: int, half: int) -> int {
    if v < half {
        v
    } else {
        v - 2 * half
    }
}

/// What nine LC octets say. The position of opcode 8 stands in the 56 bits
/// of octets 2 to 8, most significant first: 4 reserved, 3 of error
/// bucket, 25 of longitude, 24 of latitude.
pub open spec fn lc_meaning(lc: Seq<u8>) -> LcInfoView {
    let flco = lc[0] % 64;
    if lc[1] != 0 {
        LcInfoView::Other
    } else if flco == 0 {
        LcInfoView::GroupVoice { tg: be24(lc, 3), src: be24(lc, 6) }
    } else if flco == 3 {
        LcInfoView::UnitVoice { dst: be24(lc, 3), src: be24(lc, 6) }
    } else if flco == 8 {
        let lon_raw = 0x100_0000 * (lc[2] % 2) + be24(lc, 3);
        LcInfoView::GpsInfo {
            err: lc[2] as int / 2 % 8,
            lon_udeg: twos_complement(lon_raw, 0x100_0000) * 360_000_000 / 0x200_0000,
            lat_udeg: twos_complement(be24(lc, 6), 0x80_0000) * 180_000_000 / 0x100_0000,
        }
    } else if flco == 4 {
        LcInfoView::TalkerAliasHeader {
            format: lc[2] as int / 64,
            len: lc[2] as int / 2 % 32,
            data: lc.subrange(3, 9),
        }
    } else if 5 <= flco <= 7 {
        LcInfoView::TalkerAliasBlock { n: flco - 4, data: lc.subrange(2, 9) }
    } else {
        LcInfoView::Other
    }
}

fn read_be24(b: &[u8; 9], i: usize) -> (v: u32)
    requires
        i + 3 <= 9,
    ensures
        v == be24(b@, i as int),
        v < 0x100_0000,
{
    0x1_0000 * b[i] as u32 + 0x100 * b[i + 1] as u32 + b[i + 2] as u32
}

/// Interpret nine RS- or checksum-verified LC octets per TS 102 361-2.
/// Only standard-feature messages (FID 0) are named; a manufacturer
/// FID is `Other` — the CRC may vouch for the bits, not the layout.
pub fn lc_info(lc: &[u8; 9]) -> (info: LcInfo)
    ensures
        info@ == lc_meaning(lc@),
{
    if lc[1] != 0 {
        return LcInfo::Other;
    }
    let flco: u8 = lc[0] % 64;
    if flco == 0 {
        LcInfo::GroupVoice { tg: read_be24(lc, 3), src: read_be24(lc, 6) }
    } else if flco == 3 {
        LcInfo::UnitVoice { dst: read_be24(lc, 3), src: read_be24(lc, 6) }
    } else if flco == 8 {
        let lon_raw: i64 = 0x100_0000 * (lc[2] % 2) as i64 + read_be24(lc, 3) as i64;
        let lat_raw: i64 = read_be24(lc, 6) as i64;
        let lon: i64 = if lon_raw < 0x100_0000 {
            lon_raw
        } else {
            lon_raw - 0x200_0000
        };
        let lat: i64 = if lat_raw < 0x80_0000 {
            lat_raw
        } else {
            lat_raw - 0x100_0000
        };
        LcInfo::GpsInfo {
            err: lc[2] / 2 % 8,
            lon_udeg: floor_div(lon * 360_000_000, 0x200_0000),
            lat_udeg: floor_div(lat * 180_000_000, 0x100_0000),
        }
    } else if flco == 4 {
        let mut data: [u8; 6] = [0; 6];
        copy_octets(&mut data, lc, 3);
        LcInfo::TalkerAliasHeader { format: lc[2] / 64, len: lc[2] / 2 % 32, data }
    } else if flco >= 5 && flco <= 7 {
        let mut data: [u8; 7] = [0; 7];
        copy_octets(&mut data, lc, 2);
        LcInfo::TalkerAliasBlock { n: flco - 4, data }
    } else {
        LcInfo::Other
    }
}

// ---------------------------------------------------------------------
// Laws.
// ---------------------------------------------------------------------
/// An inband position lies on the globe.
pub proof fn position_is_on_the_globe(lc: Seq<u8>)
    ensures
        lc_meaning(lc) matches LcInfoView::GpsInfo { err, lon_udeg, lat_udeg } ==> {
            &&& 0 <= err <= 7
            &&& -180_000_000 <= lon_udeg < 180_000_000
            &&& -90_000_000 <= lat_udeg < 90_000_000
        },
{
}

/// Packing 72 bits and unpacking them is the identity, and so is unpacking
/// nine octets and packing them.
pub proof fn packing_is_a_bijection(bits: Seq<u8>, octets: Seq<u8>)
    requires
        bits.len() == 72,
        forall|i: int| 0 <= i < 72 ==> #[trigger] bits[i] <= 1,
        octets.len() == 9,
    ensures
        unpacked(packed(bits)) == bits,
        packed(unpacked(octets)) == octets,
        forall|i: int| 0 <= i < 72 ==> #[trigger] unpacked(octets)[i] <= 1,
{
    unpack_undoes_pack(bits);
    pack_undoes_unpack(octets);
}

/// Air bits stand most significant first: bit `i` of the frame is bit
/// `7 - i % 8`, counted from the least significant, of octet `i / 8`.
pub proof fn air_bits_stand_in_order(bits: Seq<u8>, octets: Seq<u8>, i: int)
    requires
        bits.len() == 72,
        octets.len() == 9,
        0 <= i < 72,
    ensures
        packed(bits).len() == 9,
        packed(bits)[i / 8] as int / pow2((7 - i % 8) as nat) as int % 2 == bits[i] % 2,
        unpacked(octets).len() == 72,
        unpacked(octets)[i] == octets[i / 8] as int / pow2((7 - i % 8) as nat) as int % 2,
{
    let k = 8 * (i / 8);
    let w = Seq::new(8, |j: int| (bits[k + j] % 2) as u8);
    unpack_octet(w, i % 8);
    assert(packed_octet(w, 0) == packed_octet(bits, k));
    assert(w[i % 8] == bits[i] % 2);
    lemma_pow2_pos((7 - i % 8) as nat);
}

/// Frames that differ in one air bit differ in one octet, by the weight of
/// that bit.
pub proof fn one_air_bit_is_one_weight(bits: Seq<u8>, i: int)
    requires
        bits.len() == 72,
        0 <= i < 72,
        bits[i] == 0,
    ensures
        ({
            let with = bits.update(i, 1);
            &&& packed(with)[i / 8] == packed(bits)[i / 8] + pow2((7 - i % 8) as nat)
            &&& forall|k: int|
                0 <= k < 9 && k != i / 8 ==> #[trigger] packed(with)[k] == packed(bits)[k]
        }),
{
    lemma2_to64();
    let with = bits.update(i, 1);
    let k = 8 * (i / 8);
    let j = i % 8;
    assert(i == k + j);
    assert(0 <= packed_octet(bits, k) && packed_octet(with, k) < 256);
    assert(packed_octet(with, k) == packed_octet(bits, k) + pow2((7 - j) as nat)) by {
        assert(j == 0 || j == 1 || j == 2 || j == 3 || j == 4 || j == 5 || j == 6 || j == 7);
    }
    assert forall|n: int| 0 <= n < 9 && n != i / 8 implies #[trigger] packed(with)[n] == packed(
        bits,
    )[n] by {
        assert(packed_octet(with, 8 * n) == packed_octet(bits, 8 * n));
    }
}

proof fn unpack_undoes_pack(bits: Seq<u8>)
    requires
        bits.len() == 72,
        forall|i: int| 0 <= i < 72 ==> #[trigger] bits[i] <= 1,
    ensures
        unpacked(packed(bits)) == bits,
{
    assert forall|i: int| 0 <= i < 72 implies unpacked(packed(bits))[i] == bits[i] by {
        let i0 = 8 * (i / 8);
        let w = bits.subrange(i0, i0 + 8);
        assert(w[0] == bits[i0] && w[1] == bits[i0 + 1] && w[2] == bits[i0 + 2] && w[3] == bits[i0
            + 3] && w[4] == bits[i0 + 4] && w[5] == bits[i0 + 5] && w[6] == bits[i0 + 6] && w[7]
            == bits[i0 + 7]);
        unpack_octet(w, i % 8);
        assert(packed_octet(w, 0) == packed_octet(bits, i0));
        assert(packed(bits)[i / 8] == packed_octet(w, 0));
        assert(w[i % 8] == bits[i]);
    }
    assert(unpacked(packed(bits)) =~= bits);
}

proof fn pack_undoes_unpack(octets: Seq<u8>)
    requires
        octets.len() == 9,
    ensures
        packed(unpacked(octets)) == octets,
        forall|i: int| 0 <= i < 72 ==> #[trigger] unpacked(octets)[i] <= 1,
{
    let u = unpacked(octets);
    assert forall|k: int| 0 <= k < 9 implies packed(u)[k] == octets[k] by {
        let w = u.subrange(8 * k, 8 * k + 8);
        assert forall|j: int| 0 <= j < 8 implies w[j] == #[trigger] octet_bit(octets[k], j) by {
            assert((8 * k + j) / 8 == k && (8 * k + j) % 8 == j);
            assert(w[j] == u[8 * k + j]);
        }
        pack_octet(octets[k], w);
        assert(packed_octet(w, 0) == packed_octet(u, 8 * k));
    }
    assert(packed(u) =~= octets);
}

/// A number over its lowest bit.
proof fn lemma_halved(o: int, x: int, b: int)
    requires
        o == 2 * x + b,
        0 <= b <= 1,
    ensures
        o / 2 == x,
        o % 2 == b,
{
}

/// Halving again and again.
proof fn lemma_halves(o: int)
    requires
        0 <= o < 256,
    ensures
        o / 4 == o / 2 / 2,
        o / 8 == o / 4 / 2,
        o / 16 == o / 8 / 2,
        o / 32 == o / 16 / 2,
        o / 64 == o / 32 / 2,
        o / 128 == o / 64 / 2,
        0 <= o / 128 <= 1,
{
}

/// The bits of an octet are its halves' lowest bits.
proof fn lemma_octet_bits(octet: u8)
    ensures
        octet_bit(octet, 0) == octet as int / 128 % 2,
        octet_bit(octet, 1) == octet as int / 64 % 2,
        octet_bit(octet, 2) == octet as int / 32 % 2,
        octet_bit(octet, 3) == octet as int / 16 % 2,
        octet_bit(octet, 4) == octet as int / 8 % 2,
        octet_bit(octet, 5) == octet as int / 4 % 2,
        octet_bit(octet, 6) == octet as int / 2 % 2,
        octet_bit(octet, 7) == octet as int % 2,
{
    lemma2_to64();
    let o = octet as int;
    assert(octet_bit(octet, 7) == o / 1 % 2);
    assert(o / 1 == o);
}

/// One octet unpacks to the bits that it was packed from.
#[verifier::spinoff_prover]
proof fn unpack_octet(w: Seq<u8>, j: int)
    requires
        w.len() == 8,
        w[0] <= 1 && w[1] <= 1 && w[2] <= 1 && w[3] <= 1 && w[4] <= 1 && w[5] <= 1 && w[6] <= 1
            && w[7] <= 1,
        0 <= j < 8,
    ensures
        0 <= packed_octet(w, 0) < 256,
        octet_bit(packed_octet(w, 0) as u8, j) == w[j],
{
    let x1 = 2 * w[0] + w[1];
    let x2 = 2 * x1 + w[2];
    let x3 = 2 * x2 + w[3];
    let x4 = 2 * x3 + w[4];
    let x5 = 2 * x4 + w[5];
    let x6 = 2 * x5 + w[6];
    let o = 2 * x6 + w[7];
    assert(packed_octet(w, 0) == o);
    lemma_halves(o);
    lemma_octet_bits(o as u8);
    lemma_halved(o, x6, w[7] as int);
    lemma_halved(x6, x5, w[6] as int);
    lemma_halved(x5, x4, w[5] as int);
    lemma_halved(x4, x3, w[4] as int);
    lemma_halved(x3, x2, w[3] as int);
    lemma_halved(x2, x1, w[2] as int);
    lemma_halved(x1, w[0] as int, w[1] as int);
}

/// The bits of one octet pack to the octet.
#[verifier::spinoff_prover]
proof fn pack_octet(octet: u8, w: Seq<u8>)
    requires
        w.len() == 8,
        forall|j: int| 0 <= j < 8 ==> w[j] == #[trigger] octet_bit(octet, j),
    ensures
        packed_octet(w, 0) == octet,
{
    let o = octet as int;
    lemma_halves(o);
    lemma_octet_bits(octet);
    assert(w[0] == o / 128 % 2);
    assert(w[1] == o / 64 % 2);
    assert(w[2] == o / 32 % 2);
    assert(w[3] == o / 16 % 2);
    assert(w[4] == o / 8 % 2);
    assert(w[5] == o / 4 % 2);
    assert(w[6] == o / 2 % 2);
    assert(w[7] == o % 2);
}

/// A voice superframe whose body opens the body of `b` is read from `b`.
proof fn voice_read(b: Seq<u8>, f: DmrVoiceView)
    requires
        f.sized(),
        b.len() >= 200,
        b.subrange(32, 198) == f.body(),
    ensures
        DmrVoiceView::read(RawView { typ: TYP_DMR_VOICE, head: f.head, bytes: b }) == Some(f),
{
    let j = wire::joined(f.frames);
    assert(j.subrange(0, j.len() as int) =~= j);
    wire::lemma_joined(f.frames, 9, j, 0);
    let w = b.subrange(32, 198);
    assert(b[32] == w[0] && b[33] == w[1] && b[34] == w[2]);
    assert(b.subrange(36, 198) =~= w.subrange(4, 166));
    assert(f.body().subrange(4, 166) =~= j);
    wire::lemma_joined(f.frames, 9, b, 36);
}

/// A packet whose body opens the body of `b` is read from `b`.
proof fn packet_read(b: Seq<u8>, f: DmrPacketView)
    requires
        f.header.len() == 12,
        f.user_data.len() <= 65_480,
        b.len() >= 48 + f.user_data.len(),
        b.subrange(32, 48 + f.user_data.len() as int) == f.body(),
    ensures
        DmrPacketView::read(RawView { typ: TYP_DMR_PACKET, head: f.head, bytes: b }) == Some(f),
{
    let n = f.user_data.len() as int;
    let w = b.subrange(32, 48 + n);
    assert(b[32] == w[0]);
    assert(b.subrange(34, 36) =~= w.subrange(2, 4));
    assert(f.body().subrange(2, 4) =~= wire::le16(n));
    wire::lemma_at16(b, 34, n);
    assert(b.subrange(36, 48) =~= w.subrange(4, 16));
    assert(f.body().subrange(4, 16) =~= f.header);
    assert(b.subrange(48, 48 + n) =~= w.subrange(16, 16 + n));
    assert(f.body().subrange(16, 16 + n) =~= f.user_data);
}

/// A part of a body, found where the body was put.
proof fn lemma_part(b: Seq<u8>, body: Seq<u8>, i: int, j: int)
    requires
        0 <= i <= j <= body.len(),
        32 + body.len() <= b.len(),
        b.subrange(32, 32 + body.len() as int) == body,
    ensures
        b.subrange(32 + i, 32 + j) == body.subrange(i, j),
        i < j ==> b[32 + i] == body[i],
{
    let w = b.subrange(32, 32 + body.len() as int);
    assert(b.subrange(32 + i, 32 + j) =~= w.subrange(i, j));
    if i < j {
        assert(b[32 + i] == w[i]);
    }
}

/// The parts of the body of a fix.
#[verifier::spinoff_prover]
proof fn lemma_fix_parts(f: DmrFixView)
    ensures
        ({
            let body = f.body();
            let n = wire::str_field(f.sentence).len() as int;
            &&& body.len() >= 28 + n
            &&& body.subrange(2, 4) == wire::le16(f.course_cdeg as int)
            &&& body.subrange(4, 8) == wire::le32(f.lat_udeg as int)
            &&& body.subrange(8, 12) == wire::le32(f.lon_udeg as int)
            &&& body.subrange(12, 16) == wire::le32(f.utc_ms as int)
            &&& body.subrange(16, 20) == wire::le32(f.speed_mknots as int)
            &&& body.subrange(20, 22) == wire::le16(f.date.0 as int)
            &&& body[22] == f.date.1
            &&& body[23] == f.date.2
            &&& body.subrange(24, 28) == wire::le32(f.src as int)
            &&& body.subrange(28, 28 + n) == wire::str_field(f.sentence)
        }),
{
    let body = f.body();
    let n = wire::str_field(f.sentence).len() as int;
    assert(body.subrange(2, 4) =~= wire::le16(f.course_cdeg as int));
    assert(body.subrange(4, 8) =~= wire::le32(f.lat_udeg as int));
    assert(body.subrange(8, 12) =~= wire::le32(f.lon_udeg as int));
    assert(body.subrange(12, 16) =~= wire::le32(f.utc_ms as int));
    assert(body.subrange(16, 20) =~= wire::le32(f.speed_mknots as int));
    assert(body.subrange(20, 22) =~= wire::le16(f.date.0 as int));
    assert(body.subrange(24, 28) =~= wire::le32(f.src as int));
    assert(body.subrange(28, 28 + n) =~= wire::str_field(f.sentence));
}

/// A fix whose body opens the body of `b` is read from `b`, its sentence
/// as the wire keeps it.
#[verifier::spinoff_prover]
proof fn fix_read(b: Seq<u8>, f: DmrFixView)
    requires
        32 + f.body().len() <= b.len(),
        b.subrange(32, 32 + f.body().len() as int) == f.body(),
    ensures
        DmrFixView::read(RawView { typ: TYP_DMR_FIX, head: f.head, bytes: b }) == Some(
            DmrFixView { sentence: laws::kept_text(f.sentence), ..f },
        ),
{
    let body = f.body();
    let (year, month, day) = f.date;
    let n = wire::str_field(f.sentence).len() as int;
    lemma_fix_parts(f);
    lemma_part(b, body, 0, 1);
    lemma_part(b, body, 2, 4);
    wire::lemma_at16(b, 34, f.course_cdeg as int);
    lemma_part(b, body, 4, 8);
    wire::lemma_at32_signed(b, 36, f.lat_udeg as int);
    lemma_part(b, body, 8, 12);
    wire::lemma_at32_signed(b, 40, f.lon_udeg as int);
    lemma_part(b, body, 12, 16);
    wire::lemma_at32(b, 44, f.utc_ms as int);
    lemma_part(b, body, 16, 20);
    wire::lemma_at32(b, 48, f.speed_mknots as int);
    lemma_part(b, body, 20, 22);
    wire::lemma_at16(b, 52, year as int);
    lemma_part(b, body, 22, 23);
    lemma_part(b, body, 23, 24);
    lemma_part(b, body, 24, 28);
    wire::lemma_at32(b, 56, f.src as int);
    lemma_part(b, body, 28, 28 + n);
    laws::string_reads_back(b, 60, f.sentence);
}

/// An alias whose body opens the body of `b` is read from `b`, its text as
/// the wire keeps it.
proof fn alias_read(b: Seq<u8>, f: DmrAliasView)
    requires
        32 + f.body().len() <= b.len(),
        b.subrange(32, 32 + f.body().len() as int) == f.body(),
    ensures
        DmrAliasView::read(RawView { typ: TYP_DMR_ALIAS, head: f.head, bytes: b }) == Some(
            DmrAliasView { alias: laws::kept_text(f.alias), ..f },
        ),
{
    let body = f.body();
    let w = b.subrange(32, 32 + body.len() as int);
    assert(b[32] == w[0] && b[33] == w[1]);
    assert(b.subrange(36, 40) =~= w.subrange(4, 8));
    assert(body.subrange(4, 8) =~= wire::le32(f.src as int));
    wire::lemma_at32(b, 36, f.src as int);
    let n = wire::str_field(f.alias).len() as int;
    assert(b.subrange(40, 40 + n) =~= w.subrange(8, 8 + n));
    assert(body.subrange(8, 8 + n) =~= wire::str_field(f.alias));
    laws::string_reads_back(b, 40, f.alias);
}

/// The raw record that the octets of a DMR record are read as.
pub open spec fn as_raw(typ: u8, head: MsgHead, octets: Seq<u8>) -> RawView {
    RawView { typ, head, bytes: octets }
}

/// A voice superframe that was encoded takes 200 octets and reads back.
pub proof fn voice_reads_back(f: DmrVoiceView, rest: Seq<u8>)
    requires
        f.sized(),
    ensures
        f.octets().len() == 200,
        record::record_at(f.octets() + rest) == Some(
            (record::RecordView::Raw(as_raw(TYP_DMR_VOICE, f.head, f.octets())), 200int),
        ),
        DmrVoiceView::read(as_raw(TYP_DMR_VOICE, f.head, f.octets())) == Some(f),
{
    let j = wire::joined(f.frames);
    assert(j.subrange(0, j.len() as int) =~= j);
    wire::lemma_joined(f.frames, 9, j, 0);
    assert(f.body().len() == 166);
    laws::unowned_reads_back(TYP_DMR_VOICE, f.head, f.body(), rest);
    laws::framed_head(TYP_DMR_VOICE, f.head, f.body(), rest);
    voice_read(f.octets(), f);
}

/// A Link Control that was encoded takes 48 octets and reads back.
pub proof fn lc_reads_back(f: DmrLcView, rest: Seq<u8>)
    requires
        f.lc.len() == 9,
    ensures
        f.octets().len() == 48,
        record::record_at(f.octets() + rest) == Some(
            (record::RecordView::Raw(as_raw(TYP_DMR_LC, f.head, f.octets())), 48int),
        ),
        DmrLcView::read(as_raw(TYP_DMR_LC, f.head, f.octets())) == Some(f),
{
    let body = f.body();
    assert(body.len() == 11);
    laws::unowned_reads_back(TYP_DMR_LC, f.head, body, rest);
    laws::framed_head(TYP_DMR_LC, f.head, body, rest);
    let b = f.octets();
    let w = b.subrange(32, 43);
    assert(b[32] == w[0] && b[33] == w[1]);
    assert(b.subrange(34, 43) =~= w.subrange(2, 11));
    assert(body.subrange(2, 11) =~= f.lc);
}

/// A packet that was encoded reads back as one record carries it: user
/// data that is too long is cut and flagged, never a malformed record.
pub proof fn packet_reads_back(f: DmrPacketView, rest: Seq<u8>)
    requires
        f.header.len() == 12,
    ensures
        f.octets().len() <= 65_528,
        f.octets().len() % 8 == 0,
        record::record_at(f.octets() + rest) == Some(
            (
                record::RecordView::Raw(as_raw(TYP_DMR_PACKET, f.carried().head, f.octets())),
                f.octets().len() as int,
            ),
        ),
        DmrPacketView::read(as_raw(TYP_DMR_PACKET, f.carried().head, f.octets())) == Some(
            f.carried(),
        ),
        f.user_data.len() > 65_480 ==> f.carried().head.flags & PKT_FLAG_TRUNCATED != 0,
{
    let c = f.carried();
    assert(c.body().len() == 16 + c.user_data.len());
    laws::unowned_reads_back(TYP_DMR_PACKET, c.head, c.body(), rest);
    laws::framed_head(TYP_DMR_PACKET, c.head, c.body(), rest);
    packet_read(f.octets(), c);
    let flags = f.head.flags;
    assert((flags | 0x0002u16) & 0x0002u16 != 0) by (bit_vector);
}

/// A fix that was encoded reads back, its sentence as the wire keeps it.
pub proof fn fix_reads_back(f: DmrFixView, rest: Seq<u8>)
    ensures
        f.octets().len() % 8 == 0,
        record::record_at(f.octets() + rest) == Some(
            (
                record::RecordView::Raw(as_raw(TYP_DMR_FIX, f.head, f.octets())),
                f.octets().len() as int,
            ),
        ),
        DmrFixView::read(as_raw(TYP_DMR_FIX, f.head, f.octets())) == Some(
            DmrFixView { sentence: laws::kept_text(f.sentence), ..f },
        ),
        encode_utf8(f.sentence).len() <= 255 ==> laws::kept_text(f.sentence) == f.sentence,
{
    laws::unowned_reads_back(TYP_DMR_FIX, f.head, f.body(), rest);
    laws::framed_head(TYP_DMR_FIX, f.head, f.body(), rest);
    fix_read(f.octets(), f);
    encode_utf8_valid_utf8(f.sentence);
    encode_utf8_decode_utf8(f.sentence);
}

/// An alias that was encoded reads back, its text as the wire keeps it.
pub proof fn alias_reads_back(f: DmrAliasView, rest: Seq<u8>)
    ensures
        f.octets().len() % 8 == 0,
        record::record_at(f.octets() + rest) == Some(
            (
                record::RecordView::Raw(as_raw(TYP_DMR_ALIAS, f.head, f.octets())),
                f.octets().len() as int,
            ),
        ),
        DmrAliasView::read(as_raw(TYP_DMR_ALIAS, f.head, f.octets())) == Some(
            DmrAliasView { alias: laws::kept_text(f.alias), ..f },
        ),
        encode_utf8(f.alias).len() <= 255 ==> laws::kept_text(f.alias) == f.alias,
{
    laws::unowned_reads_back(TYP_DMR_ALIAS, f.head, f.body(), rest);
    laws::framed_head(TYP_DMR_ALIAS, f.head, f.body(), rest);
    alias_read(f.octets(), f);
    encode_utf8_valid_utf8(f.alias);
    encode_utf8_decode_utf8(f.alias);
}

/// A raw record of one type never reads as a record of another.
pub proof fn the_type_decides(r: RawView)
    ensures
        DmrRecordView::read(r) matches Some(v) ==> match v {
            DmrRecordView::Voice(f) => r.typ == TYP_DMR_VOICE && DmrVoiceView::read(r) == Some(f),
            DmrRecordView::Lc(f) => r.typ == TYP_DMR_LC && DmrLcView::read(r) == Some(f),
            DmrRecordView::Packet(f) => r.typ == TYP_DMR_PACKET && DmrPacketView::read(r) == Some(f),
            DmrRecordView::Fix(f) => r.typ == TYP_DMR_FIX && DmrFixView::read(r) == Some(f),
            DmrRecordView::Alias(f) => r.typ == TYP_DMR_ALIAS && DmrAliasView::read(r) == Some(f),
        },
{
}

} // verus!
