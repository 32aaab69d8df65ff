use crate::ieee::Binary32;
use crate::text;
use crate::wire;
use crate::wire::{
    i32le, pad8, push_bytes, push_i32, push_str, push_u16, push_u32, push_u64, take_str, u16le,
    u32le, u64le,
};
use vstd::prelude::*;
use vstd::slice::slice_to_vec;

verus! {

/// Every record opens with these four bytes.
pub const MAGIC: [u8; 4] = [0x73, 0x64, 0x72, 0x00];

/// The format version this crate writes and the only one it reads.
pub const VERSION: u8 = 1;

/// The common head is always 32 bytes.
pub const HEAD_BYTES: usize = 32;

/// The largest record the two-byte `len` can describe, rounded down to
/// the record alignment.
pub const MAX_RECORD_BYTES: usize = 65_528;

pub const TYP_CALL_HEADER: u8 = 1;
pub const TYP_LDU: u8 = 2;
pub const TYP_CALL_TRAILER: u8 = 3;
pub const TYP_ESS: u8 = 4;
pub const TYP_P2_VCH: u8 = 5;
pub const TYP_DMR_VOICE: u8 = 6;
pub const TYP_DMR_LC: u8 = 7;
pub const TYP_DMR_PACKET: u8 = 8;
pub const TYP_DMR_FIX: u8 = 9;
pub const TYP_DMR_ALIAS: u8 = 10;

// CallHeader flags.
/// A sibling `.wav` exists (dual-write acceptance mode).
pub const HDR_FLAG_DUAL_WRITE: u16 = 0x0001;
/// tg/src hold a real grant-seeded identity; clear = placeholders, trust
/// the Link Control inside the frames or the trailer.
pub const HDR_FLAG_SEEDED: u16 = 0x0002;

// Ldu flags (bodies in `p25`; the bits are registry, so they live here).
/// This is an LDU2 (else LDU1).
pub const LDU_FLAG_LDU2: u16 = 0x0001;
/// NID inferred from cadence (flywheel), not decoded.
pub const LDU_FLAG_FLYWHEEL: u16 = 0x0002;
/// DUID forced from the LDU1/LDU2 alternation grid after a NID reject.
pub const LDU_FLAG_FORCED: u16 = 0x0004;
/// The live RS decode of the extra (LC/ESS) succeeded. AUTHORITATIVE:
/// when clear, the extra inside `body` is untrusted even though its
/// re-encoded parity checks out.
pub const LDU_FLAG_RS_OK: u16 = 0x0008;

// CallTrailer flags.
pub const TRL_FLAG_ENCRYPTED: u16 = 0x0001;
pub const TRL_FLAG_EMERGENCY: u16 = 0x0002;

// P2VchFrame flags (bodies in `p25`).
/// Encryption was CONFIRMED (the Phase 2 EssConfirm discipline) by
/// this superframe.
pub const P2V_FLAG_ENCRYPTED: u16 = 0x0001;
/// The assembler could not vouch for every placement in this
/// superframe (inferred location, misplaced voice, or a partial
/// flush).
pub const P2V_FLAG_CADENCE: u16 = 0x0002;
/// The stored phase (and therefore the dibits it implies) is
/// DESCRAMBLED — the BBAE network scramble has been removed and the
/// frames are AMBE+2 codewords. Clear means the record holds exactly
/// what came off the air, which for an outbound 4V/2V burst means
/// SCRAMBLED — recordable, not vocodable.
pub const P2V_FLAG_DESCRAMBLED: u16 = 0x0004;
/// A fragment's location was INFERRED (both I-ISCH failed → flywheel).
pub const P2V_FLAG_LOC_INFERRED: u16 = 0x0008;
/// A voice burst contradicted its cadence position and was dropped,
/// or a decoded Channel Number contradicted slot parity.
pub const P2V_FLAG_MISPLACED: u16 = 0x0010;
/// The superframe was closed early (tainted flush or teardown).
pub const P2V_FLAG_PARTIAL: u16 = 0x0020;

/// The common head, minus magic/ver/typ/len (which are the codec's
/// business: typ is the record variant, len is computed at encode).
#[derive(Clone, Copy, Debug, PartialEq, Eq)]
pub struct MsgHead {
    pub seq: u32,
    pub epoch_us: u64,
    pub hz: u32,
    pub nac: u16,
    pub flags: u16,
    /// The receiver's MimoCAD SITE_ID; 0 when not configured.
    pub site: u32,
}

impl Default for MsgHead {
    fn default() -> (h: MsgHead)
        ensures
            h == (MsgHead { seq: 0, epoch_us: 0, hz: 0, nac: 0, flags: 0, site: 0 }),
    {
        MsgHead { seq: 0, epoch_us: 0, hz: 0, nac: 0, flags: 0, site: 0 }
    }
}

/// The 32 octets that open a record of `total` octets.
pub open spec fn head_octets(typ: u8, total: int, h: MsgHead) -> Seq<u8> {
    MAGIC@ + seq![VERSION, typ] + wire::le16(total) + wire::le64(h.epoch_us as int) + wire::le32(
        h.hz as int,
    ) + wire::le32(h.seq as int) + wire::le16(h.nac as int) + wire::le16(h.flags as int)
        + wire::le32(h.site as int)
}

/// A whole record: the head, the body, and zeros up to the alignment.
#[verifier::opaque]
pub open spec fn framed(typ: u8, h: MsgHead, body: Seq<u8>) -> Seq<u8> {
    let total = wire::padded(32 + body.len() as int);
    head_octets(typ, total, h) + body + wire::zeros(total - 32 - body.len())
}

/// What `parse_head` reads: the type, the head, and the declared length.
#[verifier::opaque]
pub open spec fn head_at(b: Seq<u8>) -> Option<(u8, MsgHead, int)> {
    let total = wire::at16(b, 6);
    if b.len() >= 32 && b.take(4) == MAGIC@ && b[4] == VERSION && 32 <= total <= b.len() && total
        % 8 == 0 {
        Some(
            (
                b[5],
                MsgHead {
                    seq: wire::at32(b, 20) as u32,
                    epoch_us: wire::at64(b, 8) as u64,
                    hz: wire::at32(b, 16) as u32,
                    nac: wire::at16(b, 24) as u16,
                    flags: wire::at16(b, 26) as u16,
                    site: wire::at32(b, 28) as u32,
                },
                total,
            ),
        )
    } else {
        None
    }
}

/// Append a record head. `total` is the whole record's byte length,
/// which must be a multiple of [`RECORD_ALIGN`] within
/// [`HEAD_BYTES`]..=[`MAX_RECORD_BYTES`].
pub fn push_head(out: &mut Vec<u8>, typ: u8, total: usize, h: &MsgHead)
    requires
        total % 8 == 0,
        HEAD_BYTES <= total <= MAX_RECORD_BYTES,
    ensures
        final(out)@ == old(out)@ + head_octets(typ, total as int, *h),
{
    push_bytes(out, &MAGIC);
    out.push(VERSION);
    out.push(typ);
    push_u16(out, total as u16);
    push_u64(out, h.epoch_us);
    push_u32(out, h.hz);
    push_u32(out, h.seq);
    push_u16(out, h.nac);
    push_u16(out, h.flags);
    push_u32(out, h.site);
    assert(out@ =~= old(out)@ + head_octets(typ, total as int, *h));
}

/// Parse just the head. `None` when the magic, version, length, or
/// alignment disagree with the bytes — a streaming reader stops here.
pub fn parse_head(b: &[u8]) -> (r: Option<(u8, MsgHead, usize)>)
    ensures
        r is Some <==> head_at(b@) is Some,
        r matches Some((typ, h, total)) ==> head_at(b@) == Some((typ, h, total as int)),
{
    reveal(head_at);
    if b.len() < HEAD_BYTES {
        return None;
    }
    proof {
        assert(b@.take(4) =~= seq![b@[0], b@[1], b@[2], b@[3]]);
        assert(MAGIC@ =~= seq![0x73u8, 0x64, 0x72, 0x00]);
        assert(b@.take(4) == MAGIC@ <==> b@[0] == 0x73 && b@[1] == 0x64 && b@[2] == 0x72 && b@[3]
            == 0) by {
            let m = seq![0x73u8, 0x64, 0x72, 0x00];
            if b@.take(4) == m {
                assert(b@.take(4)[0] == m[0] && b@.take(4)[1] == m[1] && b@.take(4)[2] == m[2]
                    && b@.take(4)[3] == m[3]);
            }
        }
    }
    if b[0] != MAGIC[0] || b[1] != MAGIC[1] || b[2] != MAGIC[2] || b[3] != MAGIC[3] || b[4]
        != VERSION {
        return None;
    }
    let typ: u8 = b[5];
    let total: usize = u16le(b, 6) as usize;
    if total < HEAD_BYTES || total > b.len() || total % wire::RECORD_ALIGN != 0 {
        return None;
    }
    let head = MsgHead {
        epoch_us: u64le(b, 8),
        hz: u32le(b, 16),
        seq: u32le(b, 20),
        nac: u16le(b, 24),
        flags: u16le(b, 26),
        site: u32le(b, 28),
    };
    Some((typ, head, total))
}

/// The four octets of `b` at `i` as a single-precision number.
pub fn f32le(b: &[u8], i: usize) -> (v: Binary32)
    requires
        i + 4 <= b.len(),
    ensures
        v.bits == wire::at32(b@, i as int),
{
    Binary32 { bits: u32le(b, i) }
}

/// Append a whole record: the head, `body`, and the padding.
pub fn push_record(out: &mut Vec<u8>, typ: u8, h: &MsgHead, body: &[u8])
    requires
        HEAD_BYTES + body@.len() <= MAX_RECORD_BYTES,
    ensures
        final(out)@ == old(out)@ + framed(typ, *h, body@),
{
    let total: usize = pad8(HEAD_BYTES + body.len());
    push_head(out, typ, total, h);
    push_bytes(out, body);
    let mut left: usize = total - HEAD_BYTES - body.len();
    let ghost before = out@;
    let ghost pad = left;
    while left > 0
        invariant
            left <= pad,
            out@ =~= before + wire::zeros(pad - left),
        decreases left,
    {
        out.push(0);
        left = left - 1;
    }
    reveal(framed);
    assert(out@ =~= old(out)@ + framed(typ, *h, body@));
}

// ---------------------------------------------------------------------
// CallHeader.
// ---------------------------------------------------------------------
/// Once per call, first record: the identity known at grant time plus
/// the receiver-side facts no voice frame ever carries (WACN/SYSID come
/// from a P25 control channel's Network Status Broadcast; DMR leaves
/// them 0). Body:
///
/// ```text
///  32  1  mode      32+1  1  slot     34  2  sysid
///  36  4  tg        40    4  src      44  4  wacn
///  48  n  system    length-prefixed string, then pad to 8
/// ```
#[derive(Clone, Debug, PartialEq, Eq)]
pub struct CallHeader {
    pub head: MsgHead,
    /// Raw wire value; interpret via [`Mode::from_u8`] (unknown values
    /// survive a parse→re-encode round trip).
    pub mode: u8,
    /// 0xFF unless the mode has slots; then the slot.
    pub slot: u8,
    /// Grant-seeded talkgroup — valid iff [`HDR_FLAG_SEEDED`]. 32 bits:
    /// a DMR group id is 24.
    pub tg: u32,
    /// Grant-seeded source radio (24-bit unit ID) — valid iff seeded.
    pub src: u32,
    /// 20-bit Wide Area Communications Network ID (P25).
    pub wacn: u32,
    /// 12-bit system ID (P25).
    pub sysid: u16,
    /// Archive directory label: WACN+SYSID hex for P25 ("ABCDE123"),
    /// callsign for conventional ("KA1ABC"), the frequency+type dir
    /// for a system nothing claims. Truncated to 255 bytes.
    pub system: String,
}

/// A [`CallHeader`] with its text as characters.
#[verifier::ext_equal]
pub struct CallHeaderView {
    pub head: MsgHead,
    pub mode: u8,
    pub slot: u8,
    pub tg: u32,
    pub src: u32,
    pub wacn: u32,
    pub sysid: u16,
    pub system: Seq<char>,
}

impl View for CallHeader {
    type V = CallHeaderView;

    open spec fn view(&self) -> CallHeaderView {
        CallHeaderView {
            head: self.head,
            mode: self.mode,
            slot: self.slot,
            tg: self.tg,
            src: self.src,
            wacn: self.wacn,
            sysid: self.sysid,
            system: self.system@,
        }
    }
}

impl CallHeaderView {
    pub open spec fn body(self) -> Seq<u8> {
        seq![self.mode, self.slot] + wire::le16(self.sysid as int) + wire::le32(self.tg as int)
            + wire::le32(self.src as int) + wire::le32(self.wacn as int) + wire::str_field(
            self.system,
        )
    }

    pub open spec fn octets(self) -> Seq<u8> {
        framed(TYP_CALL_HEADER, self.head, self.body())
    }

    /// The header in the octets of one record.
    pub open spec fn read(b: Seq<u8>, head: MsgHead) -> Option<CallHeaderView> {
        match wire::str_at(b, 48) {
            Some((system, used)) => Some(
                CallHeaderView {
                    head,
                    mode: b[32],
                    slot: b[33],
                    tg: wire::at32(b, 36) as u32,
                    src: wire::at32(b, 40) as u32,
                    wacn: wire::at32(b, 44) as u32,
                    sysid: wire::at16(b, 34) as u16,
                    system,
                },
            ),
            None => None,
        }
    }
}

impl CallHeader {
    pub fn encode_into(&self, out: &mut Vec<u8>)
        ensures
            final(out)@ == old(out)@ + self@.octets(),
    {
        let mut body: Vec<u8> = Vec::new();
        body.push(self.mode);
        body.push(self.slot);
        push_u16(&mut body, self.sysid);
        push_u32(&mut body, self.tg);
        push_u32(&mut body, self.src);
        push_u32(&mut body, self.wacn);
        push_str(&mut body, self.system.as_str());
        assert(body@ =~= self@.body());
        push_record(out, TYP_CALL_HEADER, &self.head, &body);
    }

    fn parse(b: &[u8], head: MsgHead) -> (r: Option<CallHeader>)
        requires
            b@.len() >= HEAD_BYTES,
        ensures
            r is Some <==> CallHeaderView::read(b@, head) is Some,
            r matches Some(h) ==> CallHeaderView::read(b@, head) == Some(h@),
    {
        match take_str(b, HEAD_BYTES + 16) {
            None => None,
            Some((system, _)) => Some(
                CallHeader {
                    head,
                    mode: b[HEAD_BYTES],
                    slot: b[HEAD_BYTES + 1],
                    sysid: u16le(b, HEAD_BYTES + 2),
                    tg: u32le(b, HEAD_BYTES + 4),
                    src: u32le(b, HEAD_BYTES + 8),
                    wacn: u32le(b, HEAD_BYTES + 12),
                    system,
                },
            ),
        }
    }
}

// ---------------------------------------------------------------------
// CallTrailer.
// ---------------------------------------------------------------------
/// `CallTrailer::offset_hz` when the offset was not measured.
pub const OFFSET_UNKNOWN: i32 = -0x8000_0000;

/// Once per call, last record: the close-time facts. A truncated file
/// missing its trailer falls back to the CallHeader identity and the
/// last voice record's epoch. Body:
///
/// ```text
///  32  4  duration_ms   36  4  tg          40  4  src
///  44  4  delta_db      48  4  signal_db   52  4  floor_db
///  56  4  offset_hz i32 60  n  alias str   ..  n  alphatag str, pad to 8
/// ```
#[derive(Clone, Debug, PartialEq)]
pub struct CallTrailer {
    pub head: MsgHead,
    /// Call length on the PCM clock.
    pub duration_ms: u32,
    /// Final talkgroup, LC-refined; overrides the header's seed.
    pub tg: u32,
    /// Final source radio, LC-refined.
    pub src: u32,
    /// Peak signal above the floor over the call (demod-derived).
    pub delta_db: Binary32,
    /// The absolutes behind the delta, measured at the peak-delta
    /// instant (`signal_db − delta_db = floor_db` exactly); NaN when
    /// the path does not measure them.
    pub signal_db: Binary32,
    pub floor_db: Binary32,
    /// Mean carrier frequency offset — transmitter-drift health;
    /// [`OFFSET_UNKNOWN`] when not measured.
    pub offset_hz: i32,
    /// Config enrichment; empty when unknown. Truncated to 255 bytes.
    pub alias: String,
    pub alphatag: String,
}

/// A [`CallTrailer`] with its text as characters.
#[verifier::ext_equal]
pub struct CallTrailerView {
    pub head: MsgHead,
    pub duration_ms: u32,
    pub tg: u32,
    pub src: u32,
    pub delta_db: Binary32,
    pub signal_db: Binary32,
    pub floor_db: Binary32,
    pub offset_hz: i32,
    pub alias: Seq<char>,
    pub alphatag: Seq<char>,
}

impl View for CallTrailer {
    type V = CallTrailerView;

    open spec fn view(&self) -> CallTrailerView {
        CallTrailerView {
            head: self.head,
            duration_ms: self.duration_ms,
            tg: self.tg,
            src: self.src,
            delta_db: self.delta_db,
            signal_db: self.signal_db,
            floor_db: self.floor_db,
            offset_hz: self.offset_hz,
            alias: self.alias@,
            alphatag: self.alphatag@,
        }
    }
}

impl CallTrailerView {
    pub open spec fn body(self) -> Seq<u8> {
        wire::le32(self.duration_ms as int) + wire::le32(self.tg as int) + wire::le32(
            self.src as int,
        ) + wire::le32(self.delta_db.bits as int) + wire::le32(self.signal_db.bits as int)
            + wire::le32(self.floor_db.bits as int) + wire::le32(self.offset_hz as int)
            + wire::str_field(self.alias) + wire::str_field(self.alphatag)
    }

    pub open spec fn octets(self) -> Seq<u8> {
        framed(TYP_CALL_TRAILER, self.head, self.body())
    }

    /// The trailer in the octets of one record.
    pub open spec fn read(b: Seq<u8>, head: MsgHead) -> Option<CallTrailerView> {
        match wire::str_at(b, 60) {
            Some((alias, used)) => match wire::str_at(b, 60 + used) {
                Some((alphatag, _)) => Some(
                    CallTrailerView {
                        head,
                        duration_ms: wire::at32(b, 32) as u32,
                        tg: wire::at32(b, 36) as u32,
                        src: wire::at32(b, 40) as u32,
                        delta_db: Binary32 { bits: wire::at32(b, 44) as u32 },
                        signal_db: Binary32 { bits: wire::at32(b, 48) as u32 },
                        floor_db: Binary32 { bits: wire::at32(b, 52) as u32 },
                        offset_hz: wire::signed32(wire::at32(b, 56)) as i32,
                        alias,
                        alphatag,
                    },
                ),
                None => None,
            },
            None => None,
        }
    }

    pub open spec fn encrypted(self) -> bool {
        self.head.flags & TRL_FLAG_ENCRYPTED != 0
    }

    pub open spec fn emergency(self) -> bool {
        self.head.flags & TRL_FLAG_EMERGENCY != 0
    }
}

impl CallTrailer {
    pub fn encode_into(&self, out: &mut Vec<u8>)
        ensures
            final(out)@ == old(out)@ + self@.octets(),
    {
        let mut body: Vec<u8> = Vec::new();
        push_u32(&mut body, self.duration_ms);
        push_u32(&mut body, self.tg);
        push_u32(&mut body, self.src);
        push_u32(&mut body, self.delta_db.bits);
        push_u32(&mut body, self.signal_db.bits);
        push_u32(&mut body, self.floor_db.bits);
        push_i32(&mut body, self.offset_hz);
        push_str(&mut body, self.alias.as_str());
        push_str(&mut body, self.alphatag.as_str());
        assert(body@ =~= self@.body());
        push_record(out, TYP_CALL_TRAILER, &self.head, &body);
    }

    fn parse(b: &[u8], head: MsgHead) -> (r: Option<CallTrailer>)
        requires
            b@.len() >= HEAD_BYTES,
        ensures
            r is Some <==> CallTrailerView::read(b@, head) is Some,
            r matches Some(t) ==> CallTrailerView::read(b@, head) == Some(t@),
    {
        match take_str(b, HEAD_BYTES + 28) {
            None => None,
            Some((alias, used)) => match take_str(b, HEAD_BYTES + 28 + used) {
                None => None,
                Some((alphatag, _)) => Some(
                    CallTrailer {
                        head,
                        duration_ms: u32le(b, HEAD_BYTES),
                        tg: u32le(b, HEAD_BYTES + 4),
                        src: u32le(b, HEAD_BYTES + 8),
                        delta_db: f32le(b, HEAD_BYTES + 12),
                        signal_db: f32le(b, HEAD_BYTES + 16),
                        floor_db: f32le(b, HEAD_BYTES + 20),
                        offset_hz: i32le(b, HEAD_BYTES + 24),
                        alias,
                        alphatag,
                    },
                ),
            },
        }
    }

    pub fn encrypted(&self) -> (r: bool)
        ensures
            r == self@.encrypted(),
            r == (self.head.flags % 2 == 1),
    {
        let flags: u16 = self.head.flags;
        assert((flags & 0x0001 != 0) == (flags % 2 == 1)) by (bit_vector);
        self.head.flags & TRL_FLAG_ENCRYPTED != 0
    }

    pub fn emergency(&self) -> (r: bool)
        ensures
            r == self@.emergency(),
            r == (self.head.flags / 2 % 2 == 1),
    {
        let flags: u16 = self.head.flags;
        assert((flags & 0x0002 != 0) == (flags / 2 % 2 == 1)) by (bit_vector);
        self.head.flags & TRL_FLAG_EMERGENCY != 0
    }
}

// ---------------------------------------------------------------------
// EssRecord.
// ---------------------------------------------------------------------
/// Once per encrypted call, at the first RS-ok ESS: the raw 12-byte
/// LDU2 extra verbatim — MI (9 B, the crypto IV), ALGID (1 B), KID
/// (2 B). Redundant with the LDU2 bodies by design: it survives even
/// when ciphertext frames are elided, and names the algorithm without
/// walking the stream. Always 48 bytes (body at 32..44, pad to 48).
#[derive(Clone, Copy, Debug, PartialEq, Eq)]
pub struct EssRecord {
    pub head: MsgHead,
    pub ess: [u8; 12],
}

/// An [`EssRecord`] with its octets as a sequence.
#[verifier::ext_equal]
pub struct EssView {
    pub head: MsgHead,
    pub ess: Seq<u8>,
}

impl View for EssRecord {
    type V = EssView;

    open spec fn view(&self) -> EssView {
        EssView { head: self.head, ess: self.ess@ }
    }
}

impl EssView {
    pub open spec fn octets(self) -> Seq<u8> {
        framed(TYP_ESS, self.head, self.ess)
    }

    /// The ESS in the octets of one record.
    pub open spec fn read(b: Seq<u8>, head: MsgHead) -> Option<EssView> {
        if b.len() >= 44 {
            Some(EssView { head, ess: b.subrange(32, 44) })
        } else {
            None
        }
    }
}

impl EssRecord {
    pub const BYTES: usize = 48;

    /// MI, ALGID, KID unpacked from the wire order (MI first).
    pub fn mi(&self) -> (mi: [u8; 9])
        ensures
            mi@ == self@.ess.take(9),
    {
        let e = &self.ess;
        let mi = [e[0], e[1], e[2], e[3], e[4], e[5], e[6], e[7], e[8]];
        assert(mi@ =~= self@.ess.take(9));
        mi
    }

    pub fn algid(&self) -> (v: u8)
        ensures
            v == self@.ess[9],
    {
        self.ess[9]
    }

    pub fn kid(&self) -> (v: u16)
        ensures
            v == 256 * self@.ess[10] + self@.ess[11],
    {
        256 * self.ess[10] as u16 + self.ess[11] as u16
    }

    pub fn encode_into(&self, out: &mut Vec<u8>)
        ensures
            final(out)@ == old(out)@ + self@.octets(),
    {
        push_record(out, TYP_ESS, &self.head, &self.ess);
    }

    fn parse(b: &[u8], head: MsgHead) -> (r: Option<EssRecord>)
        requires
            b@.len() >= HEAD_BYTES,
        ensures
            r is Some <==> EssView::read(b@, head) is Some,
            r matches Some(e) ==> EssView::read(b@, head) == Some(e@),
    {
        if b.len() < HEAD_BYTES + 12 {
            return None;
        }
        let mut ess: [u8; 12] = [0; 12];
        wire::copy_octets(&mut ess, b, HEAD_BYTES);
        Some(EssRecord { head, ess })
    }
}

// ---------------------------------------------------------------------
// Any record.
// ---------------------------------------------------------------------
/// A record whose body this module does not interpret: the whole record
/// as declared by its `len`, head included, so a body codec parses with
/// the same offsets it encodes with (body fields start at
/// [`HEAD_BYTES`]).
#[derive(Clone, Debug, PartialEq, Eq)]
pub struct Raw {
    pub typ: u8,
    pub head: MsgHead,
    /// The record bytes, head included, exactly `len` long.
    pub bytes: Vec<u8>,
}

/// A [`Raw`] record with its octets as a sequence.
#[verifier::ext_equal]
pub struct RawView {
    pub typ: u8,
    pub head: MsgHead,
    pub bytes: Seq<u8>,
}

impl View for Raw {
    type V = RawView;

    open spec fn view(&self) -> RawView {
        RawView { typ: self.typ, head: self.head, bytes: self.bytes@ }
    }
}

/// One parsed record. [`Record::Raw`] carries every typ the head parser
/// does not own — the mode bodies (`p25` and `dmr` parse them from the
/// raw) and any unknown one from a future sender, which a reader skips
/// (its `len` was honored) and keeps going.
#[derive(Clone, Debug, PartialEq)]
pub enum Record {
    Header(CallHeader),
    Trailer(CallTrailer),
    Ess(EssRecord),
    Raw(Raw),
}

/// A [`Record`] with its text and octets as sequences.
#[verifier::ext_equal]
pub enum RecordView {
    Header(CallHeaderView),
    Trailer(CallTrailerView),
    Ess(EssView),
    Raw(RawView),
}

impl View for Record {
    type V = RecordView;

    open spec fn view(&self) -> RecordView {
        match self {
            Record::Header(r) => RecordView::Header(r@),
            Record::Trailer(r) => RecordView::Trailer(r@),
            Record::Ess(r) => RecordView::Ess(r@),
            Record::Raw(r) => RecordView::Raw(r@),
        }
    }
}

impl RecordView {
    pub open spec fn head(self) -> MsgHead {
        match self {
            RecordView::Header(r) => r.head,
            RecordView::Trailer(r) => r.head,
            RecordView::Ess(r) => r.head,
            RecordView::Raw(r) => r.head,
        }
    }

    pub open spec fn typ(self) -> u8 {
        match self {
            RecordView::Header(r) => TYP_CALL_HEADER,
            RecordView::Trailer(r) => TYP_CALL_TRAILER,
            RecordView::Ess(r) => TYP_ESS,
            RecordView::Raw(r) => r.typ,
        }
    }

    pub open spec fn octets(self) -> Seq<u8> {
        match self {
            RecordView::Header(r) => r.octets(),
            RecordView::Trailer(r) => r.octets(),
            RecordView::Ess(r) => r.octets(),
            RecordView::Raw(r) => r.bytes,
        }
    }

    /// The record of type `typ` in its octets `b`.
    pub open spec fn read(b: Seq<u8>, typ: u8, head: MsgHead) -> Option<RecordView> {
        if typ == TYP_CALL_HEADER {
            match CallHeaderView::read(b, head) {
                Some(r) => Some(RecordView::Header(r)),
                None => None,
            }
        } else if typ == TYP_CALL_TRAILER {
            match CallTrailerView::read(b, head) {
                Some(r) => Some(RecordView::Trailer(r)),
                None => None,
            }
        } else if typ == TYP_ESS {
            match EssView::read(b, head) {
                Some(r) => Some(RecordView::Ess(r)),
                None => None,
            }
        } else {
            Some(RecordView::Raw(RawView { typ, head, bytes: b }))
        }
    }
}

/// The record at the front of `b`, with its declared length.
pub open spec fn record_at(b: Seq<u8>) -> Option<(RecordView, int)> {
    match head_at(b) {
        Some((typ, head, total)) => match RecordView::read(b.take(total), typ, head) {
            Some(r) => Some((r, total)),
            None => None,
        },
        None => None,
    }
}

/// The records of a buffer, up to the first cut or non-record octet.
pub open spec fn stream(b: Seq<u8>) -> Seq<RecordView>
    decreases b.len(),
{
    proof {
        reveal(head_at);
    }
    match record_at(b) {
        Some((r, n)) => seq![r] + stream(b.skip(n)),
        None => Seq::empty(),
    }
}

/// The records of a vector, each as its view.
pub open spec fn views(v: Seq<Record>) -> Seq<RecordView> {
    Seq::new(v.len(), |i: int| v[i]@)
}

impl Record {
    pub fn head(&self) -> (h: &MsgHead)
        ensures
            *h == self@.head(),
    {
        match self {
            Record::Header(r) => &r.head,
            Record::Trailer(r) => &r.head,
            Record::Ess(r) => &r.head,
            Record::Raw(r) => &r.head,
        }
    }

    pub fn typ(&self) -> (t: u8)
        ensures
            t == self@.typ(),
    {
        match self {
            Record::Header(_) => TYP_CALL_HEADER,
            Record::Trailer(_) => TYP_CALL_TRAILER,
            Record::Ess(_) => TYP_ESS,
            Record::Raw(r) => r.typ,
        }
    }

    /// Transport-blind encode-append. A raw record re-emits its bytes.
    pub fn encode_into(&self, out: &mut Vec<u8>)
        ensures
            final(out)@ == old(out)@ + self@.octets(),
    {
        match self {
            Record::Header(r) => r.encode_into(out),
            Record::Trailer(r) => r.encode_into(out),
            Record::Ess(r) => r.encode_into(out),
            Record::Raw(r) => push_bytes(out, &r.bytes),
        }
    }
}

/// Parse one record from the front of `b`. Returns the record and the
/// bytes consumed (the declared length — trailing buffer is the next
/// record). `None` means cut or garbage: a streaming reader stops here;
/// at most one partial record is ever lost to a crash.
pub fn parse(b: &[u8]) -> (r: Option<(Record, usize)>)
    ensures
        r is Some <==> record_at(b@) is Some,
        r matches Some((rec, n)) ==> record_at(b@) == Some((rec@, n as int)),
{
    reveal(head_at);
    match parse_head(b) {
        None => None,
        Some((typ, head, total)) => {
            // Slice to the declared length: `len` is authoritative, and known
            // typs whose payload can't fit inside it are garbage, not records.
            let rec = &b[0..total];
            assert(rec@ =~= b@.take(total as int));
            if typ == TYP_CALL_HEADER {
                match CallHeader::parse(rec, head) {
                    Some(r) => Some((Record::Header(r), total)),
                    None => None,
                }
            } else if typ == TYP_CALL_TRAILER {
                match CallTrailer::parse(rec, head) {
                    Some(r) => Some((Record::Trailer(r), total)),
                    None => None,
                }
            } else if typ == TYP_ESS {
                match EssRecord::parse(rec, head) {
                    Some(r) => Some((Record::Ess(r), total)),
                    None => None,
                }
            } else {
                Some((Record::Raw(Raw { typ, head, bytes: slice_to_vec(rec) }), total))
            }
        },
    }
}

/// Walk the records in a buffer (an `.sdr` file, a coalesced network
/// read). Stops at the first cut or non-record byte — truncation-safe.
pub fn records(buf: &[u8]) -> (r: Records<'_>)
    ensures
        r@ == buf@,
{
    let r = Records { buf, pos: 0 };
    assert(buf@.skip(0) =~= buf@);
    r
}

/// A walk over the records of a buffer. Its view is the part of the
/// buffer that is still to be read.
pub struct Records<'a> {
    buf: &'a [u8],
    pos: usize,
}

impl<'a> View for Records<'a> {
    type V = Seq<u8>;

    closed spec fn view(&self) -> Seq<u8> {
        self.buf@.skip(self.pos as int)
    }
}

impl<'a> Records<'a> {
    #[verifier::type_invariant]
    spec fn inside(&self) -> bool {
        self.pos <= self.buf.len()
    }

    /// The next record, or `None` at the end of what can be read.
    pub fn next(&mut self) -> (r: Option<Record>)
        ensures
            r is Some <==> record_at(old(self)@) is Some,
            record_at(old(self)@) matches Some((v, n)) ==> r is Some && r->0@ == v && final(self)@
                == old(self)@.skip(n),
            r is None ==> final(self)@ == old(self)@,
    {
        proof {
            use_type_invariant(&*self);
        }
        reveal(head_at);
        let rest = &self.buf[self.pos..self.buf.len()];
        assert(rest@ =~= self@);
        match parse(rest) {
            None => None,
            Some((rec, used)) => {
                self.pos = self.pos + used;
                assert(self@ =~= old(self)@.skip(used as int));
                Some(rec)
            },
        }
    }

    /// All that is left, as a vector.
    pub fn collect(self) -> (v: Vec<Record>)
        ensures
            views(v@) == stream(self@),
    {
        let mut this = self;
        let mut v: Vec<Record> = Vec::new();
        assert(views(v@) + stream(this@) =~= stream(self@));
        loop
            invariant
                views(v@) + stream(this@) == stream(self@),
            ensures
                views(v@) == stream(self@),
            decreases this@.len(),
        {
            reveal(head_at);
            let ghost before = this@;
            let ghost seen = views(v@);
            match this.next() {
                None => {
                    assert(views(v@) + stream(this@) =~= views(v@));
                    break;
                },
                Some(rec) => {
                    v.push(rec);
                    assert(views(v@) =~= seen.push(rec@));
                    assert(views(v@) + stream(this@) =~= seen + stream(before));
                },
            }
        }
        v
    }

    /// How many records are left.
    pub fn count(self) -> (n: usize)
        ensures
            n == stream(self@).len(),
    {
        self.collect().len()
    }
}

// ---------------------------------------------------------------------
// Mode.
// ---------------------------------------------------------------------
/// The CallHeader `mode` values. 0 is deliberately invalid so zeroed
/// memory can never parse as a real header. The filename letter is
/// DERIVED from this at presentation, never stored.
#[derive(Clone, Copy, Debug, PartialEq, Eq, Structural)]
pub enum Mode {
    /// P25 Phase 1 FDMA voice.
    P25Fdma,
    /// Analog FM conventional.
    Analog,
    /// P25 Phase 2 TDMA voice — one P2Vch record per LCH per 360 ms
    /// superframe; `CallHeader.slot` carries the LCH.
    P25Tdma,
    /// DMR (ETSI TS 102 361) — one `DmrVoice` record per slot
    /// per 360 ms voice superframe; `CallHeader.slot` carries the TDMA
    /// slot (0/1) and the head's `nac` the colour code.
    Dmr,
}

impl Mode {
    /// The wire value of a mode.
    pub open spec fn wire_value(self) -> u8 {
        match self {
            Mode::P25Fdma => 1,
            Mode::Analog => 2,
            Mode::P25Tdma => 3,
            Mode::Dmr => 4,
        }
    }

    /// The mode that a wire value stands for.
    pub open spec fn of(v: u8) -> Option<Mode> {
        if v == 1 {
            Some(Mode::P25Fdma)
        } else if v == 2 {
            Some(Mode::Analog)
        } else if v == 3 {
            Some(Mode::P25Tdma)
        } else if v == 4 {
            Some(Mode::Dmr)
        } else {
            None
        }
    }

    /// The mode token of a call on `slot`.
    pub open spec fn token_text(self, slot: u8) -> Seq<char> {
        match self {
            Mode::P25Fdma => seq!['F'],
            Mode::Analog => seq!['A'],
            Mode::P25Tdma => seq!['T'] + text::decimal(slot as nat),
            Mode::Dmr => seq!['D'] + text::decimal((slot + 1) as nat),
        }
    }

    /// The wire value.
    pub fn to_u8(self) -> (v: u8)
        ensures
            v == self.wire_value(),
    {
        match self {
            Mode::P25Fdma => 1,
            Mode::Analog => 2,
            Mode::P25Tdma => 3,
            Mode::Dmr => 4,
        }
    }

    pub fn from_u8(v: u8) -> (m: Option<Mode>)
        ensures
            m == Mode::of(v),
    {
        match v {
            1 => Some(Mode::P25Fdma),
            2 => Some(Mode::Analog),
            3 => Some(Mode::P25Tdma),
            4 => Some(Mode::Dmr),
            _ => None,
        }
    }

    /// The archive filename's mode letter (the slot digit, where the
    /// mode has one, is appended by the recorder: `T0`/`T1`, `D1`/`D2`).
    pub fn letter(self) -> (s: &'static str)
        ensures
            s@ == seq![self.token_text(0)[0]],
    {
        proof {
            reveal_strlit("F");
            reveal_strlit("A");
            reveal_strlit("T");
            reveal_strlit("D");
        }
        let s = match self {
            Mode::P25Fdma => "F",
            Mode::Analog => "A",
            Mode::P25Tdma => "T",
            Mode::Dmr => "D",
        };
        assert(s@ =~= seq![self.token_text(0)[0]]);
        s
    }

    /// The filename's mode token WITH the slot digit, as the recorder
    /// names files: `F`, `A`, `T0`/`T1` (the LCH), `D1`/`D2` (the TDMA
    /// slot, one-based).
    pub fn token(self, slot: u8) -> (s: String)
        ensures
            s@ == self.token_text(slot),
    {
        let mut s = String::new();
        s.append(self.letter());
        match self {
            Mode::P25Tdma => text::push_decimal(&mut s, slot as u128),
            Mode::Dmr => text::push_decimal(&mut s, slot as u128 + 1),
            _ => {},
        }
        assert(s@ =~= self.token_text(slot));
        s
    }
}

} // verus!
