//! Where everything stands: each field of each record, by the offset of its
//! octets, as the records are read and as they are written.
use crate::laws;
use crate::p25::{LduFrame, LduView, P2VchFrame, P2VchView};
use crate::record;
use crate::record::{
    CallHeader, CallHeaderView, CallTrailer, CallTrailerView, EssRecord, EssView, MsgHead, Mode,
    Raw, RawView, Record, RecordView,
};
use crate::wire;
use vstd::prelude::*;
use vstd::utf8::*;

verus! {

// ---------------------------------------------------------------------
// Octets and strings.
// ---------------------------------------------------------------------
/// Integers stand with their least significant octet first, negative ones
/// as two's complement.
pub proof fn integers_are_little_endian(b: Seq<u8>, i: int)
    ensures
        wire::at16(b, i) == b[i] + 0x100 * b[i + 1],
        wire::at32(b, i) == b[i] + 0x100 * b[i + 1] + 0x1_0000 * b[i + 2] + 0x100_0000 * b[i + 3],
        wire::at64(b, i) == b[i] + 0x100 * b[i + 1] + 0x1_0000 * b[i + 2] + 0x100_0000 * b[i + 3]
            + 0x1_0000_0000 * b[i + 4] + 0x100_0000_0000 * b[i + 5] + 0x1_0000_0000_0000 * b[i + 6]
            + 0x100_0000_0000_0000 * b[i + 7],
        b[i + 3] < 128 ==> wire::signed32(wire::at32(b, i)) == b[i] + 0x100 * b[i + 1] + 0x1_0000
            * b[i + 2] + 0x100_0000 * b[i + 3],
        b[i + 3] >= 128 ==> wire::signed32(wire::at32(b, i)) == b[i] + 0x100 * b[i + 1] + 0x1_0000
            * b[i + 2] + 0x100_0000 * b[i + 3] - 0x1_0000_0000,
{
}

/// An integer that is written takes two, four or eight octets, which add up
/// to it by their places.
pub proof fn integers_are_written_little_endian(v: int)
    ensures
        wire::le16(v).len() == 2,
        wire::le32(v).len() == 4,
        wire::le64(v).len() == 8,
        0 <= v < 0x1_0000 ==> wire::le16(v)[0] + 0x100 * wire::le16(v)[1] == v,
        0 <= v < 0x1_0000_0000 ==> wire::le32(v)[0] + 0x100 * wire::le32(v)[1] + 0x1_0000
            * wire::le32(v)[2] + 0x100_0000 * wire::le32(v)[3] == v,
        -0x8000_0000 <= v < 0 ==> wire::le32(v)[0] + 0x100 * wire::le32(v)[1] + 0x1_0000
            * wire::le32(v)[2] + 0x100_0000 * wire::le32(v)[3] == v + 0x1_0000_0000,
        0 <= v < 0x1_0000_0000_0000_0000 ==> wire::le64(v)[0] + 0x100 * wire::le64(v)[1] + 0x1_0000
            * wire::le64(v)[2] + 0x100_0000 * wire::le64(v)[3] + 0x1_0000_0000 * wire::le64(v)[4]
            + 0x100_0000_0000 * wire::le64(v)[5] + 0x1_0000_0000_0000 * wire::le64(v)[6]
            + 0x100_0000_0000_0000 * wire::le64(v)[7] == v,
{
    let two = wire::le16(v);
    let four = wire::le32(v);
    let eight = wire::le64(v);
    assert(two.subrange(0, 2) =~= two);
    assert(four.subrange(0, 4) =~= four);
    assert(eight.subrange(0, 8) =~= eight);
    if 0 <= v < 0x1_0000 {
        wire::lemma_at16(two, 0, v);
    }
    if 0 <= v < 0x1_0000_0000 {
        wire::lemma_at32(four, 0, v);
    }
    if -0x8000_0000 <= v < 0 {
        wire::lemma_at32_signed(four, 0, v);
    }
    if 0 <= v < 0x1_0000_0000_0000_0000 {
        wire::lemma_at64(eight, 0, v);
    }
}

/// A string field is its length and that many octets: all of the text's
/// UTF-8 where they are at most 255, and else the first 255.
pub proof fn string_fields_are_counted(s: Seq<char>)
    ensures
        ({
            let f = wire::str_field(s);
            let u = encode_utf8(s);
            &&& f.len() == 1 + f[0]
            &&& u.len() <= 255 ==> f[0] == u.len()
            &&& u.len() > 255 ==> f[0] == 255
            &&& forall|k: int| 0 <= k < f[0] ==> #[trigger] f[1 + k] == u[k]
        }),
{
    let f = wire::str_field(s);
    assert forall|k: int| 0 <= k < f[0] implies #[trigger] f[1 + k] == encode_utf8(s)[k] by {
        assert(f[1 + k] == wire::str_octets(s)[k]);
    }
}

/// A string field is read where all of it lies inside, as the text that its
/// octets encode, and takes one octet more than the text.
pub proof fn string_fields_are_read(b: Seq<u8>, at: int)
    requires
        0 <= at,
    ensures
        wire::str_at(b, at) is Some <==> at < b.len() && at + 1 + b[at] <= b.len(),
        wire::str_at(b, at) matches Some((s, used)) ==> used == 1 + b[at] && (valid_utf8(
            b.subrange(at + 1, at + 1 + b[at]),
        ) ==> s == decode_utf8(b.subrange(at + 1, at + 1 + b[at]))),
{
}

/// Padding goes to the next multiple of eight, and no further.
pub proof fn padding_is_least(n: int)
    ensures
        wire::padded(n) % 8 == 0,
        n <= wire::padded(n) < n + 8,
{
}

// ---------------------------------------------------------------------
// The head.
// ---------------------------------------------------------------------
/// The registry of record types and flags, and the sizes of the format.
pub proof fn the_registry()
    ensures
        record::MAGIC@ == seq![0x73u8, 0x64, 0x72, 0x00],
        record::VERSION == 1,
        record::HEAD_BYTES == 32,
        record::MAX_RECORD_BYTES == 65_528,
        record::TYP_CALL_HEADER == 1,
        record::TYP_LDU == 2,
        record::TYP_CALL_TRAILER == 3,
        record::TYP_ESS == 4,
        record::TYP_P2_VCH == 5,
        record::TYP_DMR_VOICE == 6,
        record::TYP_DMR_LC == 7,
        record::TYP_DMR_PACKET == 8,
        record::TYP_DMR_FIX == 9,
        record::TYP_DMR_ALIAS == 10,
        record::HDR_FLAG_DUAL_WRITE == 1,
        record::HDR_FLAG_SEEDED == 2,
        record::LDU_FLAG_LDU2 == 1,
        record::LDU_FLAG_FLYWHEEL == 2,
        record::LDU_FLAG_FORCED == 4,
        record::LDU_FLAG_RS_OK == 8,
        record::TRL_FLAG_ENCRYPTED == 1,
        record::TRL_FLAG_EMERGENCY == 2,
        record::P2V_FLAG_ENCRYPTED == 1,
        record::P2V_FLAG_CADENCE == 2,
        record::P2V_FLAG_DESCRAMBLED == 4,
        record::P2V_FLAG_LOC_INFERRED == 8,
        record::P2V_FLAG_MISPLACED == 16,
        record::P2V_FLAG_PARTIAL == 32,
        record::OFFSET_UNKNOWN == -0x8000_0000,
        EssRecord::BYTES == 48,
        LduFrame::BYTES == 240,
        LduFrame::BODY_OCTETS == 194,
        P2VchFrame::BYTES == 696,
{
    assert(record::MAGIC@ =~= seq![0x73u8, 0x64, 0x72, 0x00]);
}

/// The head, by offset: which octets open a record, and where each field of
/// the head stands.
pub proof fn the_head_by_offset(b: Seq<u8>)
    ensures
        record::head_at(b) is Some <==> ({
            &&& b.len() >= 32
            &&& b[0] == 0x73 && b[1] == 0x64 && b[2] == 0x72 && b[3] == 0
            &&& b[4] == 1
            &&& 32 <= b[6] + 0x100 * b[7] <= b.len()
            &&& (b[6] + 0x100 * b[7]) % 8 == 0
        }),
        record::head_at(b) matches Some((typ, h, n)) ==> {
            &&& typ == b[5]
            &&& n == b[6] + 0x100 * b[7]
            &&& h.epoch_us == b[8] + 0x100 * b[9] + 0x1_0000 * b[10] + 0x100_0000 * b[11]
                + 0x1_0000_0000 * b[12] + 0x100_0000_0000 * b[13] + 0x1_0000_0000_0000 * b[14]
                + 0x100_0000_0000_0000 * b[15]
            &&& h.hz == b[16] + 0x100 * b[17] + 0x1_0000 * b[18] + 0x100_0000 * b[19]
            &&& h.seq == b[20] + 0x100 * b[21] + 0x1_0000 * b[22] + 0x100_0000 * b[23]
            &&& h.nac == b[24] + 0x100 * b[25]
            &&& h.flags == b[26] + 0x100 * b[27]
            &&& h.site == b[28] + 0x100 * b[29] + 0x1_0000 * b[30] + 0x100_0000 * b[31]
        },
{
    reveal(record::head_at);
    let m = seq![0x73u8, 0x64, 0x72, 0x00];
    assert(record::MAGIC@ =~= m);
    if b.len() >= 32 {
        assert(b.take(4)[0] == b[0] && b.take(4)[1] == b[1] && b.take(4)[2] == b[2] && b.take(4)[3]
            == b[3]);
        if b[0] == 0x73 && b[1] == 0x64 && b[2] == 0x72 && b[3] == 0 {
            assert(b.take(4) =~= m);
        }
    }
}

/// What octets are a record, and which: the head must hold, and the fields
/// of the types that are known must lie inside the declared length. The type
/// octet decides which record it is, and a record of any other type is its
/// own octets.
pub proof fn the_record_by_offset(b: Seq<u8>)
    ensures
        record::record_at(b) is Some <==> ({
            let n = b[6] + 0x100 * b[7];
            &&& b.len() >= 32
            &&& b[0] == 0x73 && b[1] == 0x64 && b[2] == 0x72 && b[3] == 0
            &&& b[4] == 1
            &&& 32 <= b[6] + 0x100 * b[7] <= b.len()
            &&& (b[6] + 0x100 * b[7]) % 8 == 0
            &&& b[5] == 1 ==> 49 <= n && 49 + b[48] <= n
            &&& b[5] == 3 ==> 61 <= n && 62 + b[60] <= n && 62 + b[60] + b[61 + b[60]] <= n
            &&& b[5] == 4 ==> 44 <= n
        }),
        record::record_at(b) matches Some((r, n)) ==> {
            &&& n == b[6] + 0x100 * b[7]
            &&& r is Header <==> b[5] == 1
            &&& r is Trailer <==> b[5] == 3
            &&& r is Ess <==> b[5] == 4
            &&& r matches RecordView::Raw(w) ==> w.typ == b[5] && w.bytes == b.take(n)
            &&& r.typ() == b[5]
            &&& r.head().epoch_us == b[8] + 0x100 * b[9] + 0x1_0000 * b[10]
                + 0x100_0000 * b[11] + 0x1_0000_0000 * b[12] + 0x100_0000_0000 * b[13]
                + 0x1_0000_0000_0000 * b[14] + 0x100_0000_0000_0000 * b[15]
            &&& r.head().hz == b[16] + 0x100 * b[17] + 0x1_0000 * b[18] + 0x100_0000 * b[19]
            &&& r.head().seq == b[20] + 0x100 * b[21] + 0x1_0000 * b[22] + 0x100_0000 * b[23]
            &&& r.head().nac == b[24] + 0x100 * b[25]
            &&& r.head().flags == b[26] + 0x100 * b[27]
            &&& r.head().site == b[28] + 0x100 * b[29] + 0x1_0000 * b[30] + 0x100_0000 * b[31]
        },
{
    the_head_by_offset(b);
    if let Some((typ, h, n)) = record::head_at(b) {
        let c = b.take(n);
        assert(n >= 49 ==> c[48] == b[48]);
        if n >= 61 {
            assert(c[60] == b[60]);
            if 62 + b[60] <= n {
                assert(c[61 + b[60]] == b[61 + b[60]]);
            }
        }
    }
}

// ---------------------------------------------------------------------
// The records of every mode.
// ---------------------------------------------------------------------
/// A call header that is read, by offset.
pub proof fn a_header_by_offset(b: Seq<u8>)
    ensures
        record::record_at(b) matches Some((RecordView::Header(h), n)) ==> {
            &&& b[5] == 1
            &&& h.mode == b[32]
            &&& h.slot == b[33]
            &&& h.sysid == b[34] + 0x100 * b[35]
            &&& h.tg == b[36] + 0x100 * b[37] + 0x1_0000 * b[38] + 0x100_0000 * b[39]
            &&& h.src == b[40] + 0x100 * b[41] + 0x1_0000 * b[42] + 0x100_0000 * b[43]
            &&& h.wacn == b[44] + 0x100 * b[45] + 0x1_0000 * b[46] + 0x100_0000 * b[47]
            &&& valid_utf8(b.subrange(49, 49 + b[48])) ==> h.system == decode_utf8(
                b.subrange(49, 49 + b[48]),
            )
            &&& h.head.epoch_us == b[8] + 0x100 * b[9] + 0x1_0000 * b[10] + 0x100_0000 * b[11]
                + 0x1_0000_0000 * b[12] + 0x100_0000_0000 * b[13] + 0x1_0000_0000_0000 * b[14]
                + 0x100_0000_0000_0000 * b[15]
            &&& h.head.hz == b[16] + 0x100 * b[17] + 0x1_0000 * b[18] + 0x100_0000 * b[19]
            &&& h.head.seq == b[20] + 0x100 * b[21] + 0x1_0000 * b[22] + 0x100_0000 * b[23]
            &&& h.head.nac == b[24] + 0x100 * b[25]
            &&& h.head.flags == b[26] + 0x100 * b[27]
            &&& h.head.site == b[28] + 0x100 * b[29] + 0x1_0000 * b[30] + 0x100_0000 * b[31]
        },
{
    the_record_by_offset(b);
    if let Some((RecordView::Header(h), n)) = record::record_at(b) {
        let c = b.take(n);
        assert(c.subrange(49, 49 + c[48]) =~= b.subrange(49, 49 + b[48]));
    }
}

/// A call trailer that is read, by offset.
pub proof fn a_trailer_by_offset(b: Seq<u8>)
    ensures
        record::record_at(b) matches Some((RecordView::Trailer(t), n)) ==> {
            &&& b[5] == 3
            &&& t.duration_ms == b[32] + 0x100 * b[33] + 0x1_0000 * b[34] + 0x100_0000 * b[35]
            &&& t.tg == b[36] + 0x100 * b[37] + 0x1_0000 * b[38] + 0x100_0000 * b[39]
            &&& t.src == b[40] + 0x100 * b[41] + 0x1_0000 * b[42] + 0x100_0000 * b[43]
            &&& t.delta_db.bits == b[44] + 0x100 * b[45] + 0x1_0000 * b[46] + 0x100_0000 * b[47]
            &&& t.signal_db.bits == b[48] + 0x100 * b[49] + 0x1_0000 * b[50] + 0x100_0000 * b[51]
            &&& t.floor_db.bits == b[52] + 0x100 * b[53] + 0x1_0000 * b[54] + 0x100_0000 * b[55]
            &&& b[59] < 128 ==> t.offset_hz == b[56] + 0x100 * b[57] + 0x1_0000 * b[58]
                + 0x100_0000 * b[59]
            &&& b[59] >= 128 ==> t.offset_hz == b[56] + 0x100 * b[57] + 0x1_0000 * b[58]
                + 0x100_0000 * b[59] - 0x1_0000_0000
            &&& valid_utf8(b.subrange(61, 61 + b[60])) ==> t.alias == decode_utf8(
                b.subrange(61, 61 + b[60]),
            )
            &&& ({
                let at = 61 + b[60];
                valid_utf8(b.subrange(at + 1, at + 1 + b[at])) ==> t.alphatag == decode_utf8(
                    b.subrange(at + 1, at + 1 + b[at]),
                )
            })
            &&& t.head.epoch_us == b[8] + 0x100 * b[9] + 0x1_0000 * b[10] + 0x100_0000 * b[11]
                + 0x1_0000_0000 * b[12] + 0x100_0000_0000 * b[13] + 0x1_0000_0000_0000 * b[14]
                + 0x100_0000_0000_0000 * b[15]
            &&& t.head.hz == b[16] + 0x100 * b[17] + 0x1_0000 * b[18] + 0x100_0000 * b[19]
            &&& t.head.seq == b[20] + 0x100 * b[21] + 0x1_0000 * b[22] + 0x100_0000 * b[23]
            &&& t.head.nac == b[24] + 0x100 * b[25]
            &&& t.head.flags == b[26] + 0x100 * b[27]
            &&& t.head.site == b[28] + 0x100 * b[29] + 0x1_0000 * b[30] + 0x100_0000 * b[31]
        },
{
    the_record_by_offset(b);
    if let Some((RecordView::Trailer(t), n)) = record::record_at(b) {
        let c = b.take(n);
        let at = 61 + b[60];
        assert(c.subrange(61, 61 + c[60]) =~= b.subrange(61, 61 + b[60]));
        assert(c.subrange(at + 1, at + 1 + c[at]) =~= b.subrange(at + 1, at + 1 + b[at]));
    }
}

/// An encryption sync that is read, by offset: message indicator, algorithm
/// and key, twelve octets in all.
pub proof fn an_ess_by_offset(b: Seq<u8>)
    ensures
        record::record_at(b) matches Some((RecordView::Ess(e), n)) ==> {
            &&& b[5] == 4
            &&& e.ess.len() == 12
            &&& forall|k: int| 0 <= k < 12 ==> #[trigger] e.ess[k] == b[32 + k]
            &&& e.head.epoch_us == b[8] + 0x100 * b[9] + 0x1_0000 * b[10] + 0x100_0000 * b[11]
                + 0x1_0000_0000 * b[12] + 0x100_0000_0000 * b[13] + 0x1_0000_0000_0000 * b[14]
                + 0x100_0000_0000_0000 * b[15]
            &&& e.head.hz == b[16] + 0x100 * b[17] + 0x1_0000 * b[18] + 0x100_0000 * b[19]
            &&& e.head.seq == b[20] + 0x100 * b[21] + 0x1_0000 * b[22] + 0x100_0000 * b[23]
            &&& e.head.nac == b[24] + 0x100 * b[25]
            &&& e.head.flags == b[26] + 0x100 * b[27]
            &&& e.head.site == b[28] + 0x100 * b[29] + 0x1_0000 * b[30] + 0x100_0000 * b[31]
        },
{
    the_record_by_offset(b);
}

/// A call header that is written, by offset: its text in its place, and
/// zeros behind it.
#[verifier::spinoff_prover]
pub proof fn a_header_is_written_by_offset(h: CallHeaderView)
    ensures
        ({
            let o = h.octets();
            let u = encode_utf8(h.system);
            &&& o[0] == 0x73 && o[1] == 0x64 && o[2] == 0x72 && o[3] == 0 && o[4] == 1 && o[5] == 1
            &&& o.len() == o[6] + 0x100 * o[7]
            &&& o.len() % 8 == 0
            &&& h.head.epoch_us == o[8] + 0x100 * o[9] + 0x1_0000 * o[10] + 0x100_0000 * o[11]
                + 0x1_0000_0000 * o[12] + 0x100_0000_0000 * o[13] + 0x1_0000_0000_0000 * o[14]
                + 0x100_0000_0000_0000 * o[15]
            &&& h.head.hz == o[16] + 0x100 * o[17] + 0x1_0000 * o[18] + 0x100_0000 * o[19]
            &&& h.head.seq == o[20] + 0x100 * o[21] + 0x1_0000 * o[22] + 0x100_0000 * o[23]
            &&& h.head.nac == o[24] + 0x100 * o[25]
            &&& h.head.flags == o[26] + 0x100 * o[27]
            &&& h.head.site == o[28] + 0x100 * o[29] + 0x1_0000 * o[30] + 0x100_0000 * o[31]
            &&& h.mode == o[32]
            &&& h.slot == o[33]
            &&& h.sysid == o[34] + 0x100 * o[35]
            &&& h.tg == o[36] + 0x100 * o[37] + 0x1_0000 * o[38] + 0x100_0000 * o[39]
            &&& h.src == o[40] + 0x100 * o[41] + 0x1_0000 * o[42] + 0x100_0000 * o[43]
            &&& h.wacn == o[44] + 0x100 * o[45] + 0x1_0000 * o[46] + 0x100_0000 * o[47]
            &&& o[48] == if u.len() <= 255 {
                u.len()
            } else {
                255
            }
            &&& forall|k: int| 0 <= k < o[48] ==> #[trigger] o[49 + k] == u[k]
            &&& 49 + o[48] <= o.len() < 57 + o[48]
            &&& forall|k: int| 49 + o[48] <= k < o.len() ==> #[trigger] o[k] == 0
        }),
{
    let o = h.octets();
    let none = Seq::<u8>::empty();
    let f = wire::str_field(h.system);
    let body = h.body();
    assert(o + none =~= o);
    assert(body + none =~= body);
    string_fields_are_counted(h.system);
    laws::header_reads_back(h, none, none);
    a_header_by_offset(o);
    laws::framed_head(1, h.head, body, none);
    the_head_by_offset(o);
    lemma_padding(1, h.head, body);
    assert(body.subrange(16, 16 + f.len() as int) =~= f);
    lemma_string_place(o, body, 16, f);
    assert(o[48] == f[0]);
    assert forall|k: int| 0 <= k < o[48] implies #[trigger] o[49
        + k] == encode_utf8(h.system)[k] by {
        assert(o[32 + 16 + (1 + k)] == f[1 + k]);
    }
}

/// A call trailer that is written, by offset: its texts in their places, and
/// zeros behind them.
#[verifier::spinoff_prover]
pub proof fn a_trailer_is_written_by_offset(t: CallTrailerView)
    ensures
        ({
            let o = t.octets();
            let u = encode_utf8(t.alias);
            let v = encode_utf8(t.alphatag);
            let at = 61 + o[60];
            &&& o[0] == 0x73 && o[1] == 0x64 && o[2] == 0x72 && o[3] == 0 && o[4] == 1 && o[5] == 3
            &&& o.len() == o[6] + 0x100 * o[7]
            &&& o.len() % 8 == 0
            &&& t.head.epoch_us == o[8] + 0x100 * o[9] + 0x1_0000 * o[10] + 0x100_0000 * o[11]
                + 0x1_0000_0000 * o[12] + 0x100_0000_0000 * o[13] + 0x1_0000_0000_0000 * o[14]
                + 0x100_0000_0000_0000 * o[15]
            &&& t.head.hz == o[16] + 0x100 * o[17] + 0x1_0000 * o[18] + 0x100_0000 * o[19]
            &&& t.head.seq == o[20] + 0x100 * o[21] + 0x1_0000 * o[22] + 0x100_0000 * o[23]
            &&& t.head.nac == o[24] + 0x100 * o[25]
            &&& t.head.flags == o[26] + 0x100 * o[27]
            &&& t.head.site == o[28] + 0x100 * o[29] + 0x1_0000 * o[30] + 0x100_0000 * o[31]
            &&& t.duration_ms == o[32] + 0x100 * o[33] + 0x1_0000 * o[34] + 0x100_0000 * o[35]
            &&& t.tg == o[36] + 0x100 * o[37] + 0x1_0000 * o[38] + 0x100_0000 * o[39]
            &&& t.src == o[40] + 0x100 * o[41] + 0x1_0000 * o[42] + 0x100_0000 * o[43]
            &&& t.delta_db.bits == o[44] + 0x100 * o[45] + 0x1_0000 * o[46] + 0x100_0000 * o[47]
            &&& t.signal_db.bits == o[48] + 0x100 * o[49] + 0x1_0000 * o[50] + 0x100_0000 * o[51]
            &&& t.floor_db.bits == o[52] + 0x100 * o[53] + 0x1_0000 * o[54] + 0x100_0000 * o[55]
            &&& o[59] < 128 ==> t.offset_hz == o[56] + 0x100 * o[57] + 0x1_0000 * o[58]
                + 0x100_0000 * o[59]
            &&& o[59] >= 128 ==> t.offset_hz == o[56] + 0x100 * o[57] + 0x1_0000 * o[58]
                + 0x100_0000 * o[59] - 0x1_0000_0000
            &&& o[60] == if u.len() <= 255 {
                u.len()
            } else {
                255
            }
            &&& forall|k: int| 0 <= k < o[60] ==> #[trigger] o[61 + k] == u[k]
            &&& o[at] == if v.len() <= 255 {
                v.len()
            } else {
                255
            }
            &&& forall|k: int| 0 <= k < o[at] ==> #[trigger] o[at + 1 + k] == v[k]
            &&& at + 1 + o[at] <= o.len() < at + 9 + o[at]
            &&& forall|k: int| at + 1 + o[at] <= k < o.len() ==> #[trigger] o[k] == 0
        }),
{
    let o = t.octets();
    let none = Seq::<u8>::empty();
    let f = wire::str_field(t.alias);
    let g = wire::str_field(t.alphatag);
    let body = t.body();
    assert(o + none =~= o);
    assert(body + none =~= body);
    string_fields_are_counted(t.alias);
    string_fields_are_counted(t.alphatag);
    laws::trailer_reads_back(t, none, none);
    a_trailer_by_offset(o);
    laws::framed_head(3, t.head, body, none);
    the_head_by_offset(o);
    lemma_padding(3, t.head, body);
    assert(body.subrange(28, 28 + f.len() as int) =~= f);
    lemma_string_place(o, body, 28, f);
    let i = 28 + f.len() as int;
    assert(body.subrange(i, i + g.len()) =~= g);
    lemma_string_place(o, body, i, g);
    let at = 61 + o[60];
    assert(at == 32 + i);
    assert forall|k: int| 0 <= k < o[at] implies #[trigger] o[at + 1
        + k] == encode_utf8(t.alphatag)[k] by {
        assert(o[32 + i + (1 + k)] == g[1 + k]);
    }
    assert forall|k: int| 0 <= k < o[60] implies #[trigger] o[61
        + k] == encode_utf8(t.alias)[k] by {
        assert(o[32 + 28 + (1 + k)] == f[1 + k]);
    }
}

/// An encryption sync that is written, by offset.
pub proof fn an_ess_is_written_by_offset(e: EssView)
    requires
        e.ess.len() == 12,
    ensures
        ({
            let o = e.octets();
            &&& o.len() == 48
            &&& o[0] == 0x73 && o[1] == 0x64 && o[2] == 0x72 && o[3] == 0 && o[4] == 1 && o[5] == 4
            &&& o[6] == 48 && o[7] == 0
            &&& e.head.epoch_us == o[8] + 0x100 * o[9] + 0x1_0000 * o[10] + 0x100_0000 * o[11]
                + 0x1_0000_0000 * o[12] + 0x100_0000_0000 * o[13] + 0x1_0000_0000_0000 * o[14]
                + 0x100_0000_0000_0000 * o[15]
            &&& e.head.hz == o[16] + 0x100 * o[17] + 0x1_0000 * o[18] + 0x100_0000 * o[19]
            &&& e.head.seq == o[20] + 0x100 * o[21] + 0x1_0000 * o[22] + 0x100_0000 * o[23]
            &&& e.head.nac == o[24] + 0x100 * o[25]
            &&& e.head.flags == o[26] + 0x100 * o[27]
            &&& e.head.site == o[28] + 0x100 * o[29] + 0x1_0000 * o[30] + 0x100_0000 * o[31]
            &&& forall|k: int| 0 <= k < 12 ==> #[trigger] e.ess[k] == o[32 + k]
            &&& o[44] == 0 && o[45] == 0 && o[46] == 0 && o[47] == 0
        }),
{
    let o = e.octets();
    let none = Seq::<u8>::empty();
    assert(o + none =~= o);
    assert(e.ess + none =~= e.ess);
    laws::ess_reads_back(e, none, none);
    an_ess_by_offset(o);
    laws::framed_head(4, e.head, e.ess, none);
    the_head_by_offset(o);
    lemma_padding(4, e.head, e.ess);
}

/// What fills a record up is zero, and less than eight octets.
pub proof fn lemma_padding(typ: u8, h: MsgHead, body: Seq<u8>)
    requires
        32 + body.len() <= 65_528,
    ensures
        ({
            let f = record::framed(typ, h, body);
            &&& 32 + body.len() <= f.len() < 40 + body.len()
            &&& forall|k: int| 32 + body.len() <= k < f.len() ==> #[trigger] f[k] == 0
            &&& forall|k: int| 0 <= k < body.len() ==> f[32 + k] == #[trigger] body[k]
        }),
{
    reveal(record::framed);
}

/// A part of the body stands behind the head.
pub proof fn lemma_string_place(o: Seq<u8>, body: Seq<u8>, i: int, f: Seq<u8>)
    requires
        0 <= i,
        i + f.len() <= body.len(),
        32 + body.len() <= o.len(),
        forall|k: int| 0 <= k < body.len() ==> o[32 + k] == #[trigger] body[k],
    ensures
        body.subrange(i, i + f.len()) == f ==> forall|k: int|
            0 <= k < f.len() ==> o[32 + i + k] == #[trigger] f[k],
{
    if body.subrange(i, i + f.len()) == f {
        assert forall|k: int| 0 <= k < f.len() implies o[32 + i + k] == #[trigger] f[k] by {
            assert(body.subrange(i, i + f.len())[k] == body[i + k]);
        }
    }
}

// ---------------------------------------------------------------------
// P25.
// ---------------------------------------------------------------------
/// An LDU that is read from a raw record, by offset.
pub proof fn an_ldu_by_offset(r: RawView)
    ensures
        LduView::read(r) is Some <==> r.typ == 2 && r.bytes.len() >= 240,
        LduView::read(r) matches Some(f) ==> {
            let b = r.bytes;
            &&& f.head == r.head
            &&& f.slot_valid == b[32] + 0x100 * b[33]
            &&& f.errors.len() == 9
            &&& forall|k: int| 0 <= k < 9 ==> #[trigger] f.errors[k] == b[34 + k]
            &&& f.body.len() == 194
            &&& forall|k: int| 0 <= k < 194 ==> #[trigger] f.body[k] == b[44 + k]
        },
{
}

/// An LDU that is written, by offset.
pub proof fn an_ldu_is_written_by_offset(f: LduView)
    requires
        f.sized(),
    ensures
        ({
            let o = f.octets();
            &&& o.len() == 240
            &&& o[0] == 0x73 && o[1] == 0x64 && o[2] == 0x72 && o[3] == 0 && o[4] == 1 && o[5] == 2
            &&& o[6] == 240 && o[7] == 0
            &&& f.head.epoch_us == o[8] + 0x100 * o[9] + 0x1_0000 * o[10] + 0x100_0000 * o[11]
                + 0x1_0000_0000 * o[12] + 0x100_0000_0000 * o[13] + 0x1_0000_0000_0000 * o[14]
                + 0x100_0000_0000_0000 * o[15]
            &&& f.head.hz == o[16] + 0x100 * o[17] + 0x1_0000 * o[18] + 0x100_0000 * o[19]
            &&& f.head.seq == o[20] + 0x100 * o[21] + 0x1_0000 * o[22] + 0x100_0000 * o[23]
            &&& f.head.nac == o[24] + 0x100 * o[25]
            &&& f.head.flags == o[26] + 0x100 * o[27]
            &&& f.head.site == o[28] + 0x100 * o[29] + 0x1_0000 * o[30] + 0x100_0000 * o[31]
            &&& f.slot_valid == o[32] + 0x100 * o[33]
            &&& forall|k: int| 0 <= k < 9 ==> #[trigger] f.errors[k] == o[34 + k]
            &&& o[43] == 0
            &&& forall|k: int| 0 <= k < 194 ==> #[trigger] f.body[k] == o[44 + k]
            &&& o[238] == 0 && o[239] == 0
        }),
{
    let o = f.octets();
    let none = Seq::<u8>::empty();
    let raw = RawView { typ: 2, head: f.head, bytes: o };
    assert(o + none =~= o);
    crate::p25::ldu_reads_back(f, none);
    the_head_by_offset(o);
    an_ldu_by_offset(raw);
    lemma_padding(2, f.head, f.record_body());
    assert(f.record_body()[11] == 0);
}

/// A Phase 2 superframe that is read from a raw record, by offset: 18 frames
/// of 36 symbols, one after the other.
pub proof fn a_superframe_by_offset(r: RawView)
    ensures
        P2VchView::read(r) is Some <==> r.typ == 5 && r.bytes.len() >= 696,
        P2VchView::read(r) matches Some(f) ==> {
            let b = r.bytes;
            &&& f.head == r.head
            &&& f.slot == b[32]
            &&& f.frame_valid == b[36] + 0x100 * b[37] + 0x1_0000 * b[38] + 0x100_0000 * b[39]
            &&& f.phase.len() == 18
            &&& forall|i: int, k: int|
                #![trigger f.phase[i][k]]
                0 <= i < 18 && 0 <= k < 36 ==> f.phase[i].len() == 36 && f.phase[i][k] == b[40 + 36
                    * i + k]
            &&& f.flush_cause == b[688]
            &&& f.gap_fragments == b[689] + 0x100 * b[690]
        },
{
}

/// A Phase 2 superframe that is written, by offset.
pub proof fn a_superframe_is_written_by_offset(f: P2VchView)
    requires
        f.sized(),
    ensures
        ({
            let o = f.octets();
            &&& o.len() == 696
            &&& o[0] == 0x73 && o[1] == 0x64 && o[2] == 0x72 && o[3] == 0 && o[4] == 1 && o[5] == 5
            &&& o[6] == 184 && o[7] == 2
            &&& f.head.epoch_us == o[8] + 0x100 * o[9] + 0x1_0000 * o[10] + 0x100_0000 * o[11]
                + 0x1_0000_0000 * o[12] + 0x100_0000_0000 * o[13] + 0x1_0000_0000_0000 * o[14]
                + 0x100_0000_0000_0000 * o[15]
            &&& f.head.hz == o[16] + 0x100 * o[17] + 0x1_0000 * o[18] + 0x100_0000 * o[19]
            &&& f.head.seq == o[20] + 0x100 * o[21] + 0x1_0000 * o[22] + 0x100_0000 * o[23]
            &&& f.head.nac == o[24] + 0x100 * o[25]
            &&& f.head.flags == o[26] + 0x100 * o[27]
            &&& f.head.site == o[28] + 0x100 * o[29] + 0x1_0000 * o[30] + 0x100_0000 * o[31]
            &&& f.slot == o[32]
            &&& o[33] == 0 && o[34] == 0 && o[35] == 0
            &&& f.frame_valid == o[36] + 0x100 * o[37] + 0x1_0000 * o[38] + 0x100_0000 * o[39]
            &&& forall|i: int, k: int|
                #![trigger f.phase[i][k]]
                0 <= i < 18 && 0 <= k < 36 ==> f.phase[i][k] == o[40 + 36 * i + k]
            &&& f.flush_cause == o[688]
            &&& f.gap_fragments == o[689] + 0x100 * o[690]
            &&& forall|k: int| 691 <= k < 696 ==> #[trigger] o[k] == 0
        }),
{
    let o = f.octets();
    let none = Seq::<u8>::empty();
    let raw = RawView { typ: 5, head: f.head, bytes: o };
    assert(o + none =~= o);
    crate::p25::p2_vch_reads_back(f, none);
    the_head_by_offset(o);
    a_superframe_by_offset(raw);
    let body = f.record_body();
    let j = wire::joined(f.phase);
    assert(j.subrange(0, j.len() as int) =~= j);
    wire::lemma_joined(f.phase, 36, j, 0);
    lemma_padding(5, f.head, body);
    assert(body[1] == 0 && body[2] == 0 && body[3] == 0);
}

// ---------------------------------------------------------------------
// What the records say.
// ---------------------------------------------------------------------
/// A trailer's flags: bit 0 is encryption, bit 1 an emergency, each by
/// itself.
pub proof fn a_trailer_says_its_flags(t: CallTrailerView)
    ensures
        t.encrypted() <==> t.head.flags % 2 == 1,
        t.emergency() <==> t.head.flags / 2 % 2 == 1,
{
    let f = t.head.flags;
    assert((f & 0x0001 != 0) <==> f % 2 == 1) by (bit_vector);
    assert((f & 0x0002 != 0) <==> f / 2 % 2 == 1) by (bit_vector);
}

/// The modes by their wire values, and their tokens: a letter, and behind
/// `T` the slot, behind `D` the slot counted from one.
pub proof fn modes_by_value(v: u8, slot: u8)
    ensures
        Mode::of(v) == Some(Mode::P25Fdma) <==> v == 1,
        Mode::of(v) == Some(Mode::Analog) <==> v == 2,
        Mode::of(v) == Some(Mode::P25Tdma) <==> v == 3,
        Mode::of(v) == Some(Mode::Dmr) <==> v == 4,
        Mode::of(v) matches Some(m) ==> m.wire_value() == v,
        Mode::P25Fdma.token_text(slot) == seq!['F'],
        Mode::Analog.token_text(slot) == seq!['A'],
        Mode::P25Tdma.token_text(slot)[0] == 'T',
        Mode::Dmr.token_text(slot)[0] == 'D',
        crate::text::digits_value(Mode::P25Tdma.token_text(slot).skip(1), 10) == Some(slot as nat),
        crate::text::digits_value(Mode::Dmr.token_text(slot).skip(1), 10) == Some(
            (slot + 1) as nat,
        ),
        slot < 9 ==> Mode::P25Tdma.token_text(slot) == seq!['T', (48 + slot) as char],
        slot < 9 ==> Mode::Dmr.token_text(slot) == seq!['D', (49 + slot) as char],
{
    crate::sidecar_laws::lemma_numeral_spells(slot as nat, 10);
    crate::sidecar_laws::lemma_numeral_spells((slot + 1) as nat, 10);
    assert(Mode::P25Tdma.token_text(slot).skip(1) =~= crate::text::decimal(slot as nat));
    assert(Mode::Dmr.token_text(slot).skip(1) =~= crate::text::decimal((slot + 1) as nat));
    if slot < 9 {
        assert(Mode::P25Tdma.token_text(slot) =~= seq!['T', (48 + slot) as char]);
        assert(Mode::Dmr.token_text(slot) =~= seq!['D', (49 + slot) as char]);
    }
}

/// The view of a record of any kind is that of its kind.
pub proof fn views_keep_the_kind(h: CallHeader, t: CallTrailer, e: EssRecord, r: Raw)
    ensures
        Record::Header(h)@ == RecordView::Header(h@),
        Record::Trailer(t)@ == RecordView::Trailer(t@),
        Record::Ess(e)@ == RecordView::Ess(e@),
        Record::Raw(r)@ == RecordView::Raw(r@),
{
}

/// The views of a list of records are theirs, in its order.
pub proof fn views_keep_the_order(v: Seq<Record>, i: int)
    requires
        0 <= i < v.len(),
    ensures
        record::views(v).len() == v.len(),
        record::views(v)[i] == v[i]@,
{
}

/// The view of a record is the record, field by field.
pub proof fn views_are_the_records(
    h: CallHeader,
    t: CallTrailer,
    e: EssRecord,
    r: Raw,
    l: LduFrame,
    p: P2VchFrame,
)
    ensures
        h@.head == h.head && h@.mode == h.mode && h@.slot == h.slot && h@.tg == h.tg,
        h@.src == h.src && h@.wacn == h.wacn && h@.sysid == h.sysid && h@.system == h.system@,
        t@.head == t.head && t@.duration_ms == t.duration_ms && t@.tg == t.tg && t@.src == t.src,
        t@.delta_db == t.delta_db && t@.signal_db == t.signal_db && t@.floor_db == t.floor_db,
        t@.offset_hz == t.offset_hz && t@.alias == t.alias@ && t@.alphatag == t.alphatag@,
        e@.head == e.head && e@.ess == e.ess@,
        r@.typ == r.typ && r@.head == r.head && r@.bytes == r.bytes@,
        l@.head == l.head && l@.slot_valid == l.slot_valid && l@.errors == l.errors@,
        l@.body == l.body@,
        p@.head == p.head && p@.slot == p.slot && p@.frame_valid == p.frame_valid,
        p@.flush_cause == p.flush_cause && p@.gap_fragments == p.gap_fragments,
        forall|i: int, k: int|
            #![trigger p@.phase[i][k]]
            0 <= i < 18 && 0 <= k < 36 ==> p@.phase[i][k] == p.phase@[i]@[k],
{
}

} // verus!
