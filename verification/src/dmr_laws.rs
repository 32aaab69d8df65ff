//! What the DMR records and words say: each field of each record by the
//! offset of its octets, and each field of a Link Control by its bits.
use crate::dmr;
use crate::dmr::{
    DmrAlias, DmrAliasView, DmrFix, DmrFixView, DmrLc, DmrLcView, DmrPacket, DmrPacketView,
    DmrRecord, DmrRecordView, DmrVoice, DmrVoiceView, LcInfo, LcInfoView,
};
use crate::laws;
use crate::layout_laws;
use crate::record::RawView;
use crate::wire;
use vstd::prelude::*;
use vstd::utf8::*;

verus! {

// ---------------------------------------------------------------------
// Link Control words.
// ---------------------------------------------------------------------
/// A group voice word, with the standard feature set: the talkgroup stands
/// in octets 3 to 5 and the radio in octets 6 to 8, most significant first.
pub proof fn group_words_name_the_talkgroup(lc: Seq<u8>)
    requires
        lc.len() == 9,
        lc[1] == 0,
        lc[0] % 64 == 0,
    ensures
        dmr::lc_meaning(lc) matches LcInfoView::GroupVoice { tg, src } && tg == 0x1_0000 * lc[3]
            + 0x100 * lc[4] + lc[5] && src == 0x1_0000 * lc[6] + 0x100 * lc[7] + lc[8],
{
}

/// A unit voice word: the radio that is called stands in octets 3 to 5 and
/// the radio that calls in octets 6 to 8.
pub proof fn unit_words_name_both_radios(lc: Seq<u8>)
    requires
        lc.len() == 9,
        lc[1] == 0,
        lc[0] % 64 == 3,
    ensures
        dmr::lc_meaning(lc) matches LcInfoView::UnitVoice { dst, src } && dst == 0x1_0000 * lc[3]
            + 0x100 * lc[4] + lc[5] && src == 0x1_0000 * lc[6] + 0x100 * lc[7] + lc[8],
{
}

/// An alias header: two bits of format, five of length, and the last six
/// octets as they are.
pub proof fn alias_headers_by_bits(lc: Seq<u8>)
    requires
        lc.len() == 9,
        lc[1] == 0,
        lc[0] % 64 == 4,
    ensures
        dmr::lc_meaning(lc) matches LcInfoView::TalkerAliasHeader { format, len, data } && lc[2]
            == 64 * format + 2 * len + lc[2] % 2 && 0 <= len < 32 && data.len() == 6 && (forall|
            k: int,
        |
            0 <= k < 6 ==> #[trigger] data[k] == lc[3 + k]),
{
}

/// The three alias blocks: numbered from one, and the last seven octets as
/// they are.
pub proof fn alias_blocks_by_number(lc: Seq<u8>)
    requires
        lc.len() == 9,
        lc[1] == 0,
        lc[0] % 64 == 5 || lc[0] % 64 == 6 || lc[0] % 64 == 7,
    ensures
        dmr::lc_meaning(lc) matches LcInfoView::TalkerAliasBlock { n, data } && n + 4 == lc[0] % 64
            && data.len() == 7 && (forall|k: int| 0 <= k < 7 ==> #[trigger] data[k] == lc[2 + k]),
{
}

/// Every other word, and every word of a manufacturer's feature set, is left
/// to the caller.
pub proof fn other_words_are_left_alone(lc: Seq<u8>)
    requires
        lc.len() == 9,
    ensures
        dmr::lc_meaning(lc) is Other <==> lc[1] != 0 || lc[0] % 64 > 8 || lc[0] % 64 == 1 || lc[0]
            % 64 == 2,
{
}

/// A position word, by its bits: three of error bucket; 25 of longitude, of
/// which a clear sign bit is east and a set one west; 24 of latitude, north
/// and south alike. A field counts steps of the circle, or of half of it,
/// and the microdegrees are the whole ones at or below.
pub proof fn positions_by_bits(lc: Seq<u8>)
    requires
        lc.len() == 9,
        lc[1] == 0,
        lc[0] % 64 == 8,
    ensures
        ({
            let lon = 0x100_0000 * (lc[2] % 2) + 0x1_0000 * lc[3] + 0x100 * lc[4] + lc[5];
            let lat = 0x1_0000 * lc[6] + 0x100 * lc[7] + lc[8];
            dmr::lc_meaning(lc) matches LcInfoView::GpsInfo { err, lon_udeg, lat_udeg } && {
                &&& 0 <= err < 8
                &&& (lc[2] - lc[2] % 2) % 16 == 2 * err
                &&& lon < 0x100_0000 ==> lon_udeg >= 0 && 0x200_0000 * lon_udeg <= 360_000_000
                    * lon < 0x200_0000 * (lon_udeg + 1)
                &&& lon >= 0x100_0000 ==> lon_udeg < 0 && 0x200_0000 * lon_udeg <= 360_000_000 * (
                lon - 0x200_0000) < 0x200_0000 * (lon_udeg + 1)
                &&& lat < 0x80_0000 ==> lat_udeg >= 0 && 0x100_0000 * lat_udeg <= 180_000_000 * lat
                    < 0x100_0000 * (lat_udeg + 1)
                &&& lat >= 0x80_0000 ==> lat_udeg < 0 && 0x100_0000 * lat_udeg <= 180_000_000 * (lat
                    - 0x100_0000) < 0x100_0000 * (lat_udeg + 1)
            }
        }),
{
}

/// Of two position words, the one whose longitude field is the greater as a
/// signed number lies further east, and the one whose latitude field is the
/// greater lies further north.
pub proof fn positions_follow_their_fields(a: Seq<u8>, b: Seq<u8>)
    requires
        a.len() == 9 && a[1] == 0 && a[0] % 64 == 8,
        b.len() == 9 && b[1] == 0 && b[0] % 64 == 8,
    ensures
        ({
            let x = 0x1_0000 * a[3] + 0x100 * a[4] + a[5] - 0x100_0000 * (a[2] % 2);
            let y = 0x1_0000 * b[3] + 0x100 * b[4] + b[5] - 0x100_0000 * (b[2] % 2);
            let m = dmr::lc_meaning(a);
            let n = dmr::lc_meaning(b);
            &&& x < y <==> m->lon_udeg < n->lon_udeg
            &&& x == 0 ==> m->lon_udeg == 0
        }),
        ({
            let x = 0x1_0000 * a[6] + 0x100 * a[7] + a[8] - 0x100_0000 * (a[6] as int / 128);
            let y = 0x1_0000 * b[6] + 0x100 * b[7] + b[8] - 0x100_0000 * (b[6] as int / 128);
            let m = dmr::lc_meaning(a);
            let n = dmr::lc_meaning(b);
            &&& x < y <==> m->lat_udeg < n->lat_udeg
            &&& x == 0 ==> m->lat_udeg == 0
        }),
{
    positions_by_bits(a);
    positions_by_bits(b);
}

/// The registry of DMR flags and kinds, and the sizes of the format.
pub proof fn the_registry()
    ensures
        dmr::DV_FLAG_ENCRYPTED == 1,
        dmr::DV_FLAG_BACKFILL == 2,
        dmr::LC_KIND_HEADER == 1,
        dmr::LC_KIND_TERMINATOR == 2,
        dmr::LC_KIND_EMBEDDED == 3,
        dmr::PKT_FLAG_CRC_OK == 1,
        dmr::PKT_FLAG_TRUNCATED == 2,
        dmr::FIX_FLAG_VALID == 1,
        dmr::FIX_FLAG_NMEA_CHECKSUM_OK == 2,
        dmr::VOICE_FRAMES == 18,
        dmr::FRAME_OCTETS == 9,
        DmrVoice::BYTES == 200,
        DmrLc::BYTES == 48,
        DmrPacket::MAX_USER == 65_480,
{
}

// ---------------------------------------------------------------------
// Records, as they are read.
// ---------------------------------------------------------------------
/// A voice superframe that is read from a raw record, by offset: 18 frames
/// of nine octets, one after the other.
pub proof fn a_voice_by_offset(r: RawView)
    ensures
        DmrVoiceView::read(r) is Some <==> r.typ == 6 && r.bytes.len() >= 200,
        DmrVoiceView::read(r) matches Some(f) ==> {
            let b = r.bytes;
            &&& f.head == r.head
            &&& f.slot == b[32]
            &&& f.burst_valid == b[33]
            &&& f.slots == b[34]
            &&& f.frames.len() == 18
            &&& forall|i: int, k: int|
                #![trigger f.frames[i][k]]
                0 <= i < 18 && 0 <= k < 9 ==> f.frames[i].len() == 9 && f.frames[i][k] == b[36 + 9
                    * i + k]
        },
{
}

/// A Link Control that is read from a raw record, by offset.
pub proof fn an_lc_by_offset(r: RawView)
    ensures
        DmrLcView::read(r) is Some <==> r.typ == 7 && r.bytes.len() >= 48,
        DmrLcView::read(r) matches Some(f) ==> {
            let b = r.bytes;
            &&& f.head == r.head
            &&& f.kind == b[32]
            &&& f.slot == b[33]
            &&& f.lc.len() == 9
            &&& forall|k: int| 0 <= k < 9 ==> #[trigger] f.lc[k] == b[34 + k]
        },
{
}

/// A packet that is read from a raw record, by offset: the length that it
/// declares must lie inside.
pub proof fn a_packet_by_offset(r: RawView)
    ensures
        DmrPacketView::read(r) is Some <==> r.typ == 8 && r.bytes.len() >= 48 && 48 + r.bytes[34]
            + 0x100 * r.bytes[35] <= r.bytes.len(),
        DmrPacketView::read(r) matches Some(f) ==> {
            let b = r.bytes;
            &&& f.head == r.head
            &&& f.slot == b[32]
            &&& f.header.len() == 12
            &&& forall|k: int| 0 <= k < 12 ==> #[trigger] f.header[k] == b[36 + k]
            &&& f.user_data.len() == b[34] + 0x100 * b[35]
            &&& forall|k: int|
                0 <= k < f.user_data.len() ==> #[trigger] f.user_data[k] == b[48 + k]
        },
{
}

/// A fix that is read from a raw record, by offset.
pub proof fn a_fix_by_offset(r: RawView)
    ensures
        DmrFixView::read(r) is Some <==> r.typ == 9 && r.bytes.len() >= 61 && 61 + r.bytes[60]
            <= r.bytes.len(),
        DmrFixView::read(r) matches Some(f) ==> {
            let b = r.bytes;
            &&& f.head == r.head
            &&& f.slot == b[32]
            &&& f.course_cdeg == b[34] + 0x100 * b[35]
            &&& b[39] < 128 ==> f.lat_udeg == b[36] + 0x100 * b[37] + 0x1_0000 * b[38]
                + 0x100_0000 * b[39]
            &&& b[39] >= 128 ==> f.lat_udeg == b[36] + 0x100 * b[37] + 0x1_0000 * b[38]
                + 0x100_0000 * b[39] - 0x1_0000_0000
            &&& b[43] < 128 ==> f.lon_udeg == b[40] + 0x100 * b[41] + 0x1_0000 * b[42]
                + 0x100_0000 * b[43]
            &&& b[43] >= 128 ==> f.lon_udeg == b[40] + 0x100 * b[41] + 0x1_0000 * b[42]
                + 0x100_0000 * b[43] - 0x1_0000_0000
            &&& f.utc_ms == b[44] + 0x100 * b[45] + 0x1_0000 * b[46] + 0x100_0000 * b[47]
            &&& f.speed_mknots == b[48] + 0x100 * b[49] + 0x1_0000 * b[50] + 0x100_0000 * b[51]
            &&& f.date.0 == b[52] + 0x100 * b[53]
            &&& f.date.1 == b[54]
            &&& f.date.2 == b[55]
            &&& f.src == b[56] + 0x100 * b[57] + 0x1_0000 * b[58] + 0x100_0000 * b[59]
            &&& valid_utf8(b.subrange(61, 61 + b[60])) ==> f.sentence == decode_utf8(
                b.subrange(61, 61 + b[60]),
            )
        },
{
}

/// An alias that is read from a raw record, by offset.
pub proof fn an_alias_by_offset(r: RawView)
    ensures
        DmrAliasView::read(r) is Some <==> r.typ == 10 && r.bytes.len() >= 41 && 41 + r.bytes[40]
            <= r.bytes.len(),
        DmrAliasView::read(r) matches Some(f) ==> {
            let b = r.bytes;
            &&& f.head == r.head
            &&& f.slot == b[32]
            &&& f.format == b[33]
            &&& f.src == b[36] + 0x100 * b[37] + 0x1_0000 * b[38] + 0x100_0000 * b[39]
            &&& valid_utf8(b.subrange(41, 41 + b[40])) ==> f.alias == decode_utf8(
                b.subrange(41, 41 + b[40]),
            )
        },
{
}

/// A raw record is read as the DMR record of its type, where it holds one,
/// and as no other.
pub proof fn the_type_names_the_record(r: RawView)
    ensures
        r.typ == 6 ==> DmrRecordView::read(r) == (match DmrVoiceView::read(r) {
            Some(f) => Some(DmrRecordView::Voice(f)),
            None => None,
        }),
        r.typ == 7 ==> DmrRecordView::read(r) == (match DmrLcView::read(r) {
            Some(f) => Some(DmrRecordView::Lc(f)),
            None => None,
        }),
        r.typ == 8 ==> DmrRecordView::read(r) == (match DmrPacketView::read(r) {
            Some(f) => Some(DmrRecordView::Packet(f)),
            None => None,
        }),
        r.typ == 9 ==> DmrRecordView::read(r) == (match DmrFixView::read(r) {
            Some(f) => Some(DmrRecordView::Fix(f)),
            None => None,
        }),
        r.typ == 10 ==> DmrRecordView::read(r) == (match DmrAliasView::read(r) {
            Some(f) => Some(DmrRecordView::Alias(f)),
            None => None,
        }),
        r.typ < 6 || r.typ > 10 ==> DmrRecordView::read(r) is None,
{
}

// ---------------------------------------------------------------------
// Records, as they are written.
// ---------------------------------------------------------------------
/// A voice superframe that is written, by offset.
#[verifier::spinoff_prover]
pub proof fn a_voice_is_written_by_offset(f: DmrVoiceView)
    requires
        f.sized(),
    ensures
        ({
            let o = f.octets();
            &&& o.len() == 200
            &&& o[0] == 0x73 && o[1] == 0x64 && o[2] == 0x72 && o[3] == 0 && o[4] == 1 && o[5] == 6
            &&& o[6] == 200 && o[7] == 0
            &&& f.head.epoch_us == o[8] + 0x100 * o[9] + 0x1_0000 * o[10] + 0x100_0000 * o[11]
                + 0x1_0000_0000 * o[12] + 0x100_0000_0000 * o[13] + 0x1_0000_0000_0000 * o[14]
                + 0x100_0000_0000_0000 * o[15]
            &&& f.head.hz == o[16] + 0x100 * o[17] + 0x1_0000 * o[18] + 0x100_0000 * o[19]
            &&& f.head.seq == o[20] + 0x100 * o[21] + 0x1_0000 * o[22] + 0x100_0000 * o[23]
            &&& f.head.nac == o[24] + 0x100 * o[25]
            &&& f.head.flags == o[26] + 0x100 * o[27]
            &&& f.head.site == o[28] + 0x100 * o[29] + 0x1_0000 * o[30] + 0x100_0000 * o[31]
            &&& f.slot == o[32]
            &&& f.burst_valid == o[33]
            &&& f.slots == o[34]
            &&& o[35] == 0
            &&& forall|i: int, k: int|
                #![trigger f.frames[i][k]]
                0 <= i < 18 && 0 <= k < 9 ==> f.frames[i][k] == o[36 + 9 * i + k]
            &&& o[198] == 0 && o[199] == 0
        }),
{
    let o = f.octets();
    let none = Seq::<u8>::empty();
    assert(o + none =~= o);
    dmr::voice_reads_back(f, none);
    layout_laws::the_head_by_offset(o);
    a_voice_by_offset(RawView { typ: 6, head: f.head, bytes: o });
    let j = wire::joined(f.frames);
    assert(j.subrange(0, j.len() as int) =~= j);
    wire::lemma_joined(f.frames, 9, j, 0);
    layout_laws::lemma_padding(6, f.head, f.body());
    assert(f.body()[3] == 0);
}

/// A Link Control that is written, by offset.
pub proof fn an_lc_is_written_by_offset(f: DmrLcView)
    requires
        f.lc.len() == 9,
    ensures
        ({
            let o = f.octets();
            &&& o.len() == 48
            &&& o[0] == 0x73 && o[1] == 0x64 && o[2] == 0x72 && o[3] == 0 && o[4] == 1 && o[5] == 7
            &&& o[6] == 48 && o[7] == 0
            &&& f.head.epoch_us == o[8] + 0x100 * o[9] + 0x1_0000 * o[10] + 0x100_0000 * o[11]
                + 0x1_0000_0000 * o[12] + 0x100_0000_0000 * o[13] + 0x1_0000_0000_0000 * o[14]
                + 0x100_0000_0000_0000 * o[15]
            &&& f.head.hz == o[16] + 0x100 * o[17] + 0x1_0000 * o[18] + 0x100_0000 * o[19]
            &&& f.head.seq == o[20] + 0x100 * o[21] + 0x1_0000 * o[22] + 0x100_0000 * o[23]
            &&& f.head.nac == o[24] + 0x100 * o[25]
            &&& f.head.flags == o[26] + 0x100 * o[27]
            &&& f.head.site == o[28] + 0x100 * o[29] + 0x1_0000 * o[30] + 0x100_0000 * o[31]
            &&& f.kind == o[32]
            &&& f.slot == o[33]
            &&& forall|k: int| 0 <= k < 9 ==> #[trigger] f.lc[k] == o[34 + k]
            &&& forall|k: int| 43 <= k < 48 ==> #[trigger] o[k] == 0
        }),
{
    let o = f.octets();
    let none = Seq::<u8>::empty();
    assert(o + none =~= o);
    dmr::lc_reads_back(f, none);
    layout_laws::the_head_by_offset(o);
    an_lc_by_offset(RawView { typ: 7, head: f.head, bytes: o });
    layout_laws::lemma_padding(7, f.head, f.body());
}

/// A packet that is written, by offset. What is too long for a record is cut
/// to its first octets, and flag bit 1 says so, whatever the other flags say.
#[verifier::spinoff_prover]
pub proof fn a_packet_is_written_by_offset(f: DmrPacketView)
    requires
        f.header.len() == 12,
    ensures
        ({
            let o = f.octets();
            let n = o[34] + 0x100 * o[35];
            let cut = f.user_data.len() > 65_480;
            let flags = o[26] + 0x100 * o[27];
            &&& o[0] == 0x73 && o[1] == 0x64 && o[2] == 0x72 && o[3] == 0 && o[4] == 1 && o[5] == 8
            &&& o.len() == o[6] + 0x100 * o[7]
            &&& o.len() % 8 == 0
            &&& f.head.epoch_us == o[8] + 0x100 * o[9] + 0x1_0000 * o[10] + 0x100_0000 * o[11]
                + 0x1_0000_0000 * o[12] + 0x100_0000_0000 * o[13] + 0x1_0000_0000_0000 * o[14]
                + 0x100_0000_0000_0000 * o[15]
            &&& f.head.hz == o[16] + 0x100 * o[17] + 0x1_0000 * o[18] + 0x100_0000 * o[19]
            &&& f.head.seq == o[20] + 0x100 * o[21] + 0x1_0000 * o[22] + 0x100_0000 * o[23]
            &&& f.head.nac == o[24] + 0x100 * o[25]
            &&& !cut ==> flags == f.head.flags
            &&& cut ==> flags / 2 % 2 == 1 && flags % 2 == f.head.flags % 2 && flags / 4
                == f.head.flags / 4
            &&& f.head.site == o[28] + 0x100 * o[29] + 0x1_0000 * o[30] + 0x100_0000 * o[31]
            &&& f.slot == o[32]
            &&& o[33] == 0
            &&& forall|k: int| 0 <= k < 12 ==> #[trigger] f.header[k] == o[36 + k]
            &&& n == if cut {
                65_480
            } else {
                f.user_data.len() as int
            }
            &&& forall|k: int| 0 <= k < n ==> #[trigger] f.user_data[k] == o[48 + k]
            &&& 48 + n <= o.len() < 56 + n
            &&& forall|k: int| 48 + n <= k < o.len() ==> #[trigger] o[k] == 0
        }),
{
    let o = f.octets();
    let c = f.carried();
    let none = Seq::<u8>::empty();
    assert(o + none =~= o);
    dmr::packet_reads_back(f, none);
    layout_laws::the_head_by_offset(o);
    laws::framed_head(8, c.head, c.body(), none);
    a_packet_by_offset(RawView { typ: 8, head: c.head, bytes: o });
    layout_laws::lemma_padding(8, c.head, c.body());
    assert(c.body()[1] == 0);
    let flags = f.head.flags;
    let set = flags | 0x0002u16;
    assert(set / 2 % 2 == 1 && set % 2 == flags % 2 && set / 4 == flags / 4) by (bit_vector)
        requires
            set == flags | 0x0002u16,
    ;
    let n = c.user_data.len() as int;
    assert forall|k: int| 0 <= k < n implies #[trigger] f.user_data[k] == o[48 + k] by {
        assert(c.user_data[k] == f.user_data[k]);
    }
}

/// A fix that is written, by offset: its sentence in its place, and zeros
/// behind it.
#[verifier::spinoff_prover]
pub proof fn a_fix_is_written_by_offset(f: DmrFixView)
    ensures
        ({
            let o = f.octets();
            let u = encode_utf8(f.sentence);
            &&& o[0] == 0x73 && o[1] == 0x64 && o[2] == 0x72 && o[3] == 0 && o[4] == 1 && o[5] == 9
            &&& o.len() == o[6] + 0x100 * o[7]
            &&& o.len() % 8 == 0
            &&& f.head.epoch_us == o[8] + 0x100 * o[9] + 0x1_0000 * o[10] + 0x100_0000 * o[11]
                + 0x1_0000_0000 * o[12] + 0x100_0000_0000 * o[13] + 0x1_0000_0000_0000 * o[14]
                + 0x100_0000_0000_0000 * o[15]
            &&& f.head.hz == o[16] + 0x100 * o[17] + 0x1_0000 * o[18] + 0x100_0000 * o[19]
            &&& f.head.seq == o[20] + 0x100 * o[21] + 0x1_0000 * o[22] + 0x100_0000 * o[23]
            &&& f.head.nac == o[24] + 0x100 * o[25]
            &&& f.head.flags == o[26] + 0x100 * o[27]
            &&& f.head.site == o[28] + 0x100 * o[29] + 0x1_0000 * o[30] + 0x100_0000 * o[31]
            &&& f.slot == o[32]
            &&& o[33] == 0
            &&& f.course_cdeg == o[34] + 0x100 * o[35]
            &&& o[39] < 128 ==> f.lat_udeg == o[36] + 0x100 * o[37] + 0x1_0000 * o[38]
                + 0x100_0000 * o[39]
            &&& o[39] >= 128 ==> f.lat_udeg == o[36] + 0x100 * o[37] + 0x1_0000 * o[38]
                + 0x100_0000 * o[39] - 0x1_0000_0000
            &&& o[43] < 128 ==> f.lon_udeg == o[40] + 0x100 * o[41] + 0x1_0000 * o[42]
                + 0x100_0000 * o[43]
            &&& o[43] >= 128 ==> f.lon_udeg == o[40] + 0x100 * o[41] + 0x1_0000 * o[42]
                + 0x100_0000 * o[43] - 0x1_0000_0000
            &&& f.utc_ms == o[44] + 0x100 * o[45] + 0x1_0000 * o[46] + 0x100_0000 * o[47]
            &&& f.speed_mknots == o[48] + 0x100 * o[49] + 0x1_0000 * o[50] + 0x100_0000 * o[51]
            &&& f.date.0 == o[52] + 0x100 * o[53]
            &&& f.date.1 == o[54]
            &&& f.date.2 == o[55]
            &&& f.src == o[56] + 0x100 * o[57] + 0x1_0000 * o[58] + 0x100_0000 * o[59]
            &&& o[60] == if u.len() <= 255 {
                u.len()
            } else {
                255
            }
            &&& forall|k: int| 0 <= k < o[60] ==> #[trigger] o[61 + k] == u[k]
            &&& 61 + o[60] <= o.len() < 69 + o[60]
            &&& forall|k: int| 61 + o[60] <= k < o.len() ==> #[trigger] o[k] == 0
        }),
{
    let o = f.octets();
    let none = Seq::<u8>::empty();
    let s = wire::str_field(f.sentence);
    let body = f.body();
    assert(o + none =~= o);
    dmr::fix_reads_back(f, none);
    layout_laws::the_head_by_offset(o);
    laws::framed_head(9, f.head, body, none);
    a_fix_by_offset(RawView { typ: 9, head: f.head, bytes: o });
    layout_laws::lemma_padding(9, f.head, body);
    layout_laws::string_fields_are_counted(f.sentence);
    assert(body[1] == 0);
    assert(body.subrange(28, 28 + s.len() as int) =~= s);
    layout_laws::lemma_string_place(o, body, 28, s);
    assert(o[60] == s[0]);
    assert forall|k: int| 0 <= k < o[60] implies #[trigger] o[61
        + k] == encode_utf8(f.sentence)[k] by {
        assert(o[32 + 28 + (1 + k)] == s[1 + k]);
    }
}

/// An alias that is written, by offset: its text in its place, and zeros
/// behind it.
#[verifier::spinoff_prover]
pub proof fn an_alias_is_written_by_offset(f: DmrAliasView)
    ensures
        ({
            let o = f.octets();
            let u = encode_utf8(f.alias);
            &&& o[0] == 0x73 && o[1] == 0x64 && o[2] == 0x72 && o[3] == 0 && o[4] == 1 && o[5] == 10
            &&& o.len() == o[6] + 0x100 * o[7]
            &&& o.len() % 8 == 0
            &&& f.head.epoch_us == o[8] + 0x100 * o[9] + 0x1_0000 * o[10] + 0x100_0000 * o[11]
                + 0x1_0000_0000 * o[12] + 0x100_0000_0000 * o[13] + 0x1_0000_0000_0000 * o[14]
                + 0x100_0000_0000_0000 * o[15]
            &&& f.head.hz == o[16] + 0x100 * o[17] + 0x1_0000 * o[18] + 0x100_0000 * o[19]
            &&& f.head.seq == o[20] + 0x100 * o[21] + 0x1_0000 * o[22] + 0x100_0000 * o[23]
            &&& f.head.nac == o[24] + 0x100 * o[25]
            &&& f.head.flags == o[26] + 0x100 * o[27]
            &&& f.head.site == o[28] + 0x100 * o[29] + 0x1_0000 * o[30] + 0x100_0000 * o[31]
            &&& f.slot == o[32]
            &&& f.format == o[33]
            &&& o[34] == 0 && o[35] == 0
            &&& f.src == o[36] + 0x100 * o[37] + 0x1_0000 * o[38] + 0x100_0000 * o[39]
            &&& o[40] == if u.len() <= 255 {
                u.len()
            } else {
                255
            }
            &&& forall|k: int| 0 <= k < o[40] ==> #[trigger] o[41 + k] == u[k]
            &&& 41 + o[40] <= o.len() < 49 + o[40]
            &&& forall|k: int| 41 + o[40] <= k < o.len() ==> #[trigger] o[k] == 0
        }),
{
    let o = f.octets();
    let none = Seq::<u8>::empty();
    let s = wire::str_field(f.alias);
    let body = f.body();
    assert(o + none =~= o);
    dmr::alias_reads_back(f, none);
    layout_laws::the_head_by_offset(o);
    laws::framed_head(10, f.head, body, none);
    an_alias_by_offset(RawView { typ: 10, head: f.head, bytes: o });
    layout_laws::lemma_padding(10, f.head, body);
    layout_laws::string_fields_are_counted(f.alias);
    assert(body[2] == 0 && body[3] == 0);
    assert(body.subrange(8, 8 + s.len() as int) =~= s);
    layout_laws::lemma_string_place(o, body, 8, s);
    assert(o[40] == s[0]);
    assert forall|k: int| 0 <= k < o[40] implies #[trigger] o[41
        + k] == encode_utf8(f.alias)[k] by {
        assert(o[32 + 8 + (1 + k)] == s[1 + k]);
    }
}

/// The view of a DMR record of any kind is that of its kind.
pub proof fn views_keep_the_kind(v: DmrVoice, l: DmrLc, p: DmrPacket, f: DmrFix, a: DmrAlias)
    ensures
        DmrRecord::Voice(v)@ == DmrRecordView::Voice(v@),
        DmrRecord::Lc(l)@ == DmrRecordView::Lc(l@),
        DmrRecord::Packet(p)@ == DmrRecordView::Packet(p@),
        DmrRecord::Fix(f)@ == DmrRecordView::Fix(f@),
        DmrRecord::Alias(a)@ == DmrRecordView::Alias(a@),
{
}

/// The view of a DMR record is the record, field by field.
pub proof fn views_are_the_records(
    v: DmrVoice,
    l: DmrLc,
    p: DmrPacket,
    f: DmrFix,
    a: DmrAlias,
)
    ensures
        v@.head == v.head && v@.slot == v.slot && v@.burst_valid == v.burst_valid,
        v@.slots == v.slots,
        forall|i: int, k: int|
            #![trigger v@.frames[i][k]]
            0 <= i < 18 && 0 <= k < 9 ==> v@.frames[i][k] == v.frames@[i]@[k],
        l@.head == l.head && l@.kind == l.kind && l@.slot == l.slot && l@.lc == l.lc@,
        p@.head == p.head && p@.slot == p.slot && p@.header == p.header@,
        p@.user_data == p.user_data@,
        f@.head == f.head && f@.slot == f.slot && f@.lat_udeg == f.lat_udeg,
        f@.lon_udeg == f.lon_udeg && f@.utc_ms == f.utc_ms && f@.speed_mknots == f.speed_mknots,
        f@.course_cdeg == f.course_cdeg && f@.date == f.date && f@.src == f.src,
        f@.sentence == f.sentence@,
        a@.head == a.head && a@.slot == a.slot && a@.format == a.format && a@.src == a.src,
        a@.alias == a.alias@,
{
}

/// The view of what a word says is what it says, field by field.
pub proof fn the_view_is_the_meaning(info: LcInfo)
    ensures
        info matches LcInfo::GroupVoice { tg, src } ==> (info@ matches LcInfoView::GroupVoice {
            tg: t,
            src: s,
        } && t == tg && s == src),
        info matches LcInfo::UnitVoice { dst, src } ==> (info@ matches LcInfoView::UnitVoice {
            dst: d,
            src: s,
        } && d == dst && s == src),
        info matches LcInfo::GpsInfo { err, lon_udeg, lat_udeg } ==> (
        info@ matches LcInfoView::GpsInfo { err: e, lon_udeg: x, lat_udeg: y } && e == err && x
            == lon_udeg && y == lat_udeg),
        info matches LcInfo::TalkerAliasHeader { format, len, data } ==> (
        info@ matches LcInfoView::TalkerAliasHeader { format: f, len: n, data: d } && f == format
            && n == len && d == data@),
        info matches LcInfo::TalkerAliasBlock { n, data } ==> (
        info@ matches LcInfoView::TalkerAliasBlock { n: k, data: d } && k == n && d == data@),
        info is Other <==> info@ is Other,
{
}

} // verus!
