//! What holds of the projection: a call's metadata is in its file, and in
//! the file only.
use crate::json;
use crate::laws;
use crate::layout_laws;
use crate::numeral_laws;
use crate::record;
use crate::record::{Mode, RawView, RecordView};
use crate::riff;
use crate::sidecar;
use crate::sidecar::{Sidecar, SidecarView};
use crate::sidecar_laws;
use crate::text;
use vstd::prelude::*;
use vstd::utf8::*;

verus! {

/// The file is the record: the records that were written to a file give,
/// read from the file, the sidecar that they gave before, whatever octets
/// that open no record lie behind them.
pub proof fn the_file_is_the_record(rs: Seq<RecordView>, junk: Seq<u8>)
    requires
        forall|i: int| 0 <= i < rs.len() ==> laws::wire_safe(#[trigger] rs[i]),
        record::record_at(junk) is None,
    ensures
        SidecarView::of_records(record::stream(laws::written(rs) + junk))
            == SidecarView::of_records(rs),
{
    laws::stream_ignores_garbage(rs, junk);
}

proof fn lemma_last_header(rs: Seq<RecordView>)
    ensures
        sidecar::last_header(rs) is None <==> forall|i: int|
            0 <= i < rs.len() ==> !(#[trigger] rs[i] is Header),
    decreases rs.len(),
{
    if rs.len() > 0 {
        let init = rs.drop_last();
        lemma_last_header(init);
        if rs.last() is Header {
            assert(rs[rs.len() - 1] is Header);
        } else {
            assert(forall|i: int| 0 <= i < init.len() ==> init[i] == #[trigger] rs[i]);
            if sidecar::last_header(init) is None {
                assert forall|i: int| 0 <= i < rs.len() implies !(#[trigger] rs[i] is Header) by {
                    if i < init.len() {
                        assert(!(init[i] is Header));
                    }
                }
            } else {
                let i = choose|i: int| 0 <= i < init.len() && #[trigger] init[i] is Header;
                assert(rs[i] is Header);
            }
        }
    }
}

/// There is a sidecar exactly where there is a call header.
pub proof fn no_sidecar_without_a_header(rs: Seq<RecordView>)
    ensures
        SidecarView::of_records(rs) is None <==> forall|i: int|
            0 <= i < rs.len() ==> !(#[trigger] rs[i] is Header),
{
    lemma_last_header(rs);
}

proof fn lemma_span_grows(b: Seq<u8>, m: nat, n: nat)
    requires
        m <= n,
    ensures
        laws::span(b, m) <= laws::span(b, n),
    decreases m, n,
{
    if let Some((r, len)) = record::record_at(b) {
        laws::record_is_local(b, Seq::empty());
        if m > 0 {
            lemma_span_grows(b.skip(len), (m - 1) as nat, (n - 1) as nat);
        } else if n > 0 {
            lemma_span_grows(b.skip(len), 0, (n - 1) as nat);
        }
    }
}

/// A truncated file still names its call: wherever a cut leaves a call
/// header whole, there is a sidecar.
pub proof fn a_cut_file_still_projects(b: Seq<u8>, k: int, i: nat)
    requires
        0 <= k <= b.len(),
        i < record::stream(b).len(),
        record::stream(b)[i as int] is Header,
        laws::span(b, i + 1) <= k,
    ensures
        SidecarView::of_records(record::stream(b.take(k))) is Some,
{
    let left = record::stream(b.take(k));
    let all = record::stream(b);
    laws::cut_loses_only_what_it_cuts(b, k);
    if left.len() <= i {
        lemma_span_grows(b, left.len() + 1, i + 1);
    }
    assert(left[i as int] == all[i as int]);
    no_sidecar_without_a_header(left);
}

/// A record between others, of which nothing is asked, changes nothing.
proof fn lemma_stranger(a: Seq<RecordView>, w: RawView, b: Seq<RecordView>)
    requires
        sidecar::voice_unit_ms(w.typ) == 0,
    ensures
        ({
            let r = RecordView::Raw(w);
            let with = a + seq![r] + b;
            let without = a + b;
            &&& sidecar::last_header(with) == sidecar::last_header(without)
            &&& sidecar::last_trailer(with) == sidecar::last_trailer(without)
            &&& sidecar::last_voice(with) == sidecar::last_voice(without)
        }),
    decreases b.len(),
{
    let r = RecordView::Raw(w);
    let with = a + seq![r] + b;
    let without = a + b;
    if b.len() == 0 {
        assert(with.drop_last() =~= without);
        assert(with.last() == r);
    } else {
        lemma_stranger(a, w, b.drop_last());
        assert(with.drop_last() =~= a + seq![r] + b.drop_last());
        assert(without.drop_last() =~= a + b.drop_last());
        assert(with.last() == without.last());
    }
}

/// Records that this crate does not know are skipped: wherever they stand
/// in a file, the sidecar is the same.
pub proof fn strangers_change_nothing(a: Seq<RecordView>, w: RawView, b: Seq<RecordView>)
    requires
        sidecar::voice_unit_ms(w.typ) == 0,
    ensures
        SidecarView::of_records(a + seq![RecordView::Raw(w)] + b) == SidecarView::of_records(a + b),
{
    let with = a + seq![RecordView::Raw(w)] + b;
    let without = a + b;
    lemma_stranger(a, w, b);
    assert(sidecar::has_ess(with) == sidecar::has_ess(without)) by {
        if sidecar::has_ess(with) {
            let i = choose|i: int| 0 <= i < with.len() && #[trigger] with[i] is Ess;
            if i < a.len() {
                assert(without[i] is Ess);
            } else {
                assert(without[i - 1] is Ess);
            }
        }
        if sidecar::has_ess(without) {
            let i = choose|i: int| 0 <= i < without.len() && #[trigger] without[i] is Ess;
            if i < a.len() {
                assert(with[i] is Ess);
            } else {
                assert(with[i + 1] is Ess);
            }
        }
    }
}

proof fn lemma_header_found(rs: Seq<RecordView>, i: int)
    requires
        0 <= i < rs.len(),
        rs[i] is Header,
        forall|k: int| i < k < rs.len() ==> !(#[trigger] rs[k] is Header),
    ensures
        sidecar::last_header(rs) == Some(rs[i]->Header_0),
    decreases rs.len(),
{
    if i < rs.len() - 1 {
        assert(!(rs[rs.len() - 1] is Header));
        lemma_header_found(rs.drop_last(), i);
    }
}

proof fn lemma_trailer_found(rs: Seq<RecordView>, i: int)
    requires
        0 <= i < rs.len(),
        rs[i] is Trailer,
        forall|k: int| i < k < rs.len() ==> !(#[trigger] rs[k] is Trailer),
    ensures
        sidecar::last_trailer(rs) == Some(rs[i]->Trailer_0),
    decreases rs.len(),
{
    if i < rs.len() - 1 {
        assert(!(rs[rs.len() - 1] is Trailer));
        lemma_trailer_found(rs.drop_last(), i);
    }
}

proof fn lemma_no_trailer(rs: Seq<RecordView>)
    requires
        forall|k: int| 0 <= k < rs.len() ==> !(#[trigger] rs[k] is Trailer),
    ensures
        sidecar::last_trailer(rs) is None,
    decreases rs.len(),
{
    if rs.len() > 0 {
        assert(!(rs[rs.len() - 1] is Trailer));
        lemma_no_trailer(rs.drop_last());
    }
}

/// A record that carries voice: an LDU, a Phase 2 superframe or a DMR one.
pub open spec fn is_voice(r: RecordView) -> bool {
    r matches RecordView::Raw(w) && (w.typ == 2 || w.typ == 5 || w.typ == 6)
}

proof fn lemma_voice_found(rs: Seq<RecordView>, i: int)
    requires
        0 <= i < rs.len(),
        is_voice(rs[i]),
        forall|k: int| i < k < rs.len() ==> !is_voice(#[trigger] rs[k]),
    ensures
        sidecar::last_voice(rs) == (
            rs[i]->Raw_0.head.epoch_us as nat,
            if rs[i]->Raw_0.typ == 2 {
                180nat
            } else {
                360
            },
        ),
    decreases rs.len(),
{
    if i < rs.len() - 1 {
        assert(!is_voice(rs[rs.len() - 1]));
        lemma_voice_found(rs.drop_last(), i);
    }
}

proof fn lemma_no_voice(rs: Seq<RecordView>)
    requires
        forall|k: int| 0 <= k < rs.len() ==> !is_voice(#[trigger] rs[k]),
    ensures
        sidecar::last_voice(rs) == (0nat, 0nat),
    decreases rs.len(),
{
    if rs.len() > 0 {
        assert(!is_voice(rs[rs.len() - 1]));
        lemma_no_voice(rs.drop_last());
    }
}

/// What every sidecar of records takes from the last call header: the time
/// in milliseconds, the carrier, the system, the NAC of a call that is not
/// conventional, and the mode's token, which tells the mode and the slot.
pub proof fn the_header_names_the_call(rs: Seq<RecordView>, i: int)
    requires
        0 <= i < rs.len(),
        rs[i] is Header,
        forall|k: int| i < k < rs.len() ==> !(#[trigger] rs[k] is Header),
    ensures
        SidecarView::of_records(rs) matches Some(s) && {
            let h = rs[i]->Header_0;
            &&& 1000 * s.start_ms <= h.head.epoch_us < 1000 * (s.start_ms + 1)
            &&& s.hz == h.head.hz
            &&& s.system == h.system
            &&& h.mode == 2 ==> s.nac is None
            &&& h.mode != 2 ==> s.nac == Some(h.head.nac)
            &&& h.mode == 1 ==> s.mode == seq!['F']
            &&& h.mode == 2 ==> s.mode == seq!['A']
            &&& h.mode == 3 ==> s.mode[0] == 'T' && numeral_laws::says_shortly(
                s.mode.skip(1),
                10,
                h.slot as int,
            )
            &&& h.mode == 4 ==> s.mode[0] == 'D' && numeral_laws::says_shortly(
                s.mode.skip(1),
                10,
                h.slot + 1,
            )
            &&& h.mode == 0 || h.mode > 4 ==> s.mode[0] == '?' && numeral_laws::says_shortly(
                s.mode.skip(1),
                10,
                h.mode as int,
            )
        },
{
    lemma_header_found(rs, i);
    let h = rs[i]->Header_0;
    let s = SidecarView::of_records(rs)->0;
    numeral_laws::numerals_say_their_number(h.slot as nat, 10);
    numeral_laws::numerals_say_their_number((h.slot + 1) as nat, 10);
    numeral_laws::numerals_say_their_number(h.mode as nat, 10);
    if h.mode == 3 {
        assert(s.mode.skip(1) =~= text::decimal(h.slot as nat));
    } else if h.mode == 4 {
        assert(s.mode.skip(1) =~= text::decimal((h.slot + 1) as nat));
    } else if h.mode == 0 || h.mode > 4 {
        assert(s.mode.skip(1) =~= text::decimal(h.mode as nat));
    }
}

/// What a call that was closed takes from its last trailer: encryption from
/// flag bit 0 and emergency from flag bit 1, each by itself; the length, the
/// talkgroup and the radio; the levels and the offset that were measured,
/// and the texts that are not empty.
pub proof fn the_trailer_closes_the_call(rs: Seq<RecordView>, i: int, j: int)
    requires
        0 <= i < rs.len(),
        rs[i] is Header,
        forall|k: int| i < k < rs.len() ==> !(#[trigger] rs[k] is Header),
        0 <= j < rs.len(),
        rs[j] is Trailer,
        forall|k: int| j < k < rs.len() ==> !(#[trigger] rs[k] is Trailer),
    ensures
        SidecarView::of_records(rs) matches Some(s) && {
            let h = rs[i]->Header_0;
            let t = rs[j]->Trailer_0;
            &&& s.encrypted <==> t.head.flags % 2 == 1
            &&& s.emergency <==> t.head.flags / 2 % 2 == 1
            &&& s.duration_ms == t.duration_ms
            &&& t.tg == 0 ==> s.tg is None
            &&& t.tg != 0 ==> s.tg == Some(t.tg)
            &&& numeral_laws::says_shortly(s.src, 10, t.src as int)
            &&& s.delta_db == t.delta_db
            &&& t.signal_db.bits % 0x8000_0000 > 0x7F80_0000 ==> s.signal_db is None
            &&& t.signal_db.bits % 0x8000_0000 <= 0x7F80_0000 ==> s.signal_db == Some(t.signal_db)
            &&& t.floor_db.bits % 0x8000_0000 > 0x7F80_0000 ==> s.floor_db is None
            &&& t.floor_db.bits % 0x8000_0000 <= 0x7F80_0000 ==> s.floor_db == Some(t.floor_db)
            &&& t.offset_hz == -0x8000_0000 ==> s.offset_hz is None
            &&& t.offset_hz != -0x8000_0000 ==> s.offset_hz == Some(t.offset_hz)
            &&& t.alias.len() == 0 ==> s.alias is None
            &&& t.alias.len() > 0 ==> s.alias == Some(t.alias)
            &&& h.mode != 2 || t.alphatag.len() == 0 ==> s.alphatag is None
            &&& h.mode == 2 && t.alphatag.len() > 0 ==> s.alphatag == Some(t.alphatag)
            &&& s.tone is None && s.mdc is None && s.wav_rate == 0
        },
{
    lemma_header_found(rs, i);
    lemma_trailer_found(rs, j);
    let t = rs[j]->Trailer_0;
    layout_laws::a_trailer_says_its_flags(t);
    numeral_laws::numerals_say_their_number(t.src as nat, 10);
}

/// What a call that was cut before its trailer takes from what is left: the
/// identity from the header where flag bit 1 says that it was seeded, the
/// verdict from an ESS anywhere, and nothing that only a trailer tells.
pub proof fn a_cut_call_keeps_its_seed(rs: Seq<RecordView>, i: int)
    requires
        0 <= i < rs.len(),
        rs[i] is Header,
        forall|k: int| i < k < rs.len() ==> !(#[trigger] rs[k] is Header),
        forall|k: int| 0 <= k < rs.len() ==> !(#[trigger] rs[k] is Trailer),
    ensures
        SidecarView::of_records(rs) matches Some(s) && {
            let h = rs[i]->Header_0;
            let seeded = h.head.flags / 2 % 2 == 1;
            &&& s.encrypted <==> exists|k: int| 0 <= k < rs.len() && #[trigger] rs[k] is Ess
            &&& !s.emergency
            &&& seeded && h.tg != 0 ==> s.tg == Some(h.tg)
            &&& !seeded || h.tg == 0 ==> s.tg is None
            &&& numeral_laws::says_shortly(s.src, 10, if seeded {
                h.src as int
            } else {
                0
            })
            &&& s.delta_db.bits == 0
            &&& s.signal_db is None && s.floor_db is None && s.offset_hz is None
            &&& s.alias is None && s.alphatag is None
            &&& s.tone is None && s.mdc is None && s.wav_rate == 0
        },
{
    lemma_header_found(rs, i);
    lemma_no_trailer(rs);
    let h = rs[i]->Header_0;
    let f = h.head.flags;
    assert((f & 0x0002 != 0) <==> f / 2 % 2 == 1) by (bit_vector);
    numeral_laws::numerals_say_their_number(h.src as nat, 10);
    numeral_laws::numerals_say_their_number(0, 10);
}

/// How long a call was that was cut before its trailer: from the header's
/// clock to that of the last voice record, in whole milliseconds, and the
/// length of that record, 180 ms of an LDU and 360 ms of the others. A clock
/// that ran back counts nothing.
pub proof fn the_voice_clock_sizes_a_cut_call(rs: Seq<RecordView>, i: int, j: int)
    requires
        0 <= i < rs.len(),
        rs[i] is Header,
        forall|k: int| i < k < rs.len() ==> !(#[trigger] rs[k] is Header),
        forall|k: int| 0 <= k < rs.len() ==> !(#[trigger] rs[k] is Trailer),
        0 <= j < rs.len(),
        is_voice(rs[j]),
        forall|k: int| j < k < rs.len() ==> !is_voice(#[trigger] rs[k]),
    ensures
        SidecarView::of_records(rs) matches Some(s) && {
            let w = rs[j]->Raw_0;
            let unit = if w.typ == 2 {
                180int
            } else {
                360
            };
            let heard = w.head.epoch_us - rs[i]->Header_0.head.epoch_us;
            &&& heard < 0 ==> s.duration_ms == unit
            &&& heard >= 0 ==> 1000 * (s.duration_ms - unit) <= heard < 1000 * (s.duration_ms - unit
                + 1)
        },
{
    lemma_header_found(rs, i);
    lemma_no_trailer(rs);
    lemma_voice_found(rs, j);
}

/// A call that was cut before any voice has no length.
pub proof fn a_cut_call_without_voice_has_no_length(rs: Seq<RecordView>, i: int)
    requires
        0 <= i < rs.len(),
        rs[i] is Header,
        forall|k: int| i < k < rs.len() ==> !(#[trigger] rs[k] is Header),
        forall|k: int|
            0 <= k < rs.len() ==> !(#[trigger] rs[k] is Trailer) && !is_voice(rs[k]),
    ensures
        SidecarView::of_records(rs) matches Some(s) && s.duration_ms == 0,
{
    lemma_header_found(rs, i);
    lemma_no_trailer(rs);
    lemma_no_voice(rs);
}

/// The view of a sidecar is the sidecar, field by field.
pub proof fn the_view_is_the_sidecar(s: Sidecar)
    ensures
        s@.start_ms == s.start_ms && s@.duration_ms == s.duration_ms && s@.hz == s.hz,
        s@.mode == s.mode@ && s@.emergency == s.emergency && s@.encrypted == s.encrypted,
        s@.system == s.system@ && s@.nac == s.nac && s@.tg == s.tg && s@.src == s.src@,
        s@.alias is Some <==> s.alias is Some,
        s.alias matches Some(x) ==> s@.alias == Some(x@),
        s@.tone is Some <==> s.tone is Some,
        s.tone matches Some(x) ==> s@.tone == Some(x@),
        s@.alphatag is Some <==> s.alphatag is Some,
        s.alphatag matches Some(x) ==> s@.alphatag == Some(x@),
        s@.delta_db == s.delta_db && s@.signal_db == s.signal_db && s@.floor_db == s.floor_db,
        s@.offset_hz == s.offset_hz && s@.wav_rate == s.wav_rate,
        s@.mdc is Some <==> s.mdc is Some,
        s.mdc matches Some(x) ==> s@.mdc == Some(x@),
{
}

/// A call's records give it neither tone nor packets, and no PCM; a label
/// comes only with a conventional call.
pub proof fn digital_calls_have_no_pcm(rs: Seq<RecordView>)
    ensures
        SidecarView::of_records(rs) matches Some(s) ==> s.tone is None && s.mdc is None
            && s.wav_rate == 0 && (sidecar::last_header(rs) matches Some(h) && (Mode::of(h.mode)
            != Some(Mode::Analog) ==> s.alphatag is None)),
{
}

/// The tree of a sidecar holds the sidecar.
pub proof fn the_tree_holds_the_sidecar(v: SidecarView)
    requires
        sidecar_laws::plain_sidecar(v),
    ensures
        json::document(v.json_text(), true) matches Some(j) && SidecarView::complete(j)
            && SidecarView::of_json(j) == v,
{
    sidecar_laws::sidecar_reads_back(v);
}

/// What a recorder embeds in a WAV file, a reader of the file pulls out:
/// where the first `MSDR` chunk of a file is the document of a sidecar, the
/// chunk is text, and the text is the sidecar.
pub proof fn embedded_sidecar_reads_back(
    size: u32,
    chunks: Seq<(Seq<u8>, Seq<u8>)>,
    v: SidecarView,
)
    requires
        forall|i: int|
            0 <= i < chunks.len() ==> (#[trigger] chunks[i]).0.len() == 4 && chunks[i].1.len()
                < 0x1_0000_0000,
        riff::lookup(chunks, riff::MSDR@) == Some(encode_utf8(v.json_text())),
        sidecar_laws::plain_sidecar(v),
    ensures
        ({
            let found = riff::chunk_of(riff::wave_file(size, chunks), riff::MSDR@);
            &&& found matches Some(b) && valid_utf8(b) && SidecarView::read(decode_utf8(b)) == Some(
                v,
            )
        }),
{
    riff::chunk_is_found(size, chunks, riff::MSDR@);
    encode_utf8_valid_utf8(v.json_text());
    encode_utf8_decode_utf8(v.json_text());
    sidecar_laws::sidecar_reads_back(v);
}

} // verus!
