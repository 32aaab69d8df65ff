//! What holds of the record format as a whole: every record reads back,
//! streams concatenate, and a cut costs at most the record it falls in.
use crate::record;
use crate::record::{
    CallHeaderView, CallTrailerView, EssView, MsgHead, RawView, RecordView, MAGIC, TYP_CALL_HEADER,
    TYP_CALL_TRAILER, TYP_ESS, VERSION,
};
use crate::wire;
use vstd::prelude::*;
use vstd::utf8::*;

verus! {

/// A record opens with its own head, wherever it stands.
pub proof fn framed_head(typ: u8, h: MsgHead, body: Seq<u8>, rest: Seq<u8>)
    requires
        32 + body.len() <= 65_528,
    ensures
        ({
            let f = record::framed(typ, h, body);
            &&& f.len() == wire::padded(32 + body.len() as int)
            &&& f.len() % 8 == 0
            &&& 32 + body.len() <= f.len() <= 65_528
            &&& f.subrange(32, 32 + body.len() as int) == body
            &&& (f + rest).take(f.len() as int) == f
            &&& record::head_at(f + rest) == Some((typ, h, f.len() as int))
        }),
{
    reveal(record::framed);
    reveal(record::head_at);
    let f = record::framed(typ, h, body);
    let total = wire::padded(32 + body.len() as int);
    let b = f + rest;
    assert(f.subrange(32, 32 + body.len() as int) =~= body);
    assert(b.take(f.len() as int) =~= f);
    assert(b.take(4) =~= MAGIC@);
    assert(b[4] == VERSION);
    assert(b[5] == typ);
    assert(b.subrange(6, 8) =~= wire::le16(total));
    wire::lemma_at16(b, 6, total);
    assert(b.subrange(8, 16) =~= wire::le64(h.epoch_us as int));
    wire::lemma_at64(b, 8, h.epoch_us as int);
    assert(b.subrange(16, 20) =~= wire::le32(h.hz as int));
    wire::lemma_at32(b, 16, h.hz as int);
    assert(b.subrange(20, 24) =~= wire::le32(h.seq as int));
    wire::lemma_at32(b, 20, h.seq as int);
    assert(b.subrange(24, 26) =~= wire::le16(h.nac as int));
    wire::lemma_at16(b, 24, h.nac as int);
    assert(b.subrange(26, 28) =~= wire::le16(h.flags as int));
    wire::lemma_at16(b, 26, h.flags as int);
    assert(b.subrange(28, 32) =~= wire::le32(h.site as int));
    wire::lemma_at32(b, 28, h.site as int);
}

/// A string field reads back as the text of the octets that it kept.
pub proof fn string_reads_back(b: Seq<u8>, at: int, s: Seq<char>)
    requires
        0 <= at,
        at + wire::str_field(s).len() <= b.len(),
        b.subrange(at, at + wire::str_field(s).len()) == wire::str_field(s),
    ensures
        wire::str_at(b, at) == Some(
            (wire::lossy_text(wire::str_octets(s)), 1 + wire::str_octets(s).len() as int),
        ),
        encode_utf8(s).len() <= 255 ==> wire::lossy_text(wire::str_octets(s)) == s,
{
    let f = wire::str_field(s);
    assert(b[at] == f[0]) by {
        assert(b.subrange(at, at + f.len())[0] == b[at]);
    }
    let n = wire::str_octets(s).len() as int;
    assert(b.subrange(at + 1, at + 1 + n) =~= b.subrange(at, at + f.len()).subrange(1, 1 + n));
    assert(f.subrange(1, 1 + n) =~= wire::str_octets(s));
    encode_utf8_valid_utf8(s);
    encode_utf8_decode_utf8(s);
}

/// What of a record survives the wire: a text is cut to 255 octets and
/// what the cut breaks is replaced.
pub open spec fn kept_text(s: Seq<char>) -> Seq<char> {
    wire::lossy_text(wire::str_octets(s))
}

/// A header with its text as the wire keeps it.
pub open spec fn kept_header(h: CallHeaderView) -> CallHeaderView {
    CallHeaderView { system: kept_text(h.system), ..h }
}

/// A trailer with its texts as the wire keeps them.
pub open spec fn kept_trailer(t: CallTrailerView) -> CallTrailerView {
    CallTrailerView { alias: kept_text(t.alias), alphatag: kept_text(t.alphatag), ..t }
}

/// A header whose body opens the body of `b` is read from `b`, whatever
/// follows it.
proof fn header_read(b: Seq<u8>, h: CallHeaderView)
    requires
        32 + h.body().len() <= b.len(),
        b.subrange(32, 32 + h.body().len() as int) == h.body(),
    ensures
        CallHeaderView::read(b, h.head) == Some(kept_header(h)),
{
    let body = h.body();
    let w = b.subrange(32, 32 + body.len() as int);
    assert(b[32] == w[0] && b[33] == w[1]);
    assert(b.subrange(34, 36) =~= w.subrange(2, 4));
    assert(body.subrange(2, 4) =~= wire::le16(h.sysid as int));
    wire::lemma_at16(b, 34, h.sysid as int);
    assert(b.subrange(36, 40) =~= w.subrange(4, 8));
    assert(body.subrange(4, 8) =~= wire::le32(h.tg as int));
    wire::lemma_at32(b, 36, h.tg as int);
    assert(b.subrange(40, 44) =~= w.subrange(8, 12));
    assert(body.subrange(8, 12) =~= wire::le32(h.src as int));
    wire::lemma_at32(b, 40, h.src as int);
    assert(b.subrange(44, 48) =~= w.subrange(12, 16));
    assert(body.subrange(12, 16) =~= wire::le32(h.wacn as int));
    wire::lemma_at32(b, 44, h.wacn as int);
    let n = wire::str_field(h.system).len() as int;
    assert(b.subrange(48, 48 + n) =~= w.subrange(16, 16 + n));
    assert(body.subrange(16, 16 + n) =~= wire::str_field(h.system));
    string_reads_back(b, 48, h.system);
}

/// A trailer whose body opens the body of `b` is read from `b`, whatever
/// follows it.
proof fn trailer_read(b: Seq<u8>, t: CallTrailerView)
    requires
        32 + t.body().len() <= b.len(),
        b.subrange(32, 32 + t.body().len() as int) == t.body(),
    ensures
        CallTrailerView::read(b, t.head) == Some(kept_trailer(t)),
{
    let body = t.body();
    let w = b.subrange(32, 32 + body.len() as int);
    assert(b.subrange(32, 36) =~= w.subrange(0, 4));
    assert(body.subrange(0, 4) =~= wire::le32(t.duration_ms as int));
    wire::lemma_at32(b, 32, t.duration_ms as int);
    assert(b.subrange(36, 40) =~= w.subrange(4, 8));
    assert(body.subrange(4, 8) =~= wire::le32(t.tg as int));
    wire::lemma_at32(b, 36, t.tg as int);
    assert(b.subrange(40, 44) =~= w.subrange(8, 12));
    assert(body.subrange(8, 12) =~= wire::le32(t.src as int));
    wire::lemma_at32(b, 40, t.src as int);
    assert(b.subrange(44, 48) =~= w.subrange(12, 16));
    assert(body.subrange(12, 16) =~= wire::le32(t.delta_db.bits as int));
    wire::lemma_at32(b, 44, t.delta_db.bits as int);
    assert(b.subrange(48, 52) =~= w.subrange(16, 20));
    assert(body.subrange(16, 20) =~= wire::le32(t.signal_db.bits as int));
    wire::lemma_at32(b, 48, t.signal_db.bits as int);
    assert(b.subrange(52, 56) =~= w.subrange(20, 24));
    assert(body.subrange(20, 24) =~= wire::le32(t.floor_db.bits as int));
    wire::lemma_at32(b, 52, t.floor_db.bits as int);
    assert(b.subrange(56, 60) =~= w.subrange(24, 28));
    assert(body.subrange(24, 28) =~= wire::le32(t.offset_hz as int));
    wire::lemma_at32_signed(b, 56, t.offset_hz as int);
    let n = wire::str_field(t.alias).len() as int;
    let m = wire::str_field(t.alphatag).len() as int;
    assert(b.subrange(60, 60 + n) =~= w.subrange(28, 28 + n));
    assert(body.subrange(28, 28 + n) =~= wire::str_field(t.alias));
    string_reads_back(b, 60, t.alias);
    assert(b.subrange(60 + n, 60 + n + m) =~= w.subrange(28 + n, 28 + n + m));
    assert(body.subrange(28 + n, 28 + n + m) =~= wire::str_field(t.alphatag));
    string_reads_back(b, 60 + n, t.alphatag);
}

/// A call header that was encoded is the record that is read back, with
/// its system name as the wire keeps it, whatever follows in the buffer
/// and whatever `tail` a later revision puts behind the known layout.
pub proof fn header_reads_back(h: CallHeaderView, tail: Seq<u8>, rest: Seq<u8>)
    requires
        32 + h.body().len() + tail.len() <= 65_528,
    ensures
        ({
            let f = record::framed(TYP_CALL_HEADER, h.head, h.body() + tail);
            record::record_at(f + rest) == Some((RecordView::Header(kept_header(h)), f.len() as int))
        }),
        encode_utf8(h.system).len() <= 255 ==> kept_header(h) == h,
{
    let f = record::framed(TYP_CALL_HEADER, h.head, h.body() + tail);
    framed_head(TYP_CALL_HEADER, h.head, h.body() + tail, rest);
    assert(f.subrange(32, 32 + h.body().len() as int) =~= f.subrange(
        32,
        32 + (h.body() + tail).len() as int,
    ).take(h.body().len() as int));
    assert((h.body() + tail).take(h.body().len() as int) =~= h.body());
    header_read(f, h);
    encode_utf8_valid_utf8(h.system);
    encode_utf8_decode_utf8(h.system);
}

/// A call trailer that was encoded is the record that is read back, with
/// its texts as the wire keeps them, whatever follows in the buffer and
/// whatever `tail` a later revision puts behind the known layout.
pub proof fn trailer_reads_back(t: CallTrailerView, tail: Seq<u8>, rest: Seq<u8>)
    requires
        32 + t.body().len() + tail.len() <= 65_528,
    ensures
        ({
            let f = record::framed(TYP_CALL_TRAILER, t.head, t.body() + tail);
            record::record_at(f + rest) == Some(
                (RecordView::Trailer(kept_trailer(t)), f.len() as int),
            )
        }),
        encode_utf8(t.alias).len() <= 255 && encode_utf8(t.alphatag).len() <= 255 ==> kept_trailer(
            t,
        ) == t,
{
    let f = record::framed(TYP_CALL_TRAILER, t.head, t.body() + tail);
    framed_head(TYP_CALL_TRAILER, t.head, t.body() + tail, rest);
    assert(f.subrange(32, 32 + t.body().len() as int) =~= f.subrange(
        32,
        32 + (t.body() + tail).len() as int,
    ).take(t.body().len() as int));
    assert((t.body() + tail).take(t.body().len() as int) =~= t.body());
    trailer_read(f, t);
    encode_utf8_valid_utf8(t.alias);
    encode_utf8_decode_utf8(t.alias);
    encode_utf8_valid_utf8(t.alphatag);
    encode_utf8_decode_utf8(t.alphatag);
}

/// An encryption sync that was encoded is the record that is read back,
/// whatever follows in the buffer and whatever `tail` a later revision
/// puts behind the known layout.
pub proof fn ess_reads_back(e: EssView, tail: Seq<u8>, rest: Seq<u8>)
    requires
        e.ess.len() == 12,
        44 + tail.len() <= 65_528,
    ensures
        ({
            let f = record::framed(TYP_ESS, e.head, e.ess + tail);
            record::record_at(f + rest) == Some((RecordView::Ess(e), f.len() as int))
        }),
{
    let f = record::framed(TYP_ESS, e.head, e.ess + tail);
    framed_head(TYP_ESS, e.head, e.ess + tail, rest);
    assert(f.subrange(32, 44) =~= f.subrange(32, 32 + (e.ess + tail).len() as int).take(12));
    assert((e.ess + tail).take(12) =~= e.ess);
}

/// The type is one whose body the record reader leaves alone.
pub open spec fn unowned(typ: u8) -> bool {
    typ != TYP_CALL_HEADER && typ != TYP_CALL_TRAILER && typ != TYP_ESS
}

/// A record of a type that the reader does not own comes back as its own
/// octets, whatever follows in the buffer.
pub proof fn unowned_reads_back(typ: u8, h: MsgHead, body: Seq<u8>, rest: Seq<u8>)
    requires
        unowned(typ),
        32 + body.len() <= 65_528,
    ensures
        ({
            let f = record::framed(typ, h, body);
            record::record_at(f + rest) == Some(
                (RecordView::Raw(RawView { typ, head: h, bytes: f }), f.len() as int),
            )
        }),
{
    framed_head(typ, h, body, rest);
}

/// A raw record holds the octets that it was read from, so that writing
/// it out again emits them verbatim.
pub proof fn raw_is_verbatim(b: Seq<u8>)
    ensures
        record::record_at(b) matches Some((RecordView::Raw(r), n)) ==> {
            &&& r.bytes == b.take(n)
            &&& RecordView::Raw(r).octets() == b.take(n)
            &&& unowned(r.typ)
        },
{
}

/// A record that the wire carries unchanged.
pub open spec fn wire_safe(r: RecordView) -> bool {
    match r {
        RecordView::Header(h) => encode_utf8(h.system).len() <= 255,
        RecordView::Trailer(t) => encode_utf8(t.alias).len() <= 255 && encode_utf8(
            t.alphatag,
        ).len() <= 255,
        RecordView::Ess(e) => e.ess.len() == 12,
        RecordView::Raw(w) => unowned(w.typ) && record::head_at(w.bytes) == Some(
            (w.typ, w.head, w.bytes.len() as int),
        ),
    }
}

/// Every record that is read is one that the wire carries unchanged,
/// where its texts still fit their fields.
pub proof fn read_is_wire_safe(b: Seq<u8>)
    ensures
        record::record_at(b) matches Some((r, n)) ==> {
            ||| r is Header
            ||| r is Trailer
            ||| wire_safe(r)
        },
{
    reveal(record::head_at);
    if let Some((r, n)) = record::record_at(b) {
        let f = b.take(n);
        assert(f.take(4) =~= b.take(4));
    }
}

proof fn header_record_reads_back(h: CallHeaderView, rest: Seq<u8>)
    requires
        encode_utf8(h.system).len() <= 255,
    ensures
        record::record_at(h.octets() + rest) == Some(
            (RecordView::Header(h), h.octets().len() as int),
        ),
        h.octets().len() % 8 == 0,
        32 <= h.octets().len() <= 65_528,
{
    assert(h.body() + Seq::<u8>::empty() =~= h.body());
    framed_head(TYP_CALL_HEADER, h.head, h.body(), rest);
    header_reads_back(h, Seq::empty(), rest);
}

proof fn trailer_record_reads_back(t: CallTrailerView, rest: Seq<u8>)
    requires
        encode_utf8(t.alias).len() <= 255,
        encode_utf8(t.alphatag).len() <= 255,
    ensures
        record::record_at(t.octets() + rest) == Some(
            (RecordView::Trailer(t), t.octets().len() as int),
        ),
        t.octets().len() % 8 == 0,
        32 <= t.octets().len() <= 65_528,
{
    assert(t.body() + Seq::<u8>::empty() =~= t.body());
    framed_head(TYP_CALL_TRAILER, t.head, t.body(), rest);
    trailer_reads_back(t, Seq::empty(), rest);
}

proof fn ess_record_reads_back(e: EssView, rest: Seq<u8>)
    requires
        e.ess.len() == 12,
    ensures
        record::record_at(e.octets() + rest) == Some((RecordView::Ess(e), e.octets().len() as int)),
        e.octets().len() % 8 == 0,
        32 <= e.octets().len() <= 65_528,
{
    assert(e.ess + Seq::<u8>::empty() =~= e.ess);
    framed_head(TYP_ESS, e.head, e.ess, rest);
    ess_reads_back(e, Seq::empty(), rest);
}

/// One encode, one parse: what was encoded is what is read, whatever
/// follows, and it takes up exactly the octets that were written, which
/// keep the alignment.
pub proof fn record_reads_back(r: RecordView, rest: Seq<u8>)
    requires
        wire_safe(r),
    ensures
        record::record_at(r.octets() + rest) == Some((r, r.octets().len() as int)),
        r.octets().len() % 8 == 0,
        32 <= r.octets().len() <= 65_528,
{
    match r {
        RecordView::Header(h) => header_record_reads_back(h, rest),
        RecordView::Trailer(t) => trailer_record_reads_back(t, rest),
        RecordView::Ess(e) => ess_record_reads_back(e, rest),
        RecordView::Raw(w) => {
            reveal(record::head_at);
            record_is_local(w.bytes, rest);
            assert(w.bytes.take(w.bytes.len() as int) =~= w.bytes);
        },
    }
}

/// The declared length is authoritative: what a record is read as rests
/// on its own octets alone.
pub proof fn record_is_local(b: Seq<u8>, rest: Seq<u8>)
    ensures
        record::record_at(b) matches Some((r, n)) ==> {
            &&& 32 <= n <= b.len()
            &&& record::record_at(b.take(n) + rest) == Some((r, n))
        },
{
    reveal(record::head_at);
    if let Some((r, n)) = record::record_at(b) {
        let c = b.take(n) + rest;
        assert(c.take(4) =~= b.take(4));
        assert(c.take(n) =~= b.take(n));
        assert forall|i: int| 0 <= i < 32 implies c[i] == b[i] by {}
    }
}

// ---------------------------------------------------------------------
// Streams.
// ---------------------------------------------------------------------
/// The octets of records, one after the other.
pub open spec fn written(rs: Seq<RecordView>) -> Seq<u8>
    decreases rs.len(),
{
    if rs.len() == 0 {
        Seq::empty()
    } else {
        rs[0].octets() + written(rs.drop_first())
    }
}

proof fn stream_step(o: Seq<u8>, r: RecordView, more: Seq<u8>)
    requires
        record::record_at(o + more) == Some((r, o.len() as int)),
    ensures
        record::stream(o + more) == seq![r] + record::stream(more),
{
    assert((o + more).skip(o.len() as int) =~= more);
}

/// The file is the recorded stream: records that were written one after
/// the other are read in that order, and the reading goes on with what
/// follows them.
pub proof fn stream_reads_back(rs: Seq<RecordView>, rest: Seq<u8>)
    requires
        forall|i: int| 0 <= i < rs.len() ==> wire_safe(#[trigger] rs[i]),
    ensures
        record::stream(written(rs) + rest) == rs + record::stream(rest),
    decreases rs.len(),
{
    if rs.len() == 0 {
        assert(written(rs) + rest =~= rest);
        assert(rs + record::stream(rest) =~= record::stream(rest));
    } else {
        let tail = rs.drop_first();
        let head = rs[0].octets();
        stream_reads_back(tail, rest);
        record_reads_back(rs[0], written(tail) + rest);
        let more = written(tail) + rest;
        stream_step(head, rs[0], more);
        assert(written(rs) + rest =~= head + more) by {
            assert(written(rs) == head + written(tail));
        }
        assert(rs + record::stream(rest) =~= seq![rs[0]] + (tail + record::stream(rest)));
    }
}

/// Trailing octets that open no record are not read.
pub proof fn stream_ignores_garbage(rs: Seq<RecordView>, junk: Seq<u8>)
    requires
        forall|i: int| 0 <= i < rs.len() ==> wire_safe(#[trigger] rs[i]),
        record::record_at(junk) is None,
    ensures
        record::stream(written(rs) + junk) == rs,
{
    stream_reads_back(rs, junk);
    assert(rs + record::stream(junk) =~= rs);
}

/// The octets that the first `m` records of `b` take up.
pub open spec fn span(b: Seq<u8>, m: nat) -> int
    decreases m,
{
    if m == 0 {
        0
    } else {
        match record::record_at(b) {
            Some((r, n)) => n + span(b.skip(n), (m - 1) as nat),
            None => 0,
        }
    }
}

/// Reading may start at any record: from there on the stream is the same.
pub proof fn stream_resumes(b: Seq<u8>, m: nat)
    requires
        m <= record::stream(b).len(),
    ensures
        0 <= span(b, m) <= b.len(),
        record::stream(b.skip(span(b, m))) == record::stream(b).skip(m as int),
    decreases m,
{
    if m == 0 {
        assert(b.skip(0) =~= b);
        assert(record::stream(b).skip(0) =~= record::stream(b));
    } else {
        let (r, n) = record::record_at(b)->0;
        record_is_local(b, Seq::empty());
        let rest = b.skip(n);
        assert(record::stream(b) == seq![r] + record::stream(rest));
        stream_resumes(rest, (m - 1) as nat);
        assert(b.skip(span(b, m)) =~= rest.skip(span(rest, (m - 1) as nat)));
        assert(record::stream(b).skip(m as int) =~= record::stream(rest).skip(m - 1));
    }
}

/// The record at the front survives a cut behind it, and no other does.
proof fn cut_record(b: Seq<u8>, k: int)
    requires
        0 <= k <= b.len(),
    ensures
        match record::record_at(b) {
            Some((r, n)) => 32 <= n <= b.len() && record::record_at(b.take(k)) == if n <= k {
                Some((r, n))
            } else {
                None
            },
            None => record::record_at(b.take(k)) is None,
        },
{
    let c = b.take(k);
    if let Some((r, n)) = record::record_at(b) {
        record_is_local(b, c.skip(n));
        if n <= k {
            assert(b.take(n) + c.skip(n) =~= c);
        }
    }
    if let Some((r, n)) = record::record_at(c) {
        record_is_local(c, b.skip(n));
        assert(c.take(n) + b.skip(n) =~= b);
    }
}

/// A cut at `k` keeps every record that ends at or before it and loses
/// the rest: the records that are left are the first ones, and less than
/// one whole record lies between them and the cut.
#[verifier::spinoff_prover]
pub proof fn cut_loses_only_what_it_cuts(b: Seq<u8>, k: int)
    requires
        0 <= k <= b.len(),
    ensures
        ({
            let left = record::stream(b.take(k));
            let all = record::stream(b);
            &&& left.len() <= all.len()
            &&& left == all.take(left.len() as int)
            &&& span(b, left.len()) <= k
            &&& left.len() < all.len() ==> k < span(b, left.len() + 1)
        }),
    decreases b.len(),
{
    let left = record::stream(b.take(k));
    let all = record::stream(b);
    cut_record(b, k);
    match record::record_at(b) {
        Some((r, n)) if n <= k => {
            let rest = b.skip(n);
            cut_loses_only_what_it_cuts(rest, k - n);
            let shorter = record::stream(rest.take(k - n));
            assert(b.take(k).skip(n) =~= rest.take(k - n));
            assert(all == seq![r] + record::stream(rest));
            assert(left == seq![r] + shorter);
            assert(left =~= all.take(left.len() as int));
            assert(span(b, left.len()) == n + span(rest, shorter.len()));
            assert(span(b, left.len() + 1) == n + span(rest, shorter.len() + 1));
        },
        Some((r, n)) => {
            assert(left =~= all.take(0));
            assert(span(b, 1) == n + span(b.skip(n), 0));
        },
        None => {
            assert(left =~= all.take(0));
        },
    }
}

/// Every mode stands on the wire as a value that reads back as the mode,
/// and zeroed memory never reads as one.
pub proof fn modes_read_back(m: record::Mode)
    ensures
        record::Mode::of(m.wire_value()) == Some(m),
        record::Mode::of(0) is None,
{
}

} // verus!
