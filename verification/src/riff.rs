//! The RIFF/WAVE chunk walk a conventional call's metadata rides on:
//! the recorder embeds the sidecar JSON as an `MSDR` chunk after `data`
//! (players skip chunk ids they do not know, so the file plays
//! everywhere), and any reader — server, browser, phone — pulls it out
//! with [`chunk`] and `Sidecar::parse`. No audio decoding, no
//! dependency: bytes in, a slice out.
use crate::wire;
use crate::wire::u32le;
use vstd::prelude::*;
use vstd::utf8::*;

verus! {

/// The chunk id the sidecar rides in.
pub const MSDR: [u8; 4] = [0x4D, 0x53, 0x44, 0x52];

/// The octets open a RIFF/WAVE file.
pub open spec fn is_wave(b: Seq<u8>) -> bool {
    &&& b.len() >= 12
    &&& b.take(4) == seq![0x52u8, 0x49, 0x46, 0x46]
    &&& b.subrange(8, 12) == seq![0x57u8, 0x41, 0x56, 0x45]
}

/// The payload of the first chunk `id` of a chunk list, each chunk an id,
/// a size, that many octets, and one octet more where the size is odd.
pub open spec fn first_chunk(s: Seq<u8>, id: Seq<u8>) -> Option<Seq<u8>>
    decreases s.len(),
{
    let n = wire::at32(s, 4);
    let next = 8 + n + n % 2;
    if s.len() < 8 {
        None
    } else if s.take(4) == id {
        if 8 + n <= s.len() {
            Some(s.subrange(8, 8 + n))
        } else {
            None
        }
    } else if next <= s.len() {
        first_chunk(s.skip(next), id)
    } else {
        None
    }
}

/// The payload of chunk `id` of a RIFF/WAVE file.
pub open spec fn chunk_of(b: Seq<u8>, id: Seq<u8>) -> Option<Seq<u8>> {
    if is_wave(b) {
        first_chunk(b.skip(12), id)
    } else {
        None
    }
}

/// Calls `core::str::from_utf8`, which accepts exactly the octets that are
/// valid UTF-8 and gives the text that they encode.
#[verifier::external_body]
fn utf8_text(octets: &[u8]) -> (s: Option<&str>)
    ensures
        s is Some <==> valid_utf8(octets@),
        s matches Some(t) ==> t@ == decode_utf8(octets@),
{
    core::str::from_utf8(octets).ok()
}

/// The four octets of `b` at `i` are `w`.
fn tag_at(b: &[u8], i: usize, w: &[u8; 4]) -> (r: bool)
    requires
        i + 4 <= b.len(),
    ensures
        r == (b@.subrange(i as int, i + 4) == w@),
{
    let r = b[i] == w[0] && b[i + 1] == w[1] && b[i + 2] == w[2] && b[i + 3] == w[3];
    proof {
        let t = b@.subrange(i as int, i + 4);
        assert(t[0] == b@[i as int] && t[1] == b@[i + 1] && t[2] == b@[i + 2] && t[3] == b@[i + 3]);
        if r {
            assert(t =~= w@);
        }
    }
    r
}

/// Find chunk `id` in a RIFF/WAVE byte buffer and return its payload.
/// Walks chunks by their declared sizes (the same rule that keeps
/// players from rendering the metadata as audio); `None` when the
/// buffer isn't RIFF/WAVE or has no such chunk.
pub fn chunk<'a>(bytes: &'a [u8], id: &[u8; 4]) -> (r: Option<&'a [u8]>)
    ensures
        r is Some <==> chunk_of(bytes@, id@) is Some,
        r matches Some(p) ==> chunk_of(bytes@, id@) == Some(p@),
{
    let riff: [u8; 4] = [0x52, 0x49, 0x46, 0x46];
    let wave: [u8; 4] = [0x57, 0x41, 0x56, 0x45];
    assert(riff@ =~= seq![0x52u8, 0x49, 0x46, 0x46]);
    assert(wave@ =~= seq![0x57u8, 0x41, 0x56, 0x45]);
    if bytes.len() < 12 {
        return None;
    }
    assert(bytes@.take(4) =~= bytes@.subrange(0, 4));
    if !tag_at(bytes, 0, &riff) || !tag_at(bytes, 8, &wave) {
        return None;
    }
    let mut i: usize = 12;
    while bytes.len() - i >= 8
        invariant
            12 <= i <= bytes.len(),
            chunk_of(bytes@, id@) == first_chunk(bytes@.skip(i as int), id@),
        decreases bytes.len() - i,
    {
        let ghost s = bytes@.skip(i as int);
        let n: u32 = u32le(bytes, i + 4);
        assert(wire::at32(s, 4) == n);
        assert(s.take(4) =~= bytes@.subrange(i as int, i + 4));
        let left: usize = bytes.len() - i;
        if tag_at(bytes, i, id) {
            if n as u64 > (left - 8) as u64 {
                return None;
            }
            let end: usize = i + 8 + n as usize;
            assert(s.subrange(8, 8 + n) =~= bytes@.subrange(i + 8, end as int));
            return Some(&bytes[i + 8..end]);
        }
        let next: u64 = 8 + n as u64 + (n % 2) as u64;
        if next > left as u64 {
            return None;
        }
        assert(s.skip(next as int) =~= bytes@.skip(i + next));
        i = i + next as usize;
    }
    None
}

/// The sidecar JSON text inside a conventional WAV, if any.
pub fn sidecar_text(bytes: &[u8]) -> (r: Option<&str>)
    ensures
        r is Some <==> (chunk_of(bytes@, MSDR@) is Some && valid_utf8(
            chunk_of(bytes@, MSDR@)->0,
        )),
        r matches Some(t) ==> t@ == decode_utf8(chunk_of(bytes@, MSDR@)->0),
{
    match chunk(bytes, &MSDR) {
        Some(p) => utf8_text(p),
        None => None,
    }
}

// ---------------------------------------------------------------------
// Laws.
// ---------------------------------------------------------------------
/// A chunk as it stands in a file.
pub open spec fn chunk_octets(id: Seq<u8>, payload: Seq<u8>) -> Seq<u8> {
    id + wire::le32(payload.len() as int) + payload + wire::zeros(payload.len() as int % 2)
}

/// Chunks, one after the other.
pub open spec fn chunk_list(chunks: Seq<(Seq<u8>, Seq<u8>)>) -> Seq<u8>
    decreases chunks.len(),
{
    if chunks.len() == 0 {
        Seq::empty()
    } else {
        let (id, payload) = chunks[0];
        chunk_octets(id, payload) + chunk_list(chunks.drop_first())
    }
}

/// A RIFF/WAVE file of chunks, with whatever its size field says.
pub open spec fn wave_file(size: u32, chunks: Seq<(Seq<u8>, Seq<u8>)>) -> Seq<u8> {
    seq![0x52u8, 0x49, 0x46, 0x46] + wire::le32(size as int) + seq![0x57u8, 0x41, 0x56, 0x45]
        + chunk_list(chunks)
}

/// The first payload under `id`.
pub open spec fn lookup(chunks: Seq<(Seq<u8>, Seq<u8>)>, id: Seq<u8>) -> Option<Seq<u8>>
    decreases chunks.len(),
{
    if chunks.len() == 0 {
        None
    } else {
        let (first, payload) = chunks[0];
        if first == id {
            Some(payload)
        } else {
            lookup(chunks.drop_first(), id)
        }
    }
}

/// The walk finds what a file was made of: the payload of the first chunk
/// of that id, odd sizes and their pad octets included, and nothing where
/// no chunk has it.
pub proof fn chunk_is_found(size: u32, chunks: Seq<(Seq<u8>, Seq<u8>)>, id: Seq<u8>)
    requires
        forall|i: int|
            0 <= i < chunks.len() ==> (#[trigger] chunks[i]).0.len() == 4 && chunks[i].1.len()
                < 0x1_0000_0000,
    ensures
        chunk_of(wave_file(size, chunks), id) == lookup(chunks, id),
{
    let f = wave_file(size, chunks);
    assert(f.take(4) =~= seq![0x52u8, 0x49, 0x46, 0x46]);
    assert(f.subrange(8, 12) =~= seq![0x57u8, 0x41, 0x56, 0x45]);
    assert(f.skip(12) =~= chunk_list(chunks));
    list_is_walked(chunks, id);
}

proof fn list_is_walked(chunks: Seq<(Seq<u8>, Seq<u8>)>, id: Seq<u8>)
    requires
        forall|i: int|
            0 <= i < chunks.len() ==> (#[trigger] chunks[i]).0.len() == 4 && chunks[i].1.len()
                < 0x1_0000_0000,
    ensures
        first_chunk(chunk_list(chunks), id) == lookup(chunks, id),
    decreases chunks.len(),
{
    if chunks.len() > 0 {
        let (first, payload) = chunks[0];
        let n = payload.len() as int;
        let s = chunk_list(chunks);
        let c = chunk_octets(first, payload);
        let tail = chunks.drop_first();
        assert forall|i: int| 0 <= i < tail.len() implies (#[trigger] tail[i]).0.len() == 4
            && tail[i].1.len() < 0x1_0000_0000 by {
            assert(tail[i] == chunks[i + 1]);
        }
        list_is_walked(tail, id);
        assert(s =~= c + chunk_list(tail));
        assert(s.take(4) =~= first);
        assert(s.subrange(4, 8) =~= wire::le32(n));
        wire::lemma_at32(s, 4, n);
        assert(s.subrange(8, 8 + n) =~= payload);
        assert(s.skip(8 + n + n % 2) =~= chunk_list(tail));
    }
}

/// The walk by offset. A file opens with `RIFF`, a size that is not looked
/// at, and `WAVE`; the first chunk stands at 12, its id in four octets and
/// its size in the next four, least significant first. A chunk of the id is
/// the answer, where all of it is there. A chunk of another id is stepped
/// over, with one octet more where its size is odd, and the file without it
/// gives the same answer.
pub proof fn chunks_by_offset(b: Seq<u8>, id: Seq<u8>)
    requires
        id.len() == 4,
    ensures
        ({
            let riff = b.len() >= 12 && b[0] == 0x52 && b[1] == 0x49 && b[2] == 0x46 && b[3] == 0x46
                && b[8] == 0x57 && b[9] == 0x41 && b[10] == 0x56 && b[11] == 0x45;
            let n = b[16] + 0x100 * b[17] + 0x1_0000 * b[18] + 0x100_0000 * b[19];
            let named = b[12] == id[0] && b[13] == id[1] && b[14] == id[2] && b[15] == id[3];
            let next = 20 + n + n % 2;
            &&& !riff || b.len() < 20 ==> chunk_of(b, id) is None
            &&& riff && b.len() >= 20 && named ==> {
                &&& chunk_of(b, id) is Some <==> 20 + n <= b.len()
                &&& chunk_of(b, id) matches Some(p) ==> p.len() == n && forall|k: int|
                    0 <= k < n ==> #[trigger] p[k] == b[20 + k]
            }
            &&& riff && b.len() >= 20 && !named ==> {
                &&& next > b.len() ==> chunk_of(b, id) is None
                &&& next <= b.len() ==> chunk_of(b, id) == chunk_of(b.take(12) + b.skip(next), id)
            }
        }),
{
    let r = seq![0x52u8, 0x49, 0x46, 0x46];
    let w = seq![0x57u8, 0x41, 0x56, 0x45];
    if b.len() >= 12 {
        let x = b.take(4);
        let y = b.subrange(8, 12);
        assert(x[0] == b[0] && x[1] == b[1] && x[2] == b[2] && x[3] == b[3]);
        assert(y[0] == b[8] && y[1] == b[9] && y[2] == b[10] && y[3] == b[11]);
        if b[0] == 0x52 && b[1] == 0x49 && b[2] == 0x46 && b[3] == 0x46 {
            assert(x =~= r);
        }
        if b[8] == 0x57 && b[9] == 0x41 && b[10] == 0x56 && b[11] == 0x45 {
            assert(y =~= w);
        }
    }
    if b.len() >= 20 && is_wave(b) {
        let s = b.skip(12);
        let z = s.take(4);
        assert(z[0] == b[12] && z[1] == b[13] && z[2] == b[14] && z[3] == b[15]);
        if b[12] == id[0] && b[13] == id[1] && b[14] == id[2] && b[15] == id[3] {
            assert(z =~= id);
        }
        let n = wire::at32(s, 4);
        let next = 20 + n + n % 2;
        if next <= b.len() {
            let c = b.take(12) + b.skip(next);
            assert(c.take(4) =~= b.take(4));
            assert(c.subrange(8, 12) =~= b.subrange(8, 12));
            assert(c.skip(12) =~= s.skip(8 + n + n % 2));
        }
    }
}

/// The sidecar's chunk is named by its four letters.
pub proof fn the_sidecar_chunk_is_named()
    ensures
        MSDR@ == seq![0x4Du8, 0x53, 0x44, 0x52],
{
    assert(MSDR@ =~= seq![0x4Du8, 0x53, 0x44, 0x52]);
}

} // verus!
