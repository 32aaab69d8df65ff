//! The octet-level vocabulary of the record format: little-endian
//! integers, zero padding, and the length-prefixed strings.
use vstd::prelude::*;
use vstd::string::*;
use vstd::utf8::*;

verus! {

/// Records are padded to a multiple of this, so every head — and every
/// naturally aligned field behind it — stays aligned in a mapped file.
pub const RECORD_ALIGN: usize = 8;

// ---------------------------------------------------------------------
// The model: integers and strings as octets.
// ---------------------------------------------------------------------
/// The two octets of `v`, least significant first (two's complement for a
/// negative `v`).
pub open spec fn le16(v: int) -> Seq<u8> {
    seq![(v % 256) as u8, (v / 256 % 256) as u8]
}

/// The four octets of `v`, least significant first.
pub open spec fn le32(v: int) -> Seq<u8> {
    le16(v) + le16(v / 0x1_0000)
}

/// The eight octets of `v`, least significant first.
pub open spec fn le64(v: int) -> Seq<u8> {
    le32(v) + le32(v / 0x1_0000_0000)
}

/// The unsigned value of the two octets of `b` at `i`.
pub open spec fn at16(b: Seq<u8>, i: int) -> int {
    b[i] + 256 * b[i + 1]
}

/// The unsigned value of the four octets of `b` at `i`.
pub open spec fn at32(b: Seq<u8>, i: int) -> int {
    at16(b, i) + 0x1_0000 * at16(b, i + 2)
}

/// The unsigned value of the eight octets of `b` at `i`.
pub open spec fn at64(b: Seq<u8>, i: int) -> int {
    at32(b, i) + 0x1_0000_0000 * at32(b, i + 4)
}

/// A 32-bit pattern read as a two's complement number.
pub open spec fn signed32(v: int) -> int {
    if v < 0x8000_0000 {
        v
    } else {
        v - 0x1_0000_0000
    }
}

/// `n` zero octets.
pub open spec fn zeros(n: int) -> Seq<u8> {
    Seq::new(if n < 0 { 0 } else { n as nat }, |i: int| 0u8)
}

/// `n` rounded up to the record alignment.
pub open spec fn padded(n: int) -> int {
    (n + 7) / 8 * 8
}

/// The octets of a string that fit a length-prefixed field.
pub open spec fn str_octets(s: Seq<char>) -> Seq<u8> {
    let b = encode_utf8(s);
    if b.len() <= 255 {
        b
    } else {
        b.take(255)
    }
}

/// A length-prefixed string field.
pub open spec fn str_field(s: Seq<char>) -> Seq<u8> {
    seq![str_octets(s).len() as u8] + str_octets(s)
}

/// The string field of `b` at `at` with the octets it takes up, where the
/// field fits.
pub open spec fn str_at(b: Seq<u8>, at: int) -> Option<(Seq<char>, int)> {
    if 0 <= at < b.len() && at + 1 + b[at] <= b.len() {
        Some((lossy_text(b.subrange(at + 1, at + 1 + b[at])), 1 + b[at]))
    } else {
        None
    }
}

/// Rows of octets, one after the other.
pub open spec fn joined(rows: Seq<Seq<u8>>) -> Seq<u8>
    decreases rows.len(),
{
    if rows.len() == 0 {
        Seq::empty()
    } else {
        joined(rows.drop_last()) + rows.last()
    }
}

/// The `n` rows of `w` octets that `b` holds from `at` on.
pub open spec fn rows_at(b: Seq<u8>, at: int, n: nat, w: int) -> Seq<Seq<u8>> {
    Seq::new(n, |i: int| b.subrange(at + w * i, at + w * i + w))
}

/// The rows of a two-dimensional array.
pub open spec fn rows<const W: usize, const N: usize>(a: [[u8; W]; N]) -> Seq<Seq<u8>> {
    Seq::new(N as nat, |i: int| a@[i]@)
}

/// Rows of one width, written one after the other, read back.
pub proof fn lemma_joined(rs: Seq<Seq<u8>>, w: int, b: Seq<u8>, at: int)
    requires
        0 <= at,
        0 <= w,
        forall|i: int| 0 <= i < rs.len() ==> (#[trigger] rs[i]).len() == w,
        at + joined(rs).len() <= b.len(),
        b.subrange(at, at + joined(rs).len()) == joined(rs),
    ensures
        joined(rs).len() == rs.len() * w,
        rows_at(b, at, rs.len(), w) == rs,
    decreases rs.len(),
{
    if rs.len() > 0 {
        let init = rs.drop_last();
        let n = joined(init).len() as int;
        assert(b.subrange(at, at + n) =~= b.subrange(at, at + joined(rs).len()).subrange(0, n));
        assert(joined(rs).subrange(0, n) =~= joined(init));
        lemma_joined(init, w, b, at);
        assert(joined(rs).len() == n + w);
        assert(n == (rs.len() - 1) * w);
        assert((rs.len() - 1) * w + w == rs.len() * w) by (nonlinear_arith);
        assert(b.subrange(at + n, at + n + w) =~= b.subrange(at, at + joined(rs).len()).subrange(
            n,
            n + w,
        ));
        assert(joined(rs).subrange(n, n + w) =~= rs.last());
        assert(w * (rs.len() - 1) == n) by (nonlinear_arith)
            requires
                n == (rs.len() - 1) * w,
        ;
        assert forall|i: int| 0 <= i < rs.len() implies rows_at(b, at, rs.len(), w)[i] == rs[i] by {
            if i < rs.len() - 1 {
                assert(rows_at(b, at, init.len(), w)[i] == init[i]);
            }
        }
    }
    assert(rows_at(b, at, rs.len(), w) =~= rs);
}

/// The low half decides the two octets.
pub proof fn lemma_le16_low(v: int)
    ensures
        le16(v % 0x1_0000) == le16(v),
{
    let q = v / 0x1_0000;
    let r = v % 0x1_0000;
    assert(v == q * 0x1_0000 + r);
    assert(v / 256 == q * 256 + r / 256);
    assert(v % 256 == r % 256);
    assert((v / 256) % 256 == (r / 256) % 256);
}

/// The low half decides the four octets.
pub proof fn lemma_le32_low(v: int)
    ensures
        le32(v % 0x1_0000_0000) == le32(v),
{
    let q = v / 0x1_0000_0000;
    let r = v % 0x1_0000_0000;
    assert(v == q * 0x1_0000_0000 + r);
    assert(v / 0x1_0000 == q * 0x1_0000 + r / 0x1_0000);
    assert(v % 0x1_0000 == r % 0x1_0000);
    assert((v / 0x1_0000) % 0x1_0000 == (r / 0x1_0000) % 0x1_0000);
    lemma_le16_low(v);
    lemma_le16_low(r);
    lemma_le16_low(v / 0x1_0000);
    lemma_le16_low(r / 0x1_0000);
}

/// Two octets written at `i` read back.
pub proof fn lemma_at16(b: Seq<u8>, i: int, v: int)
    requires
        0 <= v < 0x1_0000,
        0 <= i,
        i + 2 <= b.len(),
        b.subrange(i, i + 2) == le16(v),
    ensures
        at16(b, i) == v,
{
    assert(b[i] == b.subrange(i, i + 2)[0]);
    assert(b[i + 1] == b.subrange(i, i + 2)[1]);
}

/// Four octets written at `i` read back.
pub proof fn lemma_at32(b: Seq<u8>, i: int, v: int)
    requires
        0 <= v < 0x1_0000_0000,
        0 <= i,
        i + 4 <= b.len(),
        b.subrange(i, i + 4) == le32(v),
    ensures
        at32(b, i) == v,
{
    assert(b.subrange(i, i + 2) =~= b.subrange(i, i + 4).subrange(0, 2));
    assert(b.subrange(i + 2, i + 4) =~= b.subrange(i, i + 4).subrange(2, 4));
    assert(le32(v).subrange(0, 2) =~= le16(v));
    assert(le32(v).subrange(2, 4) =~= le16(v / 0x1_0000));
    lemma_le16_low(v);
    lemma_at16(b, i, v % 0x1_0000);
    lemma_at16(b, i + 2, v / 0x1_0000);
}

/// Four octets written at `i` read back as a signed number.
pub proof fn lemma_at32_signed(b: Seq<u8>, i: int, v: int)
    requires
        -0x8000_0000 <= v < 0x8000_0000,
        0 <= i,
        i + 4 <= b.len(),
        b.subrange(i, i + 4) == le32(v),
    ensures
        signed32(at32(b, i)) == v,
{
    lemma_le32_low(v);
    lemma_at32(b, i, v % 0x1_0000_0000);
}

/// Eight octets written at `i` read back.
pub proof fn lemma_at64(b: Seq<u8>, i: int, v: int)
    requires
        0 <= v < 0x1_0000_0000_0000_0000,
        0 <= i,
        i + 8 <= b.len(),
        b.subrange(i, i + 8) == le64(v),
    ensures
        at64(b, i) == v,
{
    assert(b.subrange(i, i + 4) =~= b.subrange(i, i + 8).subrange(0, 4));
    assert(b.subrange(i + 4, i + 8) =~= b.subrange(i, i + 8).subrange(4, 8));
    assert(le64(v).subrange(0, 4) =~= le32(v));
    assert(le64(v).subrange(4, 8) =~= le32(v / 0x1_0000_0000));
    lemma_le32_low(v);
    lemma_at32(b, i, v % 0x1_0000_0000);
    lemma_at32(b, i + 4, v / 0x1_0000_0000);
}

// ---------------------------------------------------------------------
// Trusted: the standard library's lossy UTF-8 decoder.
// ---------------------------------------------------------------------
/// The text that `String::from_utf8_lossy` makes of octets that are not
/// UTF-8.
pub uninterp spec fn utf8_lossy(octets: Seq<u8>) -> Seq<char>;

/// The text that octets stand for: what they encode where they are valid
/// UTF-8, and otherwise what the replacement of the broken parts leaves.
pub open spec fn lossy_text(octets: Seq<u8>) -> Seq<char> {
    if valid_utf8(octets) {
        decode_utf8(octets)
    } else {
        utf8_lossy(octets)
    }
}

/// Calls `String::from_utf8_lossy`: octets that are valid UTF-8 come back
/// as the text that they encode, and of others the text is a function of
/// the octets. Where the replacement characters go is left unsaid.
#[verifier::external_body]
fn decode_lossy(octets: &[u8]) -> (s: String)
    ensures
        valid_utf8(octets@) ==> s@ == decode_utf8(octets@),
        !valid_utf8(octets@) ==> s@ == utf8_lossy(octets@),
{
    String::from_utf8_lossy(octets).into_owned()
}

// ---------------------------------------------------------------------
// Readers.
// ---------------------------------------------------------------------
pub fn u16le(b: &[u8], i: usize) -> (v: u16)
    requires
        i + 2 <= b.len(),
    ensures
        v == at16(b@, i as int),
{
    b[i] as u16 + 256 * b[i + 1] as u16
}

pub fn u32le(b: &[u8], i: usize) -> (v: u32)
    requires
        i + 4 <= b.len(),
    ensures
        v == at32(b@, i as int),
{
    u16le(b, i) as u32 + 0x1_0000 * u16le(b, i + 2) as u32
}

pub fn i32le(b: &[u8], i: usize) -> (v: i32)
    requires
        i + 4 <= b.len(),
    ensures
        v == signed32(at32(b@, i as int)),
{
    let u: u32 = u32le(b, i);
    if u < 0x8000_0000 {
        u as i32
    } else {
        (u as i64 - 0x1_0000_0000) as i32
    }
}

pub fn u64le(b: &[u8], i: usize) -> (v: u64)
    requires
        i + 8 <= b.len(),
    ensures
        v == at64(b@, i as int),
{
    u32le(b, i) as u64 + 0x1_0000_0000 * u32le(b, i + 4) as u64
}

/// Fill `a` with the octets of `b` from `i` on.
pub fn copy_octets<const N: usize>(a: &mut [u8; N], b: &[u8], i: usize)
    requires
        i + N <= b.len(),
    ensures
        final(a)@ == b@.subrange(i as int, i + N),
{
    let mut k: usize = 0;
    while k < N
        invariant
            k <= N,
            i + N <= b.len(),
            forall|j: int| 0 <= j < k ==> a@[j] == b@[i + j],
        decreases N - k,
    {
        a[k] = b[i + k];
        k = k + 1;
    }
    assert(a@ =~= b@.subrange(i as int, i + N));
}

/// Length-prefixed string at `at`, bounded by the record (`b` is already
/// sliced to the declared length, so the bound IS the declared length).
/// Returns the string and the WIRE bytes consumed (1 + n — the decoded
/// String's byte length can differ under lossy UTF-8 replacement).
pub fn take_str(b: &[u8], at: usize) -> (r: Option<(String, usize)>)
    ensures
        r is Some <==> str_at(b@, at as int) is Some,
        r matches Some((s, used)) ==> str_at(b@, at as int) == Some((s@, used as int)),
{
    if at >= b.len() {
        return None;
    }
    let n: usize = b[at] as usize;
    if n > b.len() - at - 1 {
        return None;
    }
    let s = decode_lossy(&b[at + 1..at + 1 + n]);
    Some((s, 1 + n))
}

// ---------------------------------------------------------------------
// Writers.
// ---------------------------------------------------------------------
/// Round up to the record alignment.
pub fn pad8(n: usize) -> (r: usize)
    requires
        n + 7 <= usize::MAX,
    ensures
        r == padded(n as int),
{
    (n + 7) / 8 * RECORD_ALIGN
}

/// Append `b` as it stands.
pub fn push_bytes(out: &mut Vec<u8>, b: &[u8])
    ensures
        final(out)@ == old(out)@ + b@,
{
    out.extend_from_slice(b);
    assert(out@ =~= old(out)@ + b@);
}

pub fn push_u16(out: &mut Vec<u8>, v: u16)
    ensures
        final(out)@ == old(out)@ + le16(v as int),
{
    out.push((v % 256) as u8);
    out.push((v / 256) as u8);
    assert(out@ =~= old(out)@ + le16(v as int));
}

pub fn push_u32(out: &mut Vec<u8>, v: u32)
    ensures
        final(out)@ == old(out)@ + le32(v as int),
{
    push_u16(out, (v % 0x1_0000) as u16);
    push_u16(out, (v / 0x1_0000) as u16);
    proof {
        lemma_le16_low(v as int);
    }
    assert(out@ =~= old(out)@ + le32(v as int));
}

pub fn push_i32(out: &mut Vec<u8>, v: i32)
    ensures
        final(out)@ == old(out)@ + le32(v as int),
{
    let u: u32 = if v >= 0 {
        v as u32
    } else {
        (v as i64 + 0x1_0000_0000) as u32
    };
    push_u32(out, u);
    proof {
        lemma_le32_low(v as int);
    }
}

pub fn push_u64(out: &mut Vec<u8>, v: u64)
    ensures
        final(out)@ == old(out)@ + le64(v as int),
{
    push_u32(out, (v % 0x1_0000_0000) as u32);
    push_u32(out, (v / 0x1_0000_0000) as u32);
    proof {
        lemma_le32_low(v as int);
    }
    assert(out@ =~= old(out)@ + le64(v as int));
}

/// Append the rows of `a`, one after the other.
pub fn push_rows<const W: usize, const N: usize>(out: &mut Vec<u8>, a: &[[u8; W]; N])
    ensures
        final(out)@ == old(out)@ + joined(rows(*a)),
{
    let mut i: usize = 0;
    assert(rows(*a).take(0) =~= Seq::<Seq<u8>>::empty());
    assert(out@ =~= old(out)@ + joined(rows(*a).take(0)));
    while i < N
        invariant
            i <= N,
            out@ == old(out)@ + joined(rows(*a).take(i as int)),
        decreases N - i,
    {
        push_bytes(out, &a[i]);
        assert(rows(*a).take(i + 1).drop_last() =~= rows(*a).take(i as int));
        assert(out@ =~= old(out)@ + joined(rows(*a).take(i + 1)));
        i = i + 1;
    }
    assert(rows(*a).take(N as int) =~= rows(*a));
}

/// Fill the rows of `a` with the octets of `b` from `at` on.
pub fn copy_rows<const W: usize, const N: usize>(a: &mut [[u8; W]; N], b: &[u8], at: usize)
    requires
        at + W * N <= b.len(),
    ensures
        rows(*final(a)) == rows_at(b@, at as int, N as nat, W as int),
{
    let mut i: usize = 0;
    while i < N
        invariant
            i <= N,
            at + W * N <= b.len(),
            forall|j: int|
                0 <= j < i ==> (#[trigger] a@[j])@ == b@.subrange(at + W * j, at + W * j + W),
        decreases N - i,
    {
        assert(W * i + W <= W * N) by (nonlinear_arith)
            requires
                i + 1 <= N,
        ;
        let mut row: [u8; W] = a[i];
        copy_octets(&mut row, b, at + W * i);
        a[i] = row;
        i = i + 1;
    }
    assert(rows(*a) =~= rows_at(b@, at as int, N as nat, W as int));
}

/// Append a length-prefixed string, silently truncated to 255 bytes.
pub fn push_str(out: &mut Vec<u8>, s: &str)
    ensures
        final(out)@ == old(out)@ + str_field(s@),
{
    let b = s.as_bytes();
    let n: usize = str_len(s);
    out.push(n as u8);
    push_bytes(out, &b[0..n]);
    assert(b@.subrange(0, n as int) =~= str_octets(s@));
    assert(out@ =~= old(out)@ + str_field(s@));
}

/// The octets of `s` that a length-prefixed field keeps.
pub fn str_len(s: &str) -> (n: usize)
    ensures
        n == str_octets(s@).len(),
        n <= 255,
{
    let n: usize = s.as_bytes().len();
    if n < 255 {
        n
    } else {
        255
    }
}

pub fn pad_to(out: &mut Vec<u8>, target: usize)
    ensures
        final(out)@ == old(out)@ + zeros(target - old(out)@.len()),
{
    while out.len() < target
        invariant
            old(out)@.len() <= out@.len(),
            out@.len() <= target || out@.len() == old(out)@.len(),
            out@ =~= old(out)@ + zeros(out@.len() - old(out)@.len()),
        decreases target - out@.len(),
    {
        out.push(0);
    }
    assert(out@ =~= old(out)@ + zeros(target - old(out)@.len()));
}

} // verus!
