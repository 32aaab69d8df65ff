use sdr_stream::riff::{chunk, sidecar_text, MSDR};

#[test]
fn walks_by_declared_size_and_pads_odd_chunks() {
    let mut f = Vec::new();
    f.extend_from_slice(b"RIFF");
    f.extend_from_slice(&0u32.to_le_bytes());
    f.extend_from_slice(b"WAVE");
    f.extend_from_slice(b"fmt ");
    f.extend_from_slice(&3u32.to_le_bytes());
    f.extend_from_slice(&[1, 2, 3, 0]); // odd chunk, one pad
    f.extend_from_slice(b"data");
    f.extend_from_slice(&2u32.to_le_bytes());
    f.extend_from_slice(&[9, 9]);
    f.extend_from_slice(b"MSDR");
    f.extend_from_slice(&5u32.to_le_bytes());
    f.extend_from_slice(b"{\"a\":1}"[..5].as_ref());
    f.push(0);
    assert_eq!(chunk(&f, b"fmt "), Some(&[1u8, 2, 3][..]));
    assert_eq!(chunk(&f, b"data"), Some(&[9u8, 9][..]));
    assert_eq!(sidecar_text(&f), Some("{\"a\":"));
    assert_eq!(chunk(&f, b"LIST"), None);
    assert_eq!(chunk(b"RIFX", b"data"), None);
}

fn wave(chunks: &[(&[u8; 4], &[u8])]) -> Vec<u8> {
    let mut f = b"RIFF\0\0\0\0WAVE".to_vec();
    for (id, payload) in chunks {
        f.extend_from_slice(*id);
        f.extend_from_slice(&(payload.len() as u32).to_le_bytes());
        f.extend_from_slice(payload);
        if payload.len() % 2 == 1 {
            f.push(0);
        }
    }
    f
}

#[test]
fn the_first_chunk_of_an_id_is_found() {
    let f = wave(&[(b"LIST", b"abc"), (b"data", b""), (b"LIST", b"zz"), (&MSDR, b"x")]);
    assert_eq!(chunk(&f, b"LIST"), Some(&b"abc"[..]));
    assert_eq!(chunk(&f, b"data"), Some(&b""[..]));
    assert_eq!(chunk(&f, b"MSDR"), Some(&b"x"[..]));
    assert_eq!(chunk(&f, b"none"), None);
}

#[test]
fn a_chunk_longer_than_the_file_is_no_chunk() {
    let mut f = wave(&[(b"data", b"1234")]);
    assert_eq!(chunk(&f, b"data"), Some(&b"1234"[..]));
    assert_eq!(chunk(&f[..f.len() - 1], b"data"), None);
    f[16..20].copy_from_slice(&[0xFF; 4]);
    assert_eq!(chunk(&f, b"data"), None);
    assert_eq!(chunk(&f, b"LIST"), None);
    assert_eq!(chunk(b"RIFF\0\0\0\0WAVX", b"data"), None);
}

#[test]
fn a_sidecar_chunk_is_utf8_or_nothing() {
    assert_eq!(sidecar_text(&wave(&[(&MSDR, "größe".as_bytes())])), Some("größe"));
    assert_eq!(sidecar_text(&wave(&[(&MSDR, &[0x61, 0xFF])])), None);
    assert_eq!(sidecar_text(&wave(&[(b"data", b"x")])), None);
}
