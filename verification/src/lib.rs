//! DigitalStream — one binary record format that is simultaneously the
//! `.sdr` archive file, the WebSocket binary message, and the WebRTC
//! datagram. One `encode_into`, one [`parse`], every transport; the file
//! is byte-for-byte a recorded stream.
//!
//! THE FILE IS THE RECORD: a digital call travels as `.sdr` alone, end
//! to end — receiver, server, browser, phone — and every piece of
//! metadata a user interface or a database wants is a PROJECTION of the
//! file ([`sidecar::Sidecar::from_records`]), computed by this one crate
//! on whichever side holds the bytes. The server never decodes: the
//! voice frames stay in the digital domain (twelve times smaller than
//! PCM), and an encrypted call's ciphertext rides through untouched for a
//! client that holds the key.
//!
//! `len` is AUTHORITATIVE (readers advance `len` with no per-type
//! knowledge), tail bytes beyond a known layout are ignored, unknown
//! `typ`s are skipped whole. Every record opens with the magic and
//! repeats hz/nac/epoch, so any record is understandable in isolation —
//! mid-call join, datagram loss, and file truncation all degrade to
//! "start from any record". A truncated file is readable up to the cut
//! with no header to patch.
//!
//! Every record opens with the same 32-octet head (all multi-octet
//! fields little-endian), laid out so that every field sits on its
//! natural boundary and a file mapped at an aligned base reads natively:
//!
//! ```text
//!  off  size  field
//!   0     4   magic     's' 'd' 'r' 0
//!   4     1   ver       format version, 1
//!   5     1   typ       the record registry below
//!   6     2   len       total record size in OCTETS, head included,
//!                       a multiple of 8 — AUTHORITATIVE
//!   8     8   epoch_us  µs since the Unix epoch, UTC, the receiver's clock
//!  16     4   hz        the carrier
//!  20     4   seq       per-channel voice-clock ordinal
//!  24     2   nac       P25 Network Access Code, or the DMR colour code
//!  26     2   flags     per-typ bits; undefined bits write 0, readers ignore
//!  28     4   site      the receiver's MimoCAD SITE_ID (which of OUR
//!                       receivers heard it; 0 = unknown)
//! ```
//!
//! - `typ` — 1 CallHeader · 2 Ldu (P25 Phase 1, [`p25`]) · 3 CallTrailer
//!   · 4 Ess · 5 P2Vch (P25 Phase 2, [`p25`]) · 6..=10 DMR ([`dmr`]);
//!   others reserved.
//! - `ver` — 1. A reader refuses any other value the way it refuses a
//!   cut.
//! - `seq` — per-channel voice-clock ordinal (header = 0, voice from
//!   1; concealed units consume numbers, so a jump of k in 2..=4 means
//!   (k−1) concealed units and > 4 a new talker).
//!
//! The crate parses the head, the mode-neutral records ([`CallHeader`],
//! [`CallTrailer`], [`EssRecord`]) and the body LAYOUTS of every mode
//! ([`p25`], [`dmr`]). Unknown typs come back as [`Raw`] records — body
//! bytes plus head — and are re-emitted verbatim.
//!
//! Each function states in its contract what it returns, over the octets
//! and characters involved. What holds of the functions together, and what
//! their results mean by offset, by bit and by digit, is stated in [`laws`],
//! [`layout_laws`], [`dmr_laws`], [`number_laws`], [`numeral_laws`],
//! [`levels`], [`json_laws`], [`document_laws`], [`sidecar_laws`],
//! [`projection_laws`], [`name_laws`] and at the end of the other modules.
//! Floating-point values are held as their bit patterns ([`ieee`]) and
//! converted by exact integer arithmetic ([`natural`], [`decimal`],
//! [`number`]).
pub mod calendar;
pub mod decimal;
pub mod dmr;
pub mod dmr_laws;
pub mod document_laws;
pub mod ieee;
pub mod json;
pub mod json_laws;
pub mod layout_laws;
pub mod laws;
pub mod levels;
pub mod name;
pub mod name_laws;
pub mod natural;
pub mod number;
pub mod number_laws;
pub mod numeral_laws;
pub mod p25;
pub mod projection_laws;
pub mod record;
pub mod riff;
pub mod sidecar;
pub mod sidecar_laws;
pub mod text;
pub mod wire;

pub use record::{
    f32le, parse, parse_head, push_head, records, CallHeader, CallTrailer, EssRecord, Mode, MsgHead,
    Raw, Record, Records, HDR_FLAG_DUAL_WRITE, HDR_FLAG_SEEDED, HEAD_BYTES, LDU_FLAG_FLYWHEEL,
    LDU_FLAG_FORCED, LDU_FLAG_LDU2, LDU_FLAG_RS_OK, MAGIC, MAX_RECORD_BYTES, OFFSET_UNKNOWN,
    P2V_FLAG_CADENCE, P2V_FLAG_DESCRAMBLED, P2V_FLAG_ENCRYPTED, P2V_FLAG_LOC_INFERRED,
    P2V_FLAG_MISPLACED, P2V_FLAG_PARTIAL, TRL_FLAG_EMERGENCY, TRL_FLAG_ENCRYPTED, TYP_CALL_HEADER,
    TYP_CALL_TRAILER, TYP_DMR_ALIAS, TYP_DMR_FIX, TYP_DMR_LC, TYP_DMR_PACKET, TYP_DMR_VOICE,
    TYP_ESS, TYP_LDU, TYP_P2_VCH, VERSION,
};
pub use wire::{i32le, pad8, pad_to, push_str, take_str, u16le, u32le, u64le, RECORD_ALIGN};
