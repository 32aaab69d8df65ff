# sdr-stream

DigitalStream — the record container behind `.sdr` call files, WebSocket
messages and WebRTC datagrams: one framing for all three. Zero
dependencies: a wire format needs nothing but bytes. Written in Verus:
every function of `src/` is proved against its contract, down to four
items of the standard library that are trusted: the two wrappers
`wire::decode_lossy` (`String::from_utf8_lossy`) and `riff::utf8_text`
(`core::str::from_utf8`), and the contracts of `String::push` and
`char::from_u32` in `text`.

- Framing (format v1, `record`, `wire`): a 32-byte head — magic `sdr\0`,
  version, type, length in bytes, epoch µs, Hz, sequence, NAC, flags,
  site — then the body; readers advance by length, ignore tails, keep
  unknown types raw.
- The mode-neutral records: `CallHeader`, `EssRecord` (encryption sync),
  `CallTrailer`.
- The P25 layouts (`p25`: LDU, Phase 2 VCH) and the DMR layouts (`dmr`:
  voice, Full LC + `lc_info`, packet, fix, alias).
- The sidecar document (`sidecar`): a projection of a call's records,
  or the `MSDR` chunk of an analog WAV (`riff`).
- The filename grammar (`name`, over `calendar`), so a server names what
  it stores from the record, never from a client's filename.
- Dependency-free JSON (`json`).
- Numbers: floating-point values are held as their bit patterns (`ieee`)
  and read, rounded and printed by exact integer arithmetic (`natural`,
  `decimal`, `number`, `text`).

What holds of the functions together is proved in `laws` (records and
streams), `number_laws`, `levels`, `json_laws`, `sidecar_laws`,
`projection_laws`, `name_laws`, and at the end of `p25`, `dmr`, `riff` and `calendar`.

`tests/` runs the library; `app/` offers it in a host's floating-point
types, with an iterator and `Display`.
