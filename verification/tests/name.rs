use sdr_stream::ieee::Binary32;
use sdr_stream::name::{base_for, flags_token, fmt_utc_path, wav_base};
use sdr_stream::sidecar::Sidecar;

fn db(v: f32) -> Binary32 {
    Binary32 { bits: v.to_bits() }
}

#[test]
fn flags_token_truth_table() {
    assert_eq!(flags_token("F", false, false), "F");
    assert_eq!(flags_token("F", true, false), "FC");
    assert_eq!(flags_token("F", false, true), "FE");
    assert_eq!(flags_token("F", true, true), "FCE");
    assert_eq!(flags_token("A", false, false), "A");
    assert_eq!(flags_token("T0", false, false), "T0");
    assert_eq!(flags_token("T1", false, true), "T1E");
    assert_eq!(flags_token("T0", true, true), "T0CE");
    assert_eq!(flags_token("D2", true, false), "D2C");
}

/// The archive anchor, byte-exact — the recorder's output grammar must
/// never drift.
#[test]
fn wav_base_p25_anchor() {
    let start_ms = 1786503850696i64; // 2026-08-12T03:04:10.696Z
    let base = wav_base(
        "audio",
        "ABCDE123",
        start_ms,
        &format!("{:05}", 100),
        &format!("{:08}", 1234567),
        &flags_token("F", false, false),
        &format!("{:03X}", 0x293),
        851012500,
        db(50.4),
    );
    assert_eq!(base, "audio/ABCDE123/2026/08/12/03:04:10.696-00100-01234567-F-293-851012500-50");
}

/// The conventional shape: callsign dir, tone token in the tg slot,
/// src 0, flags A, literal 000 in the nac slot — same field count as
/// P25: one dash-split parse serves both modes.
#[test]
fn wav_base_conventional_shape() {
    let start_ms = 1786503850696i64;
    let base = wav_base("audio", "KA1ABC", start_ms, "D466N", "0", &flags_token("A", false, false), "000", 460012500, db(22.0));
    assert_eq!(base, "audio/KA1ABC/2026/08/12/03:04:10.696-D466N-0-A-000-460012500-22");
}

/// An empty system dir still buckets (the P25 pre-identity case).
#[test]
fn wav_base_unknown_system() {
    let base = wav_base("out", "", 0, "00000", "00000000", "F", "000", 851000000, db(0.0));
    assert!(base.starts_with("out/unknown/1970/01/01/"));
}

/// A sidecar names its own archive path, both modes.
#[test]
fn base_for_both_modes() {
    let p25 = Sidecar::parse(
        "{\"version\":1,\"start_ms\":1786503850696,\"duration_ms\":4250,\"hz\":851012500,\
         \"mode\":\"F\",\"emergency\":false,\"encrypted\":true,\"system\":\"ABCDE123\",\
         \"nac\":\"293\",\"tg\":100,\"alias\":null,\"src\":\"1234567\",\"delta_db\":50.4,\
         \"signal_db\":null,\"floor_db\":null,\"offset_hz\":null,\"wav_rate\":0}",
    )
    .unwrap();
    assert_eq!(base_for("audio", &p25), "audio/ABCDE123/2026/08/12/03:04:10.696-00100-01234567-FE-293-851012500-50");
    let conv = Sidecar::parse(
        "{\"version\":1,\"start_ms\":1786503850696,\"duration_ms\":9470,\"hz\":460012500,\
         \"mode\":\"A\",\"emergency\":true,\"encrypted\":false,\"system\":\"KA1ABC\",\
         \"nac\":null,\"tg\":null,\"alias\":null,\"tone\":\"D466N\",\"alphatag\":\"x\",\
         \"src\":\"0042\",\"delta_db\":56.0,\"signal_db\":-22.0,\"floor_db\":-78.0,\
         \"offset_hz\":120,\"mdc\":[],\"wav_rate\":16000}",
    )
    .unwrap();
    assert_eq!(base_for("audio", &conv), "audio/KA1ABC/2026/08/12/03:04:10.696-D466N-0042-AC-000-460012500-56");
}

/// A digital source that is no number is source zero; a plus sign and
/// leading zeros are none of a number's business.
#[test]
fn base_for_reads_the_source_as_a_number() {
    let mut s = Sidecar::parse(
        "{\"version\":1,\"start_ms\":0,\"duration_ms\":0,\"hz\":1,\"mode\":\"F\",\
         \"emergency\":false,\"encrypted\":false,\"system\":\"\",\"nac\":null,\"tg\":null,\
         \"alias\":null,\"src\":\"x\",\"delta_db\":-3.5,\"signal_db\":null,\
         \"floor_db\":null,\"offset_hz\":null,\"wav_rate\":0}",
    )
    .unwrap();
    let of = |s: &Sidecar| base_for("o", s);
    assert_eq!(of(&s), "o/unknown/1970/01/01/00:00:00.000-00000-00000000-F-000-1--4");
    s.src = "+0042".into();
    assert_eq!(of(&s), "o/unknown/1970/01/01/00:00:00.000-00000-00000042-F-000-1--4");
    s.src = "4294967295".into();
    assert_eq!(of(&s), "o/unknown/1970/01/01/00:00:00.000-00000-4294967295-F-000-1--4");
    for bad in ["4294967296", "", "+", "-1", "++1", "1 ", "0x1"] {
        s.src = bad.into();
        assert_eq!(of(&s), "o/unknown/1970/01/01/00:00:00.000-00000-00000000-F-000-1--4", "{bad}");
    }
}

#[test]
fn utc_paths_follow_the_calendar() {
    assert_eq!(fmt_utc_path(0), "1970/01/01/00:00:00.000");
    assert_eq!(fmt_utc_path(-1), "1969/12/31/23:59:59.999");
    assert_eq!(fmt_utc_path(951_782_400_000), "2000/02/29/00:00:00.000");
    assert_eq!(fmt_utc_path(951_868_799_999), "2000/02/29/23:59:59.999");
    assert_eq!(fmt_utc_path(951_868_800_000), "2000/03/01/00:00:00.000");
    assert_eq!(fmt_utc_path(4_107_542_399_999), "2100/02/28/23:59:59.999");
    assert_eq!(fmt_utc_path(4_107_542_400_000), "2100/03/01/00:00:00.000");
    assert_eq!(fmt_utc_path(253_402_300_800_000), "10000/01/01/00:00:00.000");
    assert_eq!(fmt_utc_path(-62_135_596_800_000), "0001/01/01/00:00:00.000");
    assert_eq!(fmt_utc_path(-62_167_219_200_001), "-001/12/31/23:59:59.999");
    assert_eq!(fmt_utc_path(i64::MAX), "292278994/08/17/07:12:55.807");
    assert_eq!(fmt_utc_path(i64::MIN), "-292275055/05/16/16:47:04.192");
}

#[test]
fn a_single_dash_split_gives_the_fields() {
    let base = wav_base("audio", "KA1ABC", 1786503850696, "D466N", "0042", "AC", "000", 460012500, db(22.4));
    let leaf = base.rsplit('/').next().unwrap();
    let fields: Vec<&str> = leaf.split('-').collect();
    assert_eq!(fields, ["03:04:10.696", "D466N", "0042", "AC", "000", "460012500", "22"]);
}

#[test]
fn no_two_times_share_a_path() {
    let day = |t: i64| fmt_utc_path(t).rsplit_once('/').map(|p| p.0.to_string());
    for t in [0i64, 1786503850696, -62_167_219_200_000, 951_782_400_000, 4_107_542_399_999] {
        assert_ne!(fmt_utc_path(t), fmt_utc_path(t + 1));
        let midnight = t - t.rem_euclid(86_400_000);
        assert_eq!(day(t), day(midnight));
        assert_eq!(day(t), day(midnight + 86_399_999));
        assert_ne!(day(t), day(midnight - 1));
        assert_ne!(day(t), day(midnight + 86_400_000));
    }
}

#[test]
fn paths_sort_as_the_times_do() {
    let times = [
        -62_167_219_200_000i64, -62_135_596_800_000, -1, 0, 999, 1_000, 59_999, 60_000, 3_599_999, 3_600_000, 86_399_999,
        86_400_000, 951_782_399_999, 951_782_400_000, 951_868_800_000, 1_786_503_850_696, 4_107_542_400_000, 253_402_300_799_999,
    ];
    for w in times.windows(2) {
        let (a, b) = (fmt_utc_path(w[0]), fmt_utc_path(w[1]));
        assert_eq!((a.len(), b.len()), (23, 23));
        assert!(a < b, "{a} {b}");
        let base = |ms: i64, tg: &str| wav_base("audio", "", ms, tg, "z", "A", "000", 1, db(1.0));
        assert!(base(w[0], "z") < base(w[1], "a"));
    }
}
