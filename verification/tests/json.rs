use sdr_stream::ieee::Binary64;
use sdr_stream::json::{num, obj, str, write_str, Json, Parser};

fn n(v: f64) -> Json {
    num(Binary64 { bits: v.to_bits() })
}

#[test]
fn round_trips_a_nested_document() {
    let doc = obj(vec![
        ("system", obj(vec![("WACN", str("ABCDE")), ("SYSID", str("123"))])),
        (
            "sites",
            obj(vec![(
                "3C3",
                obj(vec![
                    ("RFSS", n(1u32.into())),
                    ("controls", Json::Arr(vec![n(772_918_750f64)])),
                    ("channels", Json::Arr(vec![])),
                ]),
            )]),
        ),
    ]);
    let text = doc.to_pretty();
    let back = Json::parse(&text).expect("parses its own output");
    assert_eq!(back, doc, "structure survives the round trip");
    // Spot-check accessors and that integers print without a dot.
    assert_eq!(
        back.get("sites").and_then(|s| s.get("3C3")).and_then(|s| s.get("RFSS")).and_then(Json::as_u64),
        Some(1)
    );
    assert!(text.contains("772918750"), "big integers stay integers: {text}");
    assert!(!text.contains("772918750.0"));
}

#[test]
fn parses_the_users_hand_written_shape_and_rejects_garbage() {
    let hand = r#"{
        "system": { "WACN": "ABCDE", "SYSID": "123" },
        "sites": {
            "3C3": {
                "RFSS": 1, "siteId": 3,
                "controls": [772918750],
                "iden": [{ "idx": 0, "hz": 851006250, "offset": -45000000, "slots": 1 }],
                "channels": [{ "hz": 770206250, "type": "energy" }]
            }
        }
    }"#;
    let v = Json::parse(hand).expect("valid");
    let site = v.get("sites").and_then(|s| s.get("3C3")).expect("site");
    assert_eq!(site.get("siteId").and_then(Json::as_u64), Some(3));
    let iden0 = &site.get("iden").and_then(Json::as_array).unwrap()[0];
    assert_eq!(iden0.get("offset").and_then(Json::as_i64), Some(-45_000_000));
    assert_eq!(
        site.get("channels").and_then(Json::as_array).unwrap()[0].get("type").and_then(Json::as_str),
        Some("energy")
    );
    // Malformation is refused, not guessed.
    assert!(Json::parse("{ \"a\": }").is_none());
    assert!(Json::parse("[1, 2").is_none());
    assert!(Json::parse("{} trailing").is_none());
}

#[test]
fn strings_escape_and_unescape() {
    let v = str("a\"b\\c\nd");
    let back = Json::parse(&Json::Arr(vec![v.clone()]).to_pretty()).unwrap();
    assert_eq!(back.as_array().unwrap()[0], v);
}

#[test]
fn pretty_text_is_indented_and_stable() {
    let doc = obj(vec![
        ("b", Json::Arr(vec![n(1.0), Json::Bool(true), Json::Null])),
        ("a", obj(vec![("x", n(-0.5))])),
        ("e", obj(vec![])),
        ("s", str("t\tr\r")),
    ]);
    assert_eq!(
        doc.to_pretty(),
        "{\n  \"b\": [\n    1,\n    true,\n    null\n  ],\n  \"a\": {\n    \"x\": -0.5\n  },\n  \"e\": {},\n  \"s\": \"t\\tr\\r\"\n}\n"
    );
    assert_eq!(Json::Bool(false).to_pretty(), "false\n");
    assert_eq!(Json::Arr(vec![]).to_pretty(), "[]\n");
}

#[test]
fn numbers_print_as_integers_where_they_are_integers() {
    let text = |v: f64| n(v).to_pretty();
    assert_eq!(text(0.0), "0\n");
    assert_eq!(text(-0.0), "0\n");
    assert_eq!(text(-45_000_000.0), "-45000000\n");
    assert_eq!(text(8_999_999_999_999_999.0), "8999999999999999\n");
    assert_eq!(text(9e15), "9000000000000000\n");
    assert_eq!(text(1e21), "1000000000000000000000\n");
    assert_eq!(text(0.1), "0.1\n");
    assert_eq!(text(5e-324).len(), 327);
    assert_eq!(text(f64::NAN), "NaN\n");
    assert_eq!(text(f64::NEG_INFINITY), "-inf\n");
}

#[test]
fn every_finite_number_reads_back() {
    for v in [0.1, -0.3, 1e-7, 123.456, 1e22, 1.7976931348623157e308, 5e-324, 9007199254740993.0, 2.0f64.powi(-1074) * 3.0] {
        assert_eq!(Json::parse(&n(v).to_pretty()), Some(n(v)));
    }
    assert_eq!(Json::parse(&n(f64::NAN).to_pretty()), None);
    assert_eq!(Json::parse(&n(f64::INFINITY).to_pretty()), None);
    // The negative zero prints as zero.
    let back = Json::parse(&n(-0.0).to_pretty()).unwrap();
    assert_eq!(back.as_f64().unwrap().bits, 0);
    assert_eq!(back, n(-0.0), "and zeros are equal");
}

#[test]
fn grammar_edges() {
    let ok = |t: &str| Json::parse(t).is_some();
    assert!(ok(" \t\r\n null \n"));
    assert!(ok("[ ]") && ok("{ }") && ok("[1 , 2]") && ok("{\"a\" : 1 , \"a\":2}"));
    assert!(ok("0") && ok("-0") && ok("0.5") && ok("-10.25") && ok("1e5") && ok("1E+5") && ok("0e-1"));
    assert!(!ok("+5") && !ok(".5") && !ok("5.") && !ok("01") && !ok("-01") && !ok("00") && !ok("1.e5"));
    assert!(!ok("--1") && !ok("1e+") && !ok("1e5.5") && !ok("1-2") && !ok("0x1") && !ok("-.5"));
    assert!(!ok("") && !ok("[,]") && !ok("[1,]") && !ok("{,}") && !ok("{\"a\"}") && !ok("{a:1}"));
    assert!(!ok("nul") && !ok("True") && !ok("tru") && !ok("nullx") && !ok("[true false]"));
    assert!(!ok("\"abc") && !ok("\"\\") && !ok("\"\\b\"") && !ok("é") && !ok("-") && !ok("1e"));
    assert!(!ok("{\"a\":1") && !ok("{\"a\" 1}") && !ok("[1 2]") && !ok("]"));
    assert_eq!(Json::parse("\"a\\/b\\\\\""), Some(str("a/b\\")));
    // Control characters stand in strings as escapes only.
    for c in (0..0x20u8).map(char::from) {
        assert!(!ok(&format!("\"a{c}b\"")), "{c:?}");
        assert!(!ok(&format!("{{\"a{c}b\":1}}")), "{c:?}");
    }
    assert_eq!(Json::parse("\"a\u{7f}b\""), Some(str("a\u{7f}b")));
    // The first of two equal keys answers.
    assert_eq!(Json::parse("{\"a\":1,\"a\":2}").unwrap().get("a"), Some(&n(1.0)));
}

#[test]
fn accessors_answer_their_own_kind_only() {
    let v = str("x");
    assert_eq!(v.as_str(), Some("x"));
    assert!(v.get("x").is_none() && v.as_array().is_none() && v.as_f64().is_none() && v.as_u64().is_none() && v.as_i64().is_none());
    assert_eq!(n(2.5).as_f64().map(|b| b.bits), Some(2.5f64.to_bits()));
    assert!(n(1.0).as_str().is_none());
    assert!(obj(vec![("k", Json::Null)]).get("q").is_none());
}

#[test]
fn escapes_by_number_are_read() {
    let of = |t: &str| Json::parse(t);
    assert_eq!(of("\"\\u0041\\u00e9\\u00E9x\""), Some(str("A\u{e9}\u{e9}x")));
    assert_eq!(of("\"\\u0000\\u001f\\u0022\\u005c\""), Some(str("\0\u{1f}\"\\")));
    assert_eq!(of("\"\\uD83D\\ude00!\""), Some(str("\u{1f600}!")));
    assert_eq!(of("\"\\ud800\\udc00\\udbff\\udfff\""), Some(str("\u{10000}\u{10ffff}")));
    assert_eq!(of("\"\\ud7ff\\ue000\\uffff\""), Some(str("\u{d7ff}\u{e000}\u{ffff}")));
    // Half a pair, a pair in the wrong order, too few digits, no digits.
    for bad in [
        "\\ud800", "\\udbffx", "\\udc00", "\\udfff\\ud800", "\\ud800\\ud800", "\\ud800\\u0041", "\\ud800\\n",
        "\\u", "\\u1", "\\u12", "\\u123", "\\u123g", "\\u+123", "\\ud800\\udc0", "\\U0041", "\\x41",
    ] {
        assert_eq!(of(&format!("\"{bad}\"")), None, "{bad}");
    }
}

#[test]
fn strings_hold_any_text() {
    for t in ["", "é", "\u{80}\u{7f}", "\u{d7ff}\u{e000}", "\u{ffff}\u{10000}\u{10ffff}", "\0\u{1}\u{b}\u{1f}\n\t\r\"\\/"] {
        let doc = obj(vec![(t, Json::Arr(vec![str(t)]))]);
        let text = doc.to_pretty();
        assert!(text.is_ascii(), "{text}");
        assert_eq!(Json::parse(&text), Some(doc));
    }
}

/// A document is ASCII text; other characters stand in it as escapes.
#[test]
fn input_is_ascii() {
    for bad in ["\"é\"", "\"a\u{80}b\"", "{\"é\":1}", "[\"\u{1f600}\"]", "\"\\é\"", "1é", "\u{a0}1", "[1,\u{2003}2]", "\u{feff}{}"] {
        assert_eq!(Json::parse(bad), None, "{bad}");
    }
    assert_eq!(Json::parse("\"\u{7f}\""), Some(str("\u{7f}")));
    assert_eq!(Json::parse("{\"\\u00e9\":1}").unwrap().get("é"), Some(&n(1.0)));
    let chars: Vec<char> = "\"é\"".chars().collect();
    assert_eq!(Parser { b: &chars, i: 0, wide: false }.string(), None);
    assert_eq!(Parser { b: &chars, i: 0, wide: true }.string().as_deref(), Some("é"));
}

#[test]
fn output_is_ascii() {
    assert_eq!(str("é\u{1f600}\u{1}\u{7f}").to_pretty(), "\"\\u00e9\\ud83d\\ude00\\u0001\u{7f}\"\n");
    assert_eq!(obj(vec![("\u{fffd}", Json::Null)]).to_pretty(), "{\n  \"\\ufffd\": null\n}\n");
}

/// What the writer wrote, the reader reads, and stops right behind it.
#[test]
fn a_written_string_reads_back_in_place() {
    for (x, s, y) in [("", "", ""), ("[1, ", "a\"b\\c\nd", ", 2]"), ("é\"", "\u{1f600}\u{2}é", "\"x\""), ("{", "k", "\\")] {
        let mut text = String::from(x);
        write_str(&mut text, s);
        let end = text.chars().count();
        text.push_str(y);
        let chars: Vec<char> = text.chars().collect();
        for wide in [false, true] {
            let mut p = Parser { b: &chars, i: x.chars().count(), wide };
            assert_eq!(p.string().as_deref(), Some(s));
            assert_eq!(p.i, end);
        }
    }
}
