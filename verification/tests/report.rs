//! The runner's verdicts, metrics and JSON lines.

use csv::etna::PropertyResult;
use csv::report::{json_line, json_str, to_err, to_opt, Metrics};

#[test]
fn metrics_add_up() {
    let m = Metrics { inputs: 3, elapsed_us: 40 }.combine(Metrics { inputs: 4, elapsed_us: 2 });
    assert_eq!(m.inputs, 7);
    assert_eq!(m.elapsed_us, 42);
}

#[test]
fn verdicts() {
    assert_eq!(to_err(PropertyResult::Pass), Ok(()));
    assert_eq!(to_err(PropertyResult::Discard), Ok(()));
    assert_eq!(to_err(PropertyResult::Fail("bad".to_string())), Err("bad".to_string()));
    assert_eq!(to_opt(PropertyResult::Pass), Some(true));
    assert_eq!(to_opt(PropertyResult::Fail(String::new())), Some(false));
    assert_eq!(to_opt(PropertyResult::Discard), None);
}

#[test]
fn json_strings_are_escaped() {
    assert_eq!(json_str(""), "\"\"");
    assert_eq!(json_str("plain"), "\"plain\"");
    assert_eq!(json_str("a\"b\\c"), "\"a\\\"b\\\\c\"");
    assert_eq!(json_str("l1\nl2\r\tx"), "\"l1\\nl2\\r\\tx\"");
    assert_eq!(json_str("\u{1}\u{1f}"), "\"\\u0001\\u001f\"");
    assert_eq!(json_str("café ☃"), "\"café ☃\"");
}

#[test]
fn json_line_for_a_passed_run() {
    let line = json_line("etna", "All", "passed", Metrics { inputs: 6, elapsed_us: 1234 }, None, None);
    assert_eq!(
        line,
        "{\"status\":\"passed\",\"tests\":6,\"discards\":0,\"time\":\"1234us\",\"counterexample\":null,\"error\":null,\"tool\":\"etna\",\"property\":\"All\"}"
    );
}

#[test]
fn json_line_for_a_failed_run() {
    let line = json_line(
        "proptest",
        "CommentOnlyAtRecordStart",
        "failed",
        Metrics { inputs: 0, elapsed_us: 0 },
        Some("([35, 34])"),
        Some("x\"y"),
    );
    assert_eq!(
        line,
        "{\"status\":\"failed\",\"tests\":0,\"discards\":0,\"time\":\"0us\",\"counterexample\":\"([35, 34])\",\"error\":\"x\\\"y\",\"tool\":\"proptest\",\"property\":\"CommentOnlyAtRecordStart\"}"
    );
}

/// Reads a JSON string literal the way a JSON parser would.
fn decode_json_string(t: &str) -> Option<String> {
    let inner = t.strip_prefix('"')?.strip_suffix('"')?;
    let mut out = String::new();
    let mut it = inner.chars();
    while let Some(c) = it.next() {
        match c {
            '\\' => match it.next()? {
                '"' => out.push('"'),
                '\\' => out.push('\\'),
                '/' => out.push('/'),
                'b' => out.push('\u{8}'),
                'f' => out.push('\u{c}'),
                'n' => out.push('\n'),
                'r' => out.push('\r'),
                't' => out.push('\t'),
                'u' => {
                    let hex: String = (0..4).map(|_| it.next()).collect::<Option<String>>()?;
                    out.push(char::from_u32(u32::from_str_radix(&hex, 16).ok()?)?);
                }
                _ => return None,
            },
            '"' => return None,
            c if (c as u32) < 0x20 => return None,
            c => out.push(c),
        }
    }
    Some(out)
}

#[test]
fn json_str_reads_back_as_its_input() {
    let inputs = ["", "plain", "q\"b\\s/", "\n\r\t\u{0}\u{1}\u{8}\u{c}\u{1f}", "é☃\u{1F600}", "\u{7f}x"];
    for s in inputs {
        let j = json_str(s);
        assert!(j.chars().all(|c| (c as u32) >= 0x20));
        assert_eq!(decode_json_string(&j), Some(s.to_string()));
    }
}
