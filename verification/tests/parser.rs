//! The text exposition parser.

use prometheus_scrape_rs::model::{Label, TimeSeries, METRIC_NAME_LABEL};
use prometheus_scrape_rs::parser::{self, ParseError};

const TS: i64 = 1_700_000_000_000;

/// Reads a number as the agent does: by the standard library.
fn read_float(text: &str) -> Option<u64> {
    text.parse::<f64>().ok().map(f64::to_bits)
}

fn parse(body: &str, timestamp: i64, honor: bool) -> Result<Vec<TimeSeries>, ParseError> {
    parser::parse(body, timestamp, honor, read_float)
}

fn value(series: &TimeSeries) -> f64 {
    f64::from_bits(series.samples[0].value_bits)
}

fn timestamp(series: &TimeSeries) -> i64 {
    series.samples[0].timestamp
}

/// Find the value of `name` among a series' labels.
fn label<'a>(ts: &'a TimeSeries, name: &str) -> Option<&'a str> {
    ts.labels
        .iter()
        .find(|l| l.name == name)
        .map(|l| l.value.as_str())
}

/// Convenience: metric name of a series.
fn metric(ts: &TimeSeries) -> &str {
    label(ts, METRIC_NAME_LABEL).expect("series has a metric name")
}

#[test]
fn realistic_scrape_body() -> Result<(), ParseError> {
    let body = "\
# HELP http_requests_total The total number of HTTP requests.
# TYPE http_requests_total counter
http_requests_total{method=\"post\",code=\"200\"} 1027 1395066363000
http_requests_total{method=\"post\",code=\"400\"}    3 1395066363000
# HELP node_load1 1m load average
# TYPE node_load1 gauge
node_load1 0.42
# TYPE request_duration_seconds histogram
request_duration_seconds_bucket{le=\"0.1\"} 24054
request_duration_seconds_bucket{le=\"0.5\"} 129389
request_duration_seconds_bucket{le=\"+Inf\"} 144320
request_duration_seconds_sum 53423
request_duration_seconds_count 144320
# TYPE rpc_duration_seconds summary
rpc_duration_seconds{quantile=\"0.5\"} 4773
rpc_duration_seconds{quantile=\"0.99\"} 76656
rpc_duration_seconds_sum 1.7560473e+07
rpc_duration_seconds_count 2693
";
    let series = parse(body, TS, true)?;
    assert_eq!(series.len(), 12);

    // First line: labels ordered __name__, method, code.
    let first = &series[0];
    assert_eq!(
        first
            .labels
            .iter()
            .map(|l| l.name.as_str())
            .collect::<Vec<_>>(),
        vec!["__name__", "method", "code"]
    );
    assert_eq!(metric(first), "http_requests_total");
    assert_eq!(label(first, "method"), Some("post"));
    assert_eq!(label(first, "code"), Some("200"));
    assert!((value(first) - 1027.0).abs() < f64::EPSILON);
    assert_eq!(timestamp(first), 1_395_066_363_000);

    // Gauge with no labels and a default timestamp.
    let load = series
        .iter()
        .find(|s| metric(s) == "node_load1")
        .expect("load series");
    assert_eq!(load.labels.len(), 1);
    assert_eq!(timestamp(load), TS);
    assert!((value(load) - 0.42).abs() < 1e-9);

    // +Inf bucket.
    let inf = series
        .iter()
        .find(|s| label(s, "le") == Some("+Inf"))
        .expect("inf bucket");
    assert!((value(inf) - 144_320.0).abs() < f64::EPSILON);

    // Scientific notation sum.
    let sum = series
        .iter()
        .find(|s| metric(s) == "rpc_duration_seconds_sum")
        .expect("rpc sum");
    assert!((value(sum) - 1.756_047_3e7).abs() < 1.0);

    Ok(())
}

#[test]
fn escapes_in_label_values() -> Result<(), ParseError> {
    let body = r#"metric{a="back\\slash",b="quote\"here",c="new\nline"} 1"#;
    let series = parse(body, TS, true)?;
    assert_eq!(series.len(), 1);
    let s = &series[0];
    assert_eq!(label(s, "a"), Some("back\\slash"));
    assert_eq!(label(s, "b"), Some("quote\"here"));
    assert_eq!(label(s, "c"), Some("new\nline"));
    Ok(())
}

#[test]
fn utf8_and_special_chars_in_values() -> Result<(), ParseError> {
    let body = "metric{a=\"héllo→世界\",b=\"has{brace}and,comma and space\"} 1";
    let series = parse(body, TS, true)?;
    let s = &series[0];
    assert_eq!(label(s, "a"), Some("héllo→世界"));
    assert_eq!(label(s, "b"), Some("has{brace}and,comma and space"));
    Ok(())
}

#[test]
fn no_labels_empty_braces_and_trailing_comma() -> Result<(), ParseError> {
    let s1 = parse("metric 5", TS, true)?;
    assert_eq!(s1[0].labels.len(), 1);

    let s2 = parse("metric{} 5", TS, true)?;
    assert_eq!(s2[0].labels.len(), 1);

    let s3 = parse("metric{a=\"b\",} 5", TS, true)?;
    assert_eq!(s3[0].labels.len(), 2);
    assert_eq!(label(&s3[0], "a"), Some("b"));

    // Empty label value.
    let s4 = parse("metric{a=\"\"} 5", TS, true)?;
    assert_eq!(label(&s4[0], "a"), Some(""));
    Ok(())
}

#[test]
fn value_forms() -> Result<(), ParseError> {
    let cases = [
        ("m 5", 5.0),
        ("m 5.5", 5.5),
        ("m -3", -3.0),
        ("m 1.5e3", 1500.0),
        ("m 1.5E-3", 0.0015),
        ("m +Inf", f64::INFINITY),
        ("m Inf", f64::INFINITY),
        ("m +inf", f64::INFINITY),
        ("m -Inf", f64::NEG_INFINITY),
    ];
    for (body, expected) in cases {
        let s = parse(body, TS, true)?;
        let got = value(&s[0]);
        let ok = if expected.is_infinite() {
            got.is_infinite() && got.is_sign_positive() == expected.is_sign_positive()
        } else {
            (got - expected).abs() < 1e-9
        };
        assert!(ok, "body {body:?}: got {got}, expected {expected}");
    }

    // NaN case variants: check they parse to NaN.
    for body in ["m NaN", "m nan", "m NAN"] {
        let s = parse(body, TS, true)?;
        assert!(value(&s[0]).is_nan(), "body {body:?} should be NaN");
    }
    Ok(())
}

#[test]
fn timestamps() -> Result<(), ParseError> {
    // Present milliseconds.
    let s = parse("m 1 1395066363000", TS, true)?;
    assert_eq!(timestamp(&s[0]), 1_395_066_363_000);

    // Absent: default used.
    let s = parse("m 1", TS, true)?;
    assert_eq!(timestamp(&s[0]), TS);

    // Negative.
    let s = parse("m 1 -1000", TS, true)?;
    assert_eq!(timestamp(&s[0]), -1000);

    // OpenMetrics float seconds -> ms.
    let s = parse("m 1 1.5", TS, true)?;
    assert_eq!(timestamp(&s[0]), 1500);

    let s = parse("m 1 1395066363.123", TS, true)?;
    assert_eq!(timestamp(&s[0]), 1_395_066_363_123);

    // Scientific-notation seconds.
    let s = parse("m 1 1.5e0", TS, true)?;
    assert_eq!(timestamp(&s[0]), 1500);

    Ok(())
}

#[test]
fn honor_timestamps_false_forces_default() -> Result<(), ParseError> {
    let s = parse("m 1 1395066363000", TS, false)?;
    assert_eq!(timestamp(&s[0]), TS);

    let s = parse("m 1", TS, false)?;
    assert_eq!(timestamp(&s[0]), TS);
    Ok(())
}

#[test]
fn exemplar_suffix_ignored() -> Result<(), ParseError> {
    // Exemplar after value.
    let s = parse("m 1 # {trace_id=\"abc\"} 1.0", TS, true)?;
    assert!((value(&s[0]) - 1.0).abs() < f64::EPSILON);
    assert_eq!(timestamp(&s[0]), TS);

    // Exemplar after value + timestamp.
    let s = parse("m 1 1500 # {trace_id=\"abc\"} 1.0 1520", TS, true)?;
    assert_eq!(timestamp(&s[0]), 1500);
    Ok(())
}

#[test]
fn empty_and_comment_only_bodies() -> Result<(), ParseError> {
    assert!(parse("", TS, true)?.is_empty());
    assert!(parse("   \n\t\n  \n", TS, true)?.is_empty());
    assert!(parse("# HELP x\n# TYPE x counter\n", TS, true)?.is_empty());
    // Indented comment.
    assert!(parse("   # a comment\n", TS, true)?.is_empty());
    Ok(())
}

#[test]
fn openmetrics_eof_skipped() -> Result<(), ParseError> {
    let s = parse("m 1\n# EOF\n", TS, true)?;
    assert_eq!(s.len(), 1);
    Ok(())
}

#[test]
fn crlf_line_endings() -> Result<(), ParseError> {
    let s = parse("m 1\r\nn 2\r\n", TS, true)?;
    assert_eq!(s.len(), 2);
    assert_eq!(metric(&s[0]), "m");
    assert_eq!(metric(&s[1]), "n");
    Ok(())
}

#[test]
fn metric_name_with_colon() -> Result<(), ParseError> {
    let s = parse("my:custom:metric 1", TS, true)?;
    assert_eq!(metric(&s[0]), "my:custom:metric");
    Ok(())
}

#[test]
fn whitespace_tolerance() -> Result<(), ParseError> {
    let s = parse("m { a = \"b\" , c = \"d\" }  5  1500", TS, true)?;
    assert_eq!(label(&s[0], "a"), Some("b"));
    assert_eq!(label(&s[0], "c"), Some("d"));
    assert_eq!(timestamp(&s[0]), 1500);
    Ok(())
}

// --- error cases ---

fn err_line(body: &str) -> usize {
    parse(body, TS, true).expect_err("should fail").line()
}

#[test]
fn error_bad_metric_name() {
    assert!(parse("1metric 5", TS, true).is_err());
    assert!(parse("@metric 5", TS, true).is_err());
}

#[test]
fn error_bad_label_name() {
    assert!(parse("m{1a=\"b\"} 5", TS, true).is_err());
    assert!(parse("m{a-b=\"c\"} 5", TS, true).is_err());
}

#[test]
fn error_unterminated_quote() {
    assert!(parse("m{a=\"b} 5", TS, true).is_err());
    assert!(parse("m{a=\"b\\\"} 5", TS, true).is_err());
}

#[test]
fn error_bad_escape() {
    assert!(parse(r#"m{a="b\tc"} 5"#, TS, true).is_err());
    assert!(parse(r#"m{a="b\xc"} 5"#, TS, true).is_err());
}

#[test]
fn error_duplicate_label() {
    let e = parse("m{a=\"1\",a=\"2\"} 5", TS, true).expect_err("dup");
    assert!(
        e.message().contains("duplicate"),
        "message: {}",
        e.message()
    );
}

#[test]
fn error_name_label_in_braces() {
    let e = parse("m{__name__=\"x\"} 5", TS, true).expect_err("name in braces");
    assert!(e.message().contains("__name__"), "message: {}", e.message());
}

#[test]
fn error_missing_value() {
    assert!(parse("m", TS, true).is_err());
    assert!(parse("m{a=\"b\"}", TS, true).is_err());
    assert!(parse("m   ", TS, true).is_err());
}

#[test]
fn error_bad_value() {
    assert!(parse("m notanumber", TS, true).is_err());
    assert!(parse("m 5x", TS, true).is_err());
}

#[test]
fn error_garbage_after_timestamp() {
    // Non-exemplar trailing content is an error.
    assert!(parse("m 1 1500 garbage", TS, true).is_err());
}

#[test]
fn error_bad_timestamp() {
    assert!(parse("m 1 notanumber", TS, true).is_err());
}

#[test]
fn error_missing_equals() {
    assert!(parse("m{a \"b\"} 5", TS, true).is_err());
    assert!(parse("m{a} 5", TS, true).is_err());
}

#[test]
fn error_line_number_is_reported() {
    // Third line is malformed.
    let body = "m 1\nn 2\n@bad 3\n";
    assert_eq!(err_line(body), 3);
}

#[test]
fn error_display_format() {
    let e = ParseError::new(17, "something broke");
    assert_eq!(e.to_string(), "line 17: something broke");
}

#[test]
fn unterminated_label_set() {
    assert!(parse("m{a=\"b\"", TS, true).is_err());
    assert!(parse("m{a=\"b\",", TS, true).is_err());
    assert!(parse("m{", TS, true).is_err());
}

#[test]
fn every_message_is_exact() {
    let cases = [
        ("@m 1", "invalid start of metric name: '@'"),
        ("m", "missing value"),
        ("m 5x", "invalid value: \"5x\""),
        ("m 1 x", "invalid timestamp: \"x\""),
        ("m 1 2 tail # x", "unexpected trailing content: \"tail # x\""),
        ("m{1=\"b\"} 1", "invalid start of label name: '1'"),
        (
            "m{__name__=\"b\"} 1",
            "label name '__name__' is not allowed inside braces",
        ),
        ("m{a=\"1\",a=\"2\"} 1", "duplicate label name: \"a\""),
        ("m{a \"b\"} 1", "expected '=' after label name \"a\""),
        ("m{a=b} 1", "expected '\"' to start value of label \"a\""),
        (
            "m{a=\"b",
            "unterminated label value (missing closing '\"')",
        ),
        (
            "m{a=\"b\\",
            "unterminated label value (trailing backslash)",
        ),
        (r#"m{a="b\tc"} 5"#, "invalid escape sequence: \\t"),
        ("m{a=\"b\"", "unterminated label set (expected '}')"),
        (
            "m{a=\"b\"x} 1",
            "expected ',' or '}' after label value, found 'x'",
        ),
    ];
    for (body, message) in cases {
        let e = parse(body, TS, true).expect_err("must fail");
        assert_eq!(e.message(), message, "body {body:?}");
        assert_eq!(e.line(), 1);
    }
}

#[test]
fn fractional_timestamps_truncate_towards_milliseconds() -> Result<(), ParseError> {
    let s = parse("m 1 0.001", TS, true)?;
    assert_eq!(timestamp(&s[0]), 1);
    let s = parse("m 1 -1.5", TS, true)?;
    assert_eq!(timestamp(&s[0]), -1500);
    assert!(parse("m 1 1e400", TS, true).is_err());
    Ok(())
}

#[test]
fn plus_sign_before_a_value_is_accepted() -> Result<(), ParseError> {
    let s = parse("m +5", TS, true)?;
    assert!((value(&s[0]) - 5.0).abs() < f64::EPSILON);
    Ok(())
}

#[test]
fn series_have_distinct_labels_with_the_name_first() -> Result<(), ParseError> {
    let series = parse("a{b=\"1\",c=\"2\"} 1\nd 2\n", TS, true)?;
    for one in &series {
        assert_eq!(one.labels[0].name, METRIC_NAME_LABEL);
        assert_eq!(one.samples.len(), 1);
        let mut names: Vec<&str> = one.labels.iter().map(|l| l.name.as_str()).collect();
        names.sort_unstable();
        names.dedup();
        assert_eq!(names.len(), one.labels.len());
    }
    Ok(())
}

/// A label value as it is written between quotes.
fn escaped(value: &str) -> String {
    value
        .replace('\\', "\\\\")
        .replace('"', "\\\"")
        .replace('\n', "\\n")
}

#[test]
fn written_values_read_back() {
    let values = ["", "plain", "a\\b", "say \"hi\"", "two\nlines", "\\n", "\\\\\"", "grüße €"];
    let mut body = String::new();
    for value in values {
        body.push_str(&format!("m{{a=\"{}\",b=\"x\"}} 1.5 42\n", escaped(value)));
    }
    let series = parse(&body, TS, true).expect("must parse");
    assert_eq!(series.len(), values.len());
    for (one, expected) in series.iter().zip(values) {
        assert_eq!(label(one, "a"), Some(expected));
        assert_eq!(label(one, "b"), Some("x"));
        assert_eq!(value(one), 1.5);
        assert_eq!(timestamp(one), 42);
    }
}

#[test]
fn bodies_join_line_by_line() {
    let first = "# TYPE a counter\na 1\n\nb{x=\"1\"} 2";
    let second = "c 3 7\r\nd 4";
    let whole = parse(&format!("{first}\n{second}"), TS, true).expect("must parse");
    let mut parts = parse(first, TS, true).expect("must parse");
    parts.extend(parse(second, TS, true).expect("must parse"));
    assert_eq!(whole.len(), 4);
    for (one, other) in whole.iter().zip(&parts) {
        assert_eq!(metric(one), metric(other));
        assert_eq!(value(one), value(other));
        assert_eq!(timestamp(one), timestamp(other));
    }
    // An error in the second part counts the lines of the first.
    let broken = parse("e 1\nf x", TS, true).unwrap_err();
    assert_eq!(broken.line(), 2);
    let shifted = parse(&format!("{first}\ne 1\nf x"), TS, true).unwrap_err();
    assert_eq!(shifted.line(), 6);
    assert_eq!(shifted.message(), broken.message());
    // An error in the first part is the error of the whole.
    let early = parse(&format!("f x\n{second}"), TS, true).unwrap_err();
    assert_eq!(early.line(), 1);
}

#[test]
fn a_label_set_that_fails_leaves_what_was_read() {
    let mut labels = vec![Label::new(METRIC_NAME_LABEL, "m")];
    let read = parser::parse_labels("{a=\"b\",}", 0, 8, 7, &mut labels).expect("a label set");
    assert_eq!(read, 8);
    let complete = vec![Label::new(METRIC_NAME_LABEL, "m"), Label::new("a", "b")];
    assert_eq!(labels, complete);

    let err = parser::parse_labels("{a=\"2\"}", 0, 7, 7, &mut labels).unwrap_err();
    assert_eq!(err.line(), 7);
    assert!(err.message().contains("duplicate"));
    assert_eq!(labels, complete);

    let body = "{c=\"d\",e=\"f\" x}";
    let err = parser::parse_labels(body, 0, body.len(), 9, &mut labels).unwrap_err();
    assert_eq!(err.line(), 9);
    assert_eq!(labels[..2], complete[..]);
    assert_eq!(labels[2..], [Label::new("c", "d"), Label::new("e", "f")]);
}

#[test]
fn a_single_value_reads_back_before_any_tail() {
    for value in ["", "plain", "a\\b", "\"", "\n", "\\", "\\n\"\n€"] {
        for tail in ["", "\"", ",b=\"c\"}", "\\"] {
            let quoted = format!("\"{}\"", escaped(value));
            let body = format!("{quoted}{tail}");
            let (read, next) =
                parser::parse_label_value(&body, 0, body.len(), 1).expect("a value");
            assert_eq!(read, value);
            assert_eq!(next, quoted.len());
        }
    }
}

#[test]
fn a_label_set_is_read_up_to_any_character_boundary() {
    let body = "{a=\"äö\"}";
    let cut = body.find('ö').expect("is there");
    let mut labels = vec![Label::new(METRIC_NAME_LABEL, "m")];
    let err = parser::parse_labels(body, 0, cut, 3, &mut labels).unwrap_err();
    assert_eq!(err.line(), 3);
    assert_eq!(
        err.message(),
        "unterminated label value (missing closing '\"')"
    );
    assert_eq!(labels, [Label::new(METRIC_NAME_LABEL, "m")]);
    let whole = parser::parse_labels(body, 0, body.len(), 3, &mut labels).expect("a label set");
    assert_eq!(whole, body.len());
    assert_eq!(labels[1], Label::new("a", "äö"));
}
