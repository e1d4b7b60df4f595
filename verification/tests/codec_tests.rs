use lambda_runtime_errors::codec::from_json;
use lambda_runtime_errors::codec::to_json;
use lambda_runtime_errors::text::split_lines;
use lambda_runtime_errors::ApiError;
use lambda_runtime_errors::ErrorResponse;
use lambda_runtime_errors::RuntimeApiError;

#[test]
fn scenario_connection_refused_wire_shape() {
    let r = ApiError::new("connection refused", false).to_response();
    let wire = to_json(&r);
    assert_eq!(
        wire,
        "{\"errorMessage\":\"connection refused\",\"errorType\":\"Unhandled\",\"stackTrace\":null}"
    );
}

#[test]
fn encode_escapes_exactly() {
    let r = ErrorResponse::unhandled("a\"b\\c\nd\u{1}e".to_string());
    let wire = to_json(&r);
    assert_eq!(
        wire,
        "{\"errorMessage\":\"a\\\"b\\\\c\\nd\\u0001e\",\"errorType\":\"Unhandled\",\"stackTrace\":null}"
    );
}

#[test]
fn round_trip_without_trace() {
    let r = ErrorResponse::handled("hello there".to_string());
    let back = from_json(&to_json(&r)).expect("round trip expected");
    assert_eq!(back.error_message, r.error_message);
    assert_eq!(back.error_type, r.error_type);
    assert!(back.stack_trace.is_none());
}

#[test]
fn round_trip_with_trace() {
    let mut r = ErrorResponse::unhandled("boom".to_string());
    r.stack_trace = Some(vec![
        "frame one".to_string(),
        "frame \"two\" \\ with specials\t".to_string(),
        String::new(),
    ]);
    let back = from_json(&to_json(&r)).expect("round trip expected");
    assert_eq!(back.error_message, r.error_message);
    assert_eq!(back.error_type, r.error_type);
    assert_eq!(back.stack_trace, r.stack_trace);
}

#[test]
fn round_trip_empty_trace() {
    let mut r = ErrorResponse::unhandled("boom".to_string());
    r.stack_trace = Some(Vec::new());
    let wire = to_json(&r);
    assert_eq!(
        wire,
        "{\"errorMessage\":\"boom\",\"errorType\":\"Unhandled\",\"stackTrace\":[]}"
    );
    let back = from_json(&wire).expect("round trip expected");
    assert_eq!(back.stack_trace, Some(Vec::new()));
}

#[test]
fn round_trip_special_messages() {
    let messages = [
        "",
        "\"",
        "\\",
        "\r\n\t",
        "\u{0}\u{1f}",
        "plain ascii",
        "unicode \u{263a} text",
    ];
    for m in messages.iter() {
        let r = ErrorResponse::unhandled(m.to_string());
        let back = from_json(&to_json(&r)).expect("round trip expected");
        assert_eq!(back.error_message, *m);
        assert_eq!(back.error_type, "Unhandled");
        assert!(back.stack_trace.is_none());
    }
}

#[test]
fn round_trip_captured_trace() {
    let r = ApiError::new("with trace", true).to_response();
    let back = from_json(&to_json(&r)).expect("round trip expected");
    assert_eq!(back.error_message, "with trace");
    assert_eq!(back.stack_trace, r.stack_trace);
    assert!(back.stack_trace.expect("trace expected").len() >= 1);
}

#[test]
fn decode_rejects_non_canonical_text() {
    assert!(from_json("").is_none());
    assert!(from_json("{}").is_none());
    assert!(from_json("{\"errorMessage\":\"x\"}").is_none());
    assert!(from_json("{\"errorMessage\":\"x\",\"errorType\":\"Weird\",\"stackTrace\":null}").is_none());
    assert!(from_json("{\"errorMessage\":\"x\",\"errorType\":\"Handled\",\"stackTrace\":null}x").is_none());
    assert!(from_json("{\"errorMessage\":\"x\",\"errorType\":\"Handled\",\"stackTrace\":nul").is_none());
}

#[test]
fn wire_text_is_valid_json_for_a_real_parser() {
    let mut r = ErrorResponse::unhandled("needs \"escaping\"\nhere\u{2}".to_string());
    r.stack_trace = Some(vec!["frame one".to_string(), "frame two".to_string()]);
    let wire = to_json(&r);
    let v: serde_json::Value = serde_json::from_str(&wire).expect("valid JSON expected");
    assert_eq!(
        v.get("errorMessage").unwrap().as_str().unwrap(),
        "needs \"escaping\"\nhere\u{2}"
    );
    assert_eq!(v.get("errorType").unwrap().as_str().unwrap(), "Unhandled");
    let lines = v.get("stackTrace").unwrap().as_array().unwrap();
    assert_eq!(lines.len(), 2);
    assert_eq!(lines[0].as_str().unwrap(), "frame one");
    assert_eq!(lines[1].as_str().unwrap(), "frame two");

    let plain = ApiError::new("no trace", false).to_response();
    let v2: serde_json::Value = serde_json::from_str(&to_json(&plain)).expect("valid JSON expected");
    assert!(v2.get("stackTrace").unwrap().is_null());
}

#[test]
fn split_lines_splits_on_newlines() {
    let lines = split_lines("first\nsecond\nthird");
    assert_eq!(lines, vec!["first", "second", "third"]);
    assert_eq!(split_lines(""), vec![""]);
    assert_eq!(split_lines("one"), vec!["one"]);
    assert_eq!(split_lines("end\n"), vec!["end", ""]);
}
