use lambda_runtime_errors::ApiError;
use lambda_runtime_errors::ErrorResponse;
use lambda_runtime_errors::RuntimeApiError;
use lambda_runtime_errors::ERROR_TYPE_HANDLED;
use lambda_runtime_errors::ERROR_TYPE_UNHANDLED;

#[test]
fn handled_sets_kind_and_no_trace() {
    let r = ErrorResponse::handled("out of cheese".to_string());
    assert_eq!(r.error_message, "out of cheese");
    assert_eq!(r.error_type, "Handled");
    assert_eq!(r.error_type, ERROR_TYPE_HANDLED);
    assert!(r.stack_trace.is_none());
}

#[test]
fn unhandled_sets_kind_and_no_trace() {
    let r = ErrorResponse::unhandled("out of cheese".to_string());
    assert_eq!(r.error_message, "out of cheese");
    assert_eq!(r.error_type, "Unhandled");
    assert_eq!(r.error_type, ERROR_TYPE_UNHANDLED);
    assert!(r.stack_trace.is_none());
}

#[test]
fn new_reports_description_unhandled() {
    let e = ApiError::new("boom", false);
    let r = e.to_response();
    assert_eq!(r.error_message, "boom");
    assert_eq!(r.error_type, "Unhandled");
}

#[test]
fn description_returns_the_message() {
    let e = ApiError::new("boom", false);
    assert_eq!(e.description(), "boom");
}

#[test]
fn recoverable_starts_true_and_demotion_is_idempotent() {
    let mut e = ApiError::new("boom", false);
    assert!(e.recoverable);
    e.unrecoverable();
    assert!(!e.recoverable);
    assert_eq!(e.description(), "boom");
    e.unrecoverable();
    assert!(!e.recoverable);
    assert_eq!(e.description(), "boom");
}

#[test]
fn capture_disabled_trace_absent_on_every_path() {
    let r = ApiError::new("plain", false).to_response();
    assert!(r.stack_trace.is_none());

    let je = serde_json::from_str::<serde_json::Value>("not json").unwrap_err();
    assert!(ApiError::from_json_error(&je, false).to_response().stack_trace.is_none());

    let ue = "http://exa mple.com/".parse::<http::Uri>().unwrap_err();
    assert!(ApiError::from_invalid_uri(&ue, false).to_response().stack_trace.is_none());

    let he = http::header::HeaderValue::from_bytes(&[0xff])
        .unwrap()
        .to_str()
        .unwrap_err();
    assert!(ApiError::from_header_error(&he, false).to_response().stack_trace.is_none());

    let pe = "twelve".parse::<u32>().unwrap_err();
    assert!(ApiError::from_parse_int_error(&pe, false).to_response().stack_trace.is_none());

    let ie = std::io::Error::new(std::io::ErrorKind::Other, "disk gone");
    assert!(ApiError::from_io_error(&ie, false).to_response().stack_trace.is_none());
}

#[test]
fn capture_enabled_trace_present_on_every_path() {
    let r = ApiError::new("plain", true).to_response();
    let t = r.stack_trace.expect("trace expected");
    assert!(t.len() >= 1);

    let pe = "twelve".parse::<u32>().unwrap_err();
    let r2 = ApiError::from_parse_int_error(&pe, true).to_response();
    let t2 = r2.stack_trace.expect("trace expected");
    assert!(t2.len() >= 1);

    let ie = std::io::Error::new(std::io::ErrorKind::Other, "disk gone");
    let r3 = ApiError::from_io_error(&ie, true).to_response();
    let t3 = r3.stack_trace.expect("trace expected");
    assert!(t3.len() >= 1);
}

#[test]
fn adapters_carry_the_source_description() {
    let je = serde_json::from_str::<serde_json::Value>("not json").unwrap_err();
    let expected = format!("{}", je);
    let r = ApiError::from_json_error(&je, false).to_response();
    assert_eq!(r.error_message, expected);
    assert_eq!(r.error_type, "Unhandled");

    let pe = "twelve".parse::<u32>().unwrap_err();
    let expected = format!("{}", pe);
    let r = ApiError::from_parse_int_error(&pe, false).to_response();
    assert_eq!(r.error_message, expected);
    assert_eq!(r.error_type, "Unhandled");

    let ie = std::io::Error::new(std::io::ErrorKind::Other, "disk gone");
    let expected = format!("{}", ie);
    let r = ApiError::from_io_error(&ie, false).to_response();
    assert_eq!(r.error_message, expected);
    assert_eq!(r.error_type, "Unhandled");
}

#[test]
fn scenario_malformed_identifier() {
    let e = ApiError::new("invalid character at position 4", false);
    let r = e.to_response();
    assert_eq!(r.error_message, "invalid character at position 4");
    assert_eq!(r.error_type, "Unhandled");

    let ue = "http://exa mple.com/".parse::<http::Uri>().unwrap_err();
    let expected = format!("{}", ue);
    let r2 = ApiError::from_invalid_uri(&ue, false).to_response();
    assert_eq!(r2.error_message, expected);
    assert_eq!(r2.error_type, "Unhandled");
}

struct ValidationError;

impl RuntimeApiError for ValidationError {
    fn to_response(&self) -> ErrorResponse {
        ErrorResponse::handled("validation failed: missing field x".to_string())
    }
}

#[test]
fn scenario_domain_error_passes_through_untouched() {
    let r = ValidationError.to_response();
    assert_eq!(r.error_message, "validation failed: missing field x");
    assert_eq!(r.error_type, "Handled");
    assert!(r.stack_trace.is_none());
    let wire = lambda_runtime_errors::codec::to_json(&r);
    assert_eq!(
        wire,
        "{\"errorMessage\":\"validation failed: missing field x\",\"errorType\":\"Handled\",\"stackTrace\":null}"
    );
}
