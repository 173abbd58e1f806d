use wasm_transform::transform::{conclude, transform, transform_document, LogLevel, Plan, TransformError};

fn td(input: &[u8], secret: Option<&[u8]>) -> Result<Vec<u8>, TransformError> {
    let body = input.to_vec();
    let sv = secret.map(|s| s.to_vec());
    transform_document(&body, sv.as_ref())
}

#[test]
fn marker_added_to_headers() {
    let out = td(b"{\"headers\":{\"foo\":\"bar\"}}", None).unwrap();
    assert_eq!(out, b"{\"headers\":{\"foo\":\"bar\",\"x-wasm-transform\":\"true\"}}".to_vec());
}

#[test]
fn secret_added_when_configured() {
    let out = td(b"{\"headers\":{\"foo\":\"bar\"}}", Some(b"s3cr3t")).unwrap();
    assert_eq!(
        out,
        b"{\"headers\":{\"foo\":\"bar\",\"x-wasm-transform\":\"true\",\"x-wasm-secret\":\"s3cr3t\"}}"
            .to_vec()
    );
}

#[test]
fn full_request_gains_marker_only() {
    let input = b"{\"url\":\"https://httpbin.org/anything\",\"method\":\"POST\",\"headers\":{\"foo\":\"bar\"},\"payload\":\"{}\"}";
    let out = td(input, None).unwrap();
    let expected = b"{\"url\":\"https://httpbin.org/anything\",\"method\":\"POST\",\"headers\":{\"foo\":\"bar\",\"x-wasm-transform\":\"true\"},\"payload\":\"{}\"}";
    assert_eq!(out, expected.to_vec());
}

#[test]
fn no_headers_passes_through() {
    let out = td(b"{\"url\":\"x\"}", None).unwrap();
    assert_eq!(out, b"{\"url\":\"x\"}".to_vec());
}

#[test]
fn no_headers_passes_through_with_secret() {
    let out = td(b"{\"url\":\"x\"}", Some(b"s")).unwrap();
    assert_eq!(out, b"{\"url\":\"x\"}".to_vec());
}

#[test]
fn non_object_headers_passes_through() {
    let out = td(b"{\"headers\":\"x\"}", None).unwrap();
    assert_eq!(out, b"{\"headers\":\"x\"}".to_vec());
}

#[test]
fn non_object_document_passes_through() {
    let out = td(b"[1,2]", None).unwrap();
    assert_eq!(out, b"[1,2]".to_vec());
}

#[test]
fn marker_overwritten_in_place() {
    let out = td(b"{\"headers\":{\"x-wasm-transform\":\"no\",\"foo\":\"bar\"}}", None).unwrap();
    assert_eq!(
        out,
        b"{\"headers\":{\"x-wasm-transform\":\"true\",\"foo\":\"bar\"}}".to_vec()
    );
}

#[test]
fn transform_twice_gives_same_bytes() {
    let first = td(b"{\"headers\":{\"foo\":\"bar\"}}", Some(b"s")).unwrap();
    let second = td(&first, Some(b"s")).unwrap();
    assert_eq!(second, first);
}

#[test]
fn secret_not_added_when_absent() {
    let out = td(b"{\"headers\":{}}", None).unwrap();
    assert_eq!(out, b"{\"headers\":{\"x-wasm-transform\":\"true\"}}".to_vec());
}

#[test]
fn existing_secret_header_kept_when_none_configured() {
    let out = td(b"{\"headers\":{\"x-wasm-secret\":\"old\"}}", None).unwrap();
    assert_eq!(
        out,
        b"{\"headers\":{\"x-wasm-secret\":\"old\",\"x-wasm-transform\":\"true\"}}".to_vec()
    );
}

#[test]
fn secret_value_is_escaped() {
    let out = td(b"{\"headers\":{}}", Some(b"a\"b\\c\nd")).unwrap();
    assert_eq!(
        out,
        b"{\"headers\":{\"x-wasm-transform\":\"true\",\"x-wasm-secret\":\"a\\\"b\\\\c\\u000ad\"}}"
            .to_vec()
    );
}

#[test]
fn malformed_document_is_an_error() {
    assert_eq!(td(b"{oops", None), Err(TransformError::Malformed));
    assert_eq!(td(b"", None), Err(TransformError::Malformed));
}

#[test]
fn fetch_failure_aborts_without_propagating() {
    let body = b"{\"headers\":{}}".to_vec();
    let plan = transform(7, &body, None);
    assert!(matches!(plan, Plan::Abort));
}

#[test]
fn malformed_body_aborts() {
    let body = b"{".to_vec();
    let plan = transform(0, &body, None);
    assert!(matches!(plan, Plan::Abort));
}

#[test]
fn successful_fetch_propagates_mutated_document() {
    let body = b"{\"headers\":{\"foo\":\"bar\"}}".to_vec();
    match transform(0, &body, None) {
        Plan::Propagate(out) => {
            assert_eq!(out, b"{\"headers\":{\"foo\":\"bar\",\"x-wasm-transform\":\"true\"}}".to_vec());
        }
        Plan::Abort => panic!("expected a propagate plan"),
    }
}

#[test]
fn conclude_maps_statuses() {
    assert_eq!(conclude(0), 1);
    assert_eq!(conclude(1), 0);
    assert_eq!(conclude(-3), 0);
}

#[test]
fn log_level_ordinals() {
    assert_eq!(LogLevel::Debug.code(), 0);
    assert_eq!(LogLevel::Info.code(), 1);
    assert_eq!(LogLevel::Warn.code(), 2);
    assert_eq!(LogLevel::Error.code(), 3);
}
