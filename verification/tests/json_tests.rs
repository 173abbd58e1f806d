use wasm_transform::json::{serialize, Json};
use wasm_transform::parse::parse_doc_x;

fn parse(s: &[u8]) -> Option<Json> {
    parse_doc_x(&s.to_vec())
}

fn reencoded(s: &[u8]) -> Option<Vec<u8>> {
    parse(s).map(|j| serialize(&j))
}

#[test]
fn parse_compacts_whitespace() {
    let out = reencoded(b" { \"a\" : [ 1 , true , null ] , \"b\" : \"x\" } ").unwrap();
    assert_eq!(out, b"{\"a\":[1,true,null],\"b\":\"x\"}".to_vec());
}

#[test]
fn parse_keeps_compact_document() {
    let input = b"{\"a\":[1,true,null,false],\"b\":\"x\",\"c\":{}}";
    assert_eq!(reencoded(input).unwrap(), input.to_vec());
}

#[test]
fn parse_keeps_numbers_raw() {
    let input = b"[-1.5e10,0.25,1E+2,-0]";
    assert_eq!(reencoded(input).unwrap(), input.to_vec());
}

#[test]
fn parse_keeps_escapes_raw() {
    let input = b"\"a\\nb\\u0041\\\\\\\"\"";
    assert_eq!(reencoded(input).unwrap(), input.to_vec());
}

#[test]
fn parse_keeps_member_order() {
    let input = b"{\"z\":1,\"a\":2,\"m\":3}";
    assert_eq!(reencoded(input).unwrap(), input.to_vec());
}

#[test]
fn parse_nested_structures() {
    let input = b"{\"a\":{\"b\":[{\"c\":[]},[null]]}}";
    assert_eq!(reencoded(input).unwrap(), input.to_vec());
}

#[test]
fn parse_rejects_malformed() {
    assert!(parse(b"").is_none());
    assert!(parse(b"{oops").is_none());
    assert!(parse(b"{\"a\":}").is_none());
    assert!(parse(b"tru").is_none());
    assert!(parse(b"{\"a\":1").is_none());
    assert!(parse(b"[1,]").is_none());
    assert!(parse(b"{\"a\" 1}").is_none());
}

#[test]
fn parse_rejects_trailing_content() {
    assert!(parse(b"{} x").is_none());
    assert!(parse(b"1 2").is_none());
}

#[test]
fn parse_rejects_bad_strings() {
    assert!(parse(b"\"a\\x\"").is_none());
    assert!(parse(b"\"a\\u00g0\"").is_none());
    assert!(parse(b"\"a").is_none());
    assert!(parse(&[b'"', 0x01, b'"']).is_none());
}

#[test]
fn serialize_built_value() {
    let doc = Json::Object(vec![
        (b"k".to_vec(), Json::Array(vec![Json::Null, Json::Bool(true)])),
        (b"n".to_vec(), Json::Number(b"42".to_vec())),
    ]);
    assert_eq!(serialize(&doc), b"{\"k\":[null,true],\"n\":42}".to_vec());
}
