use internex_rewriter::urlcodec::{decode_url, encode_url, encode_url_with_base};

const ORIGIN: &str = "http://localhost:8080";

#[test]
fn absolute_url() {
    let result = encode_url(ORIGIN, "https://example.com/page").unwrap();
    assert!(result.starts_with("http://localhost:8080/proxy?url="));
    assert!(result.contains("example.com"));
}

#[test]
fn protocol_relative() {
    let result = encode_url(ORIGIN, "//cdn.example.com/lib.js").unwrap();
    assert!(result.contains("proxy?url="));
}

#[test]
fn data_url_passthrough() {
    let result = encode_url(ORIGIN, "data:text/html,<h1>hi</h1>").unwrap();
    assert!(result.starts_with("data:"));
}

#[test]
fn javascript_passthrough() {
    let result = encode_url(ORIGIN, "javascript:void(0)").unwrap();
    assert_eq!(result, "javascript:void(0)");
}

#[test]
fn file_blocked() {
    assert!(encode_url(ORIGIN, "file:///etc/passwd").is_none());
}

#[test]
fn decode_roundtrip() {
    let encoded = encode_url(ORIGIN, "https://example.com/path?q=1").unwrap();
    let query = encoded.split("url=").nth(1).unwrap();
    let decoded = decode_url(query).unwrap();
    assert_eq!(decoded, "https://example.com/path?q=1");
}

#[test]
fn empty_and_fragment_ignored() {
    assert!(encode_url(ORIGIN, "").is_none());
    assert!(encode_url(ORIGIN, "#top").is_none());
}

#[test]
fn encode_exact_form() {
    let result = encode_url("http://px:8080", "https://ex.com/p?q=1").unwrap();
    assert_eq!(result, "http://px:8080/proxy?url=https://ex.com/p?q%3D1");
}

#[test]
fn encode_escapes_reserved_query_chars() {
    let result = encode_url(ORIGIN, "https://ex.com/a b?c=d&e=f+g#h").unwrap();
    assert_eq!(
        result,
        "http://localhost:8080/proxy?url=https://ex.com/a%20b?c%3Dd%26e%3Df%2Bg%23h"
    );
}

#[test]
fn trailing_slash_of_proxy_is_dropped() {
    let result = encode_url("http://px:8080/", "https://ex.com/x").unwrap();
    assert!(result.starts_with("http://px:8080/proxy?url="));
}

#[test]
fn blob_inner_url_is_encoded() {
    let result = encode_url(ORIGIN, "blob:https://ex.com/uuid").unwrap();
    assert!(result.starts_with("blob:"));
    assert!(result.contains("/proxy?url="));
}

#[test]
fn relative_without_base_kept() {
    let result = encode_url(ORIGIN, "images/logo.png").unwrap();
    assert_eq!(result, "images/logo.png");
}

#[test]
fn with_base_resolves_relative() {
    let result = encode_url_with_base("http://px:8080", "https://ex.com/a/", "b.png").unwrap();
    assert!(result.starts_with("http://px:8080/proxy?url="));
    assert!(result.contains("ex.com/a/b.png"));
}

#[test]
fn with_base_keeps_data_url() {
    let result =
        encode_url_with_base("http://px:8080", "https://ex.com/", "data:text/plain,x").unwrap();
    assert_eq!(result, "data:text/plain,x");
}

#[test]
fn with_base_rejects_fragment() {
    assert!(encode_url_with_base("http://px:8080", "https://ex.com/", "#frag").is_none());
}

#[test]
fn decode_rejects_non_url() {
    assert!(decode_url("notaurl").is_none());
}

#[test]
fn decode_rejects_bad_utf8_escape() {
    assert!(decode_url("https%3A%2F%2Fex.com%2F%C3").is_none());
}

#[test]
fn decode_multibyte_escape() {
    let decoded = decode_url("https://ex.com/%C3%A9").unwrap();
    assert_eq!(decoded, "https://ex.com/é");
}

#[test]
fn decode_empty_is_rejected() {
    assert!(decode_url("").is_none());
}

#[test]
fn encode_whitespace_only_is_rejected() {
    assert!(encode_url(ORIGIN, "   ").is_none());
}
