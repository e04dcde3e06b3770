use internex_rewriter::csp::{extract_nonce, rewrite_csp};

const PROXY: &str = "http://localhost:8080";
const UPSTREAM: &str = "https://example.com";

#[test]
fn strips_upgrade_insecure() {
    let csp = "default-src 'self'; upgrade-insecure-requests; script-src 'none'";
    let result = rewrite_csp(PROXY, UPSTREAM, csp);
    assert!(!result.contains("upgrade-insecure-requests"));
    assert!(result.contains("default-src"));
    assert!(result.contains("script-src"));
}

#[test]
fn strips_block_all_mixed() {
    let csp = "block-all-mixed-content; default-src *";
    let result = rewrite_csp(PROXY, UPSTREAM, csp);
    assert!(!result.contains("block-all-mixed-content"));
}

#[test]
fn adds_proxy_origin() {
    let csp = "script-src 'self' https://cdn.example.com";
    let result = rewrite_csp(PROXY, UPSTREAM, csp);
    assert!(result.contains(PROXY));
}

#[test]
fn preserves_nonces() {
    let csp = "script-src 'nonce-abc123' 'self'";
    let result = rewrite_csp(PROXY, UPSTREAM, csp);
    assert!(result.contains("'nonce-abc123'"));
}

#[test]
fn extract_nonce_works() {
    let csp = "script-src 'nonce-r4nd0m' 'self'; style-src *";
    assert_eq!(extract_nonce(csp), Some("r4nd0m".to_string()));
}

#[test]
fn keeps_script_src_none() {
    let csp = "default-src 'self'; upgrade-insecure-requests; script-src 'none'";
    let result = rewrite_csp("http://px:8080", "https://ex.com", csp);
    assert!(result.contains("default-src"));
    assert!(result.contains("script-src 'none'"));
    assert!(!result.contains("upgrade-insecure-requests"));
}

#[test]
fn keeps_scheme_sources() {
    let result = rewrite_csp(PROXY, UPSTREAM, "img-src data: blob:");
    assert!(result.contains("data:"));
    assert!(result.contains("blob:"));
}

#[test]
fn rewrites_host_source_and_keeps_original() {
    let result = rewrite_csp(PROXY, UPSTREAM, "script-src https://cdn.ex.com");
    assert!(result.contains("/proxy?url="));
    assert!(result.contains("https://cdn.ex.com"));
}

#[test]
fn appends_upstream_once() {
    let result = rewrite_csp(PROXY, UPSTREAM, "font-src 'self'");
    let count = result.matches(UPSTREAM).count();
    assert_eq!(count, 1);
}

#[test]
fn passthrough_directive_kept_verbatim_tokens() {
    let result = rewrite_csp(PROXY, UPSTREAM, "report-uri /csp-report; sandbox allow-scripts");
    assert!(result.contains("report-uri /csp-report"));
    assert!(result.contains("sandbox allow-scripts"));
}

#[test]
fn extract_nonce_none_without_nonce() {
    assert_eq!(extract_nonce("default-src 'self'"), None);
}

#[test]
fn directive_names_are_lowercased() {
    let result = rewrite_csp(PROXY, UPSTREAM, "Script-Src 'self'");
    assert!(result.contains("script-src 'self'"));
}

#[test]
fn empty_policy_stays_empty() {
    assert_eq!(rewrite_csp(PROXY, UPSTREAM, ""), "");
}
