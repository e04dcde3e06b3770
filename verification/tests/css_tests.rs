use internex_rewriter::css::{rewrite_css, rewrite_css_string, rewrite_insert_rule, rewrite_replace_sync};

const PROXY: &str = "http://localhost:8080";
const BASE: &str = "https://example.com/style/";

#[test]
fn rewrites_url_function() {
    let css = r#"body { background: url(https://example.com/bg.png); }"#;
    let result = rewrite_css(PROXY, BASE, css);
    assert!(result.contains("/proxy?url="));
}

#[test]
fn rewrites_import() {
    let css = r#"@import "https://example.com/reset.css";"#;
    let result = rewrite_css(PROXY, BASE, css);
    assert!(result.contains("/proxy?url="));
}

#[test]
fn preserves_data_urls() {
    let css = r#"body { background: url(data:image/png;base64,abc); }"#;
    let result = rewrite_css(PROXY, BASE, css);
    assert!(result.contains("data:image/png;base64,abc"));
}

#[test]
fn import_scenario_is_proxied() {
    let result = rewrite_css("http://px:8080", "https://ex.com/s/", "@import \"https://ex.com/r.css\";");
    assert!(result.contains("/proxy?url="));
}

#[test]
fn relative_url_resolved_against_base() {
    let result = rewrite_css(PROXY, BASE, "div { background: url(img/x.png); }");
    assert!(result.contains("example.com/style/img/x.png"));
    assert!(result.contains("/proxy?url="));
}

#[test]
fn quoted_url_argument_rewritten() {
    let result = rewrite_css(PROXY, BASE, "div { background: url(\"https://ex.com/a.png\"); }");
    assert!(result.contains("/proxy?url="));
}

#[test]
fn url_inside_comment_untouched() {
    let css = "/* url(https://ex.com/a.png) */ b { color: red; }";
    let result = rewrite_css(PROXY, BASE, css);
    assert_eq!(result, css);
}

#[test]
fn url_inside_string_untouched() {
    let css = "div { content: \"url(https://ex.com/a.png)\"; }";
    let result = rewrite_css(PROXY, BASE, css);
    assert_eq!(result, css);
}

#[test]
fn image_set_strings_rewritten() {
    let css = "div { background: image-set(\"https://ex.com/1x.png\" 1x, \"https://ex.com/2x.png\" 2x); }";
    let result = rewrite_css(PROXY, BASE, css);
    assert!(result.contains("/proxy?url="));
    assert!(result.contains("1x,"));
}

#[test]
fn insert_rule_and_replace_sync_match_plain_rewrite() {
    let css = "a { background: url(https://ex.com/a.png); }";
    let plain = rewrite_css_string(PROXY, BASE, css);
    assert_eq!(rewrite_insert_rule(PROXY, BASE, css), plain);
    assert_eq!(rewrite_replace_sync(PROXY, BASE, css), plain);
}

#[test]
fn unknown_tokens_are_kept_verbatim() {
    let css = "@media (min-width: 10px) { .a ~ .b { width: 50%; } }";
    assert_eq!(rewrite_css(PROXY, BASE, css), css);
}

#[test]
fn empty_stylesheet_stays_empty() {
    assert_eq!(rewrite_css(PROXY, BASE, ""), "");
}
