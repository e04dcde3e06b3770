use internex_rewriter::html::{
    rewrite_html, rewrite_meta_content, rewrite_srcset, rewrite_svg_value, runtime_script_html,
    wrap_event_handler, wrap_inline_script,
};

const PROXY: &str = "http://localhost:8080";
const BASE: &str = "https://example.com/page";

#[test]
fn rewrites_anchor_href() {
    let html = r#"<html><head></head><body><a href="https://example.com/other">link</a></body></html>"#;
    let result = rewrite_html(PROXY, BASE, html);
    assert!(result.contains("/proxy?url="));
}

#[test]
fn rewrites_img_src() {
    let html = r#"<html><head></head><body><img src="https://example.com/img.png"></body></html>"#;
    let result = rewrite_html(PROXY, BASE, html);
    assert!(result.contains("/proxy?url="));
}

#[test]
fn rewrites_meta_refresh() {
    let html = r#"<html><head><meta http-equiv="refresh" content="5;url=https://example.com/new"></head><body></body></html>"#;
    let result = rewrite_html(PROXY, BASE, html);
    assert!(result.contains("/proxy?url="));
}

#[test]
fn injects_runtime_script() {
    let html = "<html><head></head><body></body></html>";
    let result = rewrite_html(PROXY, BASE, html);
    assert!(result.contains("internex.runtime.js"));
}

#[test]
fn meta_refresh_content_exact() {
    let out = rewrite_meta_content("http://px:8080", "https://ex.com", "5;url=https://ex.com/new")
        .unwrap();
    assert!(out.starts_with("5;url=http://px:8080/proxy?url="));
    assert!(out.contains("ex.com/new"));
}

#[test]
fn meta_refresh_without_url_untouched() {
    assert!(rewrite_meta_content(PROXY, BASE, "30").is_none());
}

#[test]
fn srcset_entries_rewritten_with_descriptors() {
    let out = rewrite_srcset(PROXY, "https://ex.com/", "https://ex.com/1.png 1x, /2.png 2x");
    let parts: Vec<&str> = out.split(", ").collect();
    assert_eq!(parts.len(), 2);
    assert!(parts[0].ends_with(" 1x"));
    assert!(parts[1].ends_with(" 2x"));
    assert!(parts[0].contains("/proxy?url="));
    assert!(parts[1].contains("ex.com/2.png"));
}

#[test]
fn event_handler_wrapped_in_scope() {
    let out = wrap_event_handler("doThing()");
    assert_eq!(
        out,
        "__internex.scope(this,function(){ doThing() }).call(this,event)"
    );
}

#[test]
fn inline_script_wrapped_in_iife() {
    let out = wrap_inline_script("var a = 1;");
    assert_eq!(
        out,
        "(function(__internex_proxy){\nvar a = 1;\n})(window.__internex);"
    );
}

#[test]
fn svg_local_reference_untouched() {
    assert!(rewrite_svg_value(PROXY, BASE, "url(#clip)").is_none());
    assert!(rewrite_svg_value(PROXY, BASE, "#marker").is_none());
}

#[test]
fn svg_url_wrapper_restored() {
    let out = rewrite_svg_value(PROXY, "https://ex.com/", "url(https://ex.com/f.svg)").unwrap();
    assert!(out.starts_with("url("));
    assert!(out.ends_with(")"));
    assert!(out.contains("/proxy?url="));
}

#[test]
fn runtime_script_html_exact() {
    let out = runtime_script_html("http://px:8080", "https://ex.com/page");
    assert_eq!(
        out,
        "<script>window.__internex_base = \"https://ex.com/page\";</script><script src=\"http://px:8080/internex.runtime.js\"></script>"
    );
}

#[test]
fn runtime_script_html_escapes_base() {
    let out = runtime_script_html("http://px:8080", "https://ex.com/a\"b\\c");
    assert!(out.contains("\\\"") && out.contains("\\\\"));
}

#[test]
fn base_href_overrides_caller_base() {
    let html = r#"<html><head><base href="https://other.example/dir/"></head><body><a href="x.html">x</a></body></html>"#;
    let result = rewrite_html(PROXY, BASE, html);
    assert!(result.contains("other.example/dir/x.html"));
}

#[test]
fn inline_style_attribute_rewritten() {
    let html = r#"<html><head></head><body><div style="background: url(https://ex.com/a.png)"></div></body></html>"#;
    let result = rewrite_html(PROXY, BASE, html);
    assert!(result.contains("/proxy?url="));
}

#[test]
fn style_element_rewritten() {
    let html = r#"<html><head><style>body { background: url(https://ex.com/a.png); }</style></head><body></body></html>"#;
    let result = rewrite_html(PROXY, BASE, html);
    assert!(result.contains("/proxy?url="));
}

#[test]
fn inline_script_element_scoped() {
    let html = r#"<html><head></head><body><script>doThing();</script></body></html>"#;
    let result = rewrite_html(PROXY, BASE, html);
    assert!(result.contains("__internex_proxy"));
}

#[test]
fn event_handler_attribute_scoped() {
    let html = r#"<html><head></head><body><a href="/x" onclick="go()">x</a></body></html>"#;
    let result = rewrite_html(PROXY, BASE, html);
    assert!(result.contains("__internex.scope(this,function(){ go() })"));
}

#[test]
fn template_element_survives() {
    let html = r#"<html><head></head><body><template><img src="https://example.com/t.png"></template><img src="https://example.com/i.png"></body></html>"#;
    let result = rewrite_html(PROXY, BASE, html);
    assert!(result.contains("<template"));
    assert!(result.contains("/proxy?url="));
}

#[test]
fn rewrite_twice_equals_once_without_urls() {
    let html = r#"<html><head></head><body onclick="go()"><script>doThing();</script></body></html>"#;
    let once = rewrite_html(PROXY, BASE, html);
    let twice = rewrite_html(PROXY, BASE, &once);
    assert_eq!(once, twice);
}

#[test]
fn runtime_loader_injected_once() {
    let html = "<html><head></head><body></body></html>";
    let once = rewrite_html(PROXY, BASE, html);
    let twice = rewrite_html(PROXY, BASE, &once);
    assert_eq!(once.matches("internex.runtime.js").count(), 1);
    assert_eq!(twice.matches("internex.runtime.js").count(), 1);
}

#[test]
fn event_handler_not_wrapped_twice() {
    let html = r#"<html><head></head><body onclick="go()"></body></html>"#;
    let once = rewrite_html(PROXY, BASE, html);
    let twice = rewrite_html(PROXY, BASE, &once);
    assert_eq!(twice.matches("__internex.scope(").count(), 1);
}
