use internex_rewriter::js::rewrite_js;

const PROXY: &str = "http://localhost:8080";

#[test]
fn wraps_fetch() {
    let code = r#"fetch("/api/data")"#;
    let result = rewrite_js(PROXY, code);
    assert!(result.contains("rewriteUrl"));
}

#[test]
fn wraps_new_worker() {
    let code = r#"new Worker("worker.js")"#;
    let result = rewrite_js(PROXY, code);
    assert!(result.contains("rewriteUrl"));
}

#[test]
fn wraps_eval_string() {
    let code = r#"eval("alert(1)")"#;
    let result = rewrite_js(PROXY, code);
    assert!(result.contains("rewriteEval"));
}

#[test]
fn wraps_innerhtml() {
    let code = r#"el.innerHTML = "<img src=x>";"#;
    let result = rewrite_js(PROXY, code);
    assert!(result.contains("rewriteHtml"));
}

#[test]
fn wraps_set_attribute_src() {
    let code = r#"el.setAttribute("src", url);"#;
    let result = rewrite_js(PROXY, code);
    assert!(result.contains("rewriteUrl"));
}

#[test]
fn fetch_exact_output() {
    assert_eq!(
        rewrite_js(PROXY, "fetch(\"/api/data\")"),
        "fetch(__internex.rewriteUrl(\"/api/data\"))"
    );
}

#[test]
fn innerhtml_assignment_exact_output() {
    assert_eq!(
        rewrite_js(PROXY, "el.innerHTML = s;"),
        "el.innerHTML = __internex.rewriteHtml(s);"
    );
}

#[test]
fn rewrite_is_idempotent_on_fetch() {
    let once = rewrite_js(PROXY, "fetch(\"/api/data\")");
    let twice = rewrite_js(PROXY, &once);
    assert_eq!(once, twice);
}

#[test]
fn eval_with_non_literal_untouched() {
    let code = "eval(code)";
    assert_eq!(rewrite_js(PROXY, code), code);
}

#[test]
fn xhr_open_second_argument_wrapped() {
    let out = rewrite_js(PROXY, "xhr.open(\"GET\", \"/data\");");
    assert_eq!(out, "xhr.open(\"GET\", __internex.rewriteUrl(\"/data\"));");
}

#[test]
fn string_contents_untouched() {
    let code = "var s = \"fetch('/api')\";";
    assert_eq!(rewrite_js(PROXY, code), code);
}

#[test]
fn comment_contents_untouched() {
    let code = "// fetch('/api')\nvar a = 1;";
    assert_eq!(rewrite_js(PROXY, code), code);
}

#[test]
fn fetch_as_member_not_wrapped() {
    let code = "obj.fetch(\"/api\")";
    assert_eq!(rewrite_js(PROXY, code), code);
}

#[test]
fn set_attribute_class_untouched() {
    let code = "el.setAttribute(\"class\", v);";
    assert_eq!(rewrite_js(PROXY, code), code);
}

#[test]
fn document_write_wrapped() {
    let out = rewrite_js(PROXY, "document.write(h);");
    assert!(out.contains("rewriteHtml"));
}

#[test]
fn parse_failure_shape_passes_through() {
    let code = "var x = ((";
    assert_eq!(rewrite_js(PROXY, code), code);
}

#[test]
fn empty_source_stays_empty() {
    assert_eq!(rewrite_js(PROXY, ""), "");
}

#[test]
fn nested_fetch_rewrite_is_idempotent() {
    let once = rewrite_js(PROXY, "fetch(fetch(x))");
    assert_eq!(once, "fetch(__internex.rewriteUrl(fetch(x)))");
    assert_eq!(rewrite_js(PROXY, &once), once);
}

#[test]
fn import_scripts_wraps_every_argument() {
    let out = rewrite_js(PROXY, "importScripts(\"a.js\", b)");
    assert_eq!(
        out,
        "importScripts(__internex.rewriteUrl(\"a.js\"), __internex.rewriteUrl(b))"
    );
    assert_eq!(rewrite_js(PROXY, &out), out);
}

#[test]
fn set_attribute_formaction_wrapped() {
    let out = rewrite_js(PROXY, "el.setAttribute(\"formAction\", u);");
    assert!(out.contains("rewriteUrl"));
    let out2 = rewrite_js(PROXY, "el.setAttribute(\"codebase\", u);");
    assert!(out2.contains("rewriteUrl"));
}

#[test]
fn comment_inside_argument_stays_balanced() {
    let out = rewrite_js(PROXY, "fetch(u /* :) */)");
    assert_eq!(out, "fetch(__internex.rewriteUrl(u /* :) */))");
}

#[test]
fn innerhtml_assignment_idempotent() {
    let once = rewrite_js(PROXY, "el.innerHTML = s;");
    assert_eq!(rewrite_js(PROXY, &once), once);
}

#[test]
fn open_and_set_attribute_idempotent() {
    let once = rewrite_js(PROXY, "xhr.open(\"GET\", \"/d\"); el.setAttribute(\"src\", u);");
    assert_eq!(rewrite_js(PROXY, &once), once);
}

#[test]
fn full_program_rewrite_is_idempotent() {
    let code = "fetch(\"/a\");\nnew Worker(w);\neval(\"x\");\nel.innerHTML = h;\nxhr.open(\"GET\", u);\nimportScripts(\"a.js\", \"b.js\");\ndocument.write(m);";
    let once = rewrite_js(PROXY, code);
    let twice = rewrite_js(PROXY, &once);
    assert_eq!(once, twice);
    assert!(once.contains("rewriteUrl") && once.contains("rewriteEval") && once.contains("rewriteHtml"));
}
