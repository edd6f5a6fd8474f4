use web_diary::query::rendered_body;
use web_diary::render::{render, sanitize};
use web_diary::store::Store;

const JAN5: u64 = 1672920000;

#[test]
fn markdown_becomes_html() {
    let html = render("# Title\n\nSome *emphasis* here.");
    assert!(html.contains("<h1>"));
    assert!(html.contains("Title"));
    assert!(html.contains("<em>emphasis</em>"));
    assert_ne!(html, "# Title\n\nSome *emphasis* here.");
}

#[test]
fn smart_punctuation_is_enabled() {
    let html = render("dash -- here");
    assert!(html.contains("\u{2013}"), "expected an en dash in {:?}", html);
    let quotes = render("say \"hello\"");
    assert!(quotes.contains("\u{201c}") && quotes.contains("\u{201d}"), "{:?}", quotes);
}

#[test]
fn script_tags_never_survive_rendering() {
    let html = render("hello <script>alert('x')</script> world");
    assert!(!html.contains("<script"));
    assert!(!html.contains("alert('x')"));
    assert!(html.contains("hello"));
    assert!(html.contains("world"));
}

#[test]
fn event_handler_attributes_are_stripped() {
    let html = render("<a href=\"https://example.com\" onclick=\"evil()\">link</a>");
    assert!(!html.contains("onclick"));
    assert!(html.contains("link"));
}

#[test]
fn javascript_scheme_links_are_stripped() {
    let html = render("[click](javascript:alert(1))");
    assert!(!html.contains("javascript:"));
    assert!(html.contains("click"));
}

#[test]
fn sanitizing_already_sanitized_html_changes_nothing() {
    for raw in [
        "<p>plain paragraph</p>",
        "<p>x<script>bad()</script></p>",
        "<a href=\"https://example.com\" onclick=\"e()\">t</a>",
        "<h1>Title</h1><em>fine</em><img src=\"x\" onerror=\"boom()\">",
    ] {
        let once = sanitize(raw);
        let twice = sanitize(&once);
        assert_eq!(twice, once, "sanitizing {:?} again changed it", raw);
    }
}

#[test]
fn render_is_deterministic() {
    let a = render("Some *body* with <b>tags</b> and -- dashes");
    let b = render("Some *body* with <b>tags</b> and -- dashes");
    assert_eq!(a, b);
}

#[test]
fn rendered_body_serves_safe_html_for_a_stored_entry() {
    let mut s = Store::new();
    let id = s.create(String::from("# Hi\n\n<script>x()</script>done"), JAN5).unwrap();
    let html = rendered_body(&s, id).unwrap();
    assert!(html.contains("<h1>"));
    assert!(!html.contains("<script"));
    assert!(html.contains("done"));
}

#[test]
fn rendered_body_of_unknown_id_is_not_found() {
    let s = Store::new();
    let e = rendered_body(&s, 1).unwrap_err();
    assert_eq!(e.kind(), web_diary::error::ErrorKind::NotFound);
}
