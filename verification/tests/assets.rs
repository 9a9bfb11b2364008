use blindspot::assets::cache_bust;

#[test]
fn appends_version_to_js_and_css_without_touching_other_attrs() {
    let html = r#"<link href="/css/style.css"><script src="/js/app.js"></script><img src="/img/logo.png">"#;
    let out = cache_bust(html, "abc123");
    assert!(out.contains(r#"href="/css/style.css?v=abc123""#));
    assert!(out.contains(r#"src="/js/app.js?v=abc123""#));
    // A resource outside /js and /css is left alone
    assert!(out.contains(r#"src="/img/logo.png""#));
}

#[test]
fn handles_multiple_js_files_without_per_file_code() {
    let html = r#"<script src="/js/a.js"></script><script src="/js/b.js"></script>"#;
    let out = cache_bust(html, "v1");
    assert_eq!(out.matches("?v=v1").count(), 2);
}

#[test]
fn page_without_references_is_unchanged() {
    let html = "<html><body><img src=\"/img/a.png\"></body></html>";
    assert_eq!(cache_bust(html, "x"), html);
}

#[test]
fn exact_output_for_mixed_page() {
    let html = r#"<a href="/css/x.css">k</a><script src="/js/y.js"></script>"#;
    assert_eq!(
        cache_bust(html, "b7"),
        r#"<a href="/css/x.css?v=b7">k</a><script src="/js/y.js?v=b7"></script>"#
    );
}

#[test]
fn unterminated_reference_gets_suffix_at_end() {
    assert_eq!(cache_bust("src=\"/js/app.js", "9"), "src=\"/js/app.js?v=9");
}

#[test]
fn empty_page() {
    assert_eq!(cache_bust("", "v"), "");
}
