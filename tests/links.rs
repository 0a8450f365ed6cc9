use devdocs::{ensure_html_extensions, href_attribute, rewrite_link};

#[test]
fn absolute_links_kept() {
    assert_eq!(rewrite_link("https://example.com/a"), "https://example.com/a");
    assert_eq!(rewrite_link("http://example.com/a#x"), "http://example.com/a#x");
}

#[test]
fn relative_links_get_html() {
    assert_eq!(rewrite_link("std/vec"), "std/vec.html");
    assert_eq!(rewrite_link("std/vec#method.push"), "std/vec.html#method.push");
    assert_eq!(rewrite_link("page.html#top"), "page.html#top");
    assert_eq!(rewrite_link("page.html"), "page.html");
    assert_eq!(rewrite_link("#top"), ".html#top");
}

#[test]
fn href_attribute_wraps_target() {
    assert_eq!(href_attribute("a/b"), "href=\"a/b.html\"");
}

#[test]
fn markup_links_rewritten() {
    let html = r#"<a href="std/vec#push">v</a> <a href="https://x.io/">x</a> <b>plain</b>"#;
    assert_eq!(
        ensure_html_extensions(html),
        r#"<a href="std/vec.html#push">v</a> <a href="https://x.io/">x</a> <b>plain</b>"#
    );
    assert_eq!(ensure_html_extensions("no links"), "no links");
}
