use vbox::renderer::HtmlRenderer;

#[test]
fn renderer_widths() {
    assert_eq!(HtmlRenderer::new().max_width, 80);
    assert_eq!(HtmlRenderer::new().with_width(10).max_width, 10);
}

#[test]
fn cleanup_breaks_after_sentences() {
    let r = HtmlRenderer::new();
    assert_eq!(
        r.cleanup_output("Hello   world.  This is \n a test! Next".to_string()),
        "Hello world.\n\nThis is a test!\n\nNext"
    );
    assert_eq!(r.cleanup_output("Why? Because".to_string()), "Why?\n\nBecause");
    assert_eq!(r.cleanup_output("   ".to_string()), "");
}

#[test]
fn cleanup_wraps_long_lines() {
    let r = HtmlRenderer::new().with_width(10);
    assert_eq!(r.cleanup_output("aaa bbb ccc ddd".to_string()), "aaa bbb\nccc ddd");
    let r = HtmlRenderer::new().with_width(3);
    assert_eq!(r.cleanup_output("abcdef gh".to_string()), "abcdef\ngh");
}

#[test]
fn cleanup_counts_bytes() {
    // "é" takes two bytes: "éé éé" is 9 bytes wide
    let r = HtmlRenderer::new().with_width(8);
    assert_eq!(r.cleanup_output("éé éé".to_string()), "éé\néé");
    let r = HtmlRenderer::new().with_width(9);
    assert_eq!(r.cleanup_output("éé éé".to_string()), "éé éé");
}

#[test]
fn render_title_and_body() {
    let html = "<html><head><title> My Page </title></head>\
                <body><p>Hello   there.</p><p>Bye</p></body></html>";
    let r = HtmlRenderer::new();
    assert_eq!(r.render(html), "=== My Page === Hello there.\n\nBye");
}

#[test]
fn render_links_keeps_named_targets() {
    let html = "<html><body><a href=\"/x\"> X link </a><a href=\"\">empty</a>\
                <a>no</a><a href=\"/y\">  </a></body></html>";
    let links = HtmlRenderer::new().render_links(html);
    assert_eq!(links, vec![("X link".to_string(), "/x".to_string())]);
}
