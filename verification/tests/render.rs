use glossa::paideia::render::{
    write_html, write_markdown, HtmlRendering, InlineContext, MdRendering, Render,
};
use std::rc::Rc;
use std::sync::Arc;

#[test]
fn html_escapes_markup_characters() {
    let mut out = String::new();
    write_html("<a href=\"x\">Tom & Jerry's \\ </a>", &mut out);
    assert_eq!(
        out,
        "&lt;a href=&quot;x&quot;&gt;Tom &amp; Jerry&#39;s &#92; &lt;/a&gt;"
    );
}

#[test]
fn html_leaves_plain_text_alone() {
    let mut out = String::from("prefix: ");
    write_html("plain text, ŋ and ʃ", &mut out);
    assert_eq!(out, "prefix: plain text, ŋ and ʃ");
}

#[test]
fn markdown_escapes_its_symbols_and_htmls() {
    let mut out = String::new();
    write_markdown("*a* - `b` _c_ (d) [e] <f> & g", &mut out);
    assert_eq!(
        out,
        "\\*a\\* \\- \\`b\\` \\_c\\_ \\(d\\) \\[e\\] &lt;f&gt; &amp; g"
    );
}

#[test]
fn str_renders_through_the_trait() {
    let mut html = String::new();
    "x < y".render(&mut html, &InlineContext, &HtmlRendering);
    assert_eq!(html, "x &lt; y");

    let mut markdown = String::new();
    "x_y".render(&mut markdown, &InlineContext, &MdRendering);
    assert_eq!(markdown, "x\\_y");
}

#[test]
fn pointers_render_what_they_point_to() {
    let text: &str = "a&b";
    let boxed: Box<str> = Box::from(text);
    let counted: Rc<str> = Rc::from(text);
    let shared: Arc<str> = Arc::from(text);

    let mut out = String::new();
    (&text).render(&mut out, &InlineContext, &HtmlRendering);
    boxed.render(&mut out, &InlineContext, &HtmlRendering);
    counted.render(&mut out, &InlineContext, &HtmlRendering);
    shared.render(&mut out, &InlineContext, &MdRendering);
    assert_eq!(out, "a&amp;ba&amp;ba&amp;ba&amp;b");
}

#[test]
fn escaping_two_texts_is_escaping_their_concatenation() {
    let mut apart = String::new();
    write_html("a<b", &mut apart);
    write_html("'c'>d", &mut apart);
    let mut together = String::new();
    write_html("a<b'c'>d", &mut together);
    assert_eq!(apart, together);

    let mut apart = String::new();
    write_markdown("[x", &mut apart);
    write_markdown("](y)", &mut apart);
    let mut together = String::new();
    write_markdown("[x](y)", &mut together);
    assert_eq!(apart, together);
}

#[test]
fn html_rendering_holds_no_markup_characters() {
    let mut out = String::new();
    write_html("<<'\">>\"'", &mut out);
    assert!(!out.contains('<'));
    assert!(!out.contains('>'));
    assert!(!out.contains('"'));
    assert!(!out.contains('\''));
}
