use glossa::paideia::block::{
    bold_html, cell_html, inline_block_html, ordered_list_html, paragraph_html, row_html,
    table_html, titled_table_html, unordered_list_html, CellAttrs,
};
use glossa::paideia::location::Id;
use glossa::paideia::render::write_html;
use glossa::paideia::section::{section_html, section_markdown, section_text};
use glossa::paideia::text_format::Text;

/// Checks that every tag opened in `html` is closed, in order, and that quotes are balanced
/// inside tags.
fn check_balanced_html(html: &str) -> Result<(), String> {
    let mut open: Vec<String> = Vec::new();
    let mut rest = html;
    while let Some(start) = rest.find('<') {
        let after = &rest[start + 1 ..];
        let end = after.find('>').ok_or_else(|| format!("unclosed tag in {}", html))?;
        let tag = &after[.. end];
        if tag.matches('"').count() % 2 != 0 {
            return Err(format!("unbalanced quotes in <{}>", tag));
        }
        if let Some(name) = tag.strip_prefix('/') {
            match open.pop() {
                Some(opened) if opened == name => {},
                other => return Err(format!("</{}> closes {:?}", name, other)),
            }
        } else {
            let name = tag.split_whitespace().next().unwrap_or("").to_string();
            open.push(name);
        }
        rest = &after[end + 1 ..];
    }
    if open.is_empty() {
        Ok(())
    } else {
        Err(format!("left open: {:?}", open))
    }
}

fn paragraph(text: &str) -> String {
    let mut html = String::from("<p class=\"paideia-paragraph\">");
    write_html(text, &mut html);
    html.push_str("</p>");
    html
}

fn title(text: &str) -> String {
    let mut html = String::new();
    write_html(text, &mut html);
    html
}

#[test]
fn section_with_id_is_valid_html() {
    let id = Id::new("hello").unwrap();
    let rendered =
        section_html(0, Some(&id), "", &title("Hello"), &paragraph("World!"), &[]);
    assert_eq!(
        rendered,
        "<div class=\"paideia-section paideia-section-0\" id=\"hello\"><h2 \
         class=\"paideia-title\"><a href=\"#hello\">Hello</a></h2><div \
         class=\"paideia-body\"><p class=\"paideia-paragraph\">World!</p></div><div \
         class=\"paideia-children\"></div></div>"
    );
    check_balanced_html(&rendered).unwrap();
}

#[test]
fn section_without_id_is_valid_html() {
    let rendered = section_html(0, None, "", &title("Hello"), &paragraph("World!"), &[]);
    assert_eq!(
        rendered,
        "<div class=\"paideia-section paideia-section-0\"><h2 \
         class=\"paideia-title\">Hello</h2><div class=\"paideia-body\"><p \
         class=\"paideia-paragraph\">World!</p></div><div \
         class=\"paideia-children\"></div></div>"
    );
    check_balanced_html(&rendered).unwrap();
}

#[test]
fn section_with_children_is_valid_html() {
    let good = Id::new("good").unwrap();
    let bye = section_html(2, None, "", &title("By"), &paragraph("Bye!"), &[]);
    let children = vec![
        section_html(1, None, "", &title("Hey"), &paragraph("Hey!"), &[]),
        section_html(1, Some(&good), "", &title("Good"), &paragraph("Afternoon!"), &[bye]),
        section_html(1, None, "", &title("Hay"), &paragraph("Bay!"), &[]),
    ];
    let rendered =
        section_html(0, None, "", &title("Hello"), &paragraph("World!"), &children);
    check_balanced_html(&rendered).unwrap();
    assert!(rendered.contains("<h3 class=\"paideia-title\">Hey</h3>"));
    assert!(rendered.contains("<h4 class=\"paideia-title\">By</h4>"));
    assert!(rendered.contains("<a href=\"#good\">Good</a>"));
    assert!(rendered.ends_with("Bay!</p></div><div class=\"paideia-children\"></div></div></div></div>"));
}

#[test]
fn deep_sections_use_the_smallest_heading() {
    let rendered = section_html(7, None, "page.html", "T", "B", &[]);
    assert_eq!(
        rendered,
        "<div class=\"paideia-section paideia-section-7\"><h6 \
         class=\"paideia-title\">T</h6><div class=\"paideia-body\">B</div><div \
         class=\"paideia-children\"></div></div>"
    );
}

#[test]
fn sections_in_markdown_and_text() {
    let id = Id::new("intro").unwrap();
    let child = section_markdown(1, None, "", "Sub", "more\n\n", &[]);
    assert_eq!(child, "### Sub\n\nmore\n\n");
    let rendered = section_markdown(0, Some(&id), "../a/b.html", "Intro", "text\n\n", &[child]);
    assert_eq!(
        rendered,
        "## <span id=\"intro\">[Intro](../a/b.html#intro)\n\ntext\n\n### Sub\n\nmore\n\n"
    );
    let plain = section_text("Intro", "text\n", &[String::from("Sub\n\nmore\n")]);
    assert_eq!(plain, "Intro\n\ntext\nSub\n\nmore\n");
}

fn escaped(text: &str) -> String {
    let mut html = String::new();
    write_html(text, &mut html);
    html
}

#[test]
fn unordered_list_is_valid_html() {
    let rendered = unordered_list_html(&[
        inline_block_html(&escaped("abc")),
        paragraph_html(&escaped("def")),
    ]);
    assert_eq!(
        rendered,
        "<ul class=\"paideia-ulist\"><li class=\"paideia-list-elem\"><span \
         class=\"paideia-inline-block\">abc</span></li><li class=\"paideia-list-elem\"><p \
         class=\"paideia-paragraph\">def</p></li></ul>"
    );
    check_balanced_html(&rendered).unwrap();
}

#[test]
fn ordered_list_is_valid_html() {
    let rendered = ordered_list_html(&[
        inline_block_html(&escaped("abc")),
        paragraph_html(&escaped("def")),
    ]);
    assert!(rendered.starts_with("<ol class=\"paideia-olist\"><li"));
    assert!(rendered.ends_with("</li></ol>"));
    check_balanced_html(&rendered).unwrap();
}

fn sample_table() -> String {
    table_html(&[
        row_html(&[
            cell_html(CellAttrs::default(), &inline_block_html(&escaped("abc"))),
            cell_html(CellAttrs::default(), &paragraph_html(&escaped("123"))),
        ]),
        row_html(&[cell_html(CellAttrs::default(), &paragraph_html(&escaped("a c r m f m")))]),
    ])
}

#[test]
fn table_is_valid_html() {
    let rendered = sample_table();
    assert_eq!(
        rendered,
        "<div class=\"paideia-table\"><table><tr class=\"paideia-table-row\"><td \
         class=\"paideia-table-cell\"><span class=\"paideia-inline-block\">abc</span></td><td \
         class=\"paideia-table-cell\"><p class=\"paideia-paragraph\">123</p></td></tr><tr \
         class=\"paideia-table-row\"><td class=\"paideia-table-cell\"><p \
         class=\"paideia-paragraph\">a c r m f m</p></td></tr></table></div>"
    );
    check_balanced_html(&rendered).unwrap();
}

#[test]
fn titled_table_is_valid_html() {
    let rendered = titled_table_html(&bold_html(&escaped("aaaaaaa")), &sample_table());
    assert!(rendered.starts_with(
        "<div class=\"paideia-titled-table\"><div class=\"paideia-table-title\"><span \
         class=\"paideia-bold\">aaaaaaa</span></div><div class=\"paideia-table\">"
    ));
    check_balanced_html(&rendered).unwrap();
}

#[test]
fn cells_write_spans_other_than_one() {
    let header = CellAttrs { header: true, rowspan: 2, colspan: 1 };
    assert_eq!(cell_html(header, "x"), "<th class=\"paideia-table-header\" rowspan=\"2\">x</th>");
    let wide = CellAttrs { header: false, rowspan: 1, colspan: 3 };
    assert_eq!(cell_html(wide, "y"), "<td class=\"paideia-table-cell\" colspan=\"3\">y</td>");
}

#[test]
fn plain_text_indents_and_collapses_blank_lines() {
    use_text_format();
}

fn use_text_format() {
    let mut text = Text::new(4);
    let mut out = String::new();
    text.write_str("Title\n\n\n", &mut out);
    assert_eq!(out, "Title\n");
    text.enter();
    text.enter();
    let mut more = String::new();
    text.write_str("body line\n  \nmore\n", &mut more);
    assert_eq!(more, "\n    body line\n\n    more\n");
    text.leave();
    text.leave();
    let mut last = String::new();
    text.write_str("  ", &mut last);
    assert_eq!(last, "  ");
    text.write_str("end", &mut last);
    assert_eq!(last, "  end");
    let default_text = Text::default();
    assert_eq!(default_text, Text::new(4));
}
