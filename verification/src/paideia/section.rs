//! Sections of a page, written in HTML, Markdown and plain text: a heading by depth, an
//! optional id that the heading links to, a body, and the sections nested in it.
//!
//! The title, the body and the nested sections come already written in the format at hand,
//! the nested ones one level deeper; so does the path of the page, written as a link.
use super::location::Id;
use crate::text::{decimal, push_decimal};
use vstd::prelude::*;

verus! {

/// The texts of `parts`, one after the other.
pub open spec fn concatenated(parts: Seq<Seq<char>>) -> Seq<char>
    decreases parts.len(),
{
    if parts.len() == 0 {
        Seq::empty()
    } else {
        concatenated(parts.drop_last()) + parts.last()
    }
}

/// The texts of a slice of strings.
pub open spec fn texts(parts: Seq<String>) -> Seq<Seq<char>> {
    parts.map_values(|part: String| part@)
}

/// The contents of an optional id.
pub open spec fn id_text(id: Option<&Id>) -> Option<Seq<char>> {
    match id {
        Some(id) => Some(id@),
        None => None,
    }
}

/// The HTML heading of a section at depth `level`: `h2` at the top, one more per level, and
/// `h6` from the fourth level down.
pub open spec fn html_heading(level: u32) -> Seq<char> {
    if level == 0 {
        "h2"@
    } else if level == 1 {
        "h3"@
    } else if level == 2 {
        "h4"@
    } else if level == 3 {
        "h5"@
    } else {
        "h6"@
    }
}

/// The Markdown heading of a section at depth `level`: `##` at the top, one `#` more per level,
/// and six from the fourth level down.
pub open spec fn markdown_heading(level: u32) -> Seq<char> {
    if level == 0 {
        "##"@
    } else if level == 1 {
        "###"@
    } else if level == 2 {
        "####"@
    } else if level == 3 {
        "#####"@
    } else {
        "######"@
    }
}

/// A section in HTML: a `div` of the section's level, with the id if there is one; the
/// heading, its title a link to the section (the page's path, `#` and the id) where there is an
/// id; then the body and the nested sections, each in a `div` of its own.
pub open spec fn section_html_text(
    level: u32,
    id: Option<Seq<char>>,
    path_link: Seq<char>,
    title: Seq<char>,
    body: Seq<char>,
    children: Seq<Seq<char>>,
) -> Seq<char> {
    let tag = html_heading(level);
    "<div class=\"paideia-section paideia-section-"@ + decimal(level as nat) + "\""@ + match id {
        Some(id) => " id=\""@ + id + "\""@,
        None => Seq::empty(),
    } + "><"@ + tag + " class=\"paideia-title\">"@ + match id {
        Some(id) => "<a href=\""@ + path_link + "#"@ + id + "\">"@,
        None => Seq::empty(),
    } + title + match id {
        Some(_) => "</a>"@,
        None => Seq::empty(),
    } + "</"@ + tag + "><div class=\"paideia-body\">"@ + body + "</div><div class=\"paideia-children\">"@
        + concatenated(children) + "</div></div>"@
}

/// A section in Markdown: the heading of its level; where there is an id, a `span` with the id
/// opened before the title and the title made a link to the section; a blank line; then the
/// body and the nested sections. The `span` is left open.
pub open spec fn section_markdown_text(
    level: u32,
    id: Option<Seq<char>>,
    path_link: Seq<char>,
    title: Seq<char>,
    body: Seq<char>,
    children: Seq<Seq<char>>,
) -> Seq<char> {
    markdown_heading(level) + " "@ + match id {
        Some(id) => "<span id=\""@ + id + "\">["@,
        None => Seq::empty(),
    } + title + match id {
        Some(id) => "]("@ + path_link + "#"@ + id + ")"@,
        None => Seq::empty(),
    } + "\n\n"@ + body + concatenated(children)
}

/// A section in plain text: the title, a blank line, the body and the nested sections.
pub open spec fn section_plain_text(title: Seq<char>, body: Seq<char>, children: Seq<Seq<char>>) -> Seq<
    char,
> {
    title + "\n\n"@ + body + concatenated(children)
}

/// Appends each of `children` to `out`, in order.
pub(crate) fn append_all(out: &mut String, children: &[String])
    ensures
        final(out)@ == old(out)@ + concatenated(texts(children@)),
{
    let mut i: usize = 0;
    while i < children.len()
        invariant
            i <= children@.len(),
            out@ == old(out)@ + concatenated(texts(children@.take(i as int))),
        decreases children.len() - i,
    {
        proof {
            assert(texts(children@.take(i + 1)).drop_last() =~= texts(children@.take(i as int)));
            assert(texts(children@.take(i + 1)).last() == children@[i as int]@);
        }
        out.append(children[i].as_str());
        i = i + 1;
    }
    assert(children@.take(children@.len() as int) =~= children@);
}

/// The HTML heading tag of a section at depth `level`.
fn html_heading_tag(level: u32) -> (tag: &'static str)
    ensures
        tag@ == html_heading(level),
{
    proof {
        reveal_strlit("h2");
        reveal_strlit("h3");
        reveal_strlit("h4");
        reveal_strlit("h5");
        reveal_strlit("h6");
    }
    if level == 0 {
        "h2"
    } else if level == 1 {
        "h3"
    } else if level == 2 {
        "h4"
    } else if level == 3 {
        "h5"
    } else {
        "h6"
    }
}

/// The Markdown heading mark of a section at depth `level`.
fn markdown_heading_mark(level: u32) -> (mark: &'static str)
    ensures
        mark@ == markdown_heading(level),
{
    proof {
        reveal_strlit("##");
        reveal_strlit("###");
        reveal_strlit("####");
        reveal_strlit("#####");
        reveal_strlit("######");
    }
    if level == 0 {
        "##"
    } else if level == 1 {
        "###"
    } else if level == 2 {
        "####"
    } else if level == 3 {
        "#####"
    } else {
        "######"
    }
}

/// Writes a section in HTML, at depth `level`, on the page whose path written as a link is
/// `path_link`.
pub fn section_html(
    level: u32,
    id: Option<&Id>,
    path_link: &str,
    title: &str,
    body: &str,
    children: &[String],
) -> (html: String)
    ensures
        html@ == section_html_text(level, id_text(id), path_link@, title@, body@, texts(children@)),
{
    let tag = html_heading_tag(level);
    let mut html = String::new();
    html.append("<div class=\"paideia-section paideia-section-");
    push_decimal(&mut html, level as u128);
    html.append("\"");
    if let Some(id) = id {
        html.append(" id=\"");
        html.append(id.as_str());
        html.append("\"");
    }
    html.append("><");
    html.append(tag);
    html.append(" class=\"paideia-title\">");
    if let Some(id) = id {
        html.append("<a href=\"");
        html.append(path_link);
        html.append("#");
        html.append(id.as_str());
        html.append("\">");
    }
    html.append(title);
    if id.is_some() {
        html.append("</a>");
    }
    html.append("</");
    html.append(tag);
    html.append("><div class=\"paideia-body\">");
    html.append(body);
    html.append("</div><div class=\"paideia-children\">");
    append_all(&mut html, children);
    html.append("</div></div>");
    assert(html@ =~= section_html_text(level, id_text(id), path_link@, title@, body@, texts(children@)));
    html
}

/// Writes a section in Markdown, at depth `level`, on the page whose path written as a link is
/// `path_link`.
pub fn section_markdown(
    level: u32,
    id: Option<&Id>,
    path_link: &str,
    title: &str,
    body: &str,
    children: &[String],
) -> (markdown: String)
    ensures
        markdown@ == section_markdown_text(level, id_text(id), path_link@, title@, body@, texts(children@)),
{
    let mut markdown = String::new();
    markdown.append(markdown_heading_mark(level));
    markdown.append(" ");
    if let Some(id) = id {
        markdown.append("<span id=\"");
        markdown.append(id.as_str());
        markdown.append("\">[");
    }
    markdown.append(title);
    if let Some(id) = id {
        markdown.append("](");
        markdown.append(path_link);
        markdown.append("#");
        markdown.append(id.as_str());
        markdown.append(")");
    }
    markdown.append("\n\n");
    markdown.append(body);
    append_all(&mut markdown, children);
    assert(markdown@ =~= section_markdown_text(
        level,
        id_text(id),
        path_link@,
        title@,
        body@,
        texts(children@),
    ));
    markdown
}

/// Writes a section in plain text.
pub fn section_text(title: &str, body: &str, children: &[String]) -> (text: String)
    ensures
        text@ == section_plain_text(title@, body@, texts(children@)),
{
    let mut text = String::new();
    text.append(title);
    text.append("\n\n");
    text.append(body);
    append_all(&mut text, children);
    assert(text@ =~= section_plain_text(title@, body@, texts(children@)));
    text
}

/// `count` number signs.
pub open spec fn hashes(count: nat) -> Seq<char> {
    Seq::new(count, |i: int| '#')
}

/// How many levels of heading a section at depth `level` has: two at the top, one more per
/// level, and six from the fourth level down.
pub open spec fn heading_depth(level: u32) -> nat {
    if level >= 4 {
        6
    } else {
        (level + 2) as nat
    }
}

/// A section's Markdown heading is as many `#` as its heading depth, and its HTML heading is
/// `h` and that depth: so a nested section's heading is one level deeper than its parent's,
/// until the sixth.
pub proof fn lemma_heading_depth(level: u32)
    ensures
        markdown_heading(level) == hashes(heading_depth(level)),
        html_heading(level) == seq!['h'] + decimal(heading_depth(level)),
        level < 4 ==> heading_depth((level + 1) as u32) == heading_depth(level) + 1,
        2 <= heading_depth(level) <= 6,
{
    reveal_strlit("##");
    reveal_strlit("###");
    reveal_strlit("####");
    reveal_strlit("#####");
    reveal_strlit("######");
    reveal_strlit("h2");
    reveal_strlit("h3");
    reveal_strlit("h4");
    reveal_strlit("h5");
    reveal_strlit("h6");
    assert(markdown_heading(level) =~= hashes(heading_depth(level)));
    assert(html_heading(level) =~= seq!['h'] + decimal(heading_depth(level)));
}

/// A section written in Markdown starts with the `#` of its heading depth and a space.
pub proof fn lemma_markdown_section_heading(
    level: u32,
    id: Option<Seq<char>>,
    path_link: Seq<char>,
    title: Seq<char>,
    body: Seq<char>,
    children: Seq<Seq<char>>,
)
    ensures
        section_markdown_text(level, id, path_link, title, body, children).subrange(
            0,
            heading_depth(level) + 1int,
        ) == hashes(heading_depth(level)).push(' '),
{
    lemma_heading_depth(level);
    reveal_strlit(" ");
    let text = section_markdown_text(level, id, path_link, title, body, children);
    let k = heading_depth(level) as int;
    assert forall|i: int| 0 <= i < k + 1 implies text[i] == hashes(heading_depth(level)).push(' ')[i] by {
        if i < k {
            assert(text[i] == markdown_heading(level)[i]);
        } else {
            assert(text[i] == " "@[0]);
        }
    }
    assert(text.subrange(0, k + 1) =~= hashes(heading_depth(level)).push(' '));
}

} // verus!
