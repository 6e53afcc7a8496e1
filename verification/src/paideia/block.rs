//! Blocks of a page written in HTML: paragraphs, inline blocks, bold text, lists and tables.
//!
//! What a block holds comes already written in HTML by its own component.
use super::section::{append_all, concatenated, texts};
use crate::text::{decimal, push_decimal};
use vstd::prelude::*;

verus! {

/// A paragraph holding `text`.
pub open spec fn paragraph_text(text: Seq<char>) -> Seq<char> {
    "<p class=\"paideia-paragraph\">"@ + text + "</p>"@
}

/// An inline component set as a block of its own.
pub open spec fn inline_block_text(text: Seq<char>) -> Seq<char> {
    "<span class=\"paideia-inline-block\">"@ + text + "</span>"@
}

/// Inline text in bold.
pub open spec fn bold_text(text: Seq<char>) -> Seq<char> {
    "<span class=\"paideia-bold\">"@ + text + "</span>"@
}

/// The elements of a list, each in an item of its own.
pub open spec fn list_items(elements: Seq<Seq<char>>) -> Seq<char>
    decreases elements.len(),
{
    if elements.len() == 0 {
        Seq::empty()
    } else {
        list_items(elements.drop_last()) + "<li class=\"paideia-list-elem\">"@ + elements.last() + "</li>"@
    }
}

/// An unordered list of `elements`.
pub open spec fn unordered_list_text(elements: Seq<Seq<char>>) -> Seq<char> {
    "<ul class=\"paideia-ulist\">"@ + list_items(elements) + "</ul>"@
}

/// An ordered list of `elements`.
pub open spec fn ordered_list_text(elements: Seq<Seq<char>>) -> Seq<char> {
    "<ol class=\"paideia-olist\">"@ + list_items(elements) + "</ol>"@
}

/// How a table cell is laid out: whether it is a header, and how many rows and columns it
/// spans.
#[derive(Debug, Clone, Copy, PartialEq, Eq, PartialOrd, Ord, Hash, Structural)]
pub struct CellAttrs {
    pub header: bool,
    pub rowspan: u32,
    pub colspan: u32,
}

impl Default for CellAttrs {
    /// An ordinary cell, spanning one row and one column.
    fn default() -> (attrs: Self)
        ensures
            attrs == (CellAttrs { header: false, rowspan: 1, colspan: 1 }),
    {
        Self { header: false, rowspan: 1, colspan: 1 }
    }
}

/// A table cell holding `child`: a header cell or an ordinary one, with its spans written only
/// where they are not one.
pub open spec fn cell_text(attrs: CellAttrs, child: Seq<char>) -> Seq<char> {
    (if attrs.header {
        "<th class=\"paideia-table-header\""@
    } else {
        "<td class=\"paideia-table-cell\""@
    }) + (if attrs.rowspan != 1 {
        " rowspan=\""@ + decimal(attrs.rowspan as nat) + "\""@
    } else {
        Seq::empty()
    }) + (if attrs.colspan != 1 {
        " colspan=\""@ + decimal(attrs.colspan as nat) + "\""@
    } else {
        Seq::empty()
    }) + ">"@ + child + (if attrs.header {
        "</th>"@
    } else {
        "</td>"@
    })
}

/// A table row of `cells`.
pub open spec fn row_text(cells: Seq<Seq<char>>) -> Seq<char> {
    "<tr class=\"paideia-table-row\">"@ + concatenated(cells) + "</tr>"@
}

/// A table of `rows`.
pub open spec fn table_text(rows: Seq<Seq<char>>) -> Seq<char> {
    "<div class=\"paideia-table\"><table>"@ + concatenated(rows) + "</table></div>"@
}

/// A table with a title above it.
pub open spec fn titled_table_text(title: Seq<char>, table: Seq<char>) -> Seq<char> {
    "<div class=\"paideia-titled-table\"><div class=\"paideia-table-title\">"@ + title + "</div>"@ + table
        + "</div>"@
}

/// Writes a paragraph.
pub fn paragraph_html(text: &str) -> (html: String)
    ensures
        html@ == paragraph_text(text@),
{
    let mut html = String::new();
    html.append("<p class=\"paideia-paragraph\">");
    html.append(text);
    html.append("</p>");
    html
}

/// Writes an inline component as a block.
pub fn inline_block_html(text: &str) -> (html: String)
    ensures
        html@ == inline_block_text(text@),
{
    let mut html = String::new();
    html.append("<span class=\"paideia-inline-block\">");
    html.append(text);
    html.append("</span>");
    html
}

/// Writes inline text in bold.
pub fn bold_html(text: &str) -> (html: String)
    ensures
        html@ == bold_text(text@),
{
    let mut html = String::new();
    html.append("<span class=\"paideia-bold\">");
    html.append(text);
    html.append("</span>");
    html
}

/// Appends the items of a list.
fn append_items(out: &mut String, elements: &[String])
    ensures
        final(out)@ == old(out)@ + list_items(texts(elements@)),
{
    let mut i: usize = 0;
    while i < elements.len()
        invariant
            i <= elements@.len(),
            out@ == old(out)@ + list_items(texts(elements@.take(i as int))),
        decreases elements.len() - i,
    {
        proof {
            assert(texts(elements@.take(i + 1)).drop_last() =~= texts(elements@.take(i as int)));
            assert(texts(elements@.take(i + 1)).last() == elements@[i as int]@);
        }
        out.append("<li class=\"paideia-list-elem\">");
        out.append(elements[i].as_str());
        out.append("</li>");
        i = i + 1;
    }
    assert(elements@.take(elements@.len() as int) =~= elements@);
}

/// Writes an unordered list.
pub fn unordered_list_html(elements: &[String]) -> (html: String)
    ensures
        html@ == unordered_list_text(texts(elements@)),
{
    let mut html = String::new();
    html.append("<ul class=\"paideia-ulist\">");
    append_items(&mut html, elements);
    html.append("</ul>");
    html
}

/// Writes an ordered list.
pub fn ordered_list_html(elements: &[String]) -> (html: String)
    ensures
        html@ == ordered_list_text(texts(elements@)),
{
    let mut html = String::new();
    html.append("<ol class=\"paideia-olist\">");
    append_items(&mut html, elements);
    html.append("</ol>");
    html
}

/// Writes a table cell.
pub fn cell_html(attrs: CellAttrs, child: &str) -> (html: String)
    ensures
        html@ == cell_text(attrs, child@),
{
    let mut html = String::new();
    if attrs.header {
        html.append("<th class=\"paideia-table-header\"");
    } else {
        html.append("<td class=\"paideia-table-cell\"");
    }
    if attrs.rowspan != 1 {
        html.append(" rowspan=\"");
        push_decimal(&mut html, attrs.rowspan as u128);
        html.append("\"");
    }
    if attrs.colspan != 1 {
        html.append(" colspan=\"");
        push_decimal(&mut html, attrs.colspan as u128);
        html.append("\"");
    }
    html.append(">");
    html.append(child);
    if attrs.header {
        html.append("</th>");
    } else {
        html.append("</td>");
    }
    assert(html@ =~= cell_text(attrs, child@));
    html
}

/// Writes a table row.
pub fn row_html(cells: &[String]) -> (html: String)
    ensures
        html@ == row_text(texts(cells@)),
{
    let mut html = String::new();
    html.append("<tr class=\"paideia-table-row\">");
    append_all(&mut html, cells);
    html.append("</tr>");
    html
}

/// Writes a table.
pub fn table_html(rows: &[String]) -> (html: String)
    ensures
        html@ == table_text(texts(rows@)),
{
    let mut html = String::new();
    html.append("<div class=\"paideia-table\"><table>");
    append_all(&mut html, rows);
    html.append("</table></div>");
    html
}

/// Writes a table with a title above it.
pub fn titled_table_html(title: &str, table: &str) -> (html: String)
    ensures
        html@ == titled_table_text(title@, table@),
{
    let mut html = String::new();
    html.append("<div class=\"paideia-titled-table\"><div class=\"paideia-table-title\">");
    html.append(title);
    html.append("</div>");
    html.append(table);
    html.append("</div>");
    html
}

} // verus!
