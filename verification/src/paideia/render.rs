//! Rendering text into HTML and Markdown: which characters are escaped, and how.
use vstd::prelude::*;
use crate::text::push_char;
use std::rc::Rc;
use std::sync::Arc;

verus! {

/// How HTML writes a character that would otherwise be read as markup; `None` where the
/// character stands for itself.
pub open spec fn html_escape_of(c: char) -> Option<Seq<char>> {
    if c == '&' {
        Some(seq!['&', 'a', 'm', 'p', ';'])
    } else if c == '<' {
        Some(seq!['&', 'l', 't', ';'])
    } else if c == '>' {
        Some(seq!['&', 'g', 't', ';'])
    } else if c == '"' {
        Some(seq!['&', 'q', 'u', 'o', 't', ';'])
    } else if c == '\'' {
        Some(seq!['&', '#', '3', '9', ';'])
    } else if c == '\\' {
        Some(seq!['&', '#', '9', '2', ';'])
    } else {
        None
    }
}

/// How Markdown writes a character that would otherwise be read as markup: a backslash before
/// Markdown's own symbols, and HTML's escapes for the rest.
pub open spec fn markdown_escape_of(c: char) -> Option<Seq<char>> {
    if c == '*' || c == '-' || c == '`' || c == '_' || c == '(' || c == ')' || c == '['
        || c == ']' {
        Some(seq!['\\', c])
    } else {
        html_escape_of(c)
    }
}

/// `text` with each character replaced by its escape, where `escape` gives it one.
pub open spec fn escaped(text: Seq<char>, escape: spec_fn(char) -> Option<Seq<char>>) -> Seq<char>
    decreases text.len(),
{
    if text.len() == 0 {
        Seq::empty()
    } else {
        escaped(text.drop_last(), escape) + match escape(text.last()) {
            Some(replacement) => replacement,
            None => seq![text.last()],
        }
    }
}

/// `text` as HTML writes it.
pub open spec fn html_escaped(text: Seq<char>) -> Seq<char> {
    escaped(text, |c: char| html_escape_of(c))
}

/// `text` as Markdown writes it.
pub open spec fn markdown_escaped(text: Seq<char>) -> Seq<char> {
    escaped(text, |c: char| markdown_escape_of(c))
}

/// The HTML escape of a character, if it needs one.
fn html_escape(ch: char) -> (escape: Option<&'static str>)
    ensures
        match escape {
            Some(s) => html_escape_of(ch) == Some(s@),
            None => html_escape_of(ch) is None,
        },
{
    match ch {
        '&' => {
            proof {
                reveal_strlit("&amp;");
            }
            Some("&amp;")
        },
        '<' => {
            proof {
                reveal_strlit("&lt;");
            }
            Some("&lt;")
        },
        '>' => {
            proof {
                reveal_strlit("&gt;");
            }
            Some("&gt;")
        },
        '"' => {
            proof {
                reveal_strlit("&quot;");
            }
            Some("&quot;")
        },
        '\'' => {
            proof {
                reveal_strlit("&#39;");
            }
            Some("&#39;")
        },
        '\\' => {
            proof {
                reveal_strlit("&#92;");
            }
            Some("&#92;")
        },
        _ => None,
    }
}

/// The Markdown escape of a character, if it needs one.
fn md_escape(ch: char) -> (escape: Option<&'static str>)
    ensures
        match escape {
            Some(s) => markdown_escape_of(ch) == Some(s@),
            None => markdown_escape_of(ch) is None,
        },
{
    match ch {
        '*' => {
            proof {
                reveal_strlit("\\*");
            }
            Some("\\*")
        },
        '-' => {
            proof {
                reveal_strlit("\\-");
            }
            Some("\\-")
        },
        '`' => {
            proof {
                reveal_strlit("\\`");
            }
            Some("\\`")
        },
        '_' => {
            proof {
                reveal_strlit("\\_");
            }
            Some("\\_")
        },
        '(' => {
            proof {
                reveal_strlit("\\(");
            }
            Some("\\(")
        },
        ')' => {
            proof {
                reveal_strlit("\\)");
            }
            Some("\\)")
        },
        '[' => {
            proof {
                reveal_strlit("\\[");
            }
            Some("\\[")
        },
        ']' => {
            proof {
                reveal_strlit("\\]");
            }
            Some("\\]")
        },
        _ => html_escape(ch),
    }
}

/// Appends `text` to `out`, each character written as HTML writes it.
pub fn write_html(text: &str, out: &mut String)
    ensures
        final(out)@ == old(out)@ + html_escaped(text@),
{
    let length = text.unicode_len();
    let mut i: usize = 0;
    while i < length
        invariant
            length == text@.len(),
            i <= length,
            out@ == old(out)@ + html_escaped(text@.take(i as int)),
        decreases length - i,
    {
        let c = text.get_char(i);
        assert(text@.take(i + 1).drop_last() == text@.take(i as int));
        match html_escape(c) {
            Some(escape) => out.append(escape),
            None => push_char(out, c),
        }
        i = i + 1;
    }
    assert(text@.take(length as int) == text@);
}

/// Appends `text` to `out`, each character written as Markdown writes it.
pub fn write_markdown(text: &str, out: &mut String)
    ensures
        final(out)@ == old(out)@ + markdown_escaped(text@),
{
    let length = text.unicode_len();
    let mut i: usize = 0;
    while i < length
        invariant
            length == text@.len(),
            i <= length,
            out@ == old(out)@ + markdown_escaped(text@.take(i as int)),
        decreases length - i,
    {
        let c = text.get_char(i);
        assert(text@.take(i + 1).drop_last() == text@.take(i as int));
        match md_escape(c) {
            Some(escape) => out.append(escape),
            None => push_char(out, c),
        }
        i = i + 1;
    }
    assert(text@.take(length as int) == text@);
}

/// Where a component stands: inline, in a line of text, or as a block.
pub trait Context {}

/// A format that components are rendered into.
pub trait RenderFormat {}

/// Something that can be placed in a page, in the context its type names.
pub trait Component {
    type Context: Context + ?Sized;
}

/// A component that can be written in the format `R`.
pub trait Render<R: RenderFormat + ?Sized>: Component {
    /// What the component writes in the format `R`, in the context `ctx`.
    spec fn rendering(&self, ctx: &Self::Context, render_format: &R) -> Seq<char>;

    /// Appends the component, written in the format `R`, to `out`.
    fn render(&self, out: &mut String, ctx: &Self::Context, render_format: &R)
        ensures
            final(out)@ == old(out)@ + self.rendering(ctx, render_format),
    ;
}

/// The context of a component that stands in a line of text.
#[derive(Debug, Clone, Copy)]
pub struct InlineContext;

impl Context for InlineContext {}

/// The context of a component that stands as a block of its own.
#[derive(Debug, Clone, Copy)]
pub struct BlockContext;

impl Context for BlockContext {}

/// Rendering into HTML.
#[derive(Debug, Clone, Copy)]
pub struct HtmlRendering;

impl RenderFormat for HtmlRendering {}

/// Rendering into Markdown.
#[derive(Debug, Clone, Copy)]
pub struct MdRendering;

impl RenderFormat for MdRendering {}

/// Rendering into plain text.
#[derive(Debug, Clone, Copy)]
pub struct TextRendering;

impl RenderFormat for TextRendering {}

impl Component for str {
    type Context = InlineContext;
}

impl Render<HtmlRendering> for str {
    open spec fn rendering(&self, ctx: &InlineContext, render_format: &HtmlRendering) -> Seq<
        char,
    > {
        html_escaped(self@)
    }

    fn render(&self, out: &mut String, ctx: &InlineContext, render_format: &HtmlRendering) {
        write_html(self, out);
    }
}

impl Render<MdRendering> for str {
    open spec fn rendering(&self, ctx: &InlineContext, render_format: &MdRendering) -> Seq<char> {
        markdown_escaped(self@)
    }

    fn render(&self, out: &mut String, ctx: &InlineContext, render_format: &MdRendering) {
        write_markdown(self, out);
    }
}

impl<'this, T: Component + ?Sized> Component for &'this T {
    type Context = T::Context;
}

impl<'this, R: RenderFormat + ?Sized, T: Render<R> + ?Sized> Render<R> for &'this T {
    open spec fn rendering(&self, ctx: &T::Context, render_format: &R) -> Seq<char> {
        (**self).rendering(ctx, render_format)
    }

    fn render(&self, out: &mut String, ctx: &T::Context, render_format: &R) {
        (**self).render(out, ctx, render_format)
    }
}

impl<T: Component + ?Sized> Component for Box<T> {
    type Context = T::Context;
}

impl<R: RenderFormat + ?Sized, T: Render<R> + ?Sized> Render<R> for Box<T> {
    open spec fn rendering(&self, ctx: &T::Context, render_format: &R) -> Seq<char> {
        (**self).rendering(ctx, render_format)
    }

    fn render(&self, out: &mut String, ctx: &T::Context, render_format: &R) {
        (**self).render(out, ctx, render_format)
    }
}

impl<'this, T: Component + ?Sized> Component for &'this mut T {
    type Context = T::Context;
}

impl<'this, R: RenderFormat + ?Sized, T: Render<R> + ?Sized> Render<R> for &'this mut T {
    open spec fn rendering(&self, ctx: &T::Context, render_format: &R) -> Seq<char> {
        (**self).rendering(ctx, render_format)
    }

    fn render(&self, out: &mut String, ctx: &T::Context, render_format: &R) {
        (**self).render(out, ctx, render_format)
    }
}

impl<T: Component + ?Sized> Component for Rc<T> {
    type Context = T::Context;
}

impl<R: RenderFormat + ?Sized, T: Render<R> + ?Sized> Render<R> for Rc<T> {
    open spec fn rendering(&self, ctx: &T::Context, render_format: &R) -> Seq<char> {
        (**self).rendering(ctx, render_format)
    }

    fn render(&self, out: &mut String, ctx: &T::Context, render_format: &R) {
        (**self).render(out, ctx, render_format)
    }
}

impl<T: Component + ?Sized> Component for Arc<T> {
    type Context = T::Context;
}

impl<R: RenderFormat + ?Sized, T: Render<R> + ?Sized> Render<R> for Arc<T> {
    open spec fn rendering(&self, ctx: &T::Context, render_format: &R) -> Seq<char> {
        (**self).rendering(ctx, render_format)
    }

    fn render(&self, out: &mut String, ctx: &T::Context, render_format: &R) {
        (**self).render(out, ctx, render_format)
    }
}

/// A component that can be written in each of the formats: HTML, Markdown and plain text.
pub trait FullRender: Render<HtmlRendering> + Render<MdRendering> + Render<TextRendering> {}

impl<T: Render<HtmlRendering> + Render<MdRendering> + Render<TextRendering> + ?Sized> FullRender for T {}

/// Escaping works character by character: the escape of two texts one after the other is
/// the escape of the first followed by the escape of the second.
pub proof fn lemma_escaped_append(
    left: Seq<char>,
    right: Seq<char>,
    escape: spec_fn(char) -> Option<Seq<char>>,
)
    ensures
        escaped(left + right, escape) == escaped(left, escape) + escaped(right, escape),
    decreases right.len(),
{
    if right.len() == 0 {
        assert(left + right == left);
    } else {
        lemma_escaped_append(left, right.drop_last(), escape);
        assert((left + right).drop_last() == left + right.drop_last());
    }
}

/// Text rendered into HTML holds none of the characters that HTML reads as markup (`<`, `>`,
/// and the two quotes): each is written as a character reference.
pub proof fn lemma_html_escaped_has_no_markup(text: Seq<char>)
    ensures
        forall|i: int|
            0 <= i < html_escaped(text).len() ==> {
                let c = #[trigger] html_escaped(text)[i];
                c != '<' && c != '>' && c != '"' && c != '\''
            },
    decreases text.len(),
{
    if text.len() > 0 {
        lemma_html_escaped_has_no_markup(text.drop_last());
        let before = html_escaped(text.drop_last());
        assert forall|i: int| 0 <= i < html_escaped(text).len() implies {
            let c = #[trigger] html_escaped(text)[i];
            c != '<' && c != '>' && c != '"' && c != '\''
        } by {
            if i < before.len() {
                assert(html_escaped(text)[i] == before[i]);
            }
        }
    }
}

} // verus!
