//! Writing a page as plain text: each line with content indented by the depth it is written
//! at, and runs of blank lines collapsed into one.
use crate::suntaxis::chars::{is_whitespace, white_space};
use crate::text::push_char;
use vstd::prelude::*;

verus! {

/// The position just after the first line break of `text`, or its length if it has none.
pub open spec fn line_end(text: Seq<char>) -> nat
    decreases text.len(),
{
    if text.len() == 0 {
        0
    } else if text[0] == '\n' {
        1
    } else {
        1 + line_end(text.drop_first())
    }
}

/// The lines of `text`, each with the line break that ends it, the last one without a break
/// where the text does not end with one; no line at all for an empty text.
pub open spec fn text_lines(text: Seq<char>) -> Seq<Seq<char>>
    decreases text.len(),
{
    if text.len() == 0 {
        Seq::empty()
    } else {
        let end = line_end(text) as int;
        if 0 < end <= text.len() {
            seq![text.take(end)] + text_lines(text.skip(end))
        } else {
            Seq::empty()
        }
    }
}

/// Whether a line holds something other than white space.
pub open spec fn has_content(line: Seq<char>) -> bool {
    exists|i: int| 0 <= i < line.len() && !white_space(#[trigger] line[i])
}

/// `count` spaces.
pub open spec fn spaces(count: nat) -> Seq<char> {
    Seq::new(count, |i: int| ' ')
}

/// What writing one line gives, indented by `indent`, with a line break owed or not: a line
/// with content is written after the owed break, if any, and the indent; a blank line is
/// dropped and owes a break where it ends with one, and is written as it is where it does not.
/// Also gives whether a break is owed after it.
pub open spec fn line_output(needs_newline: bool, indent: nat, line: Seq<char>) -> (Seq<char>, bool) {
    if has_content(line) {
        ((if needs_newline {
            seq!['\n']
        } else {
            Seq::empty()
        }) + spaces(indent) + line, false)
    } else if line.len() > 0 && line.last() == '\n' {
        (Seq::empty(), true)
    } else {
        (line, false)
    }
}

/// What writing `lines` one after the other gives, and whether a line break is owed at the end.
pub open spec fn text_written(needs_newline: bool, indent: nat, lines: Seq<Seq<char>>) -> (Seq<char>, bool)
    decreases lines.len(),
{
    if lines.len() == 0 {
        (Seq::empty(), needs_newline)
    } else {
        let (out, owed) = line_output(needs_newline, indent, lines[0]);
        let (rest, last) = text_written(owed, indent, lines.drop_first());
        (out + rest, last)
    }
}

/// Where a line that ends at `end` ends: just after its break, or at the end of the text.
pub proof fn lemma_line_end(text: Seq<char>, end: int)
    requires
        0 < end <= text.len(),
        forall|j: int| 0 <= j < end - 1 ==> text[j] != '\n',
        text[end - 1] == '\n' || end == text.len(),
    ensures
        line_end(text) == end,
        text_lines(text) == seq![text.take(end)] + text_lines(text.skip(end)),
    decreases end,
{
    if text[0] != '\n' {
        if end > 1 {
            lemma_line_end(text.drop_first(), end - 1);
        } else {
            assert(text.drop_first().len() == 0);
        }
    }
}

/// The indent of the lines written at depth `level`: none at the top two levels, then
/// `indent_size` more spaces per level.
pub open spec fn indent_of(level: u32, indent_size: u32) -> int {
    if level == 0 {
        0
    } else {
        (level - 1) * indent_size
    }
}

/// Plain text being written: whether a line break is owed, the depth, and how many spaces
/// indent each level.
#[derive(Debug, Clone, Copy, PartialEq, Eq)]
pub struct Text {
    needs_newline: bool,
    level: u32,
    indent_size: u32,
}

impl Default for Text {
    /// Text at the top, indented by four spaces per level.
    fn default() -> (text: Self)
        ensures
            !text.needs_newline(),
            text.level() == 0,
            text.indent_size() == 4,
    {
        Self::new(4)
    }
}

impl Text {
    /// Whether a line break is owed to the next line with content.
    pub closed spec fn needs_newline(self) -> bool {
        self.needs_newline
    }

    /// The depth the text is written at.
    pub closed spec fn level(self) -> u32 {
        self.level
    }

    /// How many spaces indent each level.
    pub closed spec fn indent_size(self) -> u32 {
        self.indent_size
    }

    /// Text at the top, indented by `indent_size` spaces per level.
    pub fn new(indent_size: u32) -> (text: Self)
        ensures
            !text.needs_newline(),
            text.level() == 0,
            text.indent_size() == indent_size,
    {
        Self { needs_newline: false, level: 0, indent_size }
    }

    /// Goes one level deeper.
    pub fn enter(&mut self)
        requires
            old(self).level() < u32::MAX,
        ensures
            final(self).level() == old(self).level() + 1,
            final(self).indent_size() == old(self).indent_size(),
            final(self).needs_newline() == old(self).needs_newline(),
    {
        self.level = self.level + 1;
    }

    /// Comes back one level.
    pub fn leave(&mut self)
        requires
            old(self).level() > 0,
        ensures
            final(self).level() == old(self).level() - 1,
            final(self).indent_size() == old(self).indent_size(),
            final(self).needs_newline() == old(self).needs_newline(),
    {
        self.level = self.level - 1;
    }

    /// Writes one line, as `line_output` says.
    fn write_line(&mut self, line: &str, content: bool, indent: u32, target: &mut String)
        requires
            content == has_content(line@),
        ensures
            final(self).level == old(self).level,
            final(self).indent_size == old(self).indent_size,
            ({
                let (out, owed) = line_output(old(self).needs_newline, indent as nat, line@);
                final(target)@ == old(target)@ + out && final(self).needs_newline == owed
            }),
    {
        let ghost base = target@;
        let length = line.unicode_len();
        if content {
            if self.needs_newline {
                push_char(target, '\n');
            }
            let ghost after_break = target@;
            self.needs_newline = false;
            let mut i: u32 = 0;
            while i < indent
                invariant
                    i <= indent,
                    target@ == after_break + spaces(i as nat),
                decreases indent - i,
            {
                push_char(target, ' ');
                i = i + 1;
                assert(target@ =~= after_break + spaces(i as nat));
            }
            target.append(line);
        } else {
            let ends_with_break = length > 0 && line.get_char(length - 1) == '\n';
            self.needs_newline = ends_with_break;
            if !ends_with_break {
                target.append(line);
            }
        }
        proof {
            let (out, owed) = line_output(old(self).needs_newline, indent as nat, line@);
            assert(target@ =~= base + out);
        }
    }

    /// Writes `input` to `target`, line by line as `text_written` says, at the current level.
    pub fn write_str(&mut self, input: &str, target: &mut String)
        requires
            indent_of(old(self).level(), old(self).indent_size()) <= u32::MAX,
        ensures
            final(self).level() == old(self).level(),
            final(self).indent_size() == old(self).indent_size(),
            ({
                let (written, owed) = text_written(
                    old(self).needs_newline(),
                    indent_of(old(self).level(), old(self).indent_size()) as nat,
                    text_lines(input@),
                );
                final(target)@ == old(target)@ + written && final(self).needs_newline() == owed
            }),
    {
        let length = input.unicode_len();
        let indent: u32 = if self.level == 0 {
            0
        } else {
            (self.level - 1) * self.indent_size
        };
        let ghost total = text_written(self.needs_newline, indent as nat, text_lines(input@));
        let ghost mut done: Seq<char> = Seq::empty();
        let mut start: usize = 0;
        proof {
            assert(input@.skip(0) =~= input@);
            assert(target@ =~= old(target)@ + done);
            assert(total.0 =~= done + total.0);
        }
        while start < length
            invariant
                length == input@.len(),
                start <= length,
                indent == indent_of(self.level, self.indent_size),
                self.level == old(self).level(),
                self.indent_size == old(self).indent_size(),
                total == text_written(old(self).needs_newline(), indent as nat, text_lines(input@)),
                target@ == old(target)@ + done,
                total.0 == done + text_written(self.needs_newline, indent as nat, text_lines(input@.skip(start as int))).0,
                total.1 == text_written(self.needs_newline, indent as nat, text_lines(input@.skip(start as int))).1,
            decreases length - start,
        {
            let ghost rest = input@.skip(start as int);
            let mut line = String::new();
            let mut end = start;
            let mut content = false;
            let mut broke = false;
            while end < length && !broke
                invariant
                    length == input@.len(),
                    start <= end <= length,
                    line@ == input@.subrange(start as int, end as int),
                    content == has_content(line@),
                    broke ==> end > start && input@[end - 1] == '\n',
                    !broke ==> forall|k: int| start <= k < end ==> input@[k] != '\n',
                    broke ==> forall|k: int| start <= k < end - 1 ==> input@[k] != '\n',
                decreases length - end + (if broke { 0int } else { 1int }),
            {
                let c = input.get_char(end);
                let ghost old_line = line@;
                push_char(&mut line, c);
                if !is_whitespace(c) {
                    content = true;
                }
                proof {
                    assert(line@ =~= input@.subrange(start as int, end + 1));
                    assert(line@ == old_line.push(c));
                    if has_content(old_line) {
                        let i = choose|i: int| 0 <= i < old_line.len() && !white_space(#[trigger] old_line[i]);
                        assert(line@[i] == old_line[i]);
                    }
                    if !white_space(c) {
                        assert(line@[old_line.len() as int] == c);
                    }
                    if has_content(line@) {
                        let i = choose|i: int| 0 <= i < line@.len() && !white_space(#[trigger] line@[i]);
                        if i < old_line.len() {
                            assert(old_line[i] == line@[i]);
                        }
                    }
                }
                end = end + 1;
                if c == '\n' {
                    broke = true;
                }
            }
            proof {
                let k = (end - start) as int;
                assert forall|j: int| 0 <= j < k - 1 implies rest[j] != '\n' by {
                    assert(rest[j] == input@[start + j]);
                }
                assert(rest[k - 1] == input@[end - 1]);
                lemma_line_end(rest, k);
                assert(rest.take(k) =~= line@);
                assert(rest.skip(k) =~= input@.skip(end as int));
                assert(text_lines(rest)[0] == line@);
                assert(text_lines(rest).drop_first() =~= text_lines(input@.skip(end as int)));
            }
            let ghost needs_before = self.needs_newline;
            self.write_line(line.as_str(), content, indent, target);
            proof {
                let (out, owed) = line_output(needs_before, indent as nat, line@);
                done = done + out;
                assert(target@ =~= old(target)@ + done);
            }
            start = end;
            proof {
                let (out, owed) = line_output(needs_before, indent as nat, line@);
                assert(total.0 =~= done + text_written(self.needs_newline, indent as nat, text_lines(input@.skip(start as int))).0);
            }
        }
        proof {
            assert(input@.skip(start as int).len() == 0);
            assert(text_lines(input@.skip(start as int)) =~= Seq::<Seq<char>>::empty());
            assert(total.0 =~= done);
        }
    }
}

} // verus!
