//! Locations of pages: ids, path fragments, internal paths and internal locations.
use crate::text::push_char;
use vstd::prelude::*;

verus! {

/// Whether `c` is an ASCII letter.
pub open spec fn ascii_alphabetic(c: char) -> bool {
    ('a' <= c && c <= 'z') || ('A' <= c && c <= 'Z')
}

/// Whether `c` may stand in an id after its first character: an ASCII letter or digit, `_` or
/// `-`.
pub open spec fn id_char(c: char) -> bool {
    ascii_alphabetic(c) || ('0' <= c && c <= '9') || c == '_' || c == '-'
}

/// Whether `contents` may be an id: an ASCII letter, then ASCII letters, digits, `_` or `-`.
pub open spec fn valid_id(contents: Seq<char>) -> bool {
    &&& contents.len() > 0
    &&& ascii_alphabetic(contents[0])
    &&& forall|i: int| 1 <= i < contents.len() ==> id_char(#[trigger] contents[i])
}

/// Whether `contents` may be a fragment of a path: neither empty, nor `.`, nor `..`, and
/// holding no `/` and no `#`.
pub open spec fn valid_fragment(contents: Seq<char>) -> bool {
    &&& contents.len() > 0
    &&& contents != seq!['.']
    &&& contents != seq!['.', '.']
    &&& forall|i: int| 0 <= i < contents.len() ==> #[trigger] contents[i] != '/' && contents[i] != '#'
}

/// The pieces of `text` between its slashes, as `str::split('/')` gives them: one piece more
/// than there are slashes.
pub open spec fn split_slashes(text: Seq<char>) -> Seq<Seq<char>>
    decreases text.len(),
{
    if text.len() == 0 {
        seq![Seq::empty()]
    } else {
        let pieces = split_slashes(text.drop_last());
        if text.last() == '/' {
            pieces.push(Seq::empty())
        } else {
            pieces.update(pieces.len() - 1, pieces.last().push(text.last()))
        }
    }
}

/// The fragments that parsing `text` as an internal path gives: none for the empty text,
/// otherwise the pieces between slashes, when each is a valid fragment.
pub open spec fn parsed_path(text: Seq<char>) -> Option<Seq<Seq<char>>> {
    if text.len() == 0 {
        Some(Seq::empty())
    } else if forall|i: int|
        0 <= i < split_slashes(text).len() ==> valid_fragment(#[trigger] split_slashes(text)[i]) {
        Some(split_slashes(text))
    } else {
        None
    }
}

/// The position of the last `#` in `text`, if there is one.
pub open spec fn last_hash(text: Seq<char>) -> Option<int>
    decreases text.len(),
{
    if text.len() == 0 {
        None
    } else if text.last() == '#' {
        Some(text.len() - 1)
    } else {
        last_hash(text.drop_last())
    }
}

/// The error an id string was refused with.
#[derive(Debug, Clone)]
pub struct InvalidId;

impl InvalidId {
    /// The error written out.
    pub fn to_string(&self) -> (text: String)
        ensures
            text@ == "Invalid ID string"@,
    {
        String::from_str("Invalid ID string")
    }
}

/// The error a fragment string was refused with.
#[derive(Debug, Clone)]
pub struct InvalidFragment;

impl InvalidFragment {
    /// The error written out.
    pub fn to_string(&self) -> (text: String)
        ensures
            text@ == "Invalid location fragment string"@,
    {
        String::from_str("Invalid location fragment string")
    }
}

/// Why an internal location was refused: its id or one of its fragments.
#[derive(Debug, Clone)]
pub enum InvalidInternalLoc {
    Id(InvalidId),
    Fragment(InvalidFragment),
}

impl InvalidInternalLoc {
    /// The error written out, as the error it holds is.
    pub fn to_string(&self) -> (text: String)
        ensures
            text@ == match self {
                InvalidInternalLoc::Id(_) => "Invalid ID string"@,
                InvalidInternalLoc::Fragment(_) => "Invalid location fragment string"@,
            },
    {
        match self {
            InvalidInternalLoc::Id(error) => error.to_string(),
            InvalidInternalLoc::Fragment(error) => error.to_string(),
        }
    }
}

/// The id of an object within a page.
#[derive(Debug, Clone, PartialEq, Eq, PartialOrd, Ord, Hash)]
pub struct Id {
    contents: String,
}

impl View for Id {
    type V = Seq<char>;

    closed spec fn view(&self) -> Seq<char> {
        self.contents@
    }
}

/// Whether `c` is an ASCII letter.
fn is_ascii_alphabetic(c: char) -> (letter: bool)
    ensures
        letter == ascii_alphabetic(c),
{
    ('a' <= c && c <= 'z') || ('A' <= c && c <= 'Z')
}

impl Id {
    /// An id with these contents: an ASCII letter, then ASCII letters, digits, `_` or `-`.
    pub fn new(contents: &str) -> (result: Result<Self, InvalidId>)
        ensures
            result is Ok <==> valid_id(contents@),
            result matches Ok(id) ==> id@ == contents@,
    {
        let length = contents.unicode_len();
        if length == 0 || !is_ascii_alphabetic(contents.get_char(0)) {
            return Err(InvalidId);
        }
        let mut i: usize = 1;
        while i < length
            invariant
                length == contents@.len(),
                1 <= i <= length,
                ascii_alphabetic(contents@[0]),
                forall|j: int| 1 <= j < i ==> id_char(#[trigger] contents@[j]),
            decreases length - i,
        {
            let c = contents.get_char(i);
            if !(is_ascii_alphabetic(c) || ('0' <= c && c <= '9') || c == '_' || c == '-') {
                assert(!id_char(contents@[i as int]));
                return Err(InvalidId);
            }
            i = i + 1;
        }
        Ok(Id { contents: contents.to_owned() })
    }

    /// The contents of the id.
    pub fn as_str(&self) -> (text: &str)
        ensures
            text@ == self@,
    {
        self.contents.as_str()
    }

    /// The id written out: its contents.
    pub fn to_string(&self) -> (text: String)
        ensures
            text@ == self@,
    {
        self.contents.clone()
    }
}

/// A fragment of a path: one of its pieces.
#[derive(Debug, PartialEq, Eq, PartialOrd, Ord, Hash)]
pub struct Fragment {
    contents: String,
}

impl View for Fragment {
    type V = Seq<char>;

    closed spec fn view(&self) -> Seq<char> {
        self.contents@
    }
}

impl Fragment {
    /// A fragment with these contents, which must be neither empty, nor `.`, nor `..`, and
    /// hold no `/` and no `#`.
    pub fn new(contents: &str) -> (result: Result<Self, InvalidFragment>)
        ensures
            result is Ok <==> valid_fragment(contents@),
            result matches Ok(fragment) ==> fragment@ == contents@,
    {
        let length = contents.unicode_len();
        if length == 0 {
            return Err(InvalidFragment);
        }
        if length <= 2 && contents.get_char(0) == '.' && (length == 1 || contents.get_char(1) == '.') {
            proof {
                if length == 1 {
                    assert(contents@ =~= seq!['.']);
                } else {
                    assert(contents@ =~= seq!['.', '.']);
                }
            }
            return Err(InvalidFragment);
        }
        let mut i: usize = 0;
        while i < length
            invariant
                length == contents@.len(),
                i <= length,
                forall|j: int| 0 <= j < i ==> #[trigger] contents@[j] != '/' && contents@[j] != '#',
            decreases length - i,
        {
            let c = contents.get_char(i);
            if c == '/' || c == '#' {
                return Err(InvalidFragment);
            }
            i = i + 1;
        }
        proof {
            if contents@ == seq!['.'] {
                assert(contents@[0] == '.');
            }
            if contents@ == seq!['.', '.'] {
                assert(contents@[0] == '.' && contents@[1] == '.');
            }
        }
        Ok(Fragment { contents: contents.to_owned() })
    }

    /// The contents of the fragment.
    pub fn as_str(&self) -> (text: &str)
        ensures
            text@ == self@,
    {
        self.contents.as_str()
    }

    /// The fragment written out: its contents.
    pub fn to_string(&self) -> (text: String)
        ensures
            text@ == self@,
    {
        self.contents.clone()
    }

    /// Whether two fragments have the same contents.
    pub fn same(&self, other: &Fragment) -> (same: bool)
        ensures
            same == (self@ == other@),
    {
        self.contents == other.contents
    }
}

impl Clone for Fragment {
    /// A fragment with the same contents.
    fn clone(&self) -> (fragment: Self)
        ensures
            fragment@ == self@,
    {
        Fragment { contents: self.contents.clone() }
    }
}

/// The contents of a sequence of fragments.
pub open spec fn fragments_view(fragments: Seq<Fragment>) -> Seq<Seq<char>> {
    fragments.map_values(|fragment: Fragment| fragment@)
}

/// How a path is written: its fragments with a slash between each two.
pub open spec fn joined(fragments: Seq<Seq<char>>) -> Seq<char>
    decreases fragments.len(),
{
    if fragments.len() == 0 {
        Seq::empty()
    } else if fragments.len() == 1 {
        fragments[0]
    } else {
        joined(fragments.drop_last()) + seq!['/'] + fragments.last()
    }
}

/// Whether two paths lead to the same page: they are the same, or one is the other followed by
/// `index.html`.
pub open spec fn same_page(left: Seq<Seq<char>>, right: Seq<Seq<char>>) -> bool {
    if left.len() == right.len() + 1 {
        left.last() == "index.html"@ && left.drop_last() == right
    } else if right.len() == left.len() + 1 {
        right.last() == "index.html"@ && right.drop_last() == left
    } else {
        left == right
    }
}

/// Two paths lead to the same page whichever is taken first.
pub proof fn lemma_same_page_symmetric(left: Seq<Seq<char>>, right: Seq<Seq<char>>)
    ensures
        same_page(left, right) == same_page(right, left),
{
}

/// The pieces of a text with no slash are the text alone.
proof fn lemma_split_plain(text: Seq<char>)
    requires
        forall|i: int| 0 <= i < text.len() ==> #[trigger] text[i] != '/',
    ensures
        split_slashes(text) == seq![text],
    decreases text.len(),
{
    if text.len() > 0 {
        lemma_split_plain(text.drop_last());
        assert(text[text.len() - 1] != '/');
        assert(text.drop_last().push(text.last()) =~= text);
        assert(seq![text.drop_last()].update(0, text.drop_last().push(text.last())) =~= seq![text]);
        assert(split_slashes(text) == split_slashes(text.drop_last()).update(
            0,
            split_slashes(text.drop_last()).last().push(text.last()),
        ));
    } else {
        assert(text =~= Seq::<char>::empty());
    }
}

/// Appending text with no slash lengthens the last piece.
proof fn lemma_split_append(text: Seq<char>, more: Seq<char>)
    requires
        forall|i: int| 0 <= i < more.len() ==> #[trigger] more[i] != '/',
    ensures
        split_slashes(text + more) == split_slashes(text).update(
            split_slashes(text).len() - 1,
            split_slashes(text).last() + more,
        ),
    decreases more.len(),
{
    lemma_split_nonempty(text);
    if more.len() == 0 {
        assert(text + more =~= text);
        assert(split_slashes(text).last() + more =~= split_slashes(text).last());
        assert(split_slashes(text).update(split_slashes(text).len() - 1, split_slashes(text).last())
            =~= split_slashes(text));
    } else {
        let shorter = more.drop_last();
        lemma_split_append(text, shorter);
        assert((text + more).drop_last() =~= text + shorter);
        assert((text + more).last() == more.last());
        lemma_split_nonempty(text + shorter);
        let pieces = split_slashes(text);
        let c = more.last();
        assert(more[more.len() - 1] != '/');
        let middle = split_slashes(text + shorter);
        assert(middle == pieces.update(pieces.len() - 1, pieces.last() + shorter));
        assert(middle.last() == pieces.last() + shorter);
        assert((pieces.last() + shorter).push(c) =~= pieces.last() + more);
        assert(split_slashes(text + more) == middle.update(middle.len() - 1, middle.last().push(c)));
        assert(middle.update(middle.len() - 1, middle.last().push(c)) =~= pieces.update(
            pieces.len() - 1,
            pieces.last() + more,
        ));
    }
}

/// The pieces of a written path are its fragments.
proof fn lemma_split_joined(fragments: Seq<Seq<char>>)
    requires
        fragments.len() > 0,
        forall|i: int| 0 <= i < fragments.len() ==> valid_fragment(#[trigger] fragments[i]),
    ensures
        split_slashes(joined(fragments)) == fragments,
    decreases fragments.len(),
{
    if fragments.len() == 1 {
        lemma_split_plain(fragments[0]);
        assert(seq![fragments[0]] =~= fragments);
    } else {
        let front = fragments.drop_last();
        lemma_split_joined(front);
        let last = fragments.last();
        assert(valid_fragment(fragments[fragments.len() - 1]));
        let slashed = joined(front) + seq!['/'];
        assert(slashed.drop_last() =~= joined(front));
        assert(split_slashes(slashed) == front.push(Seq::<char>::empty()));
        lemma_split_append(slashed, last);
        assert(front.push(Seq::<char>::empty()).update(front.len() as int, Seq::<char>::empty() + last) =~= fragments);
    }
}

/// Parsing what a path writes gives the path back, when its fragments are valid.
pub proof fn lemma_parse_written_path(fragments: Seq<Seq<char>>)
    requires
        forall|i: int| 0 <= i < fragments.len() ==> valid_fragment(#[trigger] fragments[i]),
    ensures
        parsed_path(joined(fragments)) == Some(fragments),
{
    if fragments.len() > 0 {
        lemma_split_joined(fragments);
        assert(valid_fragment(fragments[0]));
        assert(joined(fragments).len() > 0) by {
            lemma_joined_nonempty(fragments);
        }
    }
}

/// A written path with a valid fragment is not empty.
proof fn lemma_joined_nonempty(fragments: Seq<Seq<char>>)
    requires
        fragments.len() > 0,
        valid_fragment(fragments[0]),
    ensures
        joined(fragments).len() > 0,
    decreases fragments.len(),
{
    if fragments.len() > 1 {
        assert(fragments.drop_last()[0] == fragments[0]);
    }
}

/// A path within the site, from its root: the names of the directories on the way, then of
/// the entry.
#[derive(Debug, PartialEq, Eq, PartialOrd, Ord, Hash)]
pub struct InternalPath {
    pub fragments: Vec<Fragment>,
}

impl View for InternalPath {
    type V = Seq<Seq<char>>;

    open spec fn view(&self) -> Seq<Seq<char>> {
        fragments_view(self.fragments@)
    }
}

impl InternalPath {
    /// Parses a path: fragments separated by `/`; the empty text is the root.
    pub fn parse(string: &str) -> (result: Result<Self, InvalidFragment>)
        ensures
            result is Ok <==> parsed_path(string@) is Some,
            result matches Ok(path) ==> Some(path@) == parsed_path(string@),
    {
        let length = string.unicode_len();
        let mut this = Self { fragments: Vec::new() };
        if length == 0 {
            proof {
                assert(this@ =~= Seq::<Seq<char>>::empty());
            }
            return Ok(this);
        }
        let mut current = String::new();
        let mut i: usize = 0;
        proof {
            assert(string@.subrange(0, 0) =~= Seq::<char>::empty());
            assert(this@.push(current@) =~= split_slashes(string@.subrange(0, 0)));
        }
        while i < length
            invariant
                length == string@.len(),
                i <= length,
                this@.push(current@) == split_slashes(string@.subrange(0, i as int)),
                forall|k: int| 0 <= k < this@.len() ==> valid_fragment(#[trigger] this@[k]),
            decreases length - i,
        {
            let c = string.get_char(i);
            let ghost before = string@.subrange(0, i as int);
            proof {
                assert(string@.subrange(0, i + 1).drop_last() =~= before);
                assert(string@.subrange(0, i + 1).last() == c);
            }
            if c == '/' {
                let fragment = match Fragment::new(current.as_str()) {
                    Ok(fragment) => fragment,
                    Err(error) => {
                        proof {
                            let whole = split_slashes(string@);
                            lemma_split_prefix(string@, i as int);
                            assert(whole[this@.len() as int] == current@);
                        }
                        return Err(error);
                    },
                };
                let ghost old_view = this@;
                this.fragments.push(fragment);
                current = String::new();
                proof {
                    assert(this@ =~= old_view.push(fragment@));
                    assert(this@.push(current@) =~= old_view.push(fragment@).push(Seq::<char>::empty()));
                }
            } else {
                let ghost old_current = current@;
                push_char(&mut current, c);
                proof {
                    let pieces = split_slashes(before);
                    assert(pieces.update(pieces.len() - 1, pieces.last().push(c)) =~= this@.push(current@));
                }
            }
            i = i + 1;
        }
        proof {
            assert(string@.subrange(0, i as int) =~= string@);
        }
        let last = match Fragment::new(current.as_str()) {
            Ok(fragment) => fragment,
            Err(error) => {
                proof {
                    assert(split_slashes(string@)[this@.len() as int] == current@);
                }
                return Err(error);
            },
        };
        let ghost old_view = this@;
        this.fragments.push(last);
        proof {
            assert(this@ =~= old_view.push(last@));
            assert(this@ =~= split_slashes(string@));
        }
        Ok(this)
    }

    /// The path of the root.
    pub fn root() -> (path: Self)
        ensures
            path@ == Seq::<Seq<char>>::empty(),
    {
        let path = Self { fragments: Vec::new() };
        assert(path@ =~= Seq::<Seq<char>>::empty());
        path
    }

    /// Whether this is the path of the root.
    pub fn is_root(&self) -> (root: bool)
        ensures
            root == (self@.len() == 0),
    {
        self.fragments.len() == 0
    }

    /// How many directories deep the entry lies: one less than the number of fragments, and
    /// none for the root.
    pub fn dir_depth(&self) -> (depth: usize)
        ensures
            depth == if self@.len() == 0 { 0 } else { self@.len() - 1 },
    {
        if self.fragments.len() == 0 {
            0
        } else {
            self.fragments.len() - 1
        }
    }

    /// The path with `fragment` appended.
    pub fn append(self, fragment: Fragment) -> (path: Self)
        ensures
            path@ == self@.push(fragment@),
    {
        let mut this = self;
        let ghost old_view = this@;
        this.fragments.push(fragment);
        assert(this@ =~= old_view.push(fragment@));
        this
    }

    /// Whether two paths are the same, counting a path ending in `index.html` as the path of
    /// its directory.
    pub fn eq_index(&self, other: &Self) -> (same: bool)
        ensures
            same == same_page(self@, other@),
    {
        let index = String::from_str("index.html");
        proof {
            assert(fragments_view(self.fragments@).drop_last() =~= fragments_view(self.fragments@).subrange(
                0,
                self@.len() - 1,
            ));
            assert(fragments_view(other.fragments@).drop_last() =~= fragments_view(other.fragments@).subrange(
                0,
                other@.len() - 1,
            ));
            assert(fragments_view(self.fragments@).subrange(0, self@.len() as int) =~= self@);
            if self@.len() > 0 {
                assert(self@.last() == self.fragments@[self@.len() - 1]@);
            }
            if other@.len() > 0 {
                assert(other@.last() == other.fragments@[other@.len() - 1]@);
            }
        }
        if self.fragments.len() > 0 && self.fragments.len() - 1 == other.fragments.len() {
            let last_index = self.fragments.len() - 1;
            self.fragments[last_index].contents == index && same_fragments(&self.fragments, &other.fragments, last_index)
        } else if other.fragments.len() > 0 && other.fragments.len() - 1 == self.fragments.len() {
            let last_index = other.fragments.len() - 1;
            other.fragments[last_index].contents == index && same_fragments(&other.fragments, &self.fragments, last_index)
        } else {
            self.fragments.len() == other.fragments.len() && same_fragments(&self.fragments, &other.fragments, self.fragments.len())
        }
    }

    /// The path written out: its fragments with a slash between each two.
    pub fn to_string(&self) -> (text: String)
        ensures
            text@ == joined(self@),
    {
        let mut text = String::new();
        self.write_to(&mut text);
        text
    }

    /// Appends the path written out.
    pub fn write_to(&self, text: &mut String)
        ensures
            final(text)@ == old(text)@ + joined(self@),
    {
        let mut i: usize = 0;
        proof {
            assert(old(text)@ + joined(self@.subrange(0, 0)) =~= old(text)@);
        }
        while i < self.fragments.len()
            invariant
                i <= self.fragments.len(),
                self@.len() == self.fragments.len(),
                text@ == old(text)@ + joined(self@.subrange(0, i as int)),
            decreases self.fragments.len() - i,
        {
            proof {
                assert(self@.subrange(0, i + 1).drop_last() =~= self@.subrange(0, i as int));
                assert(self@.subrange(0, i + 1).last() == self.fragments@[i as int]@);
            }
            if i > 0 {
                push_char(text, '/');
            }
            text.append(self.fragments[i].as_str());
            proof {
                if i == 0 {
                    assert(self@.subrange(0, 1) =~= seq![self.fragments@[0]@]);
                }
                assert(text@ =~= old(text)@ + joined(self@.subrange(0, i + 1)));
            }
            i = i + 1;
        }
        proof {
            assert(self@.subrange(0, i as int) =~= self@);
        }
    }
}

impl Clone for InternalPath {
    /// A path with the same fragments.
    fn clone(&self) -> (path: Self)
        ensures
            path@ == self@,
    {
        let mut fragments: Vec<Fragment> = Vec::new();
        let mut i: usize = 0;
        while i < self.fragments.len()
            invariant
                i <= self.fragments@.len(),
                fragments@.len() == i,
                forall|k: int| 0 <= k < i ==> (#[trigger] fragments@[k])@ == self.fragments@[k]@,
            decreases self.fragments.len() - i,
        {
            fragments.push(self.fragments[i].clone());
            i = i + 1;
        }
        let path = InternalPath { fragments };
        assert(path@ =~= self@);
        path
    }
}

/// Whether the first `count` fragments of two lists have the same contents, and the second
/// list has exactly that many.
fn same_fragments(left: &Vec<Fragment>, right: &Vec<Fragment>, count: usize) -> (same: bool)
    requires
        count <= left.len(),
    ensures
        same == (fragments_view(left@).subrange(0, count as int) == fragments_view(right@)),
{
    if right.len() != count {
        proof {
            assert(fragments_view(left@).subrange(0, count as int).len() != fragments_view(right@).len());
        }
        return false;
    }
    let mut i: usize = 0;
    while i < count
        invariant
            count <= left.len(),
            right.len() == count,
            i <= count,
            forall|k: int| 0 <= k < i ==> (#[trigger] left@[k])@ == right@[k]@,
        decreases count - i,
    {
        if !left[i].same(&right[i]) {
            assert(fragments_view(left@).subrange(0, count as int)[i as int] != fragments_view(right@)[i as int]);
            return false;
        }
        i = i + 1;
    }
    assert(fragments_view(left@).subrange(0, count as int) =~= fragments_view(right@));
    true
}

/// The pieces of a text up to some point are those of the whole text, but the last of them may
/// continue further.
pub proof fn lemma_split_prefix(text: Seq<char>, count: int)
    requires
        0 <= count <= text.len(),
    ensures
        split_slashes(text.subrange(0, count)).len() <= split_slashes(text).len(),
        forall|k: int|
            0 <= k < split_slashes(text.subrange(0, count)).len() - 1 ==> #[trigger] split_slashes(
                text.subrange(0, count),
            )[k] == split_slashes(text)[k],
        count < text.len() && text[count] == '/' ==> split_slashes(text.subrange(0, count)).last()
            == split_slashes(text)[split_slashes(text.subrange(0, count)).len() - 1],
    decreases text.len() - count,
{
    if count < text.len() {
        lemma_split_prefix(text, count + 1);
        let shorter = text.subrange(0, count);
        let longer = text.subrange(0, count + 1);
        assert(longer.drop_last() =~= shorter);
        assert(longer.last() == text[count]);
        lemma_split_nonempty(shorter);
        let pieces = split_slashes(shorter);
        let more = split_slashes(longer);
        assert(more.len() >= pieces.len());
        assert forall|k: int| 0 <= k < pieces.len() - 1 implies #[trigger] pieces[k] == split_slashes(text)[k] by {
            assert(more[k] == pieces[k]);
        }
        if text[count] == '/' {
            assert(more[pieces.len() - 1] == pieces.last());
        }
    } else {
        assert(text.subrange(0, count) =~= text);
    }
}

/// Splitting at slashes always gives at least one piece.
pub proof fn lemma_split_nonempty(text: Seq<char>)
    ensures
        split_slashes(text).len() >= 1,
    decreases text.len(),
{
    if text.len() > 0 {
        lemma_split_nonempty(text.drop_last());
    }
}

/// A location within the site: the path of a page, and the id of an object within it, if any.
#[derive(Debug, Clone, PartialEq, Eq, PartialOrd, Ord, Hash)]
pub struct InternalLoc {
    pub path: InternalPath,
    pub id: Option<Id>,
}

impl InternalLoc {
    /// Parses a location: a path, then, after the last `#`, if there is one, an id.
    pub fn parse(string: &str) -> (result: Result<Self, InvalidInternalLoc>)
        ensures
            ({
                let text = string@;
                let end = match last_hash(text) {
                    Some(hash) => hash,
                    None => text.len() as int,
                };
                let path = parsed_path(text.subrange(0, end));
                match result {
                    Ok(location) => path == Some(location.path@) && match last_hash(text) {
                        Some(hash) => (location.id matches Some(id) && id@ == text.subrange(hash + 1, text.len() as int)
                            && valid_id(id@)),
                        None => location.id is None,
                    },
                    Err(InvalidInternalLoc::Fragment(_)) => path is None,
                    Err(InvalidInternalLoc::Id(_)) => path is Some && (last_hash(text) matches Some(hash)
                        && !valid_id(text.subrange(hash + 1, text.len() as int))),
                }
            }),
    {
        let length = string.unicode_len();
        let mut hash = length;
        let mut i = length;
        proof {
            assert(string@.subrange(0, length as int) =~= string@);
        }
        while i > 0 && hash == length
            invariant
                length == string@.len(),
                i <= length,
                hash == length ==> last_hash(string@) == last_hash(string@.subrange(0, i as int)),
                hash != length ==> hash < length && last_hash(string@) == Some(hash as int),
            decreases i,
        {
            proof {
                assert(string@.subrange(0, i as int).drop_last() =~= string@.subrange(0, i - 1));
            }
            if string.get_char(i - 1) == '#' {
                hash = i - 1;
            }
            i = i - 1;
        }
        proof {
            if hash == length {
                assert(string@.subrange(0, 0) =~= Seq::<char>::empty());
            }
        }
        let mut before = String::new();
        let mut after = String::new();
        let mut k: usize = 0;
        while k < length
            invariant
                length == string@.len(),
                hash <= length,
                k <= length,
                before@ == string@.subrange(0, if k < hash { k as int } else { hash as int }),
                after@ == if k <= hash { Seq::<char>::empty() } else { string@.subrange(hash + 1, k as int) },
            decreases length - k,
        {
            let c = string.get_char(k);
            if k < hash {
                push_char(&mut before, c);
            } else if k > hash {
                push_char(&mut after, c);
            }
            proof {
                if k < hash {
                    assert(before@ =~= string@.subrange(0, k + 1));
                }
                if k > hash {
                    assert(after@ =~= string@.subrange(hash + 1, k + 1));
                }
            }
            k = k + 1;
        }
        let path = match InternalPath::parse(before.as_str()) {
            Ok(path) => path,
            Err(error) => return Err(InvalidInternalLoc::Fragment(error)),
        };
        let id = if hash == length {
            None
        } else {
            match Id::new(after.as_str()) {
                Ok(id) => Some(id),
                Err(error) => return Err(InvalidInternalLoc::Id(error)),
            }
        };
        Ok(Self { path, id })
    }

    /// The location written out: the path, then `#` and the id, if any.
    pub fn to_string(&self) -> (text: String)
        ensures
            text@ == joined(self.path@) + match self.id {
                Some(id) => seq!['#'] + id@,
                None => Seq::<char>::empty(),
            },
    {
        let mut text = self.path.to_string();
        match &self.id {
            Some(id) => {
                push_char(&mut text, '#');
                text.append(id.as_str());
            },
            None => {},
        }
        proof {
            if self.id is Some {
                assert(text@ =~= joined(self.path@) + seq!['#'] + self.id->0@);
            } else {
                assert(text@ =~= joined(self.path@) + Seq::<char>::empty());
            }
        }
        text
    }
}

impl From<InternalPath> for InternalLoc {
    /// The location of the page at `path`, with no id.
    fn from(path: InternalPath) -> (location: Self) {
        Self { path, id: None }
    }
}

impl vstd::std_specs::convert::FromSpecImpl<InternalPath> for InternalLoc {
    open spec fn obeys_from_spec() -> bool {
        true
    }

    open spec fn from_spec(path: InternalPath) -> Self {
        InternalLoc { path, id: None }
    }
}

impl Default for InternalPath {
    /// The path of the root.
    fn default() -> (path: Self)
        ensures
            path@ == Seq::<Seq<char>>::empty(),
    {
        Self::root()
    }
}

} // verus!
