//! A site's pages, directories and other files, organized like a file system.
use super::location::{Fragment, InternalPath};
use vstd::prelude::*;

verus! {

/// A site: its root directory.
#[derive(Debug, PartialEq, Eq)]
pub struct Site<P> {
    pub root: Directory<P>,
}

/// A directory of a site: its entries, each under a name. Looking a name up finds the first
/// entry under it; two directories are equal when they list equal entries in the same order.
#[derive(Debug, PartialEq, Eq)]
pub struct Directory<P> {
    pub entries: Vec<(Fragment, Entry<P>)>,
}

/// An entry of a directory: a page to be rendered, a directory with more entries, or some other
/// file. Parametrized so that the page and the directory can be replaced by references to them.
#[derive(Debug, PartialEq, Eq)]
pub enum Entry<P, D = Directory<P>> {
    Page(P),
    Directory(D),
    Resource,
}

/// An entry by reference: its page or its directory, referred to.
pub open spec fn entry_ref<'a, P, D>(entry: &'a Entry<P, D>) -> Entry<&'a P, &'a D> {
    match entry {
        Entry::Page(page) => Entry::Page(page),
        Entry::Directory(directory) => Entry::Directory(directory),
        Entry::Resource => Entry::Resource,
    }
}

/// The entry that an entry of mutable references refers to, before the references were used.
pub open spec fn referred_entry<P, D>(entry: Entry<&mut P, &mut D>) -> Entry<P, D> {
    match entry {
        Entry::Page(page) => Entry::Page(*page),
        Entry::Directory(directory) => Entry::Directory(*directory),
        Entry::Resource => Entry::Resource,
    }
}

impl<P, D> Entry<P, D> {
    /// Whether this entry is a page.
    pub fn is_page(&self) -> (page: bool)
        ensures
            page == (*self is Page),
    {
        match self {
            Entry::Page(_) => true,
            _ => false,
        }
    }

    /// Whether this entry is a directory.
    pub fn is_directory(&self) -> (directory: bool)
        ensures
            directory == (*self is Directory),
    {
        match self {
            Entry::Directory(_) => true,
            _ => false,
        }
    }

    /// Whether this entry is some other file.
    pub fn is_resource(&self) -> (resource: bool)
        ensures
            resource == (*self is Resource),
    {
        match self {
            Entry::Resource => true,
            _ => false,
        }
    }

    /// The same entry, its page or directory replaced by a reference to it.
    pub fn by_ref(&self) -> (entry: Entry<&P, &D>)
        ensures
            entry == entry_ref(self),
    {
        match self {
            Entry::Page(page) => Entry::Page(page),
            Entry::Directory(directory) => Entry::Directory(directory),
            Entry::Resource => Entry::Resource,
        }
    }

    /// The same entry, its page or directory replaced by a mutable reference to it: what is
    /// written through it is written here.
    pub fn by_mut(&mut self) -> (entry: Entry<&mut P, &mut D>)
        ensures
            referred_entry(entry) == *old(self),
            match entry {
                Entry::Page(page) => *final(self) == Entry::<P, D>::Page(*final(page)),
                Entry::Directory(directory) => *final(self) == Entry::<P, D>::Directory(*final(directory)),
                Entry::Resource => *final(self) == Entry::<P, D>::Resource,
            },
    {
        match self {
            Entry::Page(page) => Entry::Page(page),
            Entry::Directory(directory) => Entry::Directory(directory),
            Entry::Resource => Entry::Resource,
        }
    }
}

/// The position of the first of `entries` named `name`, if any is.
pub open spec fn first_named<P>(entries: Seq<(Fragment, Entry<P>)>, name: Seq<char>) -> Option<int>
    decreases entries.len(),
{
    if entries.len() == 0 {
        None
    } else {
        match first_named(entries.drop_last(), name) {
            Some(i) => Some(i),
            None => if entries.last().0@ == name {
                Some(entries.len() - 1)
            } else {
                None
            },
        }
    }
}

/// What `first_named` comes to: the lowest position holding the name.
pub proof fn lemma_first_named<P>(entries: Seq<(Fragment, Entry<P>)>, name: Seq<char>)
    ensures
        match first_named(entries, name) {
            Some(i) => 0 <= i < entries.len() && entries[i].0@ == name && forall|j: int|
                0 <= j < i ==> (#[trigger] entries[j]).0@ != name,
            None => forall|j: int| 0 <= j < entries.len() ==> (#[trigger] entries[j]).0@ != name,
        },
    decreases entries.len(),
{
    if entries.len() > 0 {
        lemma_first_named(entries.drop_last(), name);
        assert forall|j: int| 0 <= j < entries.len() - 1 implies entries.drop_last()[j] == #[trigger] entries[j] by {
        }
    }
}

/// The entry at the end of `path`, walked from `entry`: each fragment names an entry of the
/// directory reached so far; `None` when a fragment names nothing or the walk meets a page or
/// another file before its end.
pub open spec fn walk<'a, P>(entry: Entry<&'a P, &'a Directory<P>>, path: Seq<Seq<char>>) -> Option<
    Entry<&'a P, &'a Directory<P>>,
>
    decreases path.len(),
{
    if path.len() == 0 {
        Some(entry)
    } else {
        match entry {
            Entry::Directory(directory) => match first_named(directory.entries@, path[0]) {
                Some(i) => walk(entry_ref(&directory.entries@[i].1), path.drop_first()),
                None => None,
            },
            _ => None,
        }
    }
}

/// Walking a path in two parts: the second part from where the first one ends.
pub proof fn lemma_walk_append<'a, P>(
    entry: Entry<&'a P, &'a Directory<P>>,
    first: Seq<Seq<char>>,
    second: Seq<Seq<char>>,
)
    ensures
        walk(entry, first + second) == match walk(entry, first) {
            Some(middle) => walk(middle, second),
            None => None,
        },
    decreases first.len(),
{
    if first.len() == 0 {
        assert(first + second =~= second);
    } else {
        assert((first + second)[0] == first[0]);
        assert((first + second).drop_first() =~= first.drop_first() + second);
        match entry {
            Entry::Directory(directory) => match first_named(directory.entries@, first[0]) {
                Some(i) => {
                    lemma_walk_append(entry_ref(&directory.entries@[i].1), first.drop_first(), second);
                },
                None => {},
            },
            _ => {},
        }
    }
}

/// Walking a path of one fragment from a directory reaches the first entry that the fragment
/// names, by reference.
pub proof fn lemma_walk_one<'a, P>(directory: &'a Directory<P>, name: Seq<char>)
    ensures
        walk(Entry::Directory(directory), seq![name]) == match first_named(directory.entries@, name) {
            Some(i) => Some(entry_ref(&directory.entries@[i].1)),
            None => None,
        },
{
    assert(seq![name].drop_first() =~= Seq::<Seq<char>>::empty());
    match first_named(directory.entries@, name) {
        Some(i) => {
            assert(walk(entry_ref(&directory.entries@[i].1), Seq::<Seq<char>>::empty()) == Some(
                entry_ref(&directory.entries@[i].1),
            ));
        },
        None => {},
    }
}

/// A way to reach an entry of a directory.
pub trait Accessor<D> {
    /// What the access gives.
    type Output;

    /// What the access gives from `directory`.
    spec fn accessed(&self, directory: D) -> Self::Output;

    /// Reaches an entry of `directory`.
    fn access(&self, directory: D) -> (output: Self::Output)
        ensures
            output == self.accessed(directory),
    ;
}

impl<'this, A, D> Accessor<D> for &'this A where A: Accessor<D> + ?Sized {
    type Output = A::Output;

    open spec fn accessed(&self, directory: D) -> Self::Output {
        (**self).accessed(directory)
    }

    fn access(&self, directory: D) -> (output: Self::Output) {
        (**self).access(directory)
    }
}

impl<'dir, P> Accessor<&'dir Directory<P>> for Fragment {
    type Output = Option<&'dir Entry<P>>;

    /// The first entry of the directory named by this fragment.
    open spec fn accessed(&self, directory: &'dir Directory<P>) -> Self::Output {
        match first_named(directory.entries@, self@) {
            Some(i) => Some(&directory.entries@[i].1),
            None => None,
        }
    }

    fn access(&self, directory: &'dir Directory<P>) -> (output: Self::Output) {
        proof {
            lemma_first_named(directory.entries@, self@);
        }
        let mut i: usize = 0;
        while i < directory.entries.len()
            invariant
                i <= directory.entries@.len(),
                forall|j: int| 0 <= j < i ==> (#[trigger] directory.entries@[j]).0@ != self@,
            decreases directory.entries.len() - i,
        {
            if directory.entries[i].0.same(self) {
                proof {
                    lemma_first_named(directory.entries@, self@);
                    assert(directory.entries@[i as int].0@ == self@);
                }
                return Some(&directory.entries[i].1);
            }
            i = i + 1;
        }
        None
    }
}

impl<'dir, P> Accessor<&'dir Directory<P>> for InternalPath {
    type Output = Option<Entry<&'dir P, &'dir Directory<P>>>;

    /// The entry at the end of this path, walked from the directory.
    open spec fn accessed(&self, directory: &'dir Directory<P>) -> Self::Output {
        walk(Entry::Directory(directory), self@)
    }

    fn access(&self, directory: &'dir Directory<P>) -> (output: Self::Output) {
        let mut entry: Entry<&'dir P, &'dir Directory<P>> = Entry::Directory(directory);
        let mut i: usize = 0;
        proof {
            assert(self@.subrange(0, self@.len() as int) =~= self@);
        }
        while i < self.fragments.len()
            invariant
                i <= self.fragments@.len(),
                self@.len() == self.fragments@.len(),
                walk(Entry::Directory(directory), self@) == walk(entry, self@.subrange(i as int, self@.len() as int)),
            decreases self.fragments.len() - i,
        {
            let ghost rest = self@.subrange(i as int, self@.len() as int);
            proof {
                assert(rest[0] == self.fragments@[i as int]@);
                assert(rest.drop_first() =~= self@.subrange(i + 1, self@.len() as int));
            }
            match entry {
                Entry::Directory(current) => match self.fragments[i].access(current) {
                    Some(next) => {
                        entry = next.by_ref();
                    },
                    None => {
                        return None;
                    },
                },
                _ => {
                    return None;
                },
            }
            i = i + 1;
        }
        proof {
            assert(self@.subrange(i as int, self@.len() as int) =~= Seq::<Seq<char>>::empty());
        }
        Some(entry)
    }
}

/// The position of the first of `entries` named `name`, if any.
fn position_named<P>(entries: &Vec<(Fragment, Entry<P>)>, name: &Fragment) -> (position: Option<usize>)
    ensures
        position matches Some(p) ==> first_named(entries@, name@) == Some(p as int) && p < entries@.len(),
        position is None <==> first_named(entries@, name@) is None,
{
    proof {
        lemma_first_named(entries@, name@);
    }
    let mut i: usize = 0;
    while i < entries.len()
        invariant
            i <= entries@.len(),
            forall|j: int| 0 <= j < i ==> (#[trigger] entries@[j]).0@ != name@,
        decreases entries.len() - i,
    {
        if entries[i].0.same(name) {
            proof {
                lemma_first_named(entries@, name@);
            }
            return Some(i);
        }
        i = i + 1;
    }
    None
}

impl<P> Directory<P> {
    /// Reaches an entry of the directory by `accessor`: a fragment, an internal path, or a
    /// reference to one.
    pub fn get<'this, A>(&'this self, accessor: A) -> (output: A::Output) where A: Accessor<&'this Self>
        ensures
            output == accessor.accessed(self),
    {
        accessor.access(self)
    }

    /// Reaches the first entry named `name` by mutable reference: what is written through it is
    /// written in the directory, and nothing else changes.
    pub fn get_mut(&mut self, name: &Fragment) -> (entry: Option<&mut Entry<P>>)
        ensures
            match first_named(old(self).entries@, name@) {
                Some(i) => entry matches Some(e) && *e == old(self).entries@[i].1
                    && final(self).entries@ == old(self).entries@.update(i, (old(self).entries@[i].0, *final(e))),
                None => entry is None && *final(self) == *old(self),
            },
    {
        proof {
            lemma_first_named(self.entries@, name@);
        }
        match position_named(&self.entries, name) {
            Some(i) => {
                let pair = &mut self.entries[i];
                Some(&mut pair.1)
            },
            None => None,
        }
    }
}

/// One thing to do on disk to build a site, at a path of the site.
#[derive(Debug)]
pub enum BuildStep<'site, P> {
    /// Make the directory at the path.
    MakeDirectory(InternalPath),
    /// Write the page to the file at the path.
    WritePage(InternalPath, &'site P),
    /// Copy the file at the path from the resources to the output.
    CopyResource(InternalPath),
}

/// A build step with its path as the path's fragments.
pub enum StepView<'site, P> {
    MakeDirectory(Seq<Seq<char>>),
    WritePage(Seq<Seq<char>>, &'site P),
    CopyResource(Seq<Seq<char>>),
}

/// The view of a build step.
pub open spec fn step_view<'site, P>(step: BuildStep<'site, P>) -> StepView<'site, P> {
    match step {
        BuildStep::MakeDirectory(path) => StepView::MakeDirectory(path@),
        BuildStep::WritePage(path, page) => StepView::WritePage(path@, page),
        BuildStep::CopyResource(path) => StepView::CopyResource(path@),
    }
}

/// The views of a sequence of build steps.
pub open spec fn steps_view<'site, P>(steps: Seq<BuildStep<'site, P>>) -> Seq<StepView<'site, P>> {
    steps.map_values(|step: BuildStep<'site, P>| step_view(step))
}

/// The steps that build the entries of a directory at `path`: the entries taken from the last
/// to the first, a page written, another file copied, and a directory made and then built, its
/// own entries in the same way.
pub open spec fn entries_steps<'site, P>(entries: Seq<(Fragment, Entry<P>)>, path: Seq<Seq<char>>) -> Seq<
    StepView<'site, P>,
>
    decreases entries,
{
    if entries.len() == 0 {
        Seq::empty()
    } else {
        let here = path.push(entries.last().0@);
        let own = match &entries.last().1 {
            Entry::Page(page) => seq![StepView::WritePage(here, page)],
            Entry::Directory(directory) => seq![StepView::MakeDirectory(here)] + entries_steps(
                directory.entries@,
                here,
            ),
            Entry::Resource => seq![StepView::CopyResource(here)],
        };
        own + entries_steps(entries.drop_last(), path)
    }
}

/// Whether no two of `entries` share a name, in any directory among them, as the entries of a
/// map are.
pub open spec fn names_distinct<P>(entries: Seq<(Fragment, Entry<P>)>) -> bool
    decreases entries,
{
    if entries.len() == 0 {
        true
    } else {
        &&& forall|i: int| 0 <= i < entries.len() - 1 ==> (#[trigger] entries[i]).0@ != entries.last().0@
        &&& match &entries.last().1 {
            Entry::Directory(directory) => names_distinct(directory.entries@),
            _ => true,
        }
        &&& names_distinct(entries.drop_last())
    }
}

/// Whether walking from `root` along the path of `step` reaches what the step builds: a
/// directory for a directory made, the very page for a page written, another file for a file
/// copied.
pub open spec fn step_reaches<'a, P>(root: &'a Directory<P>, step: StepView<'a, P>) -> bool {
    match step {
        StepView::MakeDirectory(path) => walk(Entry::Directory(root), path) matches Some(Entry::Directory(_)),
        StepView::WritePage(path, page) => walk(Entry::Directory(root), path) == Some(
            Entry::<&'a P, &'a Directory<P>>::Page(page),
        ),
        StepView::CopyResource(path) => walk(Entry::Directory(root), path) == Some(
            Entry::<&'a P, &'a Directory<P>>::Resource,
        ),
    }
}

/// The position of a named entry among entries whose names are distinct is that of the first.
proof fn lemma_first_named_distinct<P>(entries: Seq<(Fragment, Entry<P>)>, k: int)
    requires
        0 <= k < entries.len(),
        forall|i: int, j: int| 0 <= i < j < entries.len() ==> (#[trigger] entries[i]).0@ != (#[trigger] entries[j]).0@,
    ensures
        first_named(entries, entries[k].0@) == Some(k),
{
    lemma_first_named(entries, entries[k].0@);
}

/// Names distinct among all entries are distinct among the first ones, and pairwise.
proof fn lemma_names_distinct_pairwise<P>(entries: Seq<(Fragment, Entry<P>)>)
    requires
        names_distinct(entries),
    ensures
        forall|i: int, j: int| 0 <= i < j < entries.len() ==> (#[trigger] entries[i]).0@ != (#[trigger] entries[j]).0@,
        forall|k: int| 0 <= k < entries.len() ==> match &(#[trigger] entries[k]).1 {
            Entry::Directory(directory) => names_distinct(directory.entries@),
            _ => true,
        },
    decreases entries.len(),
{
    if entries.len() > 0 {
        let rest = entries.drop_last();
        lemma_names_distinct_pairwise(rest);
        assert forall|i: int, j: int| 0 <= i < j < entries.len() implies (#[trigger] entries[i]).0@ != (
        #[trigger] entries[j]).0@ by {
            if j < entries.len() - 1 {
                assert(rest[i] == entries[i] && rest[j] == entries[j]);
            }
        }
        assert forall|k: int| 0 <= k < entries.len() implies match &(#[trigger] entries[k]).1 {
            Entry::Directory(directory) => names_distinct(directory.entries@),
            _ => true,
        } by {
            if k < entries.len() - 1 {
                assert(rest[k] == entries[k]);
            }
        }
    }
}

/// Every step that builds the first `count` entries of `directory`, reached from `root` at
/// `path`, reaches what it builds.
proof fn lemma_entries_steps_reach<'a, P>(
    root: &'a Directory<P>,
    directory: &'a Directory<P>,
    path: Seq<Seq<char>>,
    count: int,
)
    requires
        walk(Entry::Directory(root), path) == Some(Entry::<&'a P, &'a Directory<P>>::Directory(directory)),
        names_distinct(directory.entries@),
        0 <= count <= directory.entries@.len(),
    ensures
        forall|i: int|
            0 <= i < entries_steps::<'a, P>(directory.entries@.take(count), path).len() ==> step_reaches(
                root,
                #[trigger] entries_steps::<'a, P>(directory.entries@.take(count), path)[i],
            ),
    decreases directory.entries@.take(count), 0int,
{
    let entries = directory.entries@.take(count);
    if count > 0 {
        let k = count - 1;
        let last = directory.entries@[k];
        assert(entries.last() == last);
        assert(entries.drop_last() =~= directory.entries@.take(k));
        lemma_entries_steps_reach(root, directory, path, k);
        lemma_names_distinct_pairwise(directory.entries@);
        lemma_first_named_distinct(directory.entries@, k);
        let here = path.push(last.0@);
        lemma_walk_append(Entry::Directory(root), path, seq![last.0@]);
        lemma_walk_one(directory, last.0@);
        assert(path + seq![last.0@] =~= here);
        assert(walk(Entry::Directory(root), here) == Some(entry_ref(&directory.entries@[k].1)));
        let own: Seq<StepView<'a, P>> = match &directory.entries@[k].1 {
            Entry::Page(page) => seq![StepView::WritePage(here, page)],
            Entry::Directory(child) => {
                assert(child.entries@.take(child.entries@.len() as int) =~= child.entries@);
                assert(entries[k] == directory.entries@[k]);
                assert(decreases_to!(entries => entries[k]));
                assert(decreases_to!(entries[k] => entries[k].1));
                assert(decreases_to!(entries[k].1 => *child));
                assert(decreases_to!(*child => child.entries));
                assert(decreases_to!(child.entries => child.entries@));
                assert(decreases_to!(entries => child.entries@.take(child.entries@.len() as int)));
                lemma_entries_steps_reach(root, child, here, child.entries@.len() as int);
                seq![StepView::MakeDirectory(here)] + entries_steps(child.entries@, here)
            },
            Entry::Resource => seq![StepView::CopyResource(here)],
        };
        let steps = entries_steps::<'a, P>(entries, path);
        assert(steps == own + entries_steps::<'a, P>(directory.entries@.take(k), path));
        assert forall|i: int| 0 <= i < steps.len() implies step_reaches(root, #[trigger] steps[i]) by {
            if i >= own.len() {
                assert(steps[i] == entries_steps::<'a, P>(directory.entries@.take(k), path)[i - own.len()]);
            } else {
                match &directory.entries@[k].1 {
                    Entry::Directory(child) => {
                        if i > 0 {
                            assert(child.entries@.take(child.entries@.len() as int) =~= child.entries@);
                            assert(steps[i] == entries_steps::<'a, P>(child.entries@, here)[i - 1]);
                        }
                    },
                    _ => {},
                }
            }
        }
    }
}

/// Every step of building a site reaches what it builds: walking from the root along the
/// step's path finds a directory where a directory is made, the very page where a page is
/// written, and another file where one is copied. So each entry is built at its own path, a
/// directory's entries inside it. (The names in each directory are distinct, as in a map.)
pub proof fn lemma_build_steps_reach<'a, P>(site: &'a Site<P>)
    requires
        names_distinct(site.root.entries@),
    ensures
        forall|i: int|
            0 <= i < (seq![StepView::<'a, P>::MakeDirectory(Seq::empty())] + entries_steps::<'a, P>(site.root.entries@, Seq::empty())).len()
                ==> step_reaches(
                &site.root,
                #[trigger] (seq![StepView::<'a, P>::MakeDirectory(Seq::empty())] + entries_steps::<'a, P>(
                    site.root.entries@,
                    Seq::empty(),
                ))[i],
            ),
{
    let root = &site.root;
    assert(walk(Entry::Directory(root), Seq::<Seq<char>>::empty()) == Some(
        Entry::<&'a P, &'a Directory<P>>::Directory(root),
    ));
    lemma_entries_steps_reach(root, root, Seq::empty(), root.entries@.len() as int);
    assert(root.entries@.take(root.entries@.len() as int) =~= root.entries@);
    let all = seq![StepView::<'a, P>::MakeDirectory(Seq::empty())] + entries_steps::<'a, P>(root.entries@, Seq::empty());
    assert forall|i: int| 0 <= i < all.len() implies step_reaches(root, #[trigger] all[i]) by {
        if i > 0 {
            assert(all[i] == entries_steps::<'a, P>(root.entries@, Seq::empty())[i - 1]);
        }
    }
}

/// Appends the steps that build `entries` at `path`.
fn push_entries_steps<'site, P>(
    entries: &'site Vec<(Fragment, Entry<P>)>,
    path: &InternalPath,
    steps: &mut Vec<BuildStep<'site, P>>,
)
    ensures
        steps_view(final(steps)@) == steps_view(old(steps)@) + entries_steps(entries@, path@),
    decreases entries,
{
    let mut i = entries.len();
    proof {
        assert(entries@.subrange(0, i as int) =~= entries@);
        assert(steps_view(steps@) + entries_steps(entries@, path@) =~= steps_view(old(steps)@) + entries_steps(
            entries@,
            path@,
        ));
    }
    while i > 0
        invariant
            i <= entries@.len(),
            steps_view(steps@) + entries_steps(entries@.subrange(0, i as int), path@) == steps_view(old(steps)@)
                + entries_steps(entries@, path@),
        decreases i,
    {
        let ghost before = steps_view(steps@);
        let ghost prefix = entries@.subrange(0, i as int);
        proof {
            assert(prefix.drop_last() =~= entries@.subrange(0, i - 1));
            assert(prefix.last() == entries@[i - 1]);
        }
        let pair = &entries[i - 1];
        let here = path.clone().append(pair.0.clone());
        push_entry_steps(&pair.1, here, steps);
        proof {
            assert(steps_view(steps@) + entries_steps(entries@.subrange(0, i - 1), path@) =~= before
                + entries_steps(prefix, path@));
        }
        i = i - 1;
    }
    proof {
        assert(entries@.subrange(0, 0) =~= Seq::<(Fragment, Entry<P>)>::empty());
        assert(steps_view(steps@) + Seq::<StepView<'site, P>>::empty() =~= steps_view(steps@));
    }
}

/// Appends the steps that build `entry` at `here`.
fn push_entry_steps<'site, P>(entry: &'site Entry<P>, here: InternalPath, steps: &mut Vec<BuildStep<'site, P>>)
    ensures
        steps_view(final(steps)@) == steps_view(old(steps)@) + match entry {
            Entry::Page(page) => seq![StepView::WritePage(here@, page)],
            Entry::Directory(directory) => seq![StepView::MakeDirectory(here@)] + entries_steps(
                directory.entries@,
                here@,
            ),
            Entry::Resource => seq![StepView::CopyResource(here@)],
        },
    decreases entry,
{
    let ghost before = steps_view(steps@);
    match entry {
        Entry::Page(page) => {
            steps.push(BuildStep::WritePage(here, page));
            proof {
                assert(steps_view(steps@) =~= before + seq![StepView::WritePage(here@, page)]);
            }
        },
        Entry::Directory(directory) => {
            steps.push(BuildStep::MakeDirectory(here.clone()));
            proof {
                assert(steps_view(steps@) =~= before + seq![StepView::MakeDirectory(here@)]);
            }
            push_entries_steps(&directory.entries, &here, steps);
            proof {
                assert(steps_view(steps@) =~= before + (seq![StepView::MakeDirectory(here@)] + entries_steps(
                    directory.entries@,
                    here@,
                )));
            }
        },
        Entry::Resource => {
            steps.push(BuildStep::CopyResource(here));
            proof {
                assert(steps_view(steps@) =~= before + seq![StepView::CopyResource(here@)]);
            }
        },
    }
}

impl<P> Site<P> {
    /// The steps that build the site on disk, in order: the root directory made, then its
    /// entries, from the last to the first, each page written, each other file copied, and each
    /// directory made and then built in the same way.
    pub fn build_steps(&self) -> (steps: Vec<BuildStep<'_, P>>)
        ensures
            steps_view(steps@) == seq![StepView::<P>::MakeDirectory(Seq::empty())] + entries_steps(
                self.root.entries@,
                Seq::empty(),
            ),
    {
        let mut steps: Vec<BuildStep<'_, P>> = Vec::new();
        let root = InternalPath::root();
        steps.push(BuildStep::MakeDirectory(root.clone()));
        proof {
            assert(steps_view(steps@) =~= seq![StepView::<P>::MakeDirectory(Seq::empty())]);
        }
        push_entries_steps(&self.root.entries, &root, &mut steps);
        steps
    }
}

} // verus!
