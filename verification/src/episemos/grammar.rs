//! Grammars, their symbols and productions, and rewriting words by a production.
use vstd::laws_eq::obeys_concrete_eq;
use vstd::pervasive::cloned;
use vstd::prelude::*;

verus! {

/// A context-free grammar: its terminals, its non-terminals, the non-terminal a derivation
/// starts from, and its productions.
#[derive(Debug, Clone, PartialEq, Eq, PartialOrd, Ord, Hash)]
pub struct Grammar<T, N> {
    pub terminals: Vec<T>,
    pub non_terminals: Vec<N>,
    pub starting_non_term: N,
    pub productions: Vec<Production<T, N>>,
}

/// A symbol of a grammar: a terminal or a non-terminal.
#[derive(Debug, Clone, Copy, PartialEq, Eq, PartialOrd, Ord, Hash)]
pub enum Symbol<T, N> {
    Terminal(T),
    NonTerm(N),
}

/// The symbol that a symbol of references refers to.
pub open spec fn referenced<T, N>(symbol: Symbol<&T, &N>) -> Symbol<T, N> {
    match symbol {
        Symbol::Terminal(term) => Symbol::Terminal(*term),
        Symbol::NonTerm(nonterm) => Symbol::NonTerm(*nonterm),
    }
}

/// The symbol that a symbol of mutable references refers to, before the references were used.
pub open spec fn referenced_mut<T, N>(symbol: Symbol<&mut T, &mut N>) -> Symbol<T, N> {
    match symbol {
        Symbol::Terminal(term) => Symbol::Terminal(*term),
        Symbol::NonTerm(nonterm) => Symbol::NonTerm(*nonterm),
    }
}

/// Whether `copy` is a clone of `original`: of the same kind, its content a clone of the
/// original's.
pub open spec fn symbol_cloned<T: Clone, N: Clone>(original: Symbol<T, N>, copy: Symbol<T, N>) -> bool {
    match (original, copy) {
        (Symbol::Terminal(a), Symbol::Terminal(b)) => cloned(a, b),
        (Symbol::NonTerm(a), Symbol::NonTerm(b)) => cloned(a, b),
        _ => false,
    }
}

/// A clone of a symbol is a symbol of the same kind. Where cloning a terminal and a label gives
/// an equal value, the clone equals the symbol.
pub proof fn lemma_symbol_cloned<T: Clone, N: Clone>(original: Symbol<T, N>, copy: Symbol<T, N>)
    requires
        symbol_cloned(original, copy),
    ensures
        (copy is Terminal) == (original is Terminal),
        (copy is NonTerm) == (original is NonTerm),
        (forall|a: T, b: T| #[trigger] cloned(a, b) ==> a == b) && (forall|a: N, b: N| #[trigger] cloned(a, b)
            ==> a == b) ==> copy == original,
{
}

impl<T, N> Symbol<T, N> {
    /// Whether this is a terminal.
    pub fn is_terminal(&self) -> (terminal: bool)
        ensures
            terminal == (*self is Terminal),
    {
        match self {
            Symbol::Terminal(_) => true,
            Symbol::NonTerm(_) => false,
        }
    }

    /// Whether this is a non-terminal.
    pub fn is_non_terminal(&self) -> (non_terminal: bool)
        ensures
            non_terminal == (*self is NonTerm),
    {
        match self {
            Symbol::Terminal(_) => false,
            Symbol::NonTerm(_) => true,
        }
    }

    /// The same symbol, by reference.
    pub fn as_ref(&self) -> (symbol: Symbol<&T, &N>)
        ensures
            referenced(symbol) == *self,
    {
        match self {
            Symbol::Terminal(term) => Symbol::Terminal(term),
            Symbol::NonTerm(nonterm) => Symbol::NonTerm(nonterm),
        }
    }

    /// The same symbol, by mutable reference: what is written through it is written here.
    pub fn as_mut(&mut self) -> (symbol: Symbol<&mut T, &mut N>)
        ensures
            referenced_mut(symbol) == *old(self),
            match symbol {
                Symbol::Terminal(term) => *final(self) == Symbol::<T, N>::Terminal(*final(term)),
                Symbol::NonTerm(nonterm) => *final(self) == Symbol::<T, N>::NonTerm(*final(nonterm)),
            },
    {
        match self {
            Symbol::Terminal(term) => Symbol::Terminal(term),
            Symbol::NonTerm(nonterm) => Symbol::NonTerm(nonterm),
        }
    }
}

impl<'term, 'nonterm, T, N> Symbol<&'term T, &'nonterm N> {
    /// The symbol referred to, cloned.
    pub fn cloned(&self) -> (symbol: Symbol<T, N>) where T: Clone, N: Clone
        ensures
            symbol_cloned(referenced(*self), symbol),
    {
        match *self {
            Symbol::Terminal(term) => Symbol::Terminal(term.clone()),
            Symbol::NonTerm(nonterm) => Symbol::NonTerm(nonterm.clone()),
        }
    }

    /// The symbol referred to, copied.
    pub fn copied(&self) -> (symbol: Symbol<T, N>) where T: Copy, N: Copy
        ensures
            symbol == referenced(*self),
    {
        match *self {
            Symbol::Terminal(term) => Symbol::Terminal(*term),
            Symbol::NonTerm(nonterm) => Symbol::NonTerm(*nonterm),
        }
    }
}

impl<'term, 'nonterm, T, N> Symbol<&'term mut T, &'nonterm mut N> {
    /// The symbol referred to, cloned.
    pub fn cloned(&self) -> (symbol: Symbol<T, N>) where T: Clone, N: Clone
        ensures
            symbol_cloned(referenced_mut(*self), symbol),
    {
        match self {
            Symbol::Terminal(term) => Symbol::Terminal((**term).clone()),
            Symbol::NonTerm(nonterm) => Symbol::NonTerm((**nonterm).clone()),
        }
    }

    /// The symbol referred to, copied.
    pub fn copied(&self) -> (symbol: Symbol<T, N>) where T: Copy, N: Copy
        ensures
            symbol == referenced_mut(*self),
    {
        match self {
            Symbol::Terminal(term) => Symbol::Terminal(**term),
            Symbol::NonTerm(nonterm) => Symbol::NonTerm(**nonterm),
        }
    }
}

impl<T, N> Default for Symbol<T, N> where T: Default {
    /// A terminal, holding the default terminal.
    fn default() -> (symbol: Self)
        ensures
            symbol is Terminal,
    {
        Symbol::Terminal(T::default())
    }
}

/// A production: `input` may be rewritten to `output`.
#[derive(Debug, Clone, PartialEq, Eq, PartialOrd, Ord, Hash)]
pub struct Production<T, N> {
    pub input: N,
    pub output: Vec<Symbol<T, N>>,
}

/// Whether position `p` of `word` holds the non-terminal `input`.
pub open spec fn rewrites_at<T, N>(word: Seq<Symbol<T, N>>, input: N, p: int) -> bool {
    0 <= p < word.len() && word[p] == Symbol::<T, N>::NonTerm(input)
}

/// Whether no position from `front` up to `back` holds the non-terminal `input`.
pub open spec fn no_rewrite<T, N>(word: Seq<Symbol<T, N>>, input: N, front: int, back: int) -> bool {
    forall|q: int| front <= q < back ==> !#[trigger] rewrites_at(word, input, q)
}

/// Whether `p` is the first position from `front` up to `back` that holds `input`.
pub open spec fn first_rewrite<T, N>(
    word: Seq<Symbol<T, N>>,
    input: N,
    front: int,
    back: int,
    p: int,
) -> bool {
    front <= p < back && rewrites_at(word, input, p) && no_rewrite(word, input, front, p)
}

/// Whether `p` is the last position from `front` up to `back` that holds `input`.
pub open spec fn last_rewrite<T, N>(
    word: Seq<Symbol<T, N>>,
    input: N,
    front: int,
    back: int,
    p: int,
) -> bool {
    front <= p < back && rewrites_at(word, input, p) && no_rewrite(word, input, p + 1, back)
}

/// Whether each symbol of `copy` is a clone of the symbol of `original` at its place.
pub open spec fn clones_of<T: Clone, N: Clone>(original: Seq<Symbol<T, N>>, copy: Seq<Symbol<T, N>>) -> bool {
    original.len() == copy.len() && forall|i: int|
        0 <= i < original.len() ==> #[trigger] symbol_cloned(original[i], copy[i])
}

/// Whether `after` is `before` with the symbol at `p` replaced by clones of `output`.
pub open spec fn spliced<T: Clone, N: Clone>(
    before: Seq<Symbol<T, N>>,
    p: int,
    output: Seq<Symbol<T, N>>,
    after: Seq<Symbol<T, N>>,
) -> bool {
    &&& 0 <= p < before.len()
    &&& after.len() == before.len() - 1 + output.len()
    &&& after.subrange(0, p) == before.subrange(0, p)
    &&& clones_of(output, after.subrange(p, p + output.len()))
    &&& after.subrange(p + output.len(), after.len() as int) == before.subrange(p + 1, before.len() as int)
}

/// One rewrite from the front: the first occurrence of the production's input from `front` up
/// to `back` is replaced by its output, and the search goes on just after where it stood.
pub open spec fn forward_step<T: Clone, N: Clone>(
    production: Production<T, N>,
    word: Seq<Symbol<T, N>>,
    front: int,
    back: int,
    next_word: Seq<Symbol<T, N>>,
    next_front: int,
) -> bool {
    &&& first_rewrite(word, production.input, front, back, next_front - 1)
    &&& spliced(word, next_front - 1, production.output@, next_word)
}

/// One rewrite from the back: the last occurrence of the production's input from `front` up to
/// `back` is replaced by its output, and the search goes on before where it stood.
pub open spec fn backward_step<T: Clone, N: Clone>(
    production: Production<T, N>,
    word: Seq<Symbol<T, N>>,
    front: int,
    back: int,
    next_word: Seq<Symbol<T, N>>,
    next_back: int,
) -> bool {
    &&& last_rewrite(word, production.input, front, back, next_back)
    &&& spliced(word, next_back, production.output@, next_word)
}

/// Whether `count` forward rewrites lead from `word` searched from `front` to `last_word`
/// searched from `last_front`.
pub open spec fn forward_steps<T: Clone, N: Clone>(
    production: Production<T, N>,
    word: Seq<Symbol<T, N>>,
    front: int,
    back: int,
    last_word: Seq<Symbol<T, N>>,
    last_front: int,
    count: nat,
) -> bool
    decreases count,
{
    if count == 0 {
        last_word == word && last_front == front
    } else {
        exists|middle_word: Seq<Symbol<T, N>>, middle_front: int|
            #![trigger forward_step(production, middle_word, middle_front, back, last_word, last_front)]
            forward_steps(production, word, front, back, middle_word, middle_front, (count - 1) as nat)
                && forward_step(production, middle_word, middle_front, back, last_word, last_front)
    }
}

/// Whether `count` backward rewrites lead from `word` searched up to `back` to `last_word`
/// searched up to `last_back`.
pub open spec fn backward_steps<T: Clone, N: Clone>(
    production: Production<T, N>,
    word: Seq<Symbol<T, N>>,
    front: int,
    back: int,
    last_word: Seq<Symbol<T, N>>,
    last_back: int,
    count: nat,
) -> bool
    decreases count,
{
    if count == 0 {
        last_word == word && last_back == back
    } else {
        exists|middle_word: Seq<Symbol<T, N>>, middle_back: int|
            #![trigger backward_step(production, middle_word, front, middle_back, last_word, last_back)]
            backward_steps(production, word, front, back, middle_word, middle_back, (count - 1) as nat)
                && backward_step(production, middle_word, front, middle_back, last_word, last_back)
    }
}

/// Whether forward rewriting of `word` from `front` up to `back` never leaves `back` past the
/// end of the word, as it can when the production's output is empty.
pub open spec fn stays_within<T: Clone, N: Clone>(
    production: Production<T, N>,
    word: Seq<Symbol<T, N>>,
    front: int,
    back: int,
) -> bool {
    forall|count: nat, last_word: Seq<Symbol<T, N>>, last_front: int|
        #[trigger] forward_steps(production, word, front, back, last_word, last_front, count)
            ==> back <= last_word.len()
}

/// One more forward rewrite after `count` of them makes `count + 1`.
proof fn lemma_forward_extend<T: Clone, N: Clone>(
    production: Production<T, N>,
    word: Seq<Symbol<T, N>>,
    front: int,
    back: int,
    middle_word: Seq<Symbol<T, N>>,
    middle_front: int,
    last_word: Seq<Symbol<T, N>>,
    last_front: int,
    count: nat,
)
    requires
        forward_steps(production, word, front, back, middle_word, middle_front, count),
        forward_step(production, middle_word, middle_front, back, last_word, last_front),
    ensures
        forward_steps(production, word, front, back, last_word, last_front, count + 1),
{
    let next = count + 1;
    assert((next - 1) as nat == count);
    assert(forward_steps(production, word, front, back, middle_word, middle_front, (next - 1) as nat)
        && forward_step(production, middle_word, middle_front, back, last_word, last_front));
    assert(forward_steps(production, word, front, back, last_word, last_front, next));
}

/// One more backward rewrite after `count` of them makes `count + 1`.
proof fn lemma_backward_extend<T: Clone, N: Clone>(
    production: Production<T, N>,
    word: Seq<Symbol<T, N>>,
    front: int,
    back: int,
    middle_word: Seq<Symbol<T, N>>,
    middle_back: int,
    last_word: Seq<Symbol<T, N>>,
    last_back: int,
    count: nat,
)
    requires
        backward_steps(production, word, front, back, middle_word, middle_back, count),
        backward_step(production, middle_word, front, middle_back, last_word, last_back),
    ensures
        backward_steps(production, word, front, back, last_word, last_back, count + 1),
{
    let next = count + 1;
    assert((next - 1) as nat == count);
    assert(backward_steps(production, word, front, back, middle_word, middle_back, (next - 1) as nat)
        && backward_step(production, middle_word, front, middle_back, last_word, last_back));
    assert(backward_steps(production, word, front, back, last_word, last_back, next));
}

/// Clones a symbol.
fn clone_symbol<T: Clone, N: Clone>(symbol: &Symbol<T, N>) -> (copy: Symbol<T, N>)
    ensures
        symbol_cloned(*symbol, copy),
{
    match symbol {
        Symbol::Terminal(term) => Symbol::Terminal(term.clone()),
        Symbol::NonTerm(nonterm) => Symbol::NonTerm(nonterm.clone()),
    }
}

/// Whether `symbol` is the non-terminal `input`.
fn is_input<T, N: Eq>(symbol: &Symbol<T, N>, input: &N) -> (found: bool)
    requires
        obeys_concrete_eq::<N>(),
    ensures
        found == (*symbol == Symbol::<T, N>::NonTerm(*input)),
{
    proof {
        reveal(obeys_concrete_eq);
    }
    match symbol {
        Symbol::NonTerm(nonterm) => *input == *nonterm,
        Symbol::Terminal(_) => false,
    }
}

/// The first position from `front` up to `back` that holds `input`.
fn find_input<T, N: Eq>(word: &Vec<Symbol<T, N>>, input: &N, front: usize, back: usize) -> (found: Option<usize>)
    requires
        obeys_concrete_eq::<N>(),
        front <= back <= word.len(),
    ensures
        match found {
            Some(p) => first_rewrite(word@, *input, front as int, back as int, p as int),
            None => no_rewrite(word@, *input, front as int, back as int),
        },
{
    let mut i = front;
    while i < back
        invariant
            obeys_concrete_eq::<N>(),
            front <= i <= back <= word.len(),
            no_rewrite(word@, *input, front as int, i as int),
        decreases back - i,
    {
        if is_input(&word[i], input) {
            assert(rewrites_at(word@, *input, i as int));
            return Some(i);
        }
        assert(!rewrites_at(word@, *input, i as int));
        i = i + 1;
    }
    None
}

/// The last position from `front` up to `back` that holds `input`.
fn rfind_input<T, N: Eq>(word: &Vec<Symbol<T, N>>, input: &N, front: usize, back: usize) -> (found: Option<usize>)
    requires
        obeys_concrete_eq::<N>(),
        front <= back <= word.len(),
    ensures
        match found {
            Some(p) => last_rewrite(word@, *input, front as int, back as int, p as int),
            None => no_rewrite(word@, *input, front as int, back as int),
        },
{
    let mut i = back;
    while i > front
        invariant
            obeys_concrete_eq::<N>(),
            front <= i <= back <= word.len(),
            no_rewrite(word@, *input, i as int, back as int),
        decreases i - front,
    {
        if is_input(&word[i - 1], input) {
            assert(rewrites_at(word@, *input, i - 1));
            return Some(i - 1);
        }
        assert(!rewrites_at(word@, *input, i - 1));
        i = i - 1;
    }
    None
}

/// Replaces the symbol at `start` by clones of `output`.
fn splice<T: Clone, N: Clone>(word: &mut Vec<Symbol<T, N>>, start: usize, output: &Vec<Symbol<T, N>>)
    requires
        start < old(word).len(),
    ensures
        spliced(old(word)@, start as int, output@, final(word)@),
{
    word.remove(start);
    let mut k: usize = 0;
    while k < output.len()
        invariant
            0 <= start < old(word).len(),
            k <= output.len(),
            word@.len() == old(word)@.len() - 1 + k,
            word@.subrange(0, start as int) == old(word)@.subrange(0, start as int),
            clones_of(output@.subrange(0, k as int), word@.subrange(start as int, start + k)),
            word@.subrange(start + k, word@.len() as int) == old(word)@.subrange(start + 1, old(word)@.len() as int),
        decreases output.len() - k,
    {
        let len = word.len();
        let symbol = clone_symbol(&output[k]);
        let ghost previous = word@;
        word.insert(start + k, symbol);
        proof {
            assert(word@.subrange(0, start as int) =~= previous.subrange(0, start as int));
            assert forall|i: int| 0 <= i < k + 1 implies #[trigger] symbol_cloned(
                output@.subrange(0, k + 1)[i],
                word@.subrange(start as int, start + k + 1)[i],
            ) by {
                if i < k {
                    assert(output@.subrange(0, k as int)[i] == output@.subrange(0, k + 1)[i]);
                    assert(word@.subrange(start as int, start + k + 1)[i] == previous.subrange(
                        start as int,
                        start + k,
                    )[i]);
                    assert(symbol_cloned(
                        output@.subrange(0, k as int)[i],
                        previous.subrange(start as int, start + k)[i],
                    ));
                }
            }
            assert(word@.subrange(start + k + 1, word@.len() as int) =~= previous.subrange(
                start + k,
                previous.len() as int,
            ));
        }
        k = k + 1;
    }
    assert(output@.subrange(0, output@.len() as int) =~= output@);
}

impl<T, N> Production<T, N> {
    /// Begins rewriting `word` by this production, over the whole word.
    pub fn replace<'prod, 'word>(&'prod self, word: &'word mut Vec<Symbol<T, N>>) -> (replacement:
        Replacement<'prod, 'word, T, N>) where T: Clone, N: Clone + Eq
        ensures
            *replacement.production == *self,
            replacement.word@ == old(word)@,
            final(word)@ == final(replacement.word)@,
            replacement.front == 0,
            replacement.back == old(word)@.len(),
    {
        let back = word.len();
        Replacement { production: self, word, front: 0, back }
    }
}

/// A rewriting of a word by a production, in progress: occurrences of the production's input
/// are searched for from `front` up to `back`.
#[derive(Debug)]
pub struct Replacement<'prod, 'word, T, N> where T: Clone, N: Clone + Eq {
    pub production: &'prod Production<T, N>,
    pub word: &'word mut Vec<Symbol<T, N>>,
    pub front: usize,
    pub back: usize,
}

impl<'prod, 'word, T, N> Replacement<'prod, 'word, T, N> where T: Clone, N: Clone + Eq {
    /// Rewrites the first occurrence of the input from the front, if there is one, and goes on
    /// searching just after where it stood.
    pub fn replace_next(&mut self) -> (replaced: bool)
        requires
            obeys_concrete_eq::<N>(),
            old(self).front <= old(self).back <= old(self).word.len(),
        ensures
            final(self).production == old(self).production,
            final(self).back == old(self).back,
            *final(final(self).word) == *final(old(self).word),
            replaced == !no_rewrite(
                old(self).word@,
                old(self).production.input,
                old(self).front as int,
                old(self).back as int,
            ),
            replaced ==> forward_step(
                *old(self).production,
                old(self).word@,
                old(self).front as int,
                old(self).back as int,
                final(self).word@,
                final(self).front as int,
            ),
            !replaced ==> final(self).word@ == old(self).word@ && final(self).front == old(self).front,
    {
        match find_input(self.word, &self.production.input, self.front, self.back) {
            Some(start) => {
                splice(self.word, start, &self.production.output);
                self.front = start + 1;
                true
            },
            None => false,
        }
    }

    /// Rewrites the last occurrence of the input before the back, if there is one, and goes on
    /// searching before where it stood.
    pub fn replace_back(&mut self) -> (replaced: bool)
        requires
            obeys_concrete_eq::<N>(),
            old(self).front <= old(self).back <= old(self).word.len(),
        ensures
            final(self).production == old(self).production,
            final(self).front == old(self).front,
            *final(final(self).word) == *final(old(self).word),
            replaced == !no_rewrite(
                old(self).word@,
                old(self).production.input,
                old(self).front as int,
                old(self).back as int,
            ),
            replaced ==> backward_step(
                *old(self).production,
                old(self).word@,
                old(self).front as int,
                old(self).back as int,
                final(self).word@,
                final(self).back as int,
            ),
            !replaced ==> final(self).word@ == old(self).word@ && final(self).back == old(self).back,
    {
        match rfind_input(self.word, &self.production.input, self.front, self.back) {
            Some(start) => {
                splice(self.word, start, &self.production.output);
                self.back = start;
                true
            },
            None => false,
        }
    }

    /// Rewrites every occurrence of the input from the front, each search going on just after
    /// the last rewrite, and says how many rewrites were made.
    pub fn replace_all(&mut self) -> (count: usize)
        requires
            obeys_concrete_eq::<N>(),
            old(self).front <= old(self).back <= old(self).word.len(),
            old(self).production.output.len() > 0 || stays_within(
                *old(self).production,
                old(self).word@,
                old(self).front as int,
                old(self).back as int,
            ),
        ensures
            final(self).production == old(self).production,
            final(self).back == old(self).back,
            *final(final(self).word) == *final(old(self).word),
            forward_steps(
                *old(self).production,
                old(self).word@,
                old(self).front as int,
                old(self).back as int,
                final(self).word@,
                final(self).front as int,
                count as nat,
            ),
            no_rewrite(
                final(self).word@,
                old(self).production.input,
                final(self).front as int,
                old(self).back as int,
            ),
    {
        let ghost start_word = self.word@;
        let ghost start_front = self.front as int;
        let mut count: usize = 0;
        loop
            invariant
                obeys_concrete_eq::<N>(),
                self.production == old(self).production,
                self.back == old(self).back,
                *final(self.word) == *final(old(self).word),
                start_word == old(self).word@,
                start_front == old(self).front,
                old(self).front <= old(self).back <= old(self).word.len(),
                old(self).production.output.len() > 0 || stays_within(
                    *old(self).production,
                    start_word,
                    start_front,
                    old(self).back as int,
                ),
                self.front <= self.back <= self.word.len(),
                count <= self.front - start_front,
                forward_steps(
                    *self.production,
                    start_word,
                    start_front,
                    self.back as int,
                    self.word@,
                    self.front as int,
                    count as nat,
                ),
            ensures
                self.production == old(self).production,
                self.back == old(self).back,
                *final(self.word) == *final(old(self).word),
                forward_steps(
                    *self.production,
                    start_word,
                    start_front,
                    self.back as int,
                    self.word@,
                    self.front as int,
                    count as nat,
                ),
                no_rewrite(self.word@, self.production.input, self.front as int, self.back as int),
            decreases self.back - self.front,
        {
            let ghost previous_word = self.word@;
            let ghost previous_front = self.front as int;
            if !self.replace_next() {
                break;
            }
            proof {
                lemma_forward_extend(
                    *self.production,
                    start_word,
                    start_front,
                    self.back as int,
                    previous_word,
                    previous_front,
                    self.word@,
                    self.front as int,
                    count as nat,
                );
            }
            count = count + 1;
        }
        count
    }

    /// Rewrites every occurrence of the input from the back, each search going on before the
    /// last rewrite, and says how many rewrites were made.
    pub fn replace_all_rev(&mut self) -> (count: usize)
        requires
            obeys_concrete_eq::<N>(),
            old(self).front <= old(self).back <= old(self).word.len(),
        ensures
            final(self).production == old(self).production,
            final(self).front == old(self).front,
            *final(final(self).word) == *final(old(self).word),
            backward_steps(
                *old(self).production,
                old(self).word@,
                old(self).front as int,
                old(self).back as int,
                final(self).word@,
                final(self).back as int,
                count as nat,
            ),
            no_rewrite(
                final(self).word@,
                old(self).production.input,
                old(self).front as int,
                final(self).back as int,
            ),
    {
        let ghost start_word = self.word@;
        let ghost start_back = self.back as int;
        let mut count: usize = 0;
        loop
            invariant
                obeys_concrete_eq::<N>(),
                self.production == old(self).production,
                self.front == old(self).front,
                *final(self.word) == *final(old(self).word),
                start_word == old(self).word@,
                start_back == old(self).back,
                self.front <= self.back <= self.word.len(),
                count <= start_back - self.back,
                backward_steps(
                    *self.production,
                    start_word,
                    self.front as int,
                    start_back,
                    self.word@,
                    self.back as int,
                    count as nat,
                ),
            ensures
                self.production == old(self).production,
                self.front == old(self).front,
                *final(self.word) == *final(old(self).word),
                backward_steps(
                    *self.production,
                    start_word,
                    self.front as int,
                    start_back,
                    self.word@,
                    self.back as int,
                    count as nat,
                ),
                no_rewrite(self.word@, self.production.input, self.front as int, self.back as int),
            decreases self.back,
        {
            let ghost previous_word = self.word@;
            let ghost previous_back = self.back as int;
            if !self.replace_back() {
                break;
            }
            proof {
                lemma_backward_extend(
                    *self.production,
                    start_word,
                    self.front as int,
                    start_back,
                    previous_word,
                    previous_back,
                    self.word@,
                    self.back as int,
                    count as nat,
                );
            }
            count = count + 1;
        }
        count
    }
}

} // verus!
