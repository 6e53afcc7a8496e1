//! Syntax trees, and a parser that derives every syntax tree of a word from a grammar.
use super::grammar::{referenced, Grammar, Production, Symbol};
use super::order::{lawful_order, sort_trees, trees_increasing};
use std::fmt;
use vstd::laws_eq::obeys_concrete_eq;
use vstd::pervasive::cloned;
use vstd::prelude::*;

verus! {

/// A syntax tree: a leaf holding a terminal, or a branch labelled by a non-terminal.
#[derive(Debug, PartialEq, Eq, PartialOrd, Ord, Hash)]
pub enum SyntaxTree<T, N> {
    Leaf(SyntaxTreeLeaf<T>),
    Branch(SyntaxTreeBranch<T, N>),
}

/// A leaf of a syntax tree.
#[derive(Debug, Clone, Copy, PartialEq, Eq, PartialOrd, Ord, Hash, Default)]
pub struct SyntaxTreeLeaf<T> {
    pub symbol: T,
}

/// A branch of a syntax tree: its label and its children, in order.
#[derive(Debug, PartialEq, Eq, PartialOrd, Ord, Hash, Default)]
pub struct SyntaxTreeBranch<T, N> {
    pub label: N,
    pub children: Vec<SyntaxTree<T, N>>,
}

impl<T, N> Default for SyntaxTree<T, N> where T: Default {
    /// A leaf, holding the default terminal.
    fn default() -> (tree: Self)
        ensures
            tree is Leaf,
    {
        SyntaxTree::Leaf(SyntaxTreeLeaf { symbol: T::default() })
    }
}

/// A syntax tree as a mathematical value.
pub enum Tree<T, N> {
    Leaf(T),
    Branch(N, Seq<Tree<T, N>>),
}

/// The mathematical values of a sequence of syntax trees.
pub open spec fn forest_view<T, N>(forest: Seq<SyntaxTree<T, N>>) -> Seq<Tree<T, N>>
    decreases forest,
{
    if forest.len() == 0 {
        Seq::empty()
    } else {
        let head = match forest[0] {
            SyntaxTree::Leaf(leaf) => Tree::Leaf(leaf.symbol),
            SyntaxTree::Branch(branch) => Tree::Branch(branch.label, forest_view(branch.children@)),
        };
        seq![head] + forest_view(forest.subrange(1, forest.len() as int))
    }
}

/// The mathematical value of a syntax tree.
pub open spec fn tree_view<T, N>(tree: SyntaxTree<T, N>) -> Tree<T, N> {
    forest_view(seq![tree])[0]
}

/// The mathematical value of a branch's children.
pub open spec fn children_view<T, N>(branch: SyntaxTreeBranch<T, N>) -> Seq<Tree<T, N>> {
    forest_view(branch.children@)
}

/// The number of leaves of a sequence of trees.
pub open spec fn forest_leaves<T, N>(forest: Seq<Tree<T, N>>) -> nat
    decreases forest,
{
    if forest.len() == 0 {
        0
    } else {
        let head = match forest[0] {
            Tree::Leaf(_) => 1,
            Tree::Branch(_, children) => forest_leaves(children),
        };
        head + forest_leaves(forest.subrange(1, forest.len() as int))
    }
}

/// The number of leaves of a tree.
pub open spec fn tree_leaves<T, N>(tree: Tree<T, N>) -> nat {
    forest_leaves(seq![tree])
}

/// The symbol at the root of a syntax tree.
pub open spec fn root_symbol<T, N>(tree: SyntaxTree<T, N>) -> Symbol<T, N> {
    match tree {
        SyntaxTree::Leaf(leaf) => Symbol::Terminal(leaf.symbol),
        SyntaxTree::Branch(branch) => Symbol::NonTerm(branch.label),
    }
}

/// Viewing a sequence of trees gives as many values, each the view of its tree.
pub proof fn lemma_forest_view<T, N>(forest: Seq<SyntaxTree<T, N>>)
    ensures
        forest_view(forest).len() == forest.len(),
        forall|i: int| 0 <= i < forest.len() ==> #[trigger] forest_view(forest)[i] == tree_view(forest[i]),
    decreases forest.len(),
{
    if forest.len() > 0 {
        let rest = forest.subrange(1, forest.len() as int);
        lemma_forest_view(rest);
        assert forall|i: int| 0 <= i < forest.len() implies #[trigger] forest_view(forest)[i] == tree_view(forest[i]) by {
            if i > 0 {
                assert(rest[i - 1] == forest[i]);
            }
            let single = seq![forest[i]];
            assert(single.subrange(1, 1) =~= Seq::<SyntaxTree<T, N>>::empty());
        }
    }
}

/// The view of a concatenation is the concatenation of the views.
pub proof fn lemma_forest_view_append<T, N>(left: Seq<SyntaxTree<T, N>>, right: Seq<SyntaxTree<T, N>>)
    ensures
        forest_view(left + right) == forest_view(left) + forest_view(right),
{
    lemma_forest_view(left);
    lemma_forest_view(right);
    lemma_forest_view(left + right);
    assert forall|i: int| 0 <= i < left.len() + right.len() implies #[trigger] forest_view(left + right)[i]
        == (forest_view(left) + forest_view(right))[i] by {
        if i < left.len() {
            assert((left + right)[i] == left[i]);
        } else {
            assert((left + right)[i] == right[i - left.len()]);
        }
    }
    assert(forest_view(left + right) =~= forest_view(left) + forest_view(right));
}

/// The leaves of a concatenation are those of its parts.
pub proof fn lemma_forest_leaves_append<T, N>(left: Seq<Tree<T, N>>, right: Seq<Tree<T, N>>)
    ensures
        forest_leaves(left + right) == forest_leaves(left) + forest_leaves(right),
    decreases left.len(),
{
    if left.len() == 0 {
        assert(left + right =~= right);
    } else {
        let rest = left.subrange(1, left.len() as int);
        lemma_forest_leaves_append(rest, right);
        assert((left + right).subrange(1, (left + right).len() as int) =~= rest + right);
        assert((left + right)[0] == left[0]);
    }
}

/// The leaves of a non-empty sequence are those of its first tree and of the rest.
pub proof fn lemma_forest_leaves_first<T, N>(forest: Seq<Tree<T, N>>)
    requires
        forest.len() > 0,
    ensures
        forest_leaves(forest) == tree_leaves(forest[0]) + forest_leaves(
            forest.subrange(1, forest.len() as int),
        ),
{
    let single = seq![forest[0]];
    assert(single.subrange(1, 1) =~= Seq::<Tree<T, N>>::empty());
    assert(forest_leaves(Seq::<Tree<T, N>>::empty()) == 0);
    assert(single[0] == forest[0]);
}

/// Whether two sequences of trees have the same shape, `leaf` relating their leaves and `label`
/// their labels, place by place.
pub open spec fn forest_related<A, B, C, D>(
    left: Seq<Tree<A, B>>,
    right: Seq<Tree<C, D>>,
    leaf: spec_fn(A, C) -> bool,
    label: spec_fn(B, D) -> bool,
) -> bool
    decreases left,
{
    left.len() == right.len() && (left.len() > 0 ==> {
        let head = match left[0] {
            Tree::Leaf(a) => match right[0] {
                Tree::Leaf(b) => leaf(a, b),
                Tree::Branch(_, _) => false,
            },
            Tree::Branch(a, children) => match right[0] {
                Tree::Leaf(_) => false,
                Tree::Branch(b, others) => label(a, b) && forest_related(children, others, leaf, label),
            },
        };
        head && forest_related(
            left.subrange(1, left.len() as int),
            right.subrange(1, right.len() as int),
            leaf,
            label,
        )
    })
}

/// Whether two trees have the same shape, `leaf` relating their leaves and `label` their labels.
pub open spec fn tree_related<A, B, C, D>(
    left: Tree<A, B>,
    right: Tree<C, D>,
    leaf: spec_fn(A, C) -> bool,
    label: spec_fn(B, D) -> bool,
) -> bool {
    forest_related(seq![left], seq![right], leaf, label)
}

/// Relates a reference to a clone of what it refers to.
pub open spec fn cloned_from<'a, T: Clone>() -> spec_fn(&'a T, T) -> bool {
    |original: &'a T, copy: T| cloned(*original, copy)
}

/// Relates a mutable reference to a clone of what it refers to.
pub open spec fn cloned_from_mut<'a, T: Clone>() -> spec_fn(&'a mut T, T) -> bool {
    |original: &'a mut T, copy: T| cloned(*original, copy)
}

/// What relating two single trees comes to.
pub proof fn lemma_tree_related<A, B, C, D>(
    left: Tree<A, B>,
    right: Tree<C, D>,
    leaf: spec_fn(A, C) -> bool,
    label: spec_fn(B, D) -> bool,
)
    ensures
        tree_related(left, right, leaf, label) == match left {
            Tree::Leaf(a) => match right {
                Tree::Leaf(b) => leaf(a, b),
                Tree::Branch(_, _) => false,
            },
            Tree::Branch(a, children) => match right {
                Tree::Leaf(_) => false,
                Tree::Branch(b, others) => label(a, b) && forest_related(children, others, leaf, label),
            },
        },
{
    assert(seq![left].subrange(1, 1) =~= Seq::<Tree<A, B>>::empty());
    assert(seq![right].subrange(1, 1) =~= Seq::<Tree<C, D>>::empty());
    assert(forest_related(Seq::<Tree<A, B>>::empty(), Seq::<Tree<C, D>>::empty(), leaf, label));
}

/// Related sequences stay related when related trees are appended to both.
pub proof fn lemma_forest_related_push<A, B, C, D>(
    left: Seq<Tree<A, B>>,
    right: Seq<Tree<C, D>>,
    last_left: Tree<A, B>,
    last_right: Tree<C, D>,
    leaf: spec_fn(A, C) -> bool,
    label: spec_fn(B, D) -> bool,
)
    requires
        forest_related(left, right, leaf, label),
        tree_related(last_left, last_right, leaf, label),
    ensures
        forest_related(left.push(last_left), right.push(last_right), leaf, label),
    decreases left.len(),
{
    if left.len() == 0 {
        assert(left.push(last_left) =~= seq![last_left]);
        assert(right.push(last_right) =~= seq![last_right]);
    } else {
        let rest_left = left.subrange(1, left.len() as int);
        let rest_right = right.subrange(1, right.len() as int);
        lemma_forest_related_push(rest_left, rest_right, last_left, last_right, leaf, label);
        assert(left.push(last_left).subrange(1, left.len() + 1int) =~= rest_left.push(last_left));
        assert(right.push(last_right).subrange(1, right.len() + 1int) =~= rest_right.push(last_right));
        assert(left.push(last_left)[0] == left[0]);
        assert(right.push(last_right)[0] == right[0]);
    }
}

/// Related sequences of trees have the same shape, so the same number of leaves, whatever
/// relates their leaves and labels.
pub proof fn lemma_forest_related_leaves<A, B, C, D>(
    left: Seq<Tree<A, B>>,
    right: Seq<Tree<C, D>>,
    leaf: spec_fn(A, C) -> bool,
    label: spec_fn(B, D) -> bool,
)
    requires
        forest_related(left, right, leaf, label),
    ensures
        forest_leaves(left) == forest_leaves(right),
    decreases left,
{
    if left.len() > 0 {
        match left[0] {
            Tree::Leaf(_) => {},
            Tree::Branch(_, children) => match right[0] {
                Tree::Branch(_, others) => {
                    lemma_forest_related_leaves(children, others, leaf, label);
                },
                Tree::Leaf(_) => {},
            },
        }
        lemma_forest_related_leaves(
            left.subrange(1, left.len() as int),
            right.subrange(1, right.len() as int),
            leaf,
            label,
        );
    }
}

/// Two sequences of trees related by some relations are related by any weaker ones: where
/// `leaf` implies `weaker_leaf` and `label` implies `weaker_label` for every pair.
pub proof fn lemma_forest_related_weaken<A, B, C, D>(
    left: Seq<Tree<A, B>>,
    right: Seq<Tree<C, D>>,
    leaf: spec_fn(A, C) -> bool,
    label: spec_fn(B, D) -> bool,
    weaker_leaf: spec_fn(A, C) -> bool,
    weaker_label: spec_fn(B, D) -> bool,
)
    requires
        forest_related(left, right, leaf, label),
        forall|a: A, c: C| #[trigger] leaf(a, c) ==> weaker_leaf(a, c),
        forall|b: B, d: D| #[trigger] label(b, d) ==> weaker_label(b, d),
    ensures
        forest_related(left, right, weaker_leaf, weaker_label),
    decreases left,
{
    if left.len() > 0 {
        match left[0] {
            Tree::Leaf(_) => {},
            Tree::Branch(_, children) => match right[0] {
                Tree::Branch(_, others) => {
                    lemma_forest_related_weaken(children, others, leaf, label, weaker_leaf, weaker_label);
                },
                Tree::Leaf(_) => {},
            },
        }
        lemma_forest_related_weaken(
            left.subrange(1, left.len() as int),
            right.subrange(1, right.len() as int),
            leaf,
            label,
            weaker_leaf,
            weaker_label,
        );
    }
}

/// A cloned tree has the shape of the tree it was cloned from: a leaf where it has a leaf, a
/// branch where it has a branch, as many children and as many leaves. Where cloning a terminal
/// and a label gives an equal value, every leaf and label of the clone equals the one it was
/// cloned from.
pub proof fn lemma_cloned_tree<'a, 'b, T: Clone, N: Clone>(tree: Tree<&'a T, &'b N>, copy: Tree<T, N>)
    requires
        tree_related(tree, copy, cloned_from(), cloned_from()),
    ensures
        tree_leaves(tree) == tree_leaves(copy),
        (tree is Leaf) == (copy is Leaf),
        (forall|a: T, b: T| #[trigger] cloned(a, b) ==> a == b) && (forall|a: N, b: N| #[trigger] cloned(a, b)
            ==> a == b) ==> tree_related(
            tree,
            copy,
            |a: &'a T, b: T| *a == b,
            |a: &'b N, b: N| *a == b,
        ),
{
    lemma_forest_related_leaves(seq![tree], seq![copy], cloned_from(), cloned_from());
    lemma_tree_related(tree, copy, cloned_from(), cloned_from());
    if (forall|a: T, b: T| #[trigger] cloned(a, b) ==> a == b) && (forall|a: N, b: N| #[trigger] cloned(a, b) ==> a == b) {
        let exact_leaf = |a: &'a T, b: T| *a == b;
        let exact_label = |a: &'b N, b: N| *a == b;
        assert forall|a: &'a T, b: T| #[trigger] (cloned_from::<'a, T>())(a, b) implies exact_leaf(a, b) by {
            assert(cloned(*a, b));
        }
        assert forall|a: &'b N, b: N| #[trigger] (cloned_from::<'b, N>())(a, b) implies exact_label(a, b) by {
            assert(cloned(*a, b));
        }
        lemma_forest_related_weaken(seq![tree], seq![copy], cloned_from(), cloned_from(), exact_leaf, exact_label);
    }
}

/// The number of leaves of a single tree.
pub proof fn lemma_tree_leaves<T, N>(tree: Tree<T, N>)
    ensures
        tree_leaves(tree) == match tree {
            Tree::Leaf(_) => 1,
            Tree::Branch(_, children) => forest_leaves(children),
        },
{
    assert(seq![tree].subrange(1, 1) =~= Seq::<Tree<T, N>>::empty());
    assert(forest_leaves(Seq::<Tree<T, N>>::empty()) == 0);
}

/// The view of a leaf, and its number of leaves.
pub proof fn lemma_leaf_view<T, N>(leaf: SyntaxTreeLeaf<T>)
    ensures
        tree_view(SyntaxTree::<T, N>::Leaf(leaf)) == Tree::<T, N>::Leaf(leaf.symbol),
        tree_leaves(Tree::<T, N>::Leaf(leaf.symbol)) == 1,
{
    let single = seq![SyntaxTree::<T, N>::Leaf(leaf)];
    assert(single.subrange(1, 1) =~= Seq::<SyntaxTree<T, N>>::empty());
    let viewed = seq![Tree::<T, N>::Leaf(leaf.symbol)];
    assert(viewed.subrange(1, 1) =~= Seq::<Tree<T, N>>::empty());
    assert(forest_leaves(Seq::<Tree<T, N>>::empty()) == 0);
}

/// The view of a branch, and its number of leaves.
pub proof fn lemma_branch_view<T, N>(branch: SyntaxTreeBranch<T, N>)
    ensures
        tree_view(SyntaxTree::Branch(branch)) == Tree::Branch(branch.label, children_view(branch)),
        tree_leaves(Tree::Branch(branch.label, children_view(branch))) == forest_leaves(
            children_view(branch),
        ),
{
    let single = seq![SyntaxTree::Branch(branch)];
    assert(single.subrange(1, 1) =~= Seq::<SyntaxTree<T, N>>::empty());
    let viewed = seq![Tree::Branch(branch.label, children_view(branch))];
    assert(viewed.subrange(1, 1) =~= Seq::<Tree<T, N>>::empty());
    assert(forest_leaves(Seq::<Tree<T, N>>::empty()) == 0);
}

/// The view of a single tree is the sequence of its view.
pub proof fn lemma_forest_view_single<T, N>(tree: SyntaxTree<T, N>)
    ensures
        forest_view(seq![tree]) == seq![tree_view(tree)],
        forest_leaves(seq![tree_view(tree)]) == tree_leaves(tree_view(tree)),
{
    lemma_forest_view(seq![tree]);
    assert(forest_view(seq![tree]) =~= seq![tree_view(tree)]);
}

/// The views of the first `count + 1` trees are those of the first `count` and one more.
pub proof fn lemma_forest_view_prefix<T, N>(forest: Seq<SyntaxTree<T, N>>, count: int)
    requires
        0 <= count < forest.len(),
    ensures
        forest_view(forest.subrange(0, count + 1)) == forest_view(forest.subrange(0, count)).push(
            tree_view(forest[count]),
        ),
        forest_leaves(forest_view(forest.subrange(0, count + 1))) == forest_leaves(
            forest_view(forest.subrange(0, count)),
        ) + tree_leaves(tree_view(forest[count])),
        forest_leaves(forest_view(forest.subrange(0, count + 1))) <= forest_leaves(forest_view(forest)),
{
    assert(forest.subrange(0, count + 1) =~= forest.subrange(0, count) + seq![forest[count]]);
    lemma_forest_view_append(forest.subrange(0, count), seq![forest[count]]);
    lemma_forest_view_single(forest[count]);
    lemma_forest_leaves_append(forest_view(forest.subrange(0, count)), seq![tree_view(forest[count])]);
    assert(forest =~= forest.subrange(0, count + 1) + forest.subrange(count + 1, forest.len() as int));
    lemma_forest_view_append(forest.subrange(0, count + 1), forest.subrange(count + 1, forest.len() as int));
    lemma_forest_leaves_append(
        forest_view(forest.subrange(0, count + 1)),
        forest_view(forest.subrange(count + 1, forest.len() as int)),
    );
}

impl<T, N> SyntaxTree<T, N> {
    /// The symbol at the root: the leaf's terminal, or the branch's label.
    pub fn top_symbol(&self) -> (symbol: Symbol<&T, &N>)
        ensures
            referenced(symbol) == root_symbol(*self),
    {
        match self {
            SyntaxTree::Leaf(node) => Symbol::Terminal(&node.symbol),
            SyntaxTree::Branch(node) => Symbol::NonTerm(&node.label),
        }
    }

    /// The number of leaves.
    pub fn count_leaves(&self) -> (count: usize)
        requires
            tree_leaves(tree_view(*self)) <= usize::MAX,
        ensures
            count == tree_leaves(tree_view(*self)),
        decreases self,
    {
        match self {
            SyntaxTree::Leaf(node) => {
                proof {
                    lemma_leaf_view::<T, N>(*node);
                }
                node.count_leaves()
            },
            SyntaxTree::Branch(node) => {
                proof {
                    lemma_branch_view(*node);
                }
                node.count_leaves()
            },
        }
    }
}

impl<T> SyntaxTreeLeaf<T> {
    /// The number of leaves: one.
    pub fn count_leaves(&self) -> (count: usize)
        ensures
            count == 1,
    {
        1
    }
}

impl<T, N> SyntaxTreeBranch<T, N> {
    /// The number of leaves, over all children.
    pub fn count_leaves(&self) -> (count: usize)
        requires
            forest_leaves(children_view(*self)) <= usize::MAX,
        ensures
            count == forest_leaves(children_view(*self)),
        decreases self,
    {
        let mut count: usize = 0;
        let mut i: usize = 0;
        proof {
            assert(self.children@.subrange(0, 0) =~= Seq::<SyntaxTree<T, N>>::empty());
        }
        while i < self.children.len()
            invariant
                i <= self.children.len(),
                forest_leaves(children_view(*self)) <= usize::MAX,
                count == forest_leaves(forest_view(self.children@.subrange(0, i as int))),
            decreases self.children.len() - i,
        {
            proof {
                lemma_forest_view_prefix(self.children@, i as int);
            }
            let more = self.children[i].count_leaves();
            count = count + more;
            i = i + 1;
        }
        proof {
            assert(self.children@.subrange(0, i as int) =~= self.children@);
        }
        count
    }
}

impl<'term, 'nonterm, T, N> SyntaxTree<&'term T, &'nonterm N> {
    /// The tree referred to, cloned.
    pub fn cloned(&self) -> (tree: SyntaxTree<T, N>) where T: Clone, N: Clone
        ensures
            tree_related(tree_view(*self), tree_view(tree), cloned_from(), cloned_from()),
            tree_leaves(tree_view(tree)) == tree_leaves(tree_view(*self)),
            (tree is Leaf) == (*self is Leaf),
        decreases self,
    {
        proof {
            assert forall|t: SyntaxTree<T, N>|
                tree_related(tree_view(*self), tree_view(t), cloned_from(), cloned_from()) implies #[trigger] tree_leaves(
                tree_view(t),
            ) == tree_leaves(tree_view(*self)) by {
                lemma_forest_related_leaves(seq![tree_view(*self)], seq![tree_view(t)], cloned_from(), cloned_from());
            }
        }
        match self {
            SyntaxTree::Leaf(node) => {
                let leaf = node.cloned();
                proof {
                    lemma_leaf_view::<&T, &N>(*node);
                    lemma_leaf_view::<T, N>(leaf);
                    lemma_tree_related(
                        Tree::<&T, &N>::Leaf(node.symbol),
                        Tree::<T, N>::Leaf(leaf.symbol),
                        cloned_from(),
                        cloned_from(),
                    );
                }
                SyntaxTree::Leaf(leaf)
            },
            SyntaxTree::Branch(node) => {
                let branch = node.cloned();
                proof {
                    lemma_branch_view(*node);
                    lemma_branch_view(branch);
                    lemma_tree_related(
                        Tree::Branch(node.label, children_view(*node)),
                        Tree::Branch(branch.label, children_view(branch)),
                        cloned_from(),
                        cloned_from(),
                    );
                }
                SyntaxTree::Branch(branch)
            },
        }
    }
}

impl<'term, 'nonterm, T, N> SyntaxTree<&'term mut T, &'nonterm mut N> {
    /// The tree referred to, cloned.
    pub fn cloned(&self) -> (tree: SyntaxTree<T, N>) where T: Clone, N: Clone
        ensures
            tree_related(tree_view(*self), tree_view(tree), cloned_from_mut(), cloned_from_mut()),
            tree_leaves(tree_view(tree)) == tree_leaves(tree_view(*self)),
            (tree is Leaf) == (*self is Leaf),
        decreases self,
    {
        proof {
            assert forall|t: SyntaxTree<T, N>|
                tree_related(tree_view(*self), tree_view(t), cloned_from_mut(), cloned_from_mut()) implies #[trigger] tree_leaves(
                tree_view(t),
            ) == tree_leaves(tree_view(*self)) by {
                lemma_forest_related_leaves(seq![tree_view(*self)], seq![tree_view(t)], cloned_from_mut(), cloned_from_mut());
            }
        }
        match self {
            SyntaxTree::Leaf(node) => {
                let leaf = node.cloned();
                proof {
                    lemma_leaf_view::<&mut T, &mut N>(*node);
                    lemma_leaf_view::<T, N>(leaf);
                    lemma_tree_related(
                        Tree::<&mut T, &mut N>::Leaf(node.symbol),
                        Tree::<T, N>::Leaf(leaf.symbol),
                        cloned_from_mut(),
                        cloned_from_mut(),
                    );
                }
                SyntaxTree::Leaf(leaf)
            },
            SyntaxTree::Branch(node) => {
                let branch = node.cloned();
                proof {
                    lemma_branch_view(*node);
                    lemma_branch_view(branch);
                    lemma_tree_related(
                        Tree::Branch(node.label, children_view(*node)),
                        Tree::Branch(branch.label, children_view(branch)),
                        cloned_from_mut(),
                        cloned_from_mut(),
                    );
                }
                SyntaxTree::Branch(branch)
            },
        }
    }
}

impl<'sym, T> SyntaxTreeLeaf<&'sym T> {
    /// The leaf referred to, cloned.
    pub fn cloned(&self) -> (leaf: SyntaxTreeLeaf<T>) where T: Clone
        ensures
            cloned(*self.symbol, leaf.symbol),
    {
        SyntaxTreeLeaf { symbol: self.symbol.clone() }
    }
}

impl<'sym, T> SyntaxTreeLeaf<&'sym mut T> {
    /// The leaf referred to, cloned.
    pub fn cloned(&self) -> (leaf: SyntaxTreeLeaf<T>) where T: Clone
        ensures
            (cloned_from_mut())(self.symbol, leaf.symbol),
    {
        SyntaxTreeLeaf { symbol: (*self.symbol).clone() }
    }
}

impl<'term, 'nonterm, T, N> SyntaxTreeBranch<&'term T, &'nonterm N> {
    /// The branch referred to, cloned.
    pub fn cloned(&self) -> (branch: SyntaxTreeBranch<T, N>) where T: Clone, N: Clone
        ensures
            cloned(*self.label, branch.label),
            forest_related(children_view(*self), children_view(branch), cloned_from(), cloned_from()),
            branch.children@.len() == self.children@.len(),
            forest_leaves(children_view(branch)) == forest_leaves(children_view(*self)),
        decreases self,
    {
        let label = self.label.clone();
        let mut children: Vec<SyntaxTree<T, N>> = Vec::new();
        let mut i: usize = 0;
        proof {
            assert(self.children@.subrange(0, 0) =~= Seq::<SyntaxTree<&T, &N>>::empty());
            assert(forest_view(children@) =~= Seq::<Tree<T, N>>::empty());
        }
        while i < self.children.len()
            invariant
                i <= self.children.len(),
                forest_related(
                    forest_view(self.children@.subrange(0, i as int)),
                    forest_view(children@),
                    cloned_from(),
                    cloned_from(),
                ),
            decreases self.children.len() - i,
        {
            let child = self.children[i].cloned();
            proof {
                lemma_forest_view_prefix(self.children@, i as int);
                lemma_forest_view_append(children@, seq![child]);
                lemma_forest_view_single(child);
                assert(children@.push(child) =~= children@ + seq![child]);
                assert(forest_view(children@) + seq![tree_view(child)] =~= forest_view(children@).push(
                    tree_view(child),
                ));
                lemma_forest_related_push(
                    forest_view(self.children@.subrange(0, i as int)),
                    forest_view(children@),
                    tree_view(self.children@[i as int]),
                    tree_view(child),
                    cloned_from(),
                    cloned_from(),
                );
            }
            children.push(child);
            i = i + 1;
        }
        proof {
            assert(self.children@.subrange(0, i as int) =~= self.children@);
        }
        proof {
            lemma_forest_view(self.children@);
            lemma_forest_view(children@);
            lemma_forest_related_leaves(children_view(*self), forest_view(children@), cloned_from(), cloned_from());
        }
        SyntaxTreeBranch { label, children }
    }
}

impl<'term, 'nonterm, T, N> SyntaxTreeBranch<&'term mut T, &'nonterm mut N> {
    /// The branch referred to, cloned.
    pub fn cloned(&self) -> (branch: SyntaxTreeBranch<T, N>) where T: Clone, N: Clone
        ensures
            (cloned_from_mut())(self.label, branch.label),
            forest_related(
                children_view(*self),
                children_view(branch),
                cloned_from_mut(),
                cloned_from_mut(),
            ),
            branch.children@.len() == self.children@.len(),
            forest_leaves(children_view(branch)) == forest_leaves(children_view(*self)),
        decreases self,
    {
        let label = (*self.label).clone();
        let mut children: Vec<SyntaxTree<T, N>> = Vec::new();
        let mut i: usize = 0;
        proof {
            assert(self.children@.subrange(0, 0) =~= Seq::<SyntaxTree<&mut T, &mut N>>::empty());
            assert(forest_view(children@) =~= Seq::<Tree<T, N>>::empty());
        }
        while i < self.children.len()
            invariant
                i <= self.children.len(),
                forest_related(
                    forest_view(self.children@.subrange(0, i as int)),
                    forest_view(children@),
                    cloned_from_mut(),
                    cloned_from_mut(),
                ),
            decreases self.children.len() - i,
        {
            let child = self.children[i].cloned();
            proof {
                lemma_forest_view_prefix(self.children@, i as int);
                lemma_forest_view_append(children@, seq![child]);
                lemma_forest_view_single(child);
                assert(children@.push(child) =~= children@ + seq![child]);
                assert(forest_view(children@) + seq![tree_view(child)] =~= forest_view(children@).push(
                    tree_view(child),
                ));
                lemma_forest_related_push(
                    forest_view(self.children@.subrange(0, i as int)),
                    forest_view(children@),
                    tree_view(self.children@[i as int]),
                    tree_view(child),
                    cloned_from_mut(),
                    cloned_from_mut(),
                );
            }
            children.push(child);
            i = i + 1;
        }
        proof {
            assert(self.children@.subrange(0, i as int) =~= self.children@);
        }
        proof {
            lemma_forest_view(self.children@);
            lemma_forest_view(children@);
            lemma_forest_related_leaves(children_view(*self), forest_view(children@), cloned_from_mut(), cloned_from_mut());
        }
        SyntaxTreeBranch { label, children }
    }
}

/// The symbol at the root of a tree of references, as the symbol referred to.
pub open spec fn top<T, N>(tree: Tree<&T, &N>) -> Symbol<T, N> {
    match tree {
        Tree::Leaf(term) => Symbol::Terminal(*term),
        Tree::Branch(nonterm, _) => Symbol::NonTerm(*nonterm),
    }
}

/// The symbols at the roots of a sequence of trees of references.
pub open spec fn tops<T, N>(forest: Seq<Tree<&T, &N>>) -> Seq<Symbol<T, N>> {
    forest.map_values(|tree: Tree<&T, &N>| top(tree))
}

/// Whether some production of `grammar` rewrites `label` to the symbols at the roots of
/// `children`.
pub open spec fn produces<T, N>(grammar: Grammar<T, N>, label: N, children: Seq<Tree<&T, &N>>) -> bool {
    exists|i: int|
        0 <= i < grammar.productions.len() && (#[trigger] grammar.productions@[i]).input == label
            && grammar.productions@[i].output@ == tops(children)
}

/// Whether `forest` is a sequence of syntax trees of `grammar`, side by side, whose leaves spell
/// `input` from position `start` on: each leaf a terminal of the grammar equal to the input
/// symbol at its place, and each branch, with at least one child, labelled by a non-terminal
/// that a production rewrites to the roots of its children.
pub open spec fn derives<T, N>(grammar: Grammar<T, N>, input: Seq<T>, start: int, forest: Seq<Tree<&T, &N>>) -> bool
    decreases forest,
{
    if forest.len() == 0 {
        true
    } else {
        let head = match forest[0] {
            Tree::Leaf(term) => 0 <= start < input.len() && input[start] == *term
                && grammar.terminals@.contains(*term),
            Tree::Branch(nonterm, children) => children.len() > 0 && produces(grammar, *nonterm, children)
                && derives(grammar, input, start, children),
        };
        head && derives(
            grammar,
            input,
            start + tree_leaves(forest[0]),
            forest.subrange(1, forest.len() as int),
        )
    }
}

/// The trees of `grammar` over part of `input`, each with the position where it starts.
pub open spec fn derivable<'g, T, N>(grammar: Grammar<T, N>, input: Seq<T>) -> Set<(int, Tree<&'g T, &'g N>)> {
    Set::new(|candidate: (int, Tree<&'g T, &'g N>)| derives(grammar, input, candidate.0, seq![candidate.1]))
}

/// The parse trees of `input`: the trees of `grammar` over the whole of it whose root is the
/// starting non-terminal.
pub open spec fn parse_trees<'g, T, N>(grammar: Grammar<T, N>, input: Seq<T>) -> Set<Tree<&'g T, &'g N>> {
    Set::new(
        |tree: Tree<&'g T, &'g N>|
            derives(grammar, input, 0, seq![tree]) && tree_leaves(tree) == input.len() && top(tree)
                == Symbol::<T, N>::NonTerm(grammar.starting_non_term),
    )
}

/// Whether `forest` is a sequence of trees of `found`, side by side from `start`.
pub open spec fn side_by_side<T, N>(found: Set<(int, Tree<T, N>)>, start: int, forest: Seq<Tree<T, N>>) -> bool
    decreases forest.len(),
{
    forest.len() == 0 || (found.contains((start, forest[0])) && side_by_side(
        found,
        start + tree_leaves(forest[0]),
        forest.subrange(1, forest.len() as int),
    ))
}

/// Whether `found` holds every tree that one of the first `count` productions of `grammar` makes
/// from trees of `found` side by side.
pub open spec fn closed_below<T, N>(grammar: Grammar<T, N>, found: Set<(int, Tree<&T, &N>)>, count: int) -> bool {
    forall|i: int, start: int, label: &N, forest: Seq<Tree<&T, &N>>|
        #![trigger grammar.productions@[i], found.contains((start, Tree::Branch(label, forest)))]
        0 <= i < count && i < grammar.productions.len() && grammar.productions@[i].input == *label
            && forest.len() > 0 && tops(forest) == grammar.productions@[i].output@ && side_by_side(
            found,
            start,
            forest,
        ) ==> found.contains((start, Tree::Branch(label, forest)))
}

/// Whether `found` holds every tree that a production of `grammar` makes from trees of `found`
/// side by side.
pub open spec fn closed<T, N>(grammar: Grammar<T, N>, found: Set<(int, Tree<&T, &N>)>) -> bool {
    closed_below(grammar, found, grammar.productions.len() as int)
}

/// Whether `found` holds every leaf of `grammar` for `input`.
pub open spec fn has_leaves<T, N>(grammar: Grammar<T, N>, input: Seq<T>, found: Set<(int, Tree<&T, &N>)>) -> bool {
    forall|start: int, term: &T|
        0 <= start < input.len() && input[start] == *term && grammar.terminals@.contains(*term)
            ==> #[trigger] found.contains((start, Tree::Leaf(term)))
}

/// What a single tree derives.
pub proof fn lemma_derives_single<T, N>(grammar: Grammar<T, N>, input: Seq<T>, start: int, tree: Tree<&T, &N>)
    ensures
        derives(grammar, input, start, seq![tree]) == match tree {
            Tree::Leaf(term) => 0 <= start < input.len() && input[start] == *term
                && grammar.terminals@.contains(*term),
            Tree::Branch(nonterm, children) => children.len() > 0 && produces(grammar, *nonterm, children)
                && derives(grammar, input, start, children),
        },
{
    assert(seq![tree].subrange(1, 1) =~= Seq::<Tree<&T, &N>>::empty());
    assert(derives(grammar, input, start + tree_leaves(tree), Seq::<Tree<&T, &N>>::empty()));
}

/// A derived sequence of trees lies within the input.
pub proof fn lemma_derives_within<T, N>(grammar: Grammar<T, N>, input: Seq<T>, start: int, forest: Seq<Tree<&T, &N>>)
    requires
        derives(grammar, input, start, forest),
        forest.len() > 0,
    ensures
        0 <= start,
        start + forest_leaves(forest) <= input.len(),
        forest_leaves(forest) > 0,
    decreases forest,
{
    let rest = forest.subrange(1, forest.len() as int);
    lemma_forest_leaves_first(forest);
    match forest[0] {
        Tree::Leaf(_) => {
            assert(tree_leaves(forest[0]) == 1) by {
                assert(seq![forest[0]].subrange(1, 1) =~= Seq::<Tree<&T, &N>>::empty());
                assert(forest_leaves(Seq::<Tree<&T, &N>>::empty()) == 0);
            }
        },
        Tree::Branch(_, children) => {
            lemma_derives_within(grammar, input, start, children);
            assert(tree_leaves(forest[0]) == forest_leaves(children)) by {
                assert(seq![forest[0]].subrange(1, 1) =~= Seq::<Tree<&T, &N>>::empty());
                assert(forest_leaves(Seq::<Tree<&T, &N>>::empty()) == 0);
            }
        },
    }
    if rest.len() > 0 {
        lemma_derives_within(grammar, input, start + tree_leaves(forest[0]), rest);
    } else {
        assert(forest_leaves(rest) == 0);
    }
}

/// A chain of derived trees is itself derived.
pub proof fn lemma_chain_derives<T, N>(
    grammar: Grammar<T, N>,
    input: Seq<T>,
    found: Set<(int, Tree<&T, &N>)>,
    start: int,
    forest: Seq<Tree<&T, &N>>,
)
    requires
        found.subset_of(derivable(grammar, input)),
        side_by_side(found, start, forest),
    ensures
        derives(grammar, input, start, forest),
    decreases forest.len(),
{
    if forest.len() > 0 {
        let rest = forest.subrange(1, forest.len() as int);
        lemma_chain_derives(grammar, input, found, start + tree_leaves(forest[0]), rest);
        assert(derivable(grammar, input).contains((start, forest[0])));
        lemma_derives_single(grammar, input, start, forest[0]);
    }
}

/// When `found` holds the leaves and is closed, every derived sequence of trees is a chain of
/// its trees.
pub proof fn lemma_derives_chain<T, N>(
    grammar: Grammar<T, N>,
    input: Seq<T>,
    found: Set<(int, Tree<&T, &N>)>,
    start: int,
    forest: Seq<Tree<&T, &N>>,
)
    requires
        has_leaves(grammar, input, found),
        closed(grammar, found),
        derives(grammar, input, start, forest),
    ensures
        side_by_side(found, start, forest),
    decreases forest,
{
    if forest.len() > 0 {
        let rest = forest.subrange(1, forest.len() as int);
        lemma_derives_chain(grammar, input, found, start + tree_leaves(forest[0]), rest);
        match forest[0] {
            Tree::Leaf(term) => {
                assert(found.contains((start, Tree::Leaf(term))));
            },
            Tree::Branch(nonterm, children) => {
                lemma_derives_chain(grammar, input, found, start, children);
                let i = choose|i: int|
                    0 <= i < grammar.productions.len() && (#[trigger] grammar.productions@[i]).input
                        == *nonterm && grammar.productions@[i].output@ == tops(children);
                assert(grammar.productions@[i].input == *nonterm);
                assert(found.contains((start, Tree::Branch(nonterm, children))));
            },
        }
    }
}

/// A chain stays a chain when a tree found right after it is appended.
pub proof fn lemma_chain_push<T, N>(
    found: Set<(int, Tree<T, N>)>,
    start: int,
    forest: Seq<Tree<T, N>>,
    last: Tree<T, N>,
)
    requires
        side_by_side(found, start, forest),
        found.contains((start + forest_leaves(forest), last)),
    ensures
        side_by_side(found, start, forest.push(last)),
    decreases forest.len(),
{
    if forest.len() == 0 {
        assert(forest.push(last) =~= seq![last]);
        assert(seq![last].subrange(1, 1) =~= Seq::<Tree<T, N>>::empty());
        assert(forest_leaves(forest) == 0);
        assert(side_by_side(found, start + tree_leaves(last), Seq::<Tree<T, N>>::empty()));
    } else {
        let rest = forest.subrange(1, forest.len() as int);
        lemma_forest_leaves_first(forest);
        lemma_chain_push(found, start + tree_leaves(forest[0]), rest, last);
        assert(forest.push(last).subrange(1, forest.len() + 1int) =~= rest.push(last));
        assert(forest.push(last)[0] == forest[0]);
    }
}

/// When `found` holds only derived trees, holds the leaves and is closed, it holds exactly the
/// derived trees.
pub proof fn lemma_closed_is_derivable<T, N>(grammar: Grammar<T, N>, input: Seq<T>, found: Set<(int, Tree<&T, &N>)>)
    requires
        found.subset_of(derivable(grammar, input)),
        has_leaves(grammar, input, found),
        closed(grammar, found),
    ensures
        found == derivable(grammar, input),
{
    assert forall|candidate: (int, Tree<&T, &N>)| derivable(grammar, input).contains(candidate) implies found.contains(
        candidate,
    ) by {
        lemma_derives_chain(grammar, input, found, candidate.0, seq![candidate.1]);
        assert(seq![candidate.1][0] == candidate.1);
    }
    assert(found =~= derivable(grammar, input));
}

/// Compares two values.
fn equal<T: PartialEq>(left: &T, right: &T) -> (same: bool)
    requires
        obeys_concrete_eq::<T>(),
    ensures
        same == (*left == *right),
{
    proof {
        reveal(obeys_concrete_eq);
    }
    *left == *right
}

/// Whether the symbol at the root of `tree` is `expected`.
fn root_is<T: PartialEq, N: PartialEq>(tree: &SyntaxTree<&T, &N>, expected: &Symbol<T, N>) -> (same: bool)
    requires
        obeys_concrete_eq::<T>(),
        obeys_concrete_eq::<N>(),
    ensures
        same == (top(tree_view(*tree)) == *expected),
{
    match tree {
        SyntaxTree::Leaf(leaf) => {
            proof {
                lemma_leaf_view::<&T, &N>(*leaf);
            }
            match expected {
                Symbol::Terminal(other) => equal(leaf.symbol, other),
                Symbol::NonTerm(_) => false,
            }
        },
        SyntaxTree::Branch(branch) => {
            proof {
                lemma_branch_view(*branch);
            }
            match expected {
                Symbol::Terminal(_) => false,
                Symbol::NonTerm(other) => equal(branch.label, other),
            }
        },
    }
}

/// Whether `tree` is a branch labelled `label`.
fn is_rooted_at<T, N: PartialEq>(tree: &SyntaxTree<&T, &N>, label: &N) -> (rooted: bool)
    requires
        obeys_concrete_eq::<N>(),
    ensures
        rooted == (top(tree_view(*tree)) == Symbol::<T, N>::NonTerm(*label)),
{
    match tree {
        SyntaxTree::Leaf(leaf) => {
            proof {
                lemma_leaf_view::<&T, &N>(*leaf);
            }
            false
        },
        SyntaxTree::Branch(branch) => {
            proof {
                lemma_branch_view(*branch);
            }
            equal(branch.label, label)
        },
    }
}

/// The first terminal of `terminals` equal to `symbol`.
fn find_terminal<T: PartialEq>(terminals: &Vec<T>, symbol: &T) -> (found: Option<usize>)
    requires
        obeys_concrete_eq::<T>(),
    ensures
        match found {
            Some(j) => j < terminals.len() && terminals@[j as int] == *symbol,
            None => !terminals@.contains(*symbol),
        },
{
    let mut j: usize = 0;
    while j < terminals.len()
        invariant
            obeys_concrete_eq::<T>(),
            j <= terminals.len(),
            forall|k: int| 0 <= k < j ==> terminals@[k] != *symbol,
        decreases terminals.len() - j,
    {
        if equal(&terminals[j], symbol) {
            return Some(j);
        }
        j = j + 1;
    }
    None
}

/// Copies a tree of references.
fn copy_tree<'a, 'b, T, N>(tree: &SyntaxTree<&'a T, &'b N>) -> (copy: SyntaxTree<&'a T, &'b N>)
    ensures
        tree_view(copy) == tree_view(*tree),
    decreases tree,
{
    match tree {
        SyntaxTree::Leaf(leaf) => {
            proof {
                lemma_leaf_view::<&'a T, &'b N>(*leaf);
            }
            SyntaxTree::Leaf(SyntaxTreeLeaf { symbol: leaf.symbol })
        },
        SyntaxTree::Branch(branch) => {
            let copy = copy_branch(branch);
            proof {
                lemma_branch_view(*branch);
                lemma_branch_view(copy);
            }
            SyntaxTree::Branch(copy)
        },
    }
}

/// Copies a branch of references.
fn copy_branch<'a, 'b, T, N>(branch: &SyntaxTreeBranch<&'a T, &'b N>) -> (copy: SyntaxTreeBranch<&'a T, &'b N>)
    ensures
        copy.label == branch.label,
        children_view(copy) == children_view(*branch),
    decreases branch,
{
    let mut children: Vec<SyntaxTree<&'a T, &'b N>> = Vec::new();
    let mut i: usize = 0;
    proof {
        assert(branch.children@.subrange(0, 0) =~= Seq::<SyntaxTree<&'a T, &'b N>>::empty());
        assert(forest_view(children@) =~= Seq::<Tree<&'a T, &'b N>>::empty());
    }
    while i < branch.children.len()
        invariant
            i <= branch.children.len(),
            forest_view(children@) == forest_view(branch.children@.subrange(0, i as int)),
        decreases branch.children.len() - i,
    {
        let child = copy_tree(&branch.children[i]);
        proof {
            lemma_forest_view_prefix(branch.children@, i as int);
            lemma_forest_view_append(children@, seq![child]);
            lemma_forest_view_single(child);
            assert(children@.push(child) =~= children@ + seq![child]);
        }
        children.push(child);
        i = i + 1;
    }
    proof {
        assert(branch.children@.subrange(0, i as int) =~= branch.children@);
    }
    SyntaxTreeBranch { label: branch.label, children }
}

/// Whether two trees of references are the same tree.
fn same_tree<T: PartialEq, N: PartialEq>(left: &SyntaxTree<&T, &N>, right: &SyntaxTree<&T, &N>) -> (same: bool)
    requires
        obeys_concrete_eq::<T>(),
        obeys_concrete_eq::<N>(),
    ensures
        same == (tree_view(*left) == tree_view(*right)),
    decreases left,
{
    match left {
        SyntaxTree::Leaf(leaf) => match right {
            SyntaxTree::Leaf(other) => {
                proof {
                    lemma_leaf_view::<&T, &N>(*leaf);
                    lemma_leaf_view::<&T, &N>(*other);
                }
                equal(leaf.symbol, other.symbol)
            },
            SyntaxTree::Branch(other) => {
                proof {
                    lemma_leaf_view::<&T, &N>(*leaf);
                    lemma_branch_view(*other);
                }
                false
            },
        },
        SyntaxTree::Branch(branch) => match right {
            SyntaxTree::Leaf(other) => {
                proof {
                    lemma_branch_view(*branch);
                    lemma_leaf_view::<&T, &N>(*other);
                }
                false
            },
            SyntaxTree::Branch(other) => {
                proof {
                    lemma_branch_view(*branch);
                    lemma_branch_view(*other);
                    lemma_forest_view(branch.children@);
                    lemma_forest_view(other.children@);
                }
                if !equal(branch.label, other.label) {
                    return false;
                }
                if branch.children.len() != other.children.len() {
                    return false;
                }
                let mut i: usize = 0;
                while i < branch.children.len()
                    invariant
                        *left == SyntaxTree::Branch(*branch),
                        tree_view(*left) == Tree::Branch(branch.label, children_view(*branch)),
                        tree_view(*right) == Tree::Branch(other.label, children_view(*other)),
                        obeys_concrete_eq::<T>(),
                        obeys_concrete_eq::<N>(),
                        i <= branch.children.len() == other.children.len(),
                        forest_view(branch.children@).len() == branch.children.len(),
                        forest_view(other.children@).len() == other.children.len(),
                        forall|k: int| 0 <= k < branch.children.len() ==> #[trigger] forest_view(branch.children@)[k]
                            == tree_view(branch.children@[k]),
                        forall|k: int| 0 <= k < other.children.len() ==> #[trigger] forest_view(other.children@)[k]
                            == tree_view(other.children@[k]),
                        forall|k: int| 0 <= k < i ==> forest_view(branch.children@)[k] == #[trigger] forest_view(
                            other.children@,
                        )[k],
                    decreases branch.children.len() - i,
                {
                    if !same_tree(&branch.children[i], &other.children[i]) {
                        assert(forest_view(branch.children@)[i as int] != forest_view(other.children@)[i as int]);
                        return false;
                    }
                    i = i + 1;
                }
                assert(forest_view(branch.children@) =~= forest_view(other.children@));
                true
            },
        },
    }
}

/// A tree found over part of the input: where it starts, how many input symbols it covers, and
/// the tree.
#[derive(Debug, PartialEq, Eq, PartialOrd, Ord, Hash)]
pub struct Candidate<T, N> {
    pub start: usize,
    pub length: usize,
    pub syntax_tree: SyntaxTree<T, N>,
}

impl<T, N> Candidate<T, N> {
    /// The candidate made of a single leaf at `start`.
    pub fn from_leaf(start: usize, symbol: T) -> (candidate: Self)
        ensures
            candidate.start == start,
            candidate.length == 1,
            candidate.syntax_tree == SyntaxTree::<T, N>::Leaf(SyntaxTreeLeaf { symbol }),
    {
        Self { start, length: 1, syntax_tree: SyntaxTree::Leaf(SyntaxTreeLeaf { symbol }) }
    }
}

impl<T, N> Default for Candidate<T, N> where T: Default {
    /// A single leaf at the beginning, holding the default terminal.
    fn default() -> (candidate: Self)
        ensures
            candidate.start == 0,
            candidate.length == 1,
            candidate.syntax_tree is Leaf,
    {
        Self::from_leaf(0, T::default())
    }
}

/// A candidate as its start and the mathematical value of its tree.
pub open spec fn candidate_view<T, N>(candidate: Candidate<T, N>) -> (int, Tree<T, N>) {
    (candidate.start as int, tree_view(candidate.syntax_tree))
}

/// The views of a sequence of candidates.
pub open spec fn candidates_view<T, N>(candidates: Seq<Candidate<T, N>>) -> Seq<(int, Tree<T, N>)> {
    candidates.map_values(|candidate: Candidate<T, N>| candidate_view(candidate))
}

/// The trees of the candidates at the given indices.
pub open spec fn chain_trees<T, N>(candidates: Seq<Candidate<T, N>>, indices: Seq<usize>) -> Seq<Tree<T, N>> {
    indices.map_values(|index: usize| tree_view(candidates[index as int].syntax_tree))
}

/// Whether `tree`, starting at the beginning, is among `found`, has `length` leaves and has the
/// non-terminal `label` at its root.
pub open spec fn rooted_parse<T, N>(found: Set<(int, Tree<&T, &N>)>, length: int, label: N, tree: Tree<&T, &N>) -> bool {
    found.contains((0int, tree)) && tree_leaves(tree) == length && top(tree) == Symbol::<T, N>::NonTerm(label)
}

/// The terminals at the leaves of a sequence of trees of references, from left to right.
pub open spec fn forest_yield<T, N>(forest: Seq<Tree<&T, &N>>) -> Seq<T>
    decreases forest,
{
    if forest.len() == 0 {
        Seq::empty()
    } else {
        let head = match forest[0] {
            Tree::Leaf(term) => seq![*term],
            Tree::Branch(_, children) => forest_yield(children),
        };
        head + forest_yield(forest.subrange(1, forest.len() as int))
    }
}

/// Derived trees spell the input: the leaves of trees derived side by side from `start` are the
/// input symbols from `start` on, as many as there are leaves.
#[verifier::spinoff_prover]
pub proof fn lemma_derived_yield<T, N>(grammar: Grammar<T, N>, input: Seq<T>, start: int, forest: Seq<Tree<&T, &N>>)
    requires
        derives(grammar, input, start, forest),
        forest.len() > 0,
    ensures
        0 <= start,
        start + forest_leaves(forest) <= input.len(),
        forest_yield(forest) == input.subrange(start, start + forest_leaves(forest)),
    decreases forest,
{
    let rest = forest.subrange(1, forest.len() as int);
    lemma_derives_within(grammar, input, start, forest);
    lemma_forest_leaves_first(forest);
    let middle = start + tree_leaves(forest[0]);
    match forest[0] {
        Tree::Leaf(term) => {
            lemma_tree_leaves(forest[0]);
            assert(seq![*term] =~= input.subrange(start, middle));
            assert(forest_yield(forest) == seq![*term] + forest_yield(rest));
        },
        Tree::Branch(_, children) => {
            lemma_tree_leaves(forest[0]);
            lemma_derived_yield(grammar, input, start, children);
            assert(forest_yield(forest) == forest_yield(children) + forest_yield(rest));
        },
    }
    if rest.len() > 0 {
        lemma_derived_yield(grammar, input, middle, rest);
    } else {
        assert(forest_leaves(rest) == 0);
        assert(input.subrange(middle, middle) =~= Seq::<T>::empty());
    }
    assert(input.subrange(start, middle) + input.subrange(middle, start + forest_leaves(forest))
        =~= input.subrange(start, start + forest_leaves(forest)));
}

/// Every parse tree spells the whole input at its leaves.
pub proof fn lemma_parse_tree_yield<'g, T, N>(grammar: Grammar<T, N>, input: Seq<T>, tree: Tree<&'g T, &'g N>)
    requires
        parse_trees(grammar, input).contains(tree),
    ensures
        forest_yield(seq![tree]) == input,
{
    lemma_derived_yield(grammar, input, 0, seq![tree]);
    assert(forest_leaves(seq![tree]) == tree_leaves(tree));
    assert(input.subrange(0, input.len() as int) =~= input);
}

/// Every parse tree has as many leaves as the input has symbols, so counting its leaves never
/// goes past what a `usize` holds for an input held in memory.
pub proof fn lemma_parse_tree_leaves<'g, T, N>(grammar: Grammar<T, N>, input: Seq<T>, tree: Tree<&'g T, &'g N>)
    requires
        parse_trees(grammar, input).contains(tree),
    ensures
        tree_leaves(tree) == input.len(),
        forest_yield(seq![tree]).len() == tree_leaves(tree),
{
    lemma_parse_tree_yield(grammar, input, tree);
}

/// The state of a parse: the candidates found so far for a word.
struct Parser<'grammar, T, N> {
    input_length: usize,
    grammar: &'grammar Grammar<T, N>,
    candidates: Vec<Candidate<&'grammar T, &'grammar N>>,
    input: Ghost<Seq<T>>,
}

impl<'grammar, T, N> Parser<'grammar, T, N> where T: Ord, N: Ord {
    /// The candidates found, as a set.
    spec fn found(&self) -> Set<(int, Tree<&'grammar T, &'grammar N>)> {
        candidates_view(self.candidates@).to_set()
    }

    /// Each candidate found is derived, once, with the number of leaves of its tree as its
    /// length, and every leaf of the input is among them.
    spec fn wf(&self) -> bool {
        &&& self.input_length == self.input@.len()
        &&& candidates_view(self.candidates@).no_duplicates()
        &&& self.found().subset_of(derivable(*self.grammar, self.input@))
        &&& forall|i: int|
            0 <= i < self.candidates@.len() ==> #[trigger] self.candidates@[i].length == tree_leaves(
                tree_view(self.candidates@[i].syntax_tree),
            )
        &&& has_leaves(*self.grammar, self.input@, self.found())
        &&& obeys_concrete_eq::<T>()
        &&& obeys_concrete_eq::<N>()
    }

    /// Starts a parse of `input`: a leaf for each input symbol that is a terminal of the
    /// grammar.
    fn new(grammar: &'grammar Grammar<T, N>, input: &[T]) -> (parser: Self)
        requires
            obeys_concrete_eq::<T>(),
            obeys_concrete_eq::<N>(),
        ensures
            parser.wf(),
            parser.grammar == grammar,
            parser.input@ == input@,
    {
        let mut candidates: Vec<Candidate<&'grammar T, &'grammar N>> = Vec::new();
        let mut start: usize = 0;
        while start < input.len()
            invariant
                obeys_concrete_eq::<T>(),
                start <= input.len(),
                forall|i: int| 0 <= i < candidates@.len() ==> #[trigger] candidates@[i].start < start,
                forall|i: int, k: int|
                    0 <= i < k < candidates@.len() ==> #[trigger] candidates@[i].start
                        < #[trigger] candidates@[k].start,
                forall|i: int|
                    0 <= i < candidates@.len() ==> #[trigger] candidates@[i].length == tree_leaves(
                        tree_view(candidates@[i].syntax_tree),
                    ) && derivable(*grammar, input@).contains(candidate_view(candidates@[i])),
                forall|p: int, term: &T|
                    0 <= p < start && input@[p] == *term && grammar.terminals@.contains(*term)
                        ==> #[trigger] candidates_view(candidates@).to_set().contains((p, Tree::<&T, &N>::Leaf(term))),
            decreases input.len() - start,
        {
            let ghost previous = candidates@;
            match find_terminal(&grammar.terminals, &input[start]) {
                Some(j) => {
                    let candidate = Candidate::from_leaf(start, &grammar.terminals[j]);
                    proof {
                        lemma_leaf_view::<&T, &N>(SyntaxTreeLeaf { symbol: &grammar.terminals[j as int] });
                        lemma_derives_single(*grammar, input@, start as int, Tree::<&T, &N>::Leaf(&grammar.terminals[j as int]));
                        assert(grammar.terminals@.contains(grammar.terminals@[j as int]));
                        assert(derivable(*grammar, input@).contains(candidate_view(candidate)));
                    }
                    candidates.push(candidate);
                    proof {
                        assert(candidates_view(candidates@) =~= candidates_view(previous).push(
                            candidate_view(candidate),
                        ));
                        assert forall|p: int, term: &T|
                            0 <= p < start + 1 && input@[p] == *term && grammar.terminals@.contains(*term)
                                implies #[trigger] candidates_view(candidates@).to_set().contains(
                            (p, Tree::Leaf(term)),
                        ) by {
                            if p < start {
                                assert(candidates_view(previous).to_set().contains((p, Tree::<&T, &N>::Leaf(term))));
                                let i = choose|i: int| 0 <= i < candidates_view(previous).len()
                                    && candidates_view(previous)[i] == (p, Tree::<&T, &N>::Leaf(term));
                                assert(candidates_view(candidates@)[i] == (p, Tree::<&T, &N>::Leaf(term)));
                            } else {
                                assert(candidates_view(candidates@)[previous.len() as int] == (
                                    p,
                                    Tree::<&T, &N>::Leaf(term),
                                ));
                            }
                        }
                    }
                },
                None => {
                    proof {
                        assert forall|p: int, term: &T|
                            0 <= p < start + 1 && input@[p] == *term && grammar.terminals@.contains(*term)
                                implies #[trigger] candidates_view(candidates@).to_set().contains(
                            (p, Tree::Leaf(term)),
                        ) by {
                            if p == start {
                                assert(grammar.terminals@.contains(input@[p]));
                            }
                        }
                    }
                },
            }
            start = start + 1;
        }
        let parser = Parser { input_length: input.len(), grammar, candidates, input: Ghost(input@) };
        proof {
            let views = candidates_view(candidates@);
            assert forall|i: int, k: int| 0 <= i < views.len() && 0 <= k < views.len() && i != k implies views[i]
                != views[k] by {
                if i < k {
                    assert(candidates@[i].start < candidates@[k].start);
                } else {
                    assert(candidates@[k].start < candidates@[i].start);
                }
            }
            assert forall|candidate: (int, Tree<&T, &N>)| views.to_set().contains(candidate) implies derivable(
                *grammar,
                input@,
            ).contains(candidate) by {
                let i = choose|i: int| 0 <= i < views.len() && views[i] == candidate;
                assert(candidates@[i].length == tree_leaves(tree_view(candidates@[i].syntax_tree)));
            }
            assert forall|p: int, term: &T|
                0 <= p < input@.len() && input@[p] == *term && grammar.terminals@.contains(*term)
                    implies #[trigger] parser.found().contains((p, Tree::<&T, &N>::Leaf(term))) by {
                assert(views.to_set().contains((p, Tree::<&T, &N>::Leaf(term))));
            }
        }
        parser
    }

    /// Whether a candidate with the same start and tree has been found.
    fn contains(&self, candidate: &Candidate<&'grammar T, &'grammar N>) -> (found: bool)
        requires
            self.wf(),
        ensures
            found == self.found().contains(candidate_view(*candidate)),
    {
        let mut i: usize = 0;
        while i < self.candidates.len()
            invariant
                self.wf(),
                i <= self.candidates.len(),
                forall|k: int| 0 <= k < i ==> candidate_view(#[trigger] self.candidates@[k]) != candidate_view(
                    *candidate,
                ),
            decreases self.candidates.len() - i,
        {
            let other = &self.candidates[i];
            if other.start == candidate.start && same_tree(&other.syntax_tree, &candidate.syntax_tree) {
                assert(candidates_view(self.candidates@)[i as int] == candidate_view(*candidate));
                return true;
            }
            i = i + 1;
        }
        proof {
            if self.found().contains(candidate_view(*candidate)) {
                let k = choose|k: int|
                    0 <= k < candidates_view(self.candidates@).len() && candidates_view(self.candidates@)[k]
                        == candidate_view(*candidate);
                assert(candidate_view(self.candidates@[k]) == candidate_view(*candidate));
            }
        }
        false
    }

    /// The candidate that the production at `index` makes from the candidates at `chain`, side by
    /// side from `start` to `end`.
    fn build(&self, index: usize, chain: &Vec<usize>, start: usize, end: usize) -> (candidate: Candidate<
        &'grammar T,
        &'grammar N,
    >)
        requires
            index < self.grammar.productions.len(),
            forall|k: int| 0 <= k < chain@.len() ==> #[trigger] chain@[k] < self.candidates@.len(),
            start <= end,
        ensures
            candidate_view(candidate) == (start as int, Tree::Branch(
                &self.grammar.productions@[index as int].input,
                chain_trees(self.candidates@, chain@),
            )),
            candidate.length == end - start,
    {
        let grammar = self.grammar;
        let production = &grammar.productions[index];
        let mut children: Vec<SyntaxTree<&'grammar T, &'grammar N>> = Vec::new();
        let mut i: usize = 0;
        proof {
            assert(chain_trees(self.candidates@, chain@.subrange(0, 0)) =~= Seq::<Tree<&T, &N>>::empty());
            assert(forest_view(children@) =~= Seq::<Tree<&T, &N>>::empty());
        }
        while i < chain.len()
            invariant
                i <= chain.len(),
                forall|k: int| 0 <= k < chain@.len() ==> #[trigger] chain@[k] < self.candidates@.len(),
                forest_view(children@) == chain_trees(self.candidates@, chain@.subrange(0, i as int)),
            decreases chain.len() - i,
        {
            let child = copy_tree(&self.candidates[chain[i]].syntax_tree);
            proof {
                lemma_forest_view_append(children@, seq![child]);
                lemma_forest_view_single(child);
                assert(children@.push(child) =~= children@ + seq![child]);
                assert(chain_trees(self.candidates@, chain@.subrange(0, i + 1)) =~= chain_trees(
                    self.candidates@,
                    chain@.subrange(0, i as int),
                ) + seq![tree_view(child)]);
            }
            children.push(child);
            i = i + 1;
        }
        proof {
            assert(chain@.subrange(0, i as int) =~= chain@);
        }
        let branch = SyntaxTreeBranch { label: &production.input, children };
        proof {
            lemma_branch_view(branch);
        }
        Candidate { start, length: end - start, syntax_tree: SyntaxTree::Branch(branch) }
    }

    /// Extends the candidates at `chain`, side by side from `start` to `end`, whose roots are the
    /// first symbols of the output of the production at `index`, by candidates whose roots are
    /// the rest of that output, in every way; gives the first candidate so made that has not
    /// been found yet.
    fn extend(&self, index: usize, chain: &mut Vec<usize>, start: usize, end: usize) -> (made: Option<
        Candidate<&'grammar T, &'grammar N>,
    >)
        requires
            self.wf(),
            index < self.grammar.productions.len(),
            0 < old(chain)@.len() <= self.grammar.productions@[index as int].output@.len(),
            forall|k: int| 0 <= k < old(chain)@.len() ==> #[trigger] old(chain)@[k] < self.candidates@.len(),
            side_by_side(self.found(), start as int, chain_trees(self.candidates@, old(chain)@)),
            end == start + forest_leaves(chain_trees(self.candidates@, old(chain)@)),
            tops(chain_trees(self.candidates@, old(chain)@)) == self.grammar.productions@[index as int].output@.subrange(
                0,
                old(chain)@.len() as int,
            ),
        ensures
            final(chain)@ == old(chain)@,
            match made {
                Some(candidate) => derivable(*self.grammar, self.input@).contains(candidate_view(candidate))
                    && !self.found().contains(candidate_view(candidate)) && candidate.length == tree_leaves(
                    tree_view(candidate.syntax_tree),
                ),
                None => forall|rest: Seq<Tree<&'grammar T, &'grammar N>>|
                    #[trigger] side_by_side(self.found(), end as int, rest) && tops(rest)
                        == self.grammar.productions@[index as int].output@.subrange(
                        old(chain)@.len() as int,
                        self.grammar.productions@[index as int].output@.len() as int,
                    ) ==> self.found().contains(
                        (
                            start as int,
                            Tree::Branch(
                                &self.grammar.productions@[index as int].input,
                                chain_trees(self.candidates@, old(chain)@) + rest,
                            ),
                        ),
                    ),
            },
        decreases self.grammar.productions@[index as int].output@.len() - old(chain)@.len(),
    {
        let grammar = self.grammar;
        let production = &grammar.productions[index];
        let ghost output = production.output@;
        let ghost found = self.found();
        let ghost prefix = chain_trees(self.candidates@, chain@);
        let ghost label = &grammar.productions@[index as int].input;
        if chain.len() == production.output.len() {
            let candidate = self.build(index, chain, start, end);
            proof {
                let tree = Tree::Branch(label, prefix);
                lemma_chain_derives(*grammar, self.input@, found, start as int, prefix);
                assert(output.subrange(0, output.len() as int) =~= output);
                assert(produces(*grammar, production.input, prefix)) by {
                    assert(grammar.productions@[index as int].input == production.input);
                }
                lemma_derives_single(*grammar, self.input@, start as int, tree);
                lemma_tree_leaves(tree);
            }
            if self.contains(&candidate) {
                proof {
                    assert forall|rest: Seq<Tree<&'grammar T, &'grammar N>>|
                        #[trigger] side_by_side(found, end as int, rest) && tops(rest) == output.subrange(
                            output.len() as int,
                            output.len() as int,
                        ) implies found.contains((start as int, Tree::Branch(label, prefix + rest))) by {
                        assert(tops(rest).len() == rest.len());
                        assert(prefix + rest =~= prefix);
                    }
                }
                None
            } else {
                Some(candidate)
            }
        } else {
            let k = chain.len();
            let mut j: usize = 0;
            while j < self.candidates.len()
                invariant
                    self.wf(),
                    grammar == self.grammar,
                    index < self.grammar.productions.len(),
                    *production == self.grammar.productions@[index as int],
                    output == production.output@,
                    found == self.found(),
                    label == &self.grammar.productions@[index as int].input,
                    chain@ == old(chain)@,
                    prefix == chain_trees(self.candidates@, chain@),
                    k == chain@.len(),
                    0 < k < output.len(),
                    forall|i: int| 0 <= i < chain@.len() ==> #[trigger] chain@[i] < self.candidates@.len(),
                    side_by_side(found, start as int, prefix),
                    end == start + forest_leaves(prefix),
                    tops(prefix) == output.subrange(0, k as int),
                    j <= self.candidates.len(),
                    forall|rest: Seq<Tree<&'grammar T, &'grammar N>>|
                        #[trigger] side_by_side(found, end as int, rest) && tops(rest) == output.subrange(
                            k as int,
                            output.len() as int,
                        ) && (exists|jj: int|
                            0 <= jj < j && candidate_view(#[trigger] self.candidates@[jj]) == (
                                end as int,
                                rest[0],
                            )) ==> found.contains((start as int, Tree::Branch(label, prefix + rest))),
                decreases self.candidates.len() - j,
            {
                let next = &self.candidates[j];
                if next.start == end && root_is(&next.syntax_tree, &production.output[k]) {
                    let ghost next_tree = tree_view(next.syntax_tree);
                    proof {
                        assert(candidates_view(self.candidates@)[j as int] == candidate_view(*next));
                        assert(found.contains((end as int, next_tree)));
                        assert(next.length == tree_leaves(next_tree));
                        lemma_chain_push(found, start as int, prefix, next_tree);
                        lemma_derives_within(*grammar, self.input@, end as int, seq![next_tree]);
                        assert(seq![next_tree].subrange(1, 1) =~= Seq::<Tree<&T, &N>>::empty());
                        assert(forest_leaves(Seq::<Tree<&T, &N>>::empty()) == 0);
                        lemma_forest_leaves_append(prefix, seq![next_tree]);
                        assert(prefix.push(next_tree) =~= prefix + seq![next_tree]);
                        assert(chain_trees(self.candidates@, chain@.push(j)) =~= prefix.push(next_tree));
                        assert(tops(prefix.push(next_tree)) =~= output.subrange(0, k + 1));
                    }
                    chain.push(j);
                    let made = self.extend(index, chain, start, end + next.length);
                    chain.pop();
                    proof {
                        assert(chain@ =~= old(chain)@);
                    }
                    if made.is_some() {
                        return made;
                    }
                    proof {
                        assert forall|rest: Seq<Tree<&'grammar T, &'grammar N>>|
                            #[trigger] side_by_side(found, end as int, rest) && tops(rest) == output.subrange(
                                k as int,
                                output.len() as int,
                            ) && (exists|jj: int|
                                0 <= jj < j + 1 && candidate_view(#[trigger] self.candidates@[jj]) == (
                                    end as int,
                                    rest[0],
                                )) implies found.contains((start as int, Tree::Branch(label, prefix + rest))) by {
                            let jj = choose|jj: int|
                                0 <= jj < j + 1 && candidate_view(#[trigger] self.candidates@[jj]) == (
                                    end as int,
                                    rest[0],
                                );
                            if jj == j {
                                let more = rest.subrange(1, rest.len() as int);
                                assert(tops(rest).len() == rest.len());
                                assert(tops(more) =~= tops(rest).subrange(1, rest.len() as int));
                                assert(output.subrange(k as int, output.len() as int).subrange(
                                    1,
                                    rest.len() as int,
                                ) =~= output.subrange(k + 1, output.len() as int));
                                assert(side_by_side(found, end + next.length, more));
                                assert(prefix.push(next_tree) + more =~= prefix + rest);
                            }
                        }
                    }
                } else {
                    proof {
                        assert forall|rest: Seq<Tree<&'grammar T, &'grammar N>>|
                            #[trigger] side_by_side(found, end as int, rest) && tops(rest) == output.subrange(
                                k as int,
                                output.len() as int,
                            ) && (exists|jj: int|
                                0 <= jj < j + 1 && candidate_view(#[trigger] self.candidates@[jj]) == (
                                    end as int,
                                    rest[0],
                                )) implies found.contains((start as int, Tree::Branch(label, prefix + rest))) by {
                            let jj = choose|jj: int|
                                0 <= jj < j + 1 && candidate_view(#[trigger] self.candidates@[jj]) == (
                                    end as int,
                                    rest[0],
                                );
                            if jj == j {
                                assert(tops(rest).len() == rest.len());
                                assert(tops(rest)[0] == top(rest[0]));
                                assert(output.subrange(k as int, output.len() as int)[0] == output[k as int]);
                            }
                        }
                    }
                }
                j = j + 1;
            }
            proof {
                assert forall|rest: Seq<Tree<&'grammar T, &'grammar N>>|
                    #[trigger] side_by_side(found, end as int, rest) && tops(rest) == output.subrange(
                        k as int,
                        output.len() as int,
                    ) implies found.contains((start as int, Tree::Branch(label, prefix + rest))) by {
                    assert(tops(rest).len() == rest.len());
                    assert(found.contains((end as int, rest[0])));
                    let i = choose|i: int|
                        0 <= i < candidates_view(self.candidates@).len() && candidates_view(self.candidates@)[i]
                            == (end as int, rest[0]);
                    assert(candidate_view(self.candidates@[i]) == (end as int, rest[0]));
                }
            }
            None
        }
    }

    /// How many candidates there can be at most.
    proof fn lemma_count(&self)
        requires
            self.wf(),
            derivable(*self.grammar, self.input@).finite(),
        ensures
            self.candidates@.len() <= derivable(*self.grammar, self.input@).len(),
    {
        let views = candidates_view(self.candidates@);
        views.unique_seq_to_set();
        vstd::set_lib::lemma_len_subset(views.to_set(), derivable(*self.grammar, self.input@));
    }

    /// Adds a candidate that a production makes from candidates side by side and that has not
    /// been found yet, if there is one, and says whether it did.
    fn iterate(&mut self) -> (added: bool)
        requires
            old(self).wf(),
        ensures
            final(self).wf(),
            final(self).grammar == old(self).grammar,
            final(self).input == old(self).input,
            added ==> final(self).candidates@.len() == old(self).candidates@.len() + 1,
            !added ==> final(self).candidates@ == old(self).candidates@ && closed(
                *final(self).grammar,
                final(self).found(),
            ),
    {
        let grammar = self.grammar;
        let ghost found = self.found();
        let mut index: usize = 0;
        while index < grammar.productions.len()
            invariant
                self.wf(),
                self.grammar == grammar,
                self.grammar == old(self).grammar,
                self.input == old(self).input,
                self.candidates@ == old(self).candidates@,
                found == self.found(),
                index <= grammar.productions.len(),
                closed_below(*grammar, found, index as int),
            decreases grammar.productions.len() - index,
        {
            let production = &grammar.productions[index];
            let ghost label = &grammar.productions@[index as int].input;
            let ghost output = production.output@;
            if production.output.len() > 0 {
                let mut j: usize = 0;
                while j < self.candidates.len()
                    invariant
                        self.wf(),
                        self.grammar == grammar,
                        self.grammar == old(self).grammar,
                        self.input == old(self).input,
                        self.candidates@ == old(self).candidates@,
                        found == self.found(),
                        index < grammar.productions.len(),
                        *production == grammar.productions@[index as int],
                        label == &grammar.productions@[index as int].input,
                        output == production.output@,
                        output.len() > 0,
                        closed_below(*grammar, found, index as int),
                        j <= self.candidates.len(),
                        forall|start: int, forest: Seq<Tree<&'grammar T, &'grammar N>>|
                            #[trigger] found.contains((start, Tree::Branch(label, forest))) || (forest.len()
                                > 0 && tops(forest) == output && side_by_side(found, start, forest) && (exists|jj: int|
                                0 <= jj < j && candidate_view(#[trigger] self.candidates@[jj]) == (
                                    start,
                                    forest[0],
                                ))) ==> found.contains((start, Tree::Branch(label, forest))),
                    decreases self.candidates.len() - j,
                {
                    let first = &self.candidates[j];
                    if root_is(&first.syntax_tree, &production.output[0]) {
                        let ghost first_tree = tree_view(first.syntax_tree);
                        proof {
                            assert(candidates_view(self.candidates@)[j as int] == candidate_view(*first));
                            assert(found.contains((first.start as int, first_tree)));
                            assert(first.length == tree_leaves(first_tree));
                            lemma_derives_within(*grammar, self.input@, first.start as int, seq![first_tree]);
                            assert(seq![first_tree].subrange(1, 1) =~= Seq::<Tree<&T, &N>>::empty());
                            assert(forest_leaves(Seq::<Tree<&T, &N>>::empty()) == 0);
                            assert(side_by_side(
                                found,
                                first.start + tree_leaves(first_tree),
                                Seq::<Tree<&T, &N>>::empty(),
                            ));
                        }
                        let start = first.start;
                        let end = first.start + first.length;
                        let mut chain: Vec<usize> = Vec::new();
                        chain.push(j);
                        proof {
                            assert(chain_trees(self.candidates@, chain@) =~= seq![first_tree]);
                            assert(tops(seq![first_tree]) =~= output.subrange(0, 1));
                        }
                        let made = self.extend(index, &mut chain, start, end);
                        match made {
                            Some(candidate) => {
                                let ghost previous = self.candidates@;
                                self.candidates.push(candidate);
                                proof {
                                    assert(candidates_view(self.candidates@) =~= candidates_view(previous).push(
                                        candidate_view(candidate),
                                    ));
                                    candidates_view(previous).lemma_push_to_set_commute(candidate_view(candidate));
                                    assert forall|i: int|
                                        0 <= i < self.candidates@.len() implies #[trigger] self.candidates@[i].length
                                        == tree_leaves(tree_view(self.candidates@[i].syntax_tree)) by {
                                        if i < previous.len() {
                                            assert(previous[i] == self.candidates@[i]);
                                        }
                                    }
                                }
                                return true;
                            },
                            None => {
                                proof {
                                    assert forall|start: int, forest: Seq<Tree<&'grammar T, &'grammar N>>|
                                        #[trigger] found.contains((start, Tree::Branch(label, forest))) || (
                                        forest.len() > 0 && tops(forest) == output && side_by_side(
                                            found,
                                            start,
                                            forest,
                                        ) && (exists|jj: int|
                                            0 <= jj < j + 1 && candidate_view(#[trigger] self.candidates@[jj])
                                                == (start, forest[0]))) implies found.contains(
                                        (start, Tree::Branch(label, forest)),
                                    ) by {
                                        if !found.contains((start, Tree::Branch(label, forest))) {
                                            let jj = choose|jj: int|
                                                0 <= jj < j + 1 && candidate_view(
                                                    #[trigger] self.candidates@[jj],
                                                ) == (start, forest[0]);
                                            if jj == j {
                                                let rest = forest.subrange(1, forest.len() as int);
                                                assert(tops(forest).len() == forest.len());
                                                assert(tops(rest) =~= tops(forest).subrange(
                                                    1,
                                                    forest.len() as int,
                                                ));
                                                assert(side_by_side(found, end as int, rest));
                                                assert(seq![first_tree] + rest =~= forest);
                                            }
                                        }
                                    }
                                }
                            },
                        }
                    } else {
                        proof {
                            assert forall|start: int, forest: Seq<Tree<&'grammar T, &'grammar N>>|
                                #[trigger] found.contains((start, Tree::Branch(label, forest))) || (forest.len()
                                    > 0 && tops(forest) == output && side_by_side(found, start, forest) && (exists|
                                    jj: int,
                                |
                                    0 <= jj < j + 1 && candidate_view(#[trigger] self.candidates@[jj]) == (
                                        start,
                                        forest[0],
                                    ))) implies found.contains((start, Tree::Branch(label, forest))) by {
                                if !found.contains((start, Tree::Branch(label, forest))) {
                                    let jj = choose|jj: int|
                                        0 <= jj < j + 1 && candidate_view(#[trigger] self.candidates@[jj]) == (
                                            start,
                                            forest[0],
                                        );
                                    if jj == j {
                                        assert(tops(forest).len() == forest.len());
                                        assert(tops(forest)[0] == top(forest[0]));
                                    }
                                }
                            }
                        }
                    }
                    j = j + 1;
                }
                proof {
                    assert forall|i: int, start: int, label2: &N, forest: Seq<Tree<&T, &N>>|
                        #![trigger grammar.productions@[i], found.contains((start, Tree::Branch(label2, forest)))]
                        0 <= i < index + 1 && i < grammar.productions.len() && grammar.productions@[i].input
                            == *label2 && forest.len() > 0 && tops(forest) == grammar.productions@[i].output@
                            && side_by_side(found, start, forest) implies found.contains(
                        (start, Tree::Branch(label2, forest)),
                    ) by {
                        if i == index {
                            assert(found.contains((start, forest[0])));
                            let k = choose|k: int|
                                0 <= k < candidates_view(self.candidates@).len() && candidates_view(
                                    self.candidates@,
                                )[k] == (start, forest[0]);
                            assert(candidate_view(self.candidates@[k]) == (start, forest[0]));
                            assert(label2 == label);
                            assert(found.contains((start, Tree::Branch(label, forest))));
                        }
                    }
                }
            } else {
                proof {
                    assert forall|i: int, start: int, label2: &N, forest: Seq<Tree<&T, &N>>|
                        #![trigger grammar.productions@[i], found.contains((start, Tree::Branch(label2, forest)))]
                        0 <= i < index + 1 && i < grammar.productions.len() && grammar.productions@[i].input
                            == *label2 && forest.len() > 0 && tops(forest) == grammar.productions@[i].output@
                            && side_by_side(found, start, forest) implies found.contains(
                        (start, Tree::Branch(label2, forest)),
                    ) by {
                        if i == index {
                            assert(tops(forest).len() == forest.len());
                        }
                    }
                }
            }
            index = index + 1;
        }
        false
    }

    /// Adds candidates until no production makes a new one.
    fn derive(&mut self)
        requires
            old(self).wf(),
            derivable(*old(self).grammar, old(self).input@).finite(),
        ensures
            final(self).wf(),
            final(self).grammar == old(self).grammar,
            final(self).input == old(self).input,
            final(self).found() == derivable(*final(self).grammar, final(self).input@),
    {
        loop
            invariant
                self.wf(),
                self.grammar == old(self).grammar,
                self.input == old(self).input,
                derivable(*self.grammar, self.input@).finite(),
            ensures
                self.wf(),
                self.grammar == old(self).grammar,
                self.input == old(self).input,
                closed(*self.grammar, self.found()),
            decreases derivable(*self.grammar, self.input@).len() - self.candidates@.len(),
        {
            proof {
                self.lemma_count();
            }
            if !self.iterate() {
                break;
            }
            proof {
                self.lemma_count();
            }
        }
        proof {
            lemma_closed_is_derivable(*self.grammar, self.input@, self.found());
        }
    }

    /// The trees found over the whole input whose root is the starting non-terminal.
    fn solutions(self) -> (solutions: Solutions<'grammar, T, N>)
        requires
            self.wf(),
        ensures
            solutions.remaining().to_set() == Set::new(
                |tree: Tree<&'grammar T, &'grammar N>|
                    self.found().contains((0int, tree)) && tree_leaves(tree) == self.input@.len() && top(tree)
                        == Symbol::<T, N>::NonTerm(self.grammar.starting_non_term),
            ),
            solutions.remaining().no_duplicates(),
    {
        let grammar = self.grammar;
        let input_length = self.input_length;
        let ghost all = self.candidates@;
        let ghost found = self.found();
        let ghost length = self.input@.len() as int;
        let mut candidates = self.candidates;
        let mut trees: Vec<SyntaxTree<&'grammar T, &'grammar N>> = Vec::new();
        proof {
            assert(all.subrange(0, all.len() as int) =~= all);
            assert(forest_view(trees@) =~= Seq::<Tree<&T, &N>>::empty());
        }
        while candidates.len() > 0
            invariant
                obeys_concrete_eq::<N>(),
                candidates_view(all).no_duplicates(),
                found == candidates_view(all).to_set(),
                input_length == self.input@.len(),
                length == self.input@.len(),
                forall|i: int| 0 <= i < all.len() ==> #[trigger] all[i].length == tree_leaves(
                    tree_view(all[i].syntax_tree),
                ),
                candidates@.len() <= all.len(),
                candidates@ == all.subrange(0, candidates@.len() as int),
                forest_view(trees@).no_duplicates(),
                forall|tree: Tree<&'grammar T, &'grammar N>|
                    #[trigger] forest_view(trees@).contains(tree) <==> (rooted_parse(found, length, grammar.starting_non_term, tree) && exists|i: int|
                        candidates@.len() <= i < all.len() && candidate_view(#[trigger] all[i]) == (0int, tree)),
            decreases candidates.len(),
        {
            let ghost before = forest_view(trees@);
            let ghost k = (candidates@.len() - 1) as int;
            match candidates.pop() {
                Some(candidate) => {
                    proof {
                        assert(all[k] == candidate);
                        assert(candidates_view(all)[k] == candidate_view(candidate));
                        assert(candidates@ =~= all.subrange(0, k));
                    }
                    let chosen = candidate.start == 0 && candidate.length == input_length
                        && is_rooted_at(&candidate.syntax_tree, &grammar.starting_non_term);
                    if chosen {
                        let tree = candidate.syntax_tree;
                        proof {
                            lemma_forest_view_append(trees@, seq![tree]);
                            lemma_forest_view_single(tree);
                            assert(trees@.push(tree) =~= trees@ + seq![tree]);
                        }
                        trees.push(tree);
                        proof {
                            let t = tree_view(tree);
                            assert(forest_view(trees@) =~= before.push(t));
                            assert(found.contains((0int, t)));
                            assert(!before.contains(t)) by {
                                if before.contains(t) {
                                    let i = choose|i: int|
                                        k + 1 <= i < all.len() && candidate_view(#[trigger] all[i]) == (0int, t);
                                    assert(candidates_view(all)[i] == candidates_view(all)[k]);
                                }
                            }
                            assert(candidate_view(all[k]) == (0int, t));
                            assert(all[k].length == tree_leaves(t));
                            assert(tree_leaves(t) == self.input@.len());
                            assert(top(t) == Symbol::<T, N>::NonTerm(grammar.starting_non_term));
                            assert(rooted_parse(found, length, grammar.starting_non_term, t));
                            assert forall|x: Tree<&'grammar T, &'grammar N>|
                                #[trigger] forest_view(trees@).contains(x) implies (rooted_parse(found, length, grammar.starting_non_term, x) && exists|i: int|
                                    k <= i < all.len() && candidate_view(#[trigger] all[i]) == (0int, x)) by {
                                if x != t {
                                    let m = choose|m: int|
                                        0 <= m < forest_view(trees@).len() && forest_view(trees@)[m] == x;
                                    assert(before[m] == x);
                                    assert(before.contains(x));
                                    let i = choose|i: int|
                                        k + 1 <= i < all.len() && candidate_view(#[trigger] all[i]) == (0int, x);
                                    assert(candidate_view(all[i]) == (0int, x));
                                } else {
                                    assert(candidate_view(all[k]) == (0int, x));
                                }
                            }
                            assert forall|x: Tree<&'grammar T, &'grammar N>|
                                rooted_parse(found, length, grammar.starting_non_term, x) && (exists|i: int|
                                    k <= i < all.len() && candidate_view(#[trigger] all[i]) == (0int, x)) implies #[trigger] forest_view(
                                    trees@,
                                ).contains(x) by {
                                if x != t {
                                    let i = choose|i: int|
                                        k <= i < all.len() && candidate_view(#[trigger] all[i]) == (0int, x);
                                    assert(i != k);
                                    assert(candidate_view(all[i]) == (0int, x));
                                    assert(before.contains(x));
                                    let m = choose|m: int| 0 <= m < before.len() && before[m] == x;
                                    assert(forest_view(trees@)[m] == x);
                                } else {
                                    assert(forest_view(trees@)[before.len() as int] == t);
                                }
                            }
                        }
                    } else {
                        proof {
                            assert forall|x: Tree<&'grammar T, &'grammar N>|
                                #[trigger] forest_view(trees@).contains(x) implies (rooted_parse(found, length, grammar.starting_non_term, x) && exists|i: int|
                                    k <= i < all.len() && candidate_view(#[trigger] all[i]) == (0int, x)) by {
                                assert(before.contains(x));
                                let i = choose|i: int|
                                    k + 1 <= i < all.len() && candidate_view(#[trigger] all[i]) == (0int, x);
                                assert(candidate_view(all[i]) == (0int, x));
                            }
                            assert forall|x: Tree<&'grammar T, &'grammar N>|
                                rooted_parse(found, length, grammar.starting_non_term, x) && (exists|i: int|
                                    k <= i < all.len() && candidate_view(#[trigger] all[i]) == (0int, x)) implies #[trigger] forest_view(
                                    trees@,
                                ).contains(x) by {
                                let i = choose|i: int|
                                    k <= i < all.len() && candidate_view(#[trigger] all[i]) == (0int, x);
                                if i == k {
                                    assert(all[k].length == tree_leaves(x));
                                    assert(false);
                                } else {
                                    assert(candidate_view(all[i]) == (0int, x));
                                    assert(before.contains(x));
                                }
                            }
                        }
                    }
                },
                None => {},
            }
        }
        proof {
            assert forall|tree: Tree<&'grammar T, &'grammar N>|
                forest_view(trees@).to_set().contains(tree) == rooted_parse(found, length, grammar.starting_non_term, tree) by {
                if rooted_parse(found, length, grammar.starting_non_term, tree) {
                    let i = choose|i: int|
                        0 <= i < candidates_view(all).len() && candidates_view(all)[i] == (0int, tree);
                    assert(candidate_view(all[i]) == (0int, tree));
                }
            }
            assert(forest_view(trees@).to_set() =~= Set::new(|tree: Tree<&'grammar T, &'grammar N>| rooted_parse(found, length, grammar.starting_non_term, tree)));
        }
        Solutions { trees }
    }
}

/// The parse trees of a word, handed out one by one.
#[derive(Debug)]
pub struct Solutions<'grammar, T, N> where T: Ord, N: Ord {
    trees: Vec<SyntaxTree<&'grammar T, &'grammar N>>,
}

impl<'grammar, T, N> Solutions<'grammar, T, N> where T: Ord, N: Ord {
    /// The trees not handed out yet, in the order they will come.
    pub closed spec fn remaining(&self) -> Seq<Tree<&'grammar T, &'grammar N>> {
        forest_view(self.trees@)
    }

    /// Hands out the next tree, if one is left.
    pub fn next(&mut self) -> (tree: Option<SyntaxTree<&'grammar T, &'grammar N>>)
        ensures
            match tree {
                Some(tree) => old(self).remaining().len() > 0 && tree_view(tree) == old(self).remaining()[0]
                    && final(self).remaining() == old(self).remaining().drop_first(),
                None => old(self).remaining().len() == 0 && final(self).remaining() == old(self).remaining(),
            },
    {
        proof {
            lemma_forest_view(self.trees@);
        }
        if self.trees.len() == 0 {
            None
        } else {
            let ghost before = self.trees@;
            let tree = self.trees.remove(0);
            proof {
                assert(before =~= seq![tree] + self.trees@);
                lemma_forest_view_append(seq![tree], self.trees@);
                lemma_forest_view_single(tree);
                assert(forest_view(before).drop_first() =~= forest_view(self.trees@));
            }
            Some(tree)
        }
    }
}

/// Every parse tree of `input` by `grammar`, once each: the trees of the grammar whose leaves
/// spell the whole input and whose root is the starting non-terminal. The search goes on until
/// no production makes a new tree, so it ends exactly when there are finitely many trees of the
/// grammar over parts of the input. The trees come in increasing order (see `tree_order`): a
/// leaf before a branch, leaves by their terminals, branches by their labels and then by their
/// children one by one.
pub fn parse<'grammar, T, N>(grammar: &'grammar Grammar<T, N>, input: &[T]) -> (solutions: Solutions<
    'grammar,
    T,
    N,
>) where T: Ord, N: Ord, T: fmt::Debug, N: fmt::Debug
    requires
        lawful_order::<T>(),
        lawful_order::<N>(),
        derivable(*grammar, input@).finite(),
    ensures
        solutions.remaining().to_set() == parse_trees(*grammar, input@),
        solutions.remaining().no_duplicates(),
        trees_increasing(solutions.remaining()),
        forall|i: int|
            0 <= i < solutions.remaining().len() ==> tree_leaves(#[trigger] solutions.remaining()[i]) == input@.len(),
{
    let mut parser = Parser::new(grammar, input);
    parser.derive();
    let found = parser.solutions();
    proof {
        assert(found.remaining().to_set() =~= parse_trees(*grammar, input@));
    }
    let trees = sort_trees(found.trees);
    let solutions = Solutions { trees };
    proof {
        assert forall|i: int| 0 <= i < solutions.remaining().len() implies tree_leaves(
            #[trigger] solutions.remaining()[i],
        ) == input@.len() by {
            assert(solutions.remaining().to_set().contains(solutions.remaining()[i]));
        }
    }
    solutions
}

} // verus!
