//! The order of syntax trees: a leaf before a branch, leaves by their terminals, branches by
//! their labels and then by their children, compared one by one.
use super::parser::{
    children_view, forest_view, lemma_branch_view, lemma_forest_view, lemma_leaf_view, tree_view, SyntaxTree,
    SyntaxTreeBranch, Tree,
};
use core::cmp::Ordering;
use vstd::laws_cmp::{obeys_cmp, obeys_cmp_ord, obeys_cmp_partial_ord, obeys_partial_cmp_spec_properties};
use vstd::laws_eq::{obeys_concrete_eq, obeys_eq_spec_properties};
use vstd::prelude::*;
use vstd::std_specs::cmp::{OrdSpec, PartialEqSpec, PartialOrdSpec};

verus! {

/// Whether the values of `T` are totally ordered by their comparison, and compare equal
/// exactly when they are equal.
pub open spec fn lawful_order<T: Ord>() -> bool {
    obeys_cmp::<T>() && obeys_concrete_eq::<T>()
}

/// What a lawful order of `T` comes to, in terms of its comparison.
pub open spec fn total_order<T: Ord>() -> bool {
    &&& forall|x: &T, y: &T| #[trigger] T::cmp_spec(x, y) == Ordering::Equal <==> *x == *y
    &&& forall|x: &T, y: &T| #[trigger] T::cmp_spec(x, y) == Ordering::Less <==> T::cmp_spec(y, x) == Ordering::Greater
    &&& forall|x: &T, y: &T, z: &T|
        #[trigger] T::cmp_spec(x, y) == Ordering::Less && #[trigger] T::cmp_spec(y, z) == Ordering::Less
            ==> T::cmp_spec(x, z) == Ordering::Less
}

/// A lawful order is a total order.
pub proof fn lemma_total_order<T: Ord>()
    requires
        lawful_order::<T>(),
    ensures
        total_order::<T>(),
{
    reveal(obeys_cmp_ord);
    reveal(obeys_cmp_partial_ord);
    reveal(obeys_partial_cmp_spec_properties);
    reveal(obeys_eq_spec_properties);
    reveal(obeys_concrete_eq);
    assert forall|x: &T, y: &T| #[trigger] T::cmp_spec(x, y) == Ordering::Equal <==> *x == *y by {
        assert(x.partial_cmp_spec(y) == Some(x.cmp_spec(y)));
        assert(x.eq_spec(y) <==> x.partial_cmp_spec(y) == Some(Ordering::Equal));
    }
    assert forall|x: &T, y: &T| #[trigger] T::cmp_spec(x, y) == Ordering::Less <==> T::cmp_spec(y, x) == Ordering::Greater by {
        assert(x.partial_cmp_spec(y) == Some(x.cmp_spec(y)));
        assert(y.partial_cmp_spec(x) == Some(y.cmp_spec(x)));
    }
    assert forall|x: &T, y: &T, z: &T|
        #[trigger] T::cmp_spec(x, y) == Ordering::Less && #[trigger] T::cmp_spec(y, z) == Ordering::Less
            implies T::cmp_spec(x, z) == Ordering::Less by {
        assert(x.partial_cmp_spec(y) == Some(x.cmp_spec(y)));
        assert(y.partial_cmp_spec(z) == Some(y.cmp_spec(z)));
        assert(x.partial_cmp_spec(z) == Some(x.cmp_spec(z)));
    }
}

/// How two sequences of trees compare: element by element, the first difference deciding, and a
/// sequence before any longer one that it begins.
pub open spec fn forest_order<T: Ord, N: Ord>(a: Seq<Tree<&T, &N>>, b: Seq<Tree<&T, &N>>) -> Ordering
    decreases a,
{
    if a.len() == 0 {
        if b.len() == 0 {
            Ordering::Equal
        } else {
            Ordering::Less
        }
    } else if b.len() == 0 {
        Ordering::Greater
    } else {
        let head = match a[0] {
            Tree::Leaf(x) => match b[0] {
                Tree::Leaf(y) => T::cmp_spec(x, y),
                Tree::Branch(_, _) => Ordering::Less,
            },
            Tree::Branch(l, c) => match b[0] {
                Tree::Leaf(_) => Ordering::Greater,
                Tree::Branch(m, d) => match N::cmp_spec(l, m) {
                    Ordering::Equal => forest_order(c, d),
                    other => other,
                },
            },
        };
        match head {
            Ordering::Equal => forest_order(a.drop_first(), b.drop_first()),
            other => other,
        }
    }
}

/// How two trees compare.
pub open spec fn tree_order<T: Ord, N: Ord>(a: Tree<&T, &N>, b: Tree<&T, &N>) -> Ordering {
    forest_order(seq![a], seq![b])
}

/// Whether the trees come in strictly increasing order.
pub open spec fn trees_increasing<T: Ord, N: Ord>(trees: Seq<Tree<&T, &N>>) -> bool {
    forall|i: int, j: int| 0 <= i < j < trees.len() ==> tree_order(#[trigger] trees[i], #[trigger] trees[j]) == Ordering::Less
}

/// Two sequences of trees compare equal exactly when they are equal.
pub proof fn lemma_forest_order_equal<T: Ord, N: Ord>(a: Seq<Tree<&T, &N>>, b: Seq<Tree<&T, &N>>)
    requires
        total_order::<T>(),
        total_order::<N>(),
    ensures
        (forest_order(a, b) == Ordering::Equal) == (a == b),
    decreases a,
{
    if a.len() > 0 && b.len() > 0 {
        lemma_forest_order_equal(a.drop_first(), b.drop_first());
        match (a[0], b[0]) {
            (Tree::Branch(l, c), Tree::Branch(m, d)) => {
                lemma_forest_order_equal(c, d);
            },
            _ => {},
        }
        if a[0] == b[0] && a.drop_first() == b.drop_first() {
            assert forall|i: int| 0 <= i < a.len() implies a[i] == b[i] by {
                if i > 0 {
                    assert(a[i] == a.drop_first()[i - 1]);
                    assert(b[i] == b.drop_first()[i - 1]);
                }
            }
            assert(a =~= b);
        }
        if a == b {
            assert(a.drop_first() == b.drop_first());
        }
    } else if a.len() == 0 && b.len() == 0 {
        assert(a =~= b);
    }
}

/// Comparing the other way round swaps less and greater.
pub proof fn lemma_forest_order_flip<T: Ord, N: Ord>(a: Seq<Tree<&T, &N>>, b: Seq<Tree<&T, &N>>)
    requires
        total_order::<T>(),
        total_order::<N>(),
    ensures
        (forest_order(a, b) == Ordering::Less) == (forest_order(b, a) == Ordering::Greater),
        (forest_order(a, b) == Ordering::Greater) == (forest_order(b, a) == Ordering::Less),
    decreases a,
{
    if a.len() > 0 && b.len() > 0 {
        lemma_forest_order_flip(a.drop_first(), b.drop_first());
        match (a[0], b[0]) {
            (Tree::Branch(l, c), Tree::Branch(m, d)) => {
                lemma_forest_order_flip(c, d);
                lemma_forest_order_equal(c, d);
                lemma_forest_order_equal(d, c);
            },
            _ => {},
        }
    }
}

/// Less is transitive.
pub proof fn lemma_forest_order_transitive<T: Ord, N: Ord>(
    a: Seq<Tree<&T, &N>>,
    b: Seq<Tree<&T, &N>>,
    c: Seq<Tree<&T, &N>>,
)
    requires
        total_order::<T>(),
        total_order::<N>(),
        forest_order(a, b) == Ordering::Less,
        forest_order(b, c) == Ordering::Less,
    ensures
        forest_order(a, c) == Ordering::Less,
    decreases a,
{
    if a.len() > 0 && b.len() > 0 && c.len() > 0 {
        let ha = tree_order(a[0], b[0]);
        match (a[0], b[0], c[0]) {
            (Tree::Branch(l1, c1), Tree::Branch(l2, c2), Tree::Branch(l3, c3)) => {
                lemma_forest_order_equal(c1, c2);
                lemma_forest_order_equal(c2, c3);
                lemma_forest_order_equal(c1, c3);
                if N::cmp_spec(l1, l2) == Ordering::Equal && N::cmp_spec(l2, l3) == Ordering::Equal
                    && forest_order(c1, c2) == Ordering::Less && forest_order(c2, c3) == Ordering::Less {
                    lemma_forest_order_transitive(c1, c2, c3);
                }
            },
            _ => {},
        }
        lemma_forest_order_equal(a.drop_first(), b.drop_first());
        lemma_forest_order_equal(b.drop_first(), c.drop_first());
        if a[0] == b[0] && b[0] == c[0] {
            lemma_forest_order_transitive(a.drop_first(), b.drop_first(), c.drop_first());
        }
    }
}

/// Two non-empty sequences compare by their first trees, and on a tie by the rest.
pub proof fn lemma_forest_order_step<T: Ord, N: Ord>(a: Seq<Tree<&T, &N>>, b: Seq<Tree<&T, &N>>)
    requires
        a.len() > 0,
        b.len() > 0,
    ensures
        forest_order(a, b) == match tree_order(a[0], b[0]) {
            Ordering::Equal => forest_order(a.drop_first(), b.drop_first()),
            other => other,
        },
{
    let sa = seq![a[0]];
    let sb = seq![b[0]];
    assert(sa.drop_first() =~= Seq::<Tree<&T, &N>>::empty());
    assert(sb.drop_first() =~= Seq::<Tree<&T, &N>>::empty());
    assert(forest_order(Seq::<Tree<&T, &N>>::empty(), Seq::<Tree<&T, &N>>::empty()) == Ordering::Equal);
    assert(sa[0] == a[0] && sb[0] == b[0]);
    assert(tree_order(a[0], b[0]) == forest_order(sa, sb));
}

/// Compares two trees.
pub fn compare_trees<T: Ord, N: Ord>(a: &SyntaxTree<&T, &N>, b: &SyntaxTree<&T, &N>) -> (order: Ordering)
    requires
        lawful_order::<T>(),
        lawful_order::<N>(),
    ensures
        order == tree_order(tree_view(*a), tree_view(*b)),
    decreases a,
{
    proof {
        reveal(obeys_cmp_ord);
        lemma_forest_order_step(seq![tree_view(*a)], seq![tree_view(*b)]);
        assert(seq![tree_view(*a)].drop_first() =~= Seq::<Tree<&T, &N>>::empty());
        assert(seq![tree_view(*b)].drop_first() =~= Seq::<Tree<&T, &N>>::empty());
    }
    match a {
        SyntaxTree::Leaf(x) => {
            proof {
                lemma_leaf_view::<&T, &N>(*x);
            }
            match b {
                SyntaxTree::Leaf(y) => {
                    proof {
                        lemma_leaf_view::<&T, &N>(*y);
                    }
                    T::cmp(x.symbol, y.symbol)
                },
                SyntaxTree::Branch(y) => {
                    proof {
                        lemma_branch_view(*y);
                    }
                    Ordering::Less
                },
            }
        },
        SyntaxTree::Branch(x) => {
            proof {
                lemma_branch_view(*x);
            }
            match b {
                SyntaxTree::Leaf(y) => {
                    proof {
                        lemma_leaf_view::<&T, &N>(*y);
                    }
                    Ordering::Greater
                },
                SyntaxTree::Branch(y) => {
                    proof {
                        lemma_branch_view(*y);
                    }
                    match N::cmp(x.label, y.label) {
                        Ordering::Equal => compare_children(x, y),
                        Ordering::Less => Ordering::Less,
                        Ordering::Greater => Ordering::Greater,
                    }
                },
            }
        },
    }
}

/// The trees of `trees` from `start` on.
pub open spec fn tail<A>(trees: Seq<A>, start: usize) -> Seq<A> {
    trees.skip(start as int)
}

/// The integer of a position.
pub open spec fn position(index: usize) -> int {
    index as int
}

/// Compares the children of two branches, one by one.
fn compare_children<T: Ord, N: Ord>(a: &SyntaxTreeBranch<&T, &N>, b: &SyntaxTreeBranch<&T, &N>) -> (order: Ordering)
    requires
        lawful_order::<T>(),
        lawful_order::<N>(),
    ensures
        order == forest_order(children_view(*a), children_view(*b)),
    decreases a,
{
    let ghost va = children_view(*a);
    let ghost vb = children_view(*b);
    proof {
        lemma_forest_view(a.children@);
        lemma_forest_view(b.children@);
        assert(va.skip(0) =~= va);
        assert(vb.skip(0) =~= vb);
    }
    let mut i: usize = 0;
    while i < a.children.len() && i < b.children.len()
        invariant
            lawful_order::<T>(),
            lawful_order::<N>(),
            va == children_view(*a),
            vb == children_view(*b),
            va.len() == a.children@.len(),
            vb.len() == b.children@.len(),
            forall|k: int| 0 <= k < a.children@.len() ==> #[trigger] va[k] == tree_view(a.children@[k]),
            forall|k: int| 0 <= k < b.children@.len() ==> #[trigger] vb[k] == tree_view(b.children@[k]),
            i <= a.children.len(),
            i <= b.children.len(),
            forest_order(va, vb) == forest_order(tail(va, i), tail(vb, i)),
        decreases a.children.len() - i,
    {
        let order = compare_trees(&a.children[i], &b.children[i]);
        proof {
            lemma_forest_order_step(tail(va, i), tail(vb, i));
            assert(tail(va, i)[0] == va[position(i)]);
            assert(tail(vb, i)[0] == vb[position(i)]);
            assert(tail(va, i).drop_first() =~= va.skip(i + 1));
            assert(tail(vb, i).drop_first() =~= vb.skip(i + 1));
        }
        match order {
            Ordering::Equal => {},
            Ordering::Less => {
                return Ordering::Less;
            },
            Ordering::Greater => {
                return Ordering::Greater;
            },
        }
        i = i + 1;
    }
    if i < a.children.len() {
        Ordering::Greater
    } else if i < b.children.len() {
        Ordering::Less
    } else {
        Ordering::Equal
    }
}

/// The values of a sequence of trees.
pub open spec fn tree_views<T, N>(trees: Seq<SyntaxTree<T, N>>) -> Seq<Tree<T, N>> {
    trees.map_values(|tree: SyntaxTree<T, N>| tree_view(tree))
}

/// Viewing a sequence of trees one by one gives its value as a forest.
pub proof fn lemma_tree_views<T, N>(trees: Seq<SyntaxTree<T, N>>)
    ensures
        tree_views(trees) == forest_view(trees),
{
    lemma_forest_view(trees);
    assert(tree_views(trees) =~= forest_view(trees));
}

/// A tree compares equal to itself, so a strictly increasing sequence holds no tree twice.
pub proof fn lemma_increasing_distinct<T: Ord, N: Ord>(trees: Seq<Tree<&T, &N>>)
    requires
        total_order::<T>(),
        total_order::<N>(),
        trees_increasing(trees),
    ensures
        trees.no_duplicates(),
{
    assert forall|i: int, j: int| 0 <= i < trees.len() && 0 <= j < trees.len() && i != j implies trees[i] != trees[j] by {
        if i < j {
            lemma_forest_order_equal(seq![trees[i]], seq![trees[j]]);
            lemma_forest_order_equal(seq![trees[i]], seq![trees[i]]);
        } else {
            lemma_forest_order_equal(seq![trees[j]], seq![trees[i]]);
            lemma_forest_order_equal(seq![trees[j]], seq![trees[j]]);
        }
    }
}

/// Puts `trees`, which holds no tree twice, in increasing order.
pub(crate) fn sort_trees<'a, 'b, T: Ord, N: Ord>(trees: Vec<SyntaxTree<&'a T, &'b N>>) -> (sorted: Vec<
    SyntaxTree<&'a T, &'b N>,
>)
    requires
        lawful_order::<T>(),
        lawful_order::<N>(),
        forest_view(trees@).no_duplicates(),
    ensures
        forest_view(sorted@).to_set() == forest_view(trees@).to_set(),
        forest_view(sorted@).no_duplicates(),
        trees_increasing(forest_view(sorted@)),
{
    proof {
        lemma_total_order::<T>();
        lemma_total_order::<N>();
        lemma_tree_views(trees@);
    }
    let ghost original = tree_views(trees@);
    let mut input = trees;
    let mut sorted: Vec<SyntaxTree<&'a T, &'b N>> = Vec::new();
    proof {
        assert(tree_views(sorted@) =~= Seq::<Tree<&T, &N>>::empty());
    }
    while input.len() > 0
        invariant
            lawful_order::<T>(),
            lawful_order::<N>(),
            total_order::<T>(),
            total_order::<N>(),
            tree_views(input@).no_duplicates(),
            forall|x: Tree<&T, &N>| tree_views(input@).contains(x) ==> !tree_views(sorted@).contains(x),
            tree_views(sorted@).to_set().union(tree_views(input@).to_set()) == original.to_set(),
            trees_increasing(tree_views(sorted@)),
        decreases input.len(),
    {
        let ghost before_input = tree_views(input@);
        let ghost before = tree_views(sorted@);
        let tree = input.pop().unwrap();
        let ghost t = tree_view(tree);
        proof {
            assert(before_input =~= tree_views(input@).push(t));
            assert forall|i: int, j: int| 0 <= i < tree_views(input@).len() && 0 <= j < tree_views(input@).len()
                && i != j implies tree_views(input@)[i] != tree_views(input@)[j] by {
                assert(before_input[i] == tree_views(input@)[i]);
                assert(before_input[j] == tree_views(input@)[j]);
            }
            assert(before_input.contains(t));
            assert(!before.contains(t));
        }
        let mut p: usize = 0;
        while p < sorted.len()
            invariant
                total_order::<T>(),
                total_order::<N>(),
                lawful_order::<T>(),
                lawful_order::<N>(),
                before == tree_views(sorted@),
                t == tree_view(tree),
                !before.contains(t),
                p <= sorted@.len(),
                forall|k: int| 0 <= k < p ==> tree_order(#[trigger] before[k], t) == Ordering::Less,
            ensures
                p <= sorted@.len(),
                before == tree_views(sorted@),
                forall|k: int| 0 <= k < p ==> tree_order(#[trigger] before[k], t) == Ordering::Less,
                p < sorted@.len() ==> tree_order(t, before[position(p)]) == Ordering::Less,
            decreases sorted.len() - p,
        {
            let order = compare_trees(&tree, &sorted[p]);
            proof {
                assert(before[position(p)] == tree_view(sorted@[position(p)]));
            }
            if let Ordering::Less = order {
                break;
            }
            proof {
                let k = position(p);
                lemma_forest_order_equal(seq![t], seq![before[k]]);
                assert(before[k] != t);
                lemma_forest_order_flip(seq![t], seq![before[k]]);
            }
            p = p + 1;
        }
        let ghost at = position(p);
        sorted.insert(p, tree);
        proof {
            let now = tree_views(sorted@);
            assert(now =~= before.insert(at, t));
            assert forall|i: int, j: int| 0 <= i < j < now.len() implies tree_order(#[trigger] now[i], #[trigger] now[j])
                == Ordering::Less by {
                if j < at {
                    assert(now[i] == before[i] && now[j] == before[j]);
                } else if j == at {
                    assert(now[i] == before[i] && now[j] == t);
                } else if i > at {
                    assert(now[i] == before[i - 1] && now[j] == before[j - 1]);
                } else if i == at {
                    assert(now[i] == t && now[j] == before[j - 1]);
                    if j - 1 > at {
                        assert(tree_order(before[at], before[j - 1]) == Ordering::Less);
                        lemma_forest_order_transitive(seq![t], seq![before[at]], seq![before[j - 1]]);
                    }
                } else {
                    assert(now[i] == before[i] && now[j] == before[j - 1]);
                }
            }
            assert forall|x: Tree<&T, &N>| tree_views(input@).contains(x) implies !now.contains(x) by {
                if now.contains(x) {
                    let k = choose|k: int| 0 <= k < now.len() && now[k] == x;
                    if k != at {
                        assert(before.contains(x));
                    }
                    let m = choose|m: int| 0 <= m < tree_views(input@).len() && tree_views(input@)[m] == x;
                    assert(before_input[m] == x);
                    assert(before_input[before_input.len() - 1] == t);
                }
            }
            assert forall|x: Tree<&T, &N>| now.to_set().contains(x) <==> before.to_set().insert(t).contains(x) by {
                if now.contains(x) {
                    let k = choose|k: int| 0 <= k < now.len() && now[k] == x;
                    if k < at {
                        assert(before[k] == x);
                    } else if k > at {
                        assert(before[k - 1] == x);
                    }
                }
                if before.contains(x) {
                    let k = choose|k: int| 0 <= k < before.len() && before[k] == x;
                    if k < at {
                        assert(now[k] == x);
                    } else {
                        assert(now[k + 1] == x);
                    }
                }
                if x == t {
                    assert(now[at] == t);
                }
            }
            assert(now.to_set() =~= before.to_set().insert(t));
            let rest = tree_views(input@);
            assert forall|x: Tree<&T, &N>| before_input.to_set().contains(x) <==> rest.to_set().insert(t).contains(x) by {
                if before_input.contains(x) {
                    let k = choose|k: int| 0 <= k < before_input.len() && before_input[k] == x;
                    if k < rest.len() {
                        assert(rest[k] == x);
                    }
                }
                if rest.contains(x) {
                    let k = choose|k: int| 0 <= k < rest.len() && rest[k] == x;
                    assert(before_input[k] == x);
                }
                if x == t {
                    assert(before_input[before_input.len() - 1] == t);
                }
            }
            assert(before_input.to_set() =~= rest.to_set().insert(t));
            assert(now.to_set().union(tree_views(input@).to_set()) =~= before.to_set().union(before_input.to_set()));
        }
    }
    proof {
        assert(tree_views(input@).to_set() =~= Set::<Tree<&T, &N>>::empty());
        assert(tree_views(sorted@).to_set().union(Set::empty()) =~= tree_views(sorted@).to_set());
        lemma_tree_views(sorted@);
        lemma_increasing_distinct(tree_views(sorted@));
    }
    sorted
}

} // verus!
