//! The mathematical model shared by every automaton of this crate: a set of
//! labelled moves, a set of empty moves, an initial state and final states,
//! with states taken as integers.
use vstd::prelude::*;

verus! {

/// An automaton with empty moves, in mathematical form.
#[verifier::reject_recursive_types(T)]
pub struct Model<T> {
    pub initial: int,
    pub finals: Set<int>,
    pub moves: Set<(int, T, int)>,
    pub empty: Set<(int, int)>,
}

/// The states that `m` reaches from `states` on symbol `t`, without empty moves.
pub open spec fn step<T>(m: Model<T>, states: Set<int>, t: T) -> Set<int> {
    Set::new(|q: int| exists|p: int| states.contains(p) && #[trigger] m.moves.contains((p, t, q)))
}

/// The states reached from `states` by at most `n` empty moves.
pub open spec fn empty_reach<T>(m: Model<T>, states: Set<int>, n: nat) -> Set<int>
    decreases n,
{
    if n == 0 {
        states
    } else {
        let prev = empty_reach(m, states, (n - 1) as nat);
        prev + Set::new(
            |q: int| exists|p: int| prev.contains(p) && #[trigger] m.empty.contains((p, q)),
        )
    }
}

/// The states reached from `states` by any number of empty moves.
pub open spec fn eclose<T>(m: Model<T>, states: Set<int>) -> Set<int> {
    Set::new(|q: int| exists|n: nat| #[trigger] empty_reach(m, states, n).contains(q))
}

/// Whether `states` has every empty move out of it.
pub open spec fn empty_closed<T>(m: Model<T>, states: Set<int>) -> bool {
    forall|p: int, q: int| states.contains(p) && #[trigger] m.empty.contains((p, q)) ==> states.contains(q)
}

/// The states `m` may be in after reading `input`.
pub open spec fn run<T>(m: Model<T>, input: Seq<T>) -> Set<int>
    decreases input.len(),
{
    if input.len() == 0 {
        eclose(m, set![m.initial])
    } else {
        eclose(m, step(m, run(m, input.drop_last()), input.last()))
    }
}

/// Whether `m` accepts `input`.
pub open spec fn accepts<T>(m: Model<T>, input: Seq<T>) -> bool {
    exists|q: int| #[trigger] run(m, input).contains(q) && m.finals.contains(q)
}

pub proof fn lemma_empty_reach_within<T>(m: Model<T>, states: Set<int>, closed: Set<int>, n: nat)
    requires
        states.subset_of(closed),
        empty_closed(m, closed),
    ensures
        empty_reach(m, states, n).subset_of(closed),
    decreases n,
{
    if n > 0 {
        lemma_empty_reach_within(m, states, closed, (n - 1) as nat);
    }
}

pub proof fn lemma_empty_reach_grows<T>(m: Model<T>, states: Set<int>, n: nat, k: nat)
    requires
        n <= k,
    ensures
        empty_reach(m, states, n).subset_of(empty_reach(m, states, k)),
    decreases k,
{
    if n < k {
        lemma_empty_reach_grows(m, states, n, (k - 1) as nat);
    }
}

pub proof fn lemma_empty_reach_monotone<T>(m: Model<T>, small: Set<int>, large: Set<int>, n: nat)
    requires
        small.subset_of(large),
    ensures
        empty_reach(m, small, n).subset_of(empty_reach(m, large, n)),
    decreases n,
{
    if n > 0 {
        lemma_empty_reach_monotone(m, small, large, (n - 1) as nat);
    }
}

/// The empty closure contains its argument, is closed under empty moves and is
/// the least such set.
pub proof fn lemma_eclose<T>(m: Model<T>, states: Set<int>)
    ensures
        states.subset_of(eclose(m, states)),
        empty_closed(m, eclose(m, states)),
        forall|closed: Set<int>|
            states.subset_of(closed) && #[trigger] empty_closed(m, closed) ==> eclose(
                m,
                states,
            ).subset_of(closed),
{
    assert forall|q: int| states.contains(q) implies eclose(m, states).contains(q) by {
        assert(empty_reach(m, states, 0).contains(q));
    }
    assert forall|p: int, q: int|
        eclose(m, states).contains(p) && #[trigger] m.empty.contains((p, q)) implies eclose(
        m,
        states,
    ).contains(q) by {
        let n = choose|n: nat| #[trigger] empty_reach(m, states, n).contains(p);
        assert(empty_reach(m, states, n + 1).contains(q));
    }
    assert forall|closed: Set<int>|
        states.subset_of(closed) && #[trigger] empty_closed(m, closed) implies eclose(
        m,
        states,
    ).subset_of(closed) by {
        assert forall|q: int| eclose(m, states).contains(q) implies closed.contains(q) by {
            let n = choose|n: nat| #[trigger] empty_reach(m, states, n).contains(q);
            lemma_empty_reach_within(m, states, closed, n);
        }
    }
}

pub proof fn lemma_eclose_monotone<T>(m: Model<T>, small: Set<int>, large: Set<int>)
    requires
        small.subset_of(large),
    ensures
        eclose(m, small).subset_of(eclose(m, large)),
{
    assert forall|q: int| eclose(m, small).contains(q) implies eclose(m, large).contains(q) by {
        let n = choose|n: nat| #[trigger] empty_reach(m, small, n).contains(q);
        lemma_empty_reach_monotone(m, small, large, n);
        assert(empty_reach(m, large, n).contains(q));
    }
}

/// A closure of a closure adds nothing.
pub proof fn lemma_eclose_idempotent<T>(m: Model<T>, states: Set<int>)
    ensures
        eclose(m, eclose(m, states)) == eclose(m, states),
{
    lemma_eclose(m, states);
    lemma_eclose(m, eclose(m, states));
    assert(eclose(m, eclose(m, states)) =~= eclose(m, states));
}

/// Without empty moves the closure of a set is the set itself.
pub proof fn lemma_eclose_no_empty<T>(m: Model<T>, states: Set<int>)
    requires
        m.empty.is_empty(),
    ensures
        eclose(m, states) == states,
{
    lemma_eclose(m, states);
    assert(empty_closed(m, states));
    assert(eclose(m, states) =~= states);
}

/// The closure of a set is the union of the closures of its members.
pub proof fn lemma_eclose_union<T>(m: Model<T>, states: Set<int>)
    ensures
        forall|q: int|
            eclose(m, states).contains(q) <==> exists|p: int|
                states.contains(p) && #[trigger] eclose(m, set![p]).contains(q),
{
    let union = Set::new(
        |q: int| exists|p: int| states.contains(p) && #[trigger] eclose(m, set![p]).contains(q),
    );
    assert forall|q: int| states.contains(q) implies union.contains(q) by {
        lemma_eclose(m, set![q]);
        assert(eclose(m, set![q]).contains(q));
    }
    assert forall|p: int, q: int| union.contains(p) && #[trigger] m.empty.contains((p, q)) implies union.contains(q) by {
        let r = choose|r: int| states.contains(r) && #[trigger] eclose(m, set![r]).contains(p);
        lemma_eclose(m, set![r]);
        assert(eclose(m, set![r]).contains(q));
    }
    lemma_eclose(m, states);
    assert(empty_closed(m, union));
    assert(states.subset_of(union));
    assert(eclose(m, states).subset_of(union));
    assert forall|q: int| union.contains(q) implies eclose(m, states).contains(q) by {
        let p = choose|p: int| states.contains(p) && #[trigger] eclose(m, set![p]).contains(q);
        lemma_eclose_monotone(m, set![p], states);
    }
    assert forall|q: int|
        eclose(m, states).contains(q) <==> exists|p: int|
            states.contains(p) && #[trigger] eclose(m, set![p]).contains(q) by {
        if eclose(m, states).contains(q) {
            assert(union.contains(q));
        }
        if union.contains(q) {
            assert(eclose(m, states).contains(q));
        }
    }
}

/// Whether `f` carries `m1` into `m2` on the states of `dom`: the initial
/// state to the initial state, each move to a move and each final state to a
/// final state, with `dom` closed under the moves of `m1`.
pub open spec fn simulates<T>(m1: Model<T>, m2: Model<T>, f: spec_fn(int) -> int, dom: Set<int>) -> bool {
    &&& m1.empty.is_empty()
    &&& m2.empty.is_empty()
    &&& dom.contains(m1.initial)
    &&& f(m1.initial) == m2.initial
    &&& forall|p: int, t: T, q: int|
        dom.contains(p) && #[trigger] m1.moves.contains((p, t, q)) ==> dom.contains(q)
            && m2.moves.contains((f(p), t, f(q)))
    &&& forall|p: int| dom.contains(p) && #[trigger] m1.finals.contains(p) ==> m2.finals.contains(f(p))
}

/// What `m1` reaches, `m2` reaches through `f`; so `m2` accepts what `m1` accepts.
pub proof fn lemma_simulation<T>(m1: Model<T>, m2: Model<T>, f: spec_fn(int) -> int, dom: Set<int>, input: Seq<T>)
    requires
        simulates(m1, m2, f, dom),
    ensures
        forall|q: int| #[trigger] run(m1, input).contains(q) ==> dom.contains(q) && run(m2, input).contains(f(q)),
        accepts(m1, input) ==> accepts(m2, input),
    decreases input.len(),
{
    if input.len() == 0 {
        lemma_eclose_no_empty(m1, set![m1.initial]);
        lemma_eclose_no_empty(m2, set![m2.initial]);
    } else {
        let prefix = input.drop_last();
        let t = input.last();
        lemma_simulation(m1, m2, f, dom, prefix);
        lemma_eclose_no_empty(m1, step(m1, run(m1, prefix), t));
        lemma_eclose_no_empty(m2, step(m2, run(m2, prefix), t));
        assert forall|q: int| #[trigger] run(m1, input).contains(q) implies dom.contains(q) && run(m2, input).contains(f(q)) by {
            let p = choose|p: int| run(m1, prefix).contains(p) && #[trigger] m1.moves.contains((p, t, q));
            assert(m2.moves.contains((f(p), t, f(q))));
        }
    }
    if accepts(m1, input) {
        let q = choose|q: int| #[trigger] run(m1, input).contains(q) && m1.finals.contains(q);
        assert(run(m2, input).contains(f(q)));
    }
}

/// The automaton without empty moves that accepts what `m` accepts: a state
/// moves on a symbol wherever a state of its closure does, and is final when
/// its closure holds a final state.
pub open spec fn without_empty<T>(m: Model<T>) -> Model<T> {
    Model {
        initial: m.initial,
        finals: Set::new(
            |p: int| exists|r: int| #[trigger] eclose(m, set![p]).contains(r) && m.finals.contains(r),
        ),
        moves: Set::new(
            |mv: (int, T, int)|
                exists|r: int| #[trigger] eclose(m, set![mv.0]).contains(r) && m.moves.contains((r, mv.1, mv.2)),
        ),
        empty: Set::empty(),
    }
}

proof fn lemma_without_empty_run<T>(m: Model<T>, input: Seq<T>)
    ensures
        eclose(m, run(without_empty(m), input)) == run(m, input),
    decreases input.len(),
{
    let e = without_empty(m);
    if input.len() == 0 {
        lemma_eclose_no_empty(e, set![e.initial]);
    } else {
        let prefix = input.drop_last();
        let t = input.last();
        lemma_without_empty_run(m, prefix);
        let r = run(e, prefix);
        lemma_eclose_no_empty(e, step(e, r, t));
        lemma_eclose_union(m, r);
        assert forall|q: int| step(e, r, t).contains(q) implies step(m, eclose(m, r), t).contains(q) by {
            let p = choose|p: int| r.contains(p) && #[trigger] e.moves.contains((p, t, q));
            let x = choose|x: int| #[trigger] eclose(m, set![p]).contains(x) && m.moves.contains((x, t, q));
            assert(eclose(m, r).contains(x));
        }
        assert forall|q: int| step(m, eclose(m, r), t).contains(q) implies step(e, r, t).contains(q) by {
            let x = choose|x: int| eclose(m, r).contains(x) && #[trigger] m.moves.contains((x, t, q));
            let p = choose|p: int| r.contains(p) && #[trigger] eclose(m, set![p]).contains(x);
            let mv = (p, t, q);
            assert(eclose(m, set![mv.0]).contains(x) && m.moves.contains((x, mv.1, mv.2)));
            assert(e.moves.contains(mv));
        }
        assert(step(e, r, t) =~= step(m, eclose(m, r), t));
    }
}

/// Removing the empty moves keeps what the automaton accepts.
pub proof fn lemma_without_empty<T>(m: Model<T>, input: Seq<T>)
    ensures
        accepts(without_empty(m), input) == accepts(m, input),
{
    let e = without_empty(m);
    lemma_without_empty_run(m, input);
    let r = run(e, input);
    lemma_eclose_union(m, r);
    if accepts(e, input) {
        let q = choose|q: int| #[trigger] r.contains(q) && e.finals.contains(q);
        let x = choose|x: int| #[trigger] eclose(m, set![q]).contains(x) && m.finals.contains(x);
        assert(run(m, input).contains(x));
    }
    if accepts(m, input) {
        let x = choose|x: int| #[trigger] run(m, input).contains(x) && m.finals.contains(x);
        let q = choose|q: int| r.contains(q) && #[trigger] eclose(m, set![q]).contains(x);
        assert(e.finals.contains(q));
    }
}

/// `m` with its states renamed by `f`.
pub open spec fn renamed<T>(m: Model<T>, f: Map<int, int>) -> Model<T> {
    Model {
        initial: f[m.initial],
        finals: Set::new(|q: int| exists|p: int| #[trigger] m.finals.contains(p) && f[p] == q),
        moves: Set::new(
            |mv: (int, T, int)|
                exists|mv2: (int, T, int)| #[trigger] m.moves.contains(mv2) && (f[mv2.0], mv2.1, f[mv2.2]) == mv,
        ),
        empty: Set::empty(),
    }
}

/// Whether `f` gives a number to every state that `m` mentions.
pub open spec fn covers<T>(f: Map<int, int>, m: Model<T>) -> bool {
    &&& f.contains_key(m.initial)
    &&& forall|p: int| #[trigger] m.finals.contains(p) ==> f.contains_key(p)
    &&& forall|mv: (int, T, int)| #[trigger] m.moves.contains(mv) ==> f.contains_key(mv.0) && f.contains_key(mv.2)
}

/// Renaming the states one-to-one keeps what an automaton without empty moves accepts.
pub proof fn lemma_renamed_accepts<T>(m: Model<T>, f: Map<int, int>, input: Seq<T>)
    requires
        m.empty.is_empty(),
        f.is_injective(),
        covers(f, m),
    ensures
        accepts(renamed(m, f), input) == accepts(m, input),
{
    let r = renamed(m, f);
    let forward = |x: int| f[x];
    let dom = f.dom();
    assert forall|p: int, t: T, q: int| dom.contains(p) && #[trigger] m.moves.contains((p, t, q)) implies dom.contains(q)
        && r.moves.contains((forward(p), t, forward(q))) by {
        let mv2 = (p, t, q);
        assert(m.moves.contains(mv2) && (f[mv2.0], mv2.1, f[mv2.2]) == (forward(p), t, forward(q)));
    }
    assert forall|p: int| dom.contains(p) && #[trigger] m.finals.contains(p) implies r.finals.contains(forward(p)) by {}
    assert(simulates(m, r, forward, dom));
    lemma_simulation(m, r, forward, dom, input);
    let range = Set::new(|y: int| exists|x: int| #[trigger] f.contains_key(x) && f[x] == y);
    let backward = |y: int| choose|x: int| #[trigger] f.contains_key(x) && f[x] == y;
    assert forall|x: int| #[trigger] f.contains_key(x) implies backward(f[x]) == x by {
        assert(range.contains(f[x]));
        let z = backward(f[x]);
        assert(f.contains_key(z) && f[z] == f[x]);
    }
    assert forall|p: int, t: T, q: int| range.contains(p) && #[trigger] r.moves.contains((p, t, q)) implies range.contains(q)
        && m.moves.contains((backward(p), t, backward(q))) by {
        let mv2 = choose|mv2: (int, T, int)| #[trigger] m.moves.contains(mv2) && (f[mv2.0], mv2.1, f[mv2.2]) == (p, t, q);
        assert(f.contains_key(mv2.0) && f.contains_key(mv2.2));
        assert(backward(f[mv2.0]) == mv2.0);
        assert(backward(f[mv2.2]) == mv2.2);
        assert(range.contains(f[mv2.2]));
    }
    assert forall|p: int| range.contains(p) && #[trigger] r.finals.contains(p) implies m.finals.contains(backward(p)) by {
        let x = choose|x: int| #[trigger] m.finals.contains(x) && f[x] == p;
        assert(backward(f[x]) == x);
    }
    assert(range.contains(f[m.initial]));
    assert(backward(f[m.initial]) == m.initial);
    assert(simulates(r, m, backward, range));
    lemma_simulation(r, m, backward, range, input);
}

/// `m` with each move turned into an empty move, to speak of where it can go.
pub open spec fn links<T>(m: Model<T>) -> Model<T> {
    Model {
        initial: m.initial,
        finals: m.finals,
        moves: Set::empty(),
        empty: Set::new(|e: (int, int)| exists|t: T| #[trigger] m.moves.contains((e.0, t, e.1))),
    }
}

/// The states `m` can reach from its initial state, reading anything.
pub open spec fn reachable<T>(m: Model<T>) -> Set<int> {
    eclose(links(m), set![m.initial])
}

/// The reachable states hold the initial state and every move out of them,
/// and lie within any set that does the same.
pub proof fn lemma_reachable<T>(m: Model<T>)
    ensures
        reachable(m).contains(m.initial),
        forall|p: int, t: T, q: int| reachable(m).contains(p) && #[trigger] m.moves.contains((p, t, q)) ==> reachable(m).contains(q),
        forall|closed: Set<int>|
            closed.contains(m.initial) && (forall|p: int, t: T, q: int|
                closed.contains(p) && #[trigger] m.moves.contains((p, t, q)) ==> closed.contains(q)) ==> #[trigger] reachable(
                m,
            ).subset_of(closed),
{
    let l = links(m);
    lemma_eclose(l, set![m.initial]);
    assert forall|p: int, t: T, q: int| reachable(m).contains(p) && #[trigger] m.moves.contains((p, t, q)) implies reachable(m).contains(q) by {
        let e = (p, q);
        assert(m.moves.contains((e.0, t, e.1)));
        assert(l.empty.contains(e));
    }
    assert forall|closed: Set<int>|
        closed.contains(m.initial) && (forall|p: int, t: T, q: int|
            closed.contains(p) && #[trigger] m.moves.contains((p, t, q)) ==> closed.contains(q)) implies #[trigger] reachable(
        m,
    ).subset_of(closed) by {
        assert forall|p: int, q: int| closed.contains(p) && #[trigger] l.empty.contains((p, q)) implies closed.contains(q) by {
            let t = choose|t: T| #[trigger] m.moves.contains((p, t, q));
        }
        assert(empty_closed(l, closed));
        assert(set![m.initial].subset_of(closed));
    }
}

/// Dropping the moves into unreachable states, and the unreachable final
/// states, keeps what an automaton without empty moves accepts.
pub proof fn lemma_prune_unreachable<T>(m: Model<T>, pruned: Model<T>, input: Seq<T>)
    requires
        m.empty.is_empty(),
        pruned.empty.is_empty(),
        pruned.initial == m.initial,
        pruned.moves.subset_of(m.moves),
        pruned.finals.subset_of(m.finals),
        forall|mv: (int, T, int)| #[trigger] m.moves.contains(mv) && reachable(m).contains(mv.2) ==> pruned.moves.contains(mv),
        forall|q: int| #[trigger] m.finals.contains(q) && reachable(m).contains(q) ==> pruned.finals.contains(q),
    ensures
        accepts(pruned, input) == accepts(m, input),
{
    let id = |x: int| x;
    lemma_reachable(m);
    let r = reachable(m);
    assert forall|p: int, t: T, q: int| r.contains(p) && #[trigger] m.moves.contains((p, t, q)) implies r.contains(q)
        && pruned.moves.contains((id(p), t, id(q))) by {
        let mv = (p, t, q);
        assert(m.moves.contains(mv) && r.contains(mv.2));
    }
    assert forall|p: int| r.contains(p) && #[trigger] m.finals.contains(p) implies pruned.finals.contains(id(p)) by {}
    assert(simulates(m, pruned, id, r));
    lemma_simulation(m, pruned, id, r, input);
    let all = Set::new(|x: int| true);
    assert forall|p: int, t: T, q: int| all.contains(p) && #[trigger] pruned.moves.contains((p, t, q)) implies all.contains(q)
        && m.moves.contains((id(p), t, id(q))) by {}
    assert(simulates(pruned, m, id, all));
    lemma_simulation(pruned, m, id, all, input);
}

/// A sequence without repetitions drawn from `pool` is no longer than `pool`.
pub proof fn lemma_len_bound(s: Seq<int>, pool: Seq<int>)
    requires
        s.no_duplicates(),
        forall|i: int| 0 <= i < s.len() ==> pool.contains(#[trigger] s[i]),
    ensures
        s.len() <= pool.len(),
{
    s.unique_seq_to_set();
    pool.lemma_cardinality_of_set();
    assert(s.to_set().subset_of(pool.to_set())) by {
        assert forall|x: int| s.to_set().contains(x) implies pool.to_set().contains(x) by {
            let i = choose|i: int| 0 <= i < s.len() && s[i] == x;
            assert(pool.contains(s[i]));
        }
    }
    vstd::set_lib::lemma_len_subset(s.to_set(), pool.to_set());
}

/// Once an automaton without empty moves can be in no state, it stays so.
pub proof fn lemma_run_dead<T>(m: Model<T>, input: Seq<T>, i: int)
    requires
        m.empty.is_empty(),
        0 <= i <= input.len(),
        run(m, input.take(i)).is_empty(),
    ensures
        run(m, input).is_empty(),
    decreases input.len() - i,
{
    if i == input.len() {
        assert(input.take(i) =~= input);
    } else {
        let prefix = input.take(i + 1);
        assert(prefix.drop_last() =~= input.take(i));
        lemma_eclose_no_empty(m, step(m, run(m, input.take(i)), input[i]));
        assert(run(m, prefix) =~= Set::empty());
        lemma_run_dead(m, input, i + 1);
    }
}

/// A deterministic step: from a single state, the moves on a symbol lead to at
/// most one state.
pub proof fn lemma_run_step<T>(m: Model<T>, input: Seq<T>, i: int)
    requires
        m.empty.is_empty(),
        0 <= i < input.len(),
    ensures
        run(m, input.take(i + 1)) == step(m, run(m, input.take(i)), input[i]),
{
    assert(input.take(i + 1).drop_last() =~= input.take(i));
    lemma_eclose_no_empty(m, step(m, run(m, input.take(i)), input[i]));
}

pub proof fn lemma_run_start<T>(m: Model<T>, input: Seq<T>)
    requires
        m.empty.is_empty(),
    ensures
        run(m, input.take(0)) == set![m.initial],
{
    assert(input.take(0) =~= Seq::<T>::empty());
    lemma_eclose_no_empty(m, set![m.initial]);
}

/// Two to the power `n`: how many subsets a set of `n` elements has.
pub open spec fn power_of_two(n: nat) -> nat
    decreases n,
{
    if n == 0 {
        1
    } else {
        2 * power_of_two((n - 1) as nat)
    }
}

/// A set of subsets of `universe` has at most two to the size of `universe` members.
pub proof fn lemma_subsets_bound(subsets: Set<Set<int>>, universe: Set<int>)
    requires
        universe.finite(),
        subsets.finite(),
        forall|s: Set<int>| #[trigger] subsets.contains(s) ==> s.subset_of(universe),
    ensures
        subsets.len() <= power_of_two(universe.len()),
    decreases universe.len(),
{
    if universe.len() == 0 {
        universe.lemma_len0_is_empty();
        let only = set![Set::<int>::empty()];
        assert forall|s: Set<int>| subsets.contains(s) implies only.contains(s) by {
            assert(s =~= Set::<int>::empty());
        }
        vstd::set_lib::lemma_len_subset(subsets, only);
    } else {
        let u = universe.choose();
        let rest = universe.remove(u);
        let with_u = subsets.filter(|s: Set<int>| s.contains(u));
        let without_u = subsets.filter(|s: Set<int>| !s.contains(u));
        assert(subsets =~= with_u + without_u);
        vstd::set_lib::lemma_set_disjoint_lens(with_u, without_u);
        assert forall|s: Set<int>| #[trigger] without_u.contains(s) implies s.subset_of(rest) by {}
        lemma_subsets_bound(without_u, rest);
        let shrink = |s: Set<int>| s.remove(u);
        let shrunk = with_u.map(shrink);
        assert forall|a: Set<int>, b: Set<int>|
            with_u.contains(a) && with_u.contains(b) && #[trigger] shrink(a) == #[trigger] shrink(b) implies a == b by {
            assert(a =~= shrink(a).insert(u));
            assert(b =~= shrink(b).insert(u));
        }
        assert(vstd::relations::injective_on(shrink, with_u));
        vstd::set_lib::lemma_map_size(with_u, shrunk, shrink);
        assert forall|s: Set<int>| #[trigger] shrunk.contains(s) implies s.subset_of(rest) by {
            let a = choose|a: Set<int>| with_u.contains(a) && shrink(a) == s;
        }
        lemma_subsets_bound(shrunk, rest);
    }
}

/// Whether the deterministic `d`, with its states `0 .. n` standing for the
/// sets `sets(a)` of states of `m`, follows `m` by the subset construction.
pub open spec fn is_subset_construction<T>(m: Model<T>, d: Model<T>, sets: spec_fn(int) -> Set<int>, n: int) -> bool {
    &&& m.empty.is_empty()
    &&& d.empty.is_empty()
    &&& d.initial == 0
    &&& 0 < n
    &&& sets(0) == set![m.initial]
    &&& forall|a: int, t: T, b: int|
        #[trigger] d.moves.contains((a, t, b)) ==> 0 <= a < n && 0 <= b < n && sets(b) == step(m, sets(a), t)
    &&& forall|a: int, t: T|
        0 <= a < n && !(#[trigger] step(m, sets(a), t)).is_empty() ==> exists|b: int| #[trigger] d.moves.contains((a, t, b))
    &&& forall|a: int, t: T, b1: int, b2: int|
        #[trigger] d.moves.contains((a, t, b1)) && #[trigger] d.moves.contains((a, t, b2)) ==> b1 == b2
    &&& forall|a: int|
        #[trigger] d.finals.contains(a) <==> 0 <= a < n && exists|q: int| #[trigger] sets(a).contains(q) && m.finals.contains(q)
}

proof fn lemma_subset_construction_run<T>(m: Model<T>, d: Model<T>, sets: spec_fn(int) -> Set<int>, n: int, input: Seq<T>)
    requires
        is_subset_construction(m, d, sets, n),
    ensures
        (run(d, input).is_empty() && run(m, input).is_empty()) || exists|a: int|
            0 <= a < n && run(d, input) == set![a] && #[trigger] sets(a) == run(m, input),
    decreases input.len(),
{
    if input.len() == 0 {
        lemma_eclose_no_empty(m, set![m.initial]);
        lemma_eclose_no_empty(d, set![d.initial]);
        assert(sets(0) == run(m, input));
    } else {
        let prefix = input.drop_last();
        let t = input.last();
        lemma_subset_construction_run(m, d, sets, n, prefix);
        lemma_eclose_no_empty(m, step(m, run(m, prefix), t));
        lemma_eclose_no_empty(d, step(d, run(d, prefix), t));
        if run(d, prefix).is_empty() && run(m, prefix).is_empty() {
            assert(step(d, run(d, prefix), t) =~= Set::empty());
            assert(step(m, run(m, prefix), t) =~= Set::empty());
        } else {
            let a = choose|a: int| 0 <= a < n && run(d, prefix) == set![a] && #[trigger] sets(a) == run(m, prefix);
            if exists|b: int| #[trigger] d.moves.contains((a, t, b)) {
                let b = choose|b: int| #[trigger] d.moves.contains((a, t, b));
                assert forall|x: int| step(d, set![a], t).contains(x) <==> x == b by {
                    if step(d, set![a], t).contains(x) {
                        let p = choose|p: int| set![a].contains(p) && #[trigger] d.moves.contains((p, t, x));
                    }
                }
                assert(step(d, set![a], t) =~= set![b]);
                assert(sets(b) == run(m, input));
            } else {
                assert(step(d, set![a], t) =~= Set::empty()) by {
                    assert forall|x: int| !step(d, set![a], t).contains(x) by {
                        if step(d, set![a], t).contains(x) {
                            let p = choose|p: int| set![a].contains(p) && #[trigger] d.moves.contains((p, t, x));
                        }
                    }
                }
                assert(step(m, sets(a), t).is_empty());
            }
        }
    }
}

/// The subset construction accepts what the automaton it follows accepts.
pub proof fn lemma_subset_construction<T>(m: Model<T>, d: Model<T>, sets: spec_fn(int) -> Set<int>, n: int, input: Seq<T>)
    requires
        is_subset_construction(m, d, sets, n),
    ensures
        accepts(d, input) == accepts(m, input),
{
    lemma_subset_construction_run(m, d, sets, n, input);
    if accepts(d, input) {
        let a = choose|a: int| #[trigger] run(d, input).contains(a) && d.finals.contains(a);
        let q = choose|q: int| #[trigger] sets(a).contains(q) && m.finals.contains(q);
        let a2 = choose|a2: int| 0 <= a2 < n && run(d, input) == set![a2] && #[trigger] sets(a2) == run(m, input);
        assert(a == a2);
        assert(run(m, input).contains(q));
    }
    if accepts(m, input) {
        let q = choose|q: int| #[trigger] run(m, input).contains(q) && m.finals.contains(q);
        let a = choose|a: int| 0 <= a < n && run(d, input) == set![a] && #[trigger] sets(a) == run(m, input);
        assert(d.finals.contains(a));
        assert(run(d, input).contains(a));
    }
}

} // verus!
