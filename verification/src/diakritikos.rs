pub mod pos;
pub mod slot;

pub use pos::Position;
pub use slot::Slot;

use pos::{all_positions, index_of, no_duplicate_positions, position_at, PartialMap, TotalMap};
use slot::{render_all, Hint};
use crate::text::push_char;
use vstd::prelude::*;

verus! {

/// A mark that can be drawn around a character, at one of several positions.
pub trait Diacritic {
    /// The places where this diacritic can be drawn, in order of preference, each with the text
    /// drawn there.
    open spec fn spec_renderings(&self) -> Seq<(Position, Seq<char>)> {
        Seq::empty()
    }

    fn renderings(&self) -> (map: PartialMap<&str>)
        ensures
            rendering_text(map@) == self.spec_renderings(),
    ;
}

/// The renderings of a map of strings, as sequences of characters.
pub open spec fn rendering_text(entries: Seq<(Position, &str)>) -> Seq<(Position, Seq<char>)> {
    Seq::new(entries.len(), |i: int| (entries[i].0, entries[i].1@))
}

/// Looking a position up in a diacritic's renderings gives what its specification gives.
pub proof fn lemma_renderings_index<D: Diacritic>(
    diacritic: D,
    entries: Seq<(Position, &str)>,
    position: Position,
)
    requires
        rendering_text(entries) == diacritic.spec_renderings(),
        no_duplicate_positions(entries),
    ensures
        index_of(entries, position) == index_of(diacritic.spec_renderings(), position),
        no_duplicate_positions(diacritic.spec_renderings()),
        index_of(entries, position) matches Some(i) ==> i < entries.len() && entries[i as int].1@
            == diacritic.spec_renderings()[i as int].1,
{
    let spec_entries = diacritic.spec_renderings();
    assert forall|i: int| 0 <= i < entries.len() implies #[trigger] spec_entries[i].0
        == entries[i].0 by {
        assert(spec_entries[i] == rendering_text(entries)[i]);
    }
    assert(no_duplicate_positions(spec_entries)) by {
        assert forall|i: int, j: int|
            0 <= i < spec_entries.len() && 0 <= j < spec_entries.len() && i != j implies #[trigger] spec_entries[i].0
            != #[trigger] spec_entries[j].0 by {
            assert(entries[i].0 != entries[j].0);
        }
    }
    if exists|i: int| 0 <= i < entries.len() && #[trigger] entries[i].0 == position {
        let a = choose|i: int| 0 <= i < entries.len() && #[trigger] entries[i].0 == position;
        assert(spec_entries[a].0 == position);
        let b = choose|i: int| 0 <= i < spec_entries.len() && #[trigger] spec_entries[i].0 == position;
        assert(entries[b].0 == position);
        assert(a == b);
        assert(spec_entries[a] == rendering_text(entries)[a]);
    } else {
        assert forall|i: int| 0 <= i < spec_entries.len() implies #[trigger] spec_entries[i].0
            != position by {
            assert(entries[i].0 != position);
        }
    }
}

/// A character with diacritics around it.
#[derive(Debug, Clone, PartialEq, Eq, PartialOrd, Ord, Hash)]
pub struct GraphemeCluster<D> where D: Diacritic {
    pub character: char,
    pub slots: TotalMap<Slot<D>>,
}

/// The text of a character followed by the diacritics of its slots, slot by slot in the order of
/// `all_positions`.
pub open spec fn cluster_text<D: Diacritic>(character: char, slots: TotalMap<Slot<D>>) -> Seq<char> {
    seq![character] + render_all(slots.left.diacritics@, Position::Left) + render_all(
        slots.top.diacritics@,
        Position::Top,
    ) + render_all(slots.bottom.diacritics@, Position::Bottom) + render_all(
        slots.right.diacritics@,
        Position::Right,
    )
}


impl<D> GraphemeCluster<D> where D: Diacritic {
    /// Places `diacritics` around `character` at the least cost; `None` when some diacritic
    /// cannot be drawn anywhere.
    pub fn solve(character: char, hints: TotalMap<Hint>, diacritics: Vec<D>) -> (cluster: Option<Self>)
        ensures
            cluster is Some <==> has_placement(diacritics@, hints),
            cluster matches Some(c) ==> c.character == character && exists|assignment: Seq<Position>|
                is_best_placement(diacritics@, assignment, hints) && #[trigger] slots_follow(
                    diacritics@,
                    assignment,
                    c.slots,
                ),
    {
        let ghost ds = diacritics@;
        match solve(hints, diacritics) {
            Some(slots) => {
                let cluster = GraphemeCluster { character, slots };
                proof {
                    let assignment = choose|assignment: Seq<Position>|
                        is_best_placement(ds, assignment, hints) && #[trigger] slots_follow(
                            ds,
                            assignment,
                            slots,
                        );
                    assert(slots_follow(ds, assignment, cluster.slots));
                }
                Some(cluster)
            },
            None => None,
        }
    }

    /// The character followed by its diacritics.
    pub fn to_string(&self) -> (text: String)
        ensures
            text@ == cluster_text(self.character, self.slots),
    {
        let mut text = String::new();
        push_char(&mut text, self.character);
        self.slots.left.render(Position::Left, &mut text);
        self.slots.top.render(Position::Top, &mut text);
        self.slots.bottom.render(Position::Bottom, &mut text);
        self.slots.right.render(Position::Right, &mut text);
        text
    }
}

/// Places `diacritics` into the four slots around a character whose shape is described by
/// `hints`: every diacritic goes to a position where it can be drawn, and among all such
/// placements one of least cost is chosen. `None` when some diacritic cannot be drawn anywhere.
pub fn solve<D>(hints: TotalMap<Hint>, diacritics: Vec<D>) -> (slots: Option<TotalMap<Slot<D>>>)
    where
        D: Diacritic,
    ensures
        slots is Some <==> has_placement(diacritics@, hints),
        slots matches Some(s) ==> exists|assignment: Seq<Position>|
            is_best_placement(diacritics@, assignment, hints) && #[trigger] slots_follow(
                diacritics@,
                assignment,
                s,
            ),
{
    Solver::new(hints, diacritics).finish()
}

/// Whether `cluster` is `character` with `diacritics` placed around it at the least cost, given
/// the places its shape takes.
pub open spec fn is_cluster_of<D: Diacritic>(
    cluster: GraphemeCluster<D>,
    character: char,
    hints: TotalMap<Hint>,
    diacritics: Seq<D>,
) -> bool {
    &&& cluster.character == character
    &&& exists|assignment: Seq<Position>|
        is_best_placement(diacritics, assignment, hints) && #[trigger] slots_follow(
            diacritics,
            assignment,
            cluster.slots,
        )
}

/// A character with diacritics around it, drawn with the diacritics of its left slot at every
/// position.
#[derive(Debug, Clone, PartialEq, Eq, PartialOrd, Ord, Hash)]
pub struct Symbol<D> where D: Diacritic {
    pub character: char,
    pub slots: TotalMap<Slot<D>>,
}

/// The text of a `Symbol`: its left slot's diacritics drawn before the character and then at the
/// top, bottom and right positions.
pub open spec fn symbol_text<D: Diacritic>(character: char, slots: TotalMap<Slot<D>>) -> Seq<char> {
    render_all(slots.left.diacritics@, Position::Left) + seq![character] + render_all(
        slots.left.diacritics@,
        Position::Top,
    ) + render_all(slots.left.diacritics@, Position::Bottom) + render_all(
        slots.left.diacritics@,
        Position::Right,
    )
}

impl<D> Symbol<D> where D: Diacritic {
    pub fn to_string(&self) -> (text: String)
        ensures
            text@ == symbol_text(self.character, self.slots),
    {
        let mut text = String::new();
        self.slots.left.render(Position::Left, &mut text);
        push_char(&mut text, self.character);
        self.slots.left.render(Position::Top, &mut text);
        self.slots.left.render(Position::Bottom, &mut text);
        self.slots.left.render(Position::Right, &mut text);
        text
    }
}

/// A map with every position holding an empty sequence.
pub open spec fn empty_slots() -> TotalMap<Seq<usize>> {
    TotalMap { top: Seq::empty(), left: Seq::empty(), bottom: Seq::empty(), right: Seq::empty() }
}

/// `map` with the value at `position` replaced.
pub open spec fn with_at<T>(map: TotalMap<T>, position: Position, value: T) -> TotalMap<T> {
    match position {
        Position::Top => TotalMap { top: value, ..map },
        Position::Left => TotalMap { left: value, ..map },
        Position::Bottom => TotalMap { bottom: value, ..map },
        Position::Right => TotalMap { right: value, ..map },
    }
}

/// The slot indices that put the diacritic numbered `start + i` at position `assignment[i]`:
/// every slot lists its diacritics in increasing order.
pub open spec fn encode(assignment: Seq<Position>, start: int) -> TotalMap<Seq<usize>>
    decreases assignment.len(),
{
    if assignment.len() == 0 {
        empty_slots()
    } else {
        let tail = encode(assignment.drop_first(), start + 1);
        with_at(
            tail,
            assignment[0],
            seq![start as usize] + tail.at(assignment[0]),
        )
    }
}

/// The slot indices held by a map of vectors.
pub open spec fn slots_view(map: TotalMap<Vec<usize>>) -> TotalMap<Seq<usize>> {
    TotalMap { top: map.top@, left: map.left@, bottom: map.bottom@, right: map.right@ }
}

fn prepend(head: usize, tail: &Vec<usize>) -> (v: Vec<usize>)
    ensures
        v@ == seq![head] + tail@,
{
    let mut v = Vec::new();
    v.push(head);
    let mut i: usize = 0;
    while i < tail.len()
        invariant
            i <= tail@.len(),
            v@ == seq![head] + tail@.take(i as int),
        decreases tail@.len() - i,
    {
        v.push(tail[i]);
        assert(tail@.take(i + 1) =~= tail@.take(i as int).push(tail@[i as int]));
        i = i + 1;
    }
    assert(tail@.take(i as int) =~= tail@);
    v
}

fn copy_indices(indices: &Vec<usize>) -> (v: Vec<usize>)
    ensures
        v@ == indices@,
{
    let mut v = Vec::new();
    let mut i: usize = 0;
    while i < indices.len()
        invariant
            i <= indices@.len(),
            v@ == indices@.take(i as int),
        decreases indices@.len() - i,
    {
        v.push(indices[i]);
        assert(indices@.take(i + 1) =~= indices@.take(i as int).push(indices@[i as int]));
        i = i + 1;
    }
    assert(indices@.take(i as int) =~= indices@);
    v
}

/// The tail slots extended with `head` placed first at `position`.
fn extend_solution(position: Position, head: usize, tail: &TotalMap<Vec<usize>>) -> (solution:
    TotalMap<Vec<usize>>)
    ensures
        slots_view(solution) == with_at(
            slots_view(*tail),
            position,
            seq![head] + slots_view(*tail).at(position),
        ),
{
    let solution = TotalMap {
        top: if position == Position::Top {
            prepend(head, &tail.top)
        } else {
            copy_indices(&tail.top)
        },
        left: if position == Position::Left {
            prepend(head, &tail.left)
        } else {
            copy_indices(&tail.left)
        },
        bottom: if position == Position::Bottom {
            prepend(head, &tail.bottom)
        } else {
            copy_indices(&tail.bottom)
        },
        right: if position == Position::Right {
            prepend(head, &tail.right)
        } else {
            copy_indices(&tail.right)
        },
    };
    assert(slots_view(solution) =~= with_at(
        slots_view(*tail),
        position,
        seq![head] + slots_view(*tail).at(position),
    ));
    solution
}

/// `tail` with `head` placed first in the slot at `all_positions()[q]`.
pub open spec fn placed(tail: TotalMap<Seq<usize>>, q: int, head: usize) -> TotalMap<Seq<usize>> {
    with_at(tail, all_positions()[q], seq![head] + tail.at(all_positions()[q]))
}

/// Whether one of `solutions` holds the slot indices `slots`.
pub open spec fn contains_solution(solutions: Seq<TotalMap<Vec<usize>>>, slots: TotalMap<Seq<usize>>) -> bool {
    exists|k: int| 0 <= k < solutions.len() && slots_view(#[trigger] solutions[k]) == slots
}

/// Whether `slots` is one of `tails` with `head` placed in one of the four slots.
pub open spec fn is_placed(slots: TotalMap<Seq<usize>>, tails: Seq<TotalMap<Vec<usize>>>, head: usize) -> bool {
    exists|q: int, j: int|
        0 <= q < 4 && 0 <= j < tails.len() && slots == #[trigger] placed(slots_view(tails[j]), q, head)
}

/// Whether `slots` encodes some placement of the diacritics numbered `start` to `end - 1`.
pub open spec fn is_encoding(slots: TotalMap<Seq<usize>>, start: int, end: int) -> bool {
    exists|assignment: Seq<Position>|
        assignment.len() == end - start && slots == #[trigger] encode(assignment, start)
}

/// Every way of placing the diacritics numbered `start` to `end - 1`, as slot indices.
fn build_solutions_indices(start: usize, end: usize) -> (solutions: Vec<TotalMap<Vec<usize>>>)
    requires
        start <= end,
    ensures
        forall|assignment: Seq<Position>|
            assignment.len() == end - start ==> contains_solution(
                solutions@,
                #[trigger] encode(assignment, start as int),
            ),
        forall|k: int|
            0 <= k < solutions@.len() ==> is_encoding(
                slots_view(#[trigger] solutions@[k]),
                start as int,
                end as int,
            ),
    decreases end - start,
{
    let mut solutions: Vec<TotalMap<Vec<usize>>> = Vec::new();
    if start < end {
        let head = start;
        let tail_solutions = build_solutions_indices(start + 1, end);
        let ghost tails = tail_solutions@;
        let mut pi: usize = 0;
        while pi < 4
            invariant
                pi <= 4,
                tails == tail_solutions@,
                forall|q: int, j: int|
                    0 <= q < pi && 0 <= j < tails.len() ==> contains_solution(
                        solutions@,
                        #[trigger] placed(slots_view(tails[j]), q, head),
                    ),
                forall|k: int|
                    0 <= k < solutions@.len() ==> is_placed(
                        slots_view(#[trigger] solutions@[k]),
                        tails,
                        head,
                    ),
            decreases 4 - pi,
        {
            let position = position_at(pi);
            let mut ti: usize = 0;
            while ti < tail_solutions.len()
                invariant
                    pi < 4,
                    position == all_positions()[pi as int],
                    ti <= tails.len(),
                    tails == tail_solutions@,
                    forall|q: int, j: int|
                        ((0 <= q < pi && 0 <= j < tails.len()) || (q == pi && 0 <= j < ti))
                            ==> contains_solution(
                            solutions@,
                            #[trigger] placed(slots_view(tails[j]), q, head),
                        ),
                    forall|k: int|
                        0 <= k < solutions@.len() ==> is_placed(
                            slots_view(#[trigger] solutions@[k]),
                            tails,
                            head,
                        ),
                decreases tails.len() - ti,
            {
                let solution = extend_solution(position, head, &tail_solutions[ti]);
                let ghost old_solutions = solutions@;
                solutions.push(solution);
                proof {
                    let n = old_solutions.len() as int;
                    assert(solutions@[n] == solution);
                    assert(slots_view(solution) == placed(slots_view(tails[ti as int]), pi as int, head));
                    assert forall|q: int, j: int|
                        ((0 <= q < pi && 0 <= j < tails.len()) || (q == pi && 0 <= j < ti + 1))
                            implies contains_solution(
                            solutions@,
                            #[trigger] placed(slots_view(tails[j]), q, head),
                        ) by {
                        if q == pi && j == ti {
                            assert(slots_view(solutions@[n]) == placed(slots_view(tails[j]), q, head));
                        } else {
                            assert(contains_solution(old_solutions, placed(slots_view(tails[j]), q, head)));
                            let k = choose|k: int|
                                0 <= k < old_solutions.len() && slots_view(#[trigger] old_solutions[k])
                                    == placed(slots_view(tails[j]), q, head);
                            assert(solutions@[k] == old_solutions[k]);
                        }
                    }
                    assert forall|k: int| 0 <= k < solutions@.len() implies is_placed(
                        slots_view(#[trigger] solutions@[k]),
                        tails,
                        head,
                    ) by {
                        if k == n {
                            assert(slots_view(solutions@[k]) == placed(slots_view(tails[ti as int]), pi as int, head));
                        } else {
                            assert(solutions@[k] == old_solutions[k]);
                        }
                    }
                }
                ti = ti + 1;
            }
            pi = pi + 1;
        }
        proof {
            assert forall|assignment: Seq<Position>| assignment.len() == end - start implies contains_solution(
                solutions@,
                #[trigger] encode(assignment, start as int),
            ) by {
                let rest = assignment.drop_first();
                assert(contains_solution(tails, encode(rest, start + 1)));
                let j = choose|j: int|
                    0 <= j < tails.len() && slots_view(#[trigger] tails[j]) == encode(rest, start + 1);
                let q: int = if assignment[0] == Position::Left {
                    0
                } else if assignment[0] == Position::Top {
                    1
                } else if assignment[0] == Position::Bottom {
                    2
                } else {
                    3
                };
                assert(all_positions()[q] == assignment[0]);
                assert(placed(slots_view(tails[j]), q, head) == encode(assignment, start as int));
                assert(contains_solution(solutions@, placed(slots_view(tails[j]), q, head)));
            }
            assert forall|k: int| 0 <= k < solutions@.len() implies is_encoding(
                slots_view(#[trigger] solutions@[k]),
                start as int,
                end as int,
            ) by {
                assert(is_placed(slots_view(solutions@[k]), tails, head));
                let (q, j) = choose|q: int, j: int|
                    0 <= q < 4 && 0 <= j < tails.len() && slots_view(solutions@[k])
                        == #[trigger] placed(slots_view(tails[j]), q, head);
                assert(is_encoding(slots_view(tails[j]), start + 1, end as int));
                let rest = choose|rest: Seq<Position>|
                    rest.len() == end - (start + 1) && slots_view(tails[j]) == #[trigger] encode(
                        rest,
                        start + 1,
                    );
                let assignment = seq![all_positions()[q]] + rest;
                assert(assignment.drop_first() =~= rest);
                assert(slots_view(solutions@[k]) == encode(assignment, start as int));
            }
        }
    } else {
        let empty = TotalMap {
            top: Vec::new(),
            left: Vec::new(),
            bottom: Vec::new(),
            right: Vec::new(),
        };
        solutions.push(empty);
        proof {
            assert(slots_view(solutions@[0]) =~= empty_slots());
            assert forall|assignment: Seq<Position>| assignment.len() == end - start implies contains_solution(
                solutions@,
                #[trigger] encode(assignment, start as int),
            ) by {
                assert(slots_view(solutions@[0]) == encode(assignment, start as int));
            }
            assert forall|k: int| 0 <= k < solutions@.len() implies is_encoding(
                slots_view(#[trigger] solutions@[k]),
                start as int,
                end as int,
            ) by {
                let empty_assignment = Seq::<Position>::empty();
                assert(slots_view(solutions@[k]) == encode(empty_assignment, start as int));
            }
        }
    }
    solutions
}

/// Every index of the slot indices encoding a placement names a diacritic placed at that slot,
/// and every slot lists its diacritics in increasing order.
pub proof fn lemma_encode(assignment: Seq<Position>, start: int)
    requires
        0 <= start,
        start + assignment.len() <= usize::MAX,
    ensures
        forall|p: Position, j: int|
            0 <= j < encode(assignment, start).at(p).len() ==> start <= #[trigger] encode(
                assignment,
                start,
            ).at(p)[j] < start + assignment.len() && assignment[encode(assignment, start).at(p)[j]
                - start] == p,
        forall|p: Position, j1: int, j2: int|
            0 <= j1 < j2 < encode(assignment, start).at(p).len() ==> #[trigger] encode(
                assignment,
                start,
            ).at(p)[j1] < #[trigger] encode(assignment, start).at(p)[j2],
    decreases assignment.len(),
{
    if assignment.len() > 0 {
        let rest = assignment.drop_first();
        lemma_encode(rest, start + 1);
        let tail = encode(rest, start + 1);
        let enc = encode(assignment, start);
        assert forall|p: Position, j: int| 0 <= j < enc.at(p).len() implies start
            <= #[trigger] enc.at(p)[j] < start + assignment.len() && assignment[enc.at(p)[j] - start] == p by {
            if p == assignment[0] {
                if j > 0 {
                    assert(enc.at(p)[j] == tail.at(p)[j - 1]);
                    assert(assignment[enc.at(p)[j] - start] == rest[tail.at(p)[j - 1] - (start + 1)]);
                }
            } else {
                assert(enc.at(p) == tail.at(p));
                assert(assignment[enc.at(p)[j] - start] == rest[tail.at(p)[j] - (start + 1)]);
            }
        }
        assert forall|p: Position, j1: int, j2: int|
            0 <= j1 < j2 < enc.at(p).len() implies #[trigger] enc.at(p)[j1]
            < #[trigger] enc.at(p)[j2] by {
            if p == assignment[0] {
                assert(enc.at(p)[j2] == tail.at(p)[j2 - 1]);
                if j1 > 0 {
                    assert(enc.at(p)[j1] == tail.at(p)[j1 - 1]);
                }
            } else {
                assert(enc.at(p) == tail.at(p));
            }
        }
    }
}

/// The rounded quarter of the number of diacritics: how many a slot holds when they are spread
/// evenly.
pub open spec fn mean_slot_len(count: int) -> int {
    (count + 2) / 4
}

pub open spec fn abs_diff(a: int, b: int) -> int {
    if a > b {
        a - b
    } else {
        b - a
    }
}

/// The cost of drawing the diacritics listed in `slot` at `position`: twice the rank of the
/// position among each diacritic's preferences, plus one for each diacritic listed after a
/// diacritic with a greater number. `None` when one of them cannot be drawn there.
pub open spec fn entry_points<D: Diacritic>(diacritics: Seq<D>, slot: Seq<usize>, position: Position) -> Option<int>
    decreases slot.len(),
{
    if slot.len() == 0 {
        Some(0)
    } else {
        let prefix = slot.drop_last();
        let index = slot.last();
        match entry_points(diacritics, prefix, position) {
            None => None,
            Some(previous) => match index_of(diacritics[index as int].spec_renderings(), position) {
                None => None,
                Some(rank) => Some(
                    previous + 2 * rank + if prefix.len() > 0 && prefix.last() > index {
                        1int
                    } else {
                        0int
                    },
                ),
            },
        }
    }
}

/// The cost of one slot: its entries, plus one per diacritic in an obstructed slot, plus four
/// times the distance between the slot's size and the even share.
pub open spec fn position_points<D: Diacritic>(
    diacritics: Seq<D>,
    slot: Seq<usize>,
    hint: Hint,
    position: Position,
) -> Option<int> {
    match entry_points(diacritics, slot, position) {
        Some(entries) => Some(
            entries + (if hint == Hint::Obstructed {
                slot.len() as int
            } else {
                0int
            }) + 4 * abs_diff(slot.len() as int, mean_slot_len(diacritics.len() as int)),
        ),
        None => None,
    }
}

/// The cost of the first `count` slots, in the order of `all_positions`.
pub open spec fn prefix_points<D: Diacritic>(
    diacritics: Seq<D>,
    slots: TotalMap<Seq<usize>>,
    hints: TotalMap<Hint>,
    count: int,
) -> Option<int>
    decreases count,
{
    if count <= 0 {
        Some(0)
    } else {
        let position = all_positions()[count - 1];
        match (
            prefix_points(diacritics, slots, hints, count - 1),
            position_points(diacritics, slots.at(position), hints.at(position), position),
        ) {
            (Some(a), Some(b)) => Some(a + b),
            _ => None,
        }
    }
}

/// The cost of a way of placing diacritics into slots; `None` when one of them cannot be drawn
/// where it is placed.
pub open spec fn solution_points<D: Diacritic>(
    diacritics: Seq<D>,
    slots: TotalMap<Seq<usize>>,
    hints: TotalMap<Hint>,
) -> Option<int> {
    prefix_points(diacritics, slots, hints, 4)
}

/// The cost of placing diacritic number `i` at `assignment[i]`.
pub open spec fn placement_points<D: Diacritic>(
    diacritics: Seq<D>,
    assignment: Seq<Position>,
    hints: TotalMap<Hint>,
) -> Option<int> {
    solution_points(diacritics, encode(assignment, 0), hints)
}

/// Whether `assignment` places every diacritic where it can be drawn, at the least cost of all
/// such placements.
pub open spec fn is_best_placement<D: Diacritic>(
    diacritics: Seq<D>,
    assignment: Seq<Position>,
    hints: TotalMap<Hint>,
) -> bool {
    &&& assignment.len() == diacritics.len()
    &&& placement_points(diacritics, assignment, hints) is Some
    &&& forall|other: Seq<Position>|
        other.len() == diacritics.len() && #[trigger] placement_points(diacritics, other, hints) is Some
            ==> placement_points(diacritics, assignment, hints)->0 <= placement_points(
            diacritics,
            other,
            hints,
        )->0
}

/// Whether some placement draws every diacritic where it can be drawn.
pub open spec fn has_placement<D: Diacritic>(diacritics: Seq<D>, hints: TotalMap<Hint>) -> bool {
    exists|assignment: Seq<Position>|
        assignment.len() == diacritics.len() && #[trigger] placement_points(
            diacritics,
            assignment,
            hints,
        ) is Some
}

/// The diacritics named by a list of indices.
pub open spec fn indexed<D>(diacritics: Seq<D>, indices: Seq<usize>) -> Seq<D> {
    indices.map_values(|i: usize| diacritics[i as int])
}

/// Whether `slots` draws, at every position, the diacritics that `assignment` places there.
pub open spec fn slots_follow<D: Diacritic>(
    diacritics: Seq<D>,
    assignment: Seq<Position>,
    slots: TotalMap<Slot<D>>,
) -> bool {
    forall|p: Position| #[trigger] slots.at(p).diacritics@ == indexed(diacritics, encode(assignment, 0).at(p))
}

#[derive(Debug, Clone)]
struct Solution {
    points: u128,
    slot_indices: TotalMap<Vec<usize>>,
}

const POSITION_BOUND: u128 = 0x1_0000_0000_0000_0000_0;

impl Solution {
    #[verifier::rlimit(40)]
    #[verifier::spinoff_prover]
    fn new<D>(
        slot_indices: TotalMap<Vec<usize>>,
        diacritics: &Vec<D>,
        slot_hints: TotalMap<Hint>,
    ) -> (solution: Option<Self>)
        where
            D: Diacritic,
        requires
            forall|p: Position, j: int|
                0 <= j < slot_indices.at(p)@.len() ==> #[trigger] slot_indices.at(p)@[j]
                    < diacritics@.len(),
        ensures
            solution is Some <==> solution_points(diacritics@, slots_view(slot_indices), slot_hints)
                is Some,
            solution matches Some(s) ==> s.points == solution_points(
                diacritics@,
                slots_view(slot_indices),
                slot_hints,
            )->0 && s.slot_indices == slot_indices,
    {
        let ghost ds = diacritics@;
        let ghost slots = slots_view(slot_indices);
        let mut points: u128 = 0;
        let count = diacritics.len();
        let mean = count / 4 + (count % 4 + 2) / 4;
        assert(mean == mean_slot_len(count as int));
        let mut pi: usize = 0;
        while pi < 4
            invariant
                pi <= 4,
                ds == diacritics@,
                slots == slots_view(slot_indices),
                count == ds.len(),
                mean == mean_slot_len(count as int),
                forall|p: Position, j: int|
                    0 <= j < slot_indices.at(p)@.len() ==> #[trigger] slot_indices.at(p)@[j]
                        < diacritics@.len(),
                prefix_points(ds, slots, slot_hints, pi as int) == Some(points as int),
                points <= (pi as u128) * POSITION_BOUND,
            decreases 4 - pi,
        {
            let position = position_at(pi);
            let slot = slot_indices.index(position);
            let mut previous: Option<usize> = None;
            let mut entries: u128 = 0;
            let mut k: usize = 0;
            while k < slot.len()
                invariant
                    k <= slot@.len(),
                    ds == diacritics@,
                    *slot == slot_indices.at(position),
                    slots == slots_view(slot_indices),
                    pi < 4,
                    position == all_positions()[pi as int],
                    prefix_points(ds, slots, slot_hints, pi as int) == Some(points as int),
                    forall|j: int| 0 <= j < slot@.len() ==> slot@[j] < diacritics@.len(),
                    entry_points(ds, slot@.take(k as int), position) == Some(entries as int),
                    entries <= 7 * (k as u128),
                    k == 0 ==> previous is None,
                    k > 0 ==> previous == Some(slot@[k - 1]),
                decreases slot@.len() - k,
            {
                let index = slot[k];
                let renderings = diacritics[index].renderings();
                let rank = renderings.to_index(position);
                proof {
                    lemma_renderings_index(ds[index as int], renderings@, position);
                    assert(slot@.take(k + 1).drop_last() =~= slot@.take(k as int));
                    assert(slot@.take(k + 1).last() == index);
                }
                match rank {
                    None => {
                        proof {
                            assert(entry_points(ds, slot@.take(k + 1), position) is None);
                            lemma_entry_points_none_extends(ds, slot@, position, k + 1);
                            assert(slot@.take(slot@.len() as int) =~= slot@);
                            assert(slot@ == slots.at(position));
                            assert(prefix_points(ds, slots, slot_hints, pi + 1) is None);
                            lemma_prefix_points_none_extends(ds, slots, slot_hints, pi + 1);
                        }
                        return None;
                    },
                    Some(r) => {
                        entries = entries + (r as u128) * 2;
                    },
                }
                match previous {
                    Some(previous_index) => {
                        if previous_index > index {
                            entries = entries + 1;
                        }
                    },
                    None => {},
                }
                previous = Some(index);
                k = k + 1;
            }
            assert(slot@.take(k as int) =~= slot@);
            let length = slot.len();
            if slot_hints.index(position) == &Hint::Obstructed {
                entries = entries + (length as u128);
            }
            let distance = if length > mean { length - mean } else { mean - length };
            entries = entries + (distance as u128) * 4;
            points = points + entries;
            pi = pi + 1;
        }
        Some(Solution { points, slot_indices })
    }
}

#[derive(Debug, Clone)]
struct Solver<D> where D: Diacritic {
    diacritics: Vec<D>,
    hints: TotalMap<Hint>,
}

/// Moves the diacritics listed in `indices` out of `pool`, in order, into a slot.
fn take_slot<D: Diacritic>(
    pool: &mut Vec<Option<D>>,
    indices: &Vec<usize>,
    Ghost(diacritics): Ghost<Seq<D>>,
    Ghost(taken): Ghost<Set<usize>>,
) -> (slot: Slot<D>)
    requires
        old(pool)@.len() == diacritics.len(),
        forall|i: int|
            0 <= i < diacritics.len() ==> #[trigger] old(pool)@[i] == if taken.contains(i as usize) {
                None
            } else {
                Some(diacritics[i])
            },
        forall|j: int| 0 <= j < indices@.len() ==> #[trigger] indices@[j] < diacritics.len(),
        forall|j: int| 0 <= j < indices@.len() ==> !taken.contains(#[trigger] indices@[j]),
        forall|j1: int, j2: int|
            0 <= j1 < j2 < indices@.len() ==> #[trigger] indices@[j1] < #[trigger] indices@[j2],
    ensures
        final(pool)@.len() == diacritics.len(),
        forall|i: int|
            0 <= i < diacritics.len() ==> #[trigger] final(pool)@[i] == if taken.contains(i as usize)
                || indices@.contains(i as usize) {
                None
            } else {
                Some(diacritics[i])
            },
        slot.diacritics@ == indexed(diacritics, indices@),
{
    let mut taken_now: Vec<D> = Vec::new();
    let pool_len = pool.len();
    assert(diacritics.len() == pool_len);
    let mut k: usize = 0;
    while k < indices.len()
        invariant
            k <= indices@.len(),
            diacritics.len() <= usize::MAX,
            pool@.len() == diacritics.len(),
            forall|j: int| 0 <= j < indices@.len() ==> #[trigger] indices@[j] < diacritics.len(),
            forall|j: int| 0 <= j < indices@.len() ==> !taken.contains(#[trigger] indices@[j]),
            forall|j1: int, j2: int|
                0 <= j1 < j2 < indices@.len() ==> #[trigger] indices@[j1] < #[trigger] indices@[j2],
            forall|i: int|
                0 <= i < diacritics.len() ==> #[trigger] pool@[i] == if taken.contains(i as usize)
                    || indices@.take(k as int).contains(i as usize) {
                    None
                } else {
                    Some(diacritics[i])
                },
            taken_now@ == indexed(diacritics, indices@.take(k as int)),
        decreases indices@.len() - k,
    {
        let index = indices[k];
        let ghost before = pool@;
        assert(!indices@.take(k as int).contains(index)) by {
            if indices@.take(k as int).contains(index) {
                let j = choose|j: int| 0 <= j < k && #[trigger] indices@.take(k as int)[j] == index;
                assert(indices@[j] < indices@[k as int]);
            }
        }
        let mut moved: Option<D> = None;
        pool.set_and_swap(index, &mut moved);
        assert(moved == Some(diacritics[index as int]));
        taken_now.push(moved.unwrap());
        proof {
            assert(indices@.take(k + 1) =~= indices@.take(k as int).push(index));
            assert(indexed(diacritics, indices@.take(k + 1)) =~= indexed(
                diacritics,
                indices@.take(k as int),
            ).push(diacritics[index as int]));
            assert forall|i: int| 0 <= i < diacritics.len() implies #[trigger] pool@[i] == if taken.contains(
                i as usize,
            ) || indices@.take(k + 1).contains(i as usize) {
                None
            } else {
                Some(diacritics[i])
            } by {
                if i == index {
                    assert(indices@.take(k + 1)[k as int] == index);
                } else {
                    assert(pool@[i] == before[i]);
                    if indices@.take(k + 1).contains(i as usize) {
                        let j = choose|j: int| 0 <= j < k + 1 && #[trigger] indices@.take(k + 1)[j] == i as usize;
                        assert(indices@.take(k + 1)[j] == indices@[j]);
                        assert(j != k as int) by {
                            if j == k as int {
                                assert(indices@[j] == index);
                                assert(i as usize == index);
                            }
                        }
                        assert(indices@.take(k as int)[j] == i as usize);
                    }
                    if indices@.take(k as int).contains(i as usize) {
                        let j = choose|j: int| 0 <= j < k && #[trigger] indices@.take(k as int)[j] == i as usize;
                        assert(indices@.take(k + 1)[j] == i as usize);
                    }
                }
            }
        }
        k = k + 1;
    }
    assert(indices@.take(k as int) =~= indices@);
    Slot { diacritics: taken_now }
}

impl<D> Solver<D> where D: Diacritic {
    fn new(hints: TotalMap<Hint>, diacritics: Vec<D>) -> (solver: Self)
        ensures
            solver.diacritics@ == diacritics@,
            solver.hints == hints,
    {
        Self { diacritics, hints }
    }

    fn find_solution(&self) -> (best: Option<Solution>)
        ensures
            best is Some <==> has_placement(self.diacritics@, self.hints),
            best matches Some(b) ==> exists|assignment: Seq<Position>|
                is_best_placement(self.diacritics@, assignment, self.hints) && slots_view(
                    b.slot_indices,
                ) == #[trigger] encode(assignment, 0),
    {
        let ghost ds = self.diacritics@;
        let n = self.diacritics.len();
        let mut raw_solutions = build_solutions_indices(0, n);
        let ghost all = raw_solutions@;
        let mut best_solution: Option<Solution> = None;
        while raw_solutions.len() > 0
            invariant
                ds == self.diacritics@,
                n == ds.len(),
                raw_solutions@ == all.take(raw_solutions@.len() as int),
                raw_solutions@.len() <= all.len(),
                forall|assignment: Seq<Position>|
                    assignment.len() == n ==> contains_solution(
                        all,
                        #[trigger] encode(assignment, 0),
                    ),
                forall|k: int|
                    0 <= k < all.len() ==> is_encoding(slots_view(#[trigger] all[k]), 0, n as int),
                forall|k: int|
                    raw_solutions@.len() <= k < all.len() && (#[trigger] solution_points(
                        ds,
                        slots_view(all[k]),
                        self.hints,
                    )) is Some ==> (best_solution matches Some(b) && b.points <= solution_points(
                        ds,
                        slots_view(all[k]),
                        self.hints,
                    )->0),
                best_solution matches Some(b) ==> {
                    &&& solution_points(ds, slots_view(b.slot_indices), self.hints) == Some(
                        b.points as int,
                    )
                    &&& is_encoding(slots_view(b.slot_indices), 0, n as int)
                },
            decreases raw_solutions@.len(),
        {
            let raw_solution = raw_solutions.pop().unwrap();
            let ghost k = raw_solutions@.len() as int;
            assert(all[k] == raw_solution);
            proof {
                assert(is_encoding(slots_view(raw_solution), 0, n as int));
                let assignment = choose|assignment: Seq<Position>|
                    assignment.len() == n && slots_view(raw_solution) == #[trigger] encode(
                        assignment,
                        0,
                    );
                lemma_encode(assignment, 0);
                assert forall|p: Position, j: int|
                    0 <= j < raw_solution.at(p)@.len() implies #[trigger] raw_solution.at(p)@[j]
                    < ds.len() by {
                    assert(raw_solution.at(p)@ == encode(assignment, 0).at(p));
                    assert(encode(assignment, 0).at(p)[j] < assignment.len());
                }
            }
            match Solution::new(raw_solution, &self.diacritics, self.hints) {
                Some(solution) => {
                    let better = match &best_solution {
                        Some(found_solution) => solution.points < found_solution.points,
                        None => true,
                    };
                    if better {
                        best_solution = Some(solution);
                    }
                },
                None => {},
            }
        }
        proof {
            if has_placement(ds, self.hints) {
                let assignment = choose|assignment: Seq<Position>|
                    assignment.len() == ds.len() && #[trigger] placement_points(ds, assignment, self.hints)
                        is Some;
                assert(contains_solution(all, encode(assignment, 0)));
                let k = choose|k: int| 0 <= k < all.len() && slots_view(#[trigger] all[k]) == encode(assignment, 0);
                assert(solution_points(ds, slots_view(all[k]), self.hints) is Some);
            }
            if let Some(b) = &best_solution {
                let assignment = choose|assignment: Seq<Position>|
                    assignment.len() == n && slots_view(b.slot_indices) == #[trigger] encode(assignment, 0);
                assert(placement_points(ds, assignment, self.hints) is Some);
                assert forall|other: Seq<Position>|
                    other.len() == ds.len() && #[trigger] placement_points(ds, other, self.hints) is Some
                        implies placement_points(ds, assignment, self.hints)->0 <= placement_points(
                        ds,
                        other,
                        self.hints,
                    )->0 by {
                    assert(contains_solution(all, encode(other, 0)));
                    let k = choose|k: int| 0 <= k < all.len() && slots_view(#[trigger] all[k]) == encode(other, 0);
                    assert(solution_points(ds, slots_view(all[k]), self.hints) is Some);
                }
                assert(is_best_placement(ds, assignment, self.hints));
            }
        }
        best_solution
    }

    #[verifier::spinoff_prover]
    fn finish(self) -> (slots: Option<TotalMap<Slot<D>>>)
        ensures
            slots is Some <==> has_placement(self.diacritics@, self.hints),
            slots matches Some(s) ==> exists|assignment: Seq<Position>|
                is_best_placement(self.diacritics@, assignment, self.hints)
                    && #[trigger] slots_follow(self.diacritics@, assignment, s),
    {
        let best = match self.find_solution() {
            Some(best) => best,
            None => return None,
        };
        let ghost ds = self.diacritics@;
        let n = self.diacritics.len();
        assert(ds.len() == n);
        let ghost assignment = choose|assignment: Seq<Position>|
            is_best_placement(ds, assignment, self.hints) && slots_view(best.slot_indices)
                == #[trigger] encode(assignment, 0);
        let ghost enc = encode(assignment, 0);
        proof {
            lemma_encode(assignment, 0);
            assert(is_best_placement(ds, assignment, self.hints));
            assert(slots_view(best.slot_indices) == enc);
        }
        let Solver { diacritics, hints } = self;
        let filled = fill_slots(diacritics, best.slot_indices, Ghost(assignment));
        let result = Some(filled);
        assert(slots_follow(self.diacritics@, assignment, result->0));
        assert(is_best_placement(self.diacritics@, assignment, self.hints));
        result
    }
}

/// Moves each diacritic into the slot that `assignment` places it in.
#[verifier::spinoff_prover]
fn fill_slots<D: Diacritic>(
    diacritics: Vec<D>,
    slot_indices: TotalMap<Vec<usize>>,
    Ghost(assignment): Ghost<Seq<Position>>,
) -> (filled: TotalMap<Slot<D>>)
    requires
        assignment.len() == diacritics@.len(),
        slots_view(slot_indices) == encode(assignment, 0),
    ensures
        slots_follow(diacritics@, assignment, filled),
{
    let ghost ds = diacritics@;
    let n = diacritics.len();
    assert(ds.len() == n);
    let ghost enc = encode(assignment, 0);
    proof {
        lemma_encode(assignment, 0);
    }
        let mut rest = diacritics;
        let mut pool: Vec<Option<D>> = Vec::new();
        while rest.len() > 0
            invariant
                pool@.len() + rest@.len() == ds.len(),
                forall|i: int| 0 <= i < pool@.len() ==> #[trigger] pool@[i] == Some(ds[i]),
                forall|i: int| 0 <= i < rest@.len() ==> #[trigger] rest@[i] == ds[pool@.len() + i],
            decreases rest@.len(),
        {
            let ghost before = rest@;
            let d = rest.remove(0);
            assert(d == ds[pool@.len() as int]);
            pool.push(Some(d));
            assert forall|i: int| 0 <= i < rest@.len() implies #[trigger] rest@[i] == ds[pool@.len() + i] by {
                assert(rest@[i] == before[i + 1]);
            }
        }
        proof {
            assert forall|p: Position, j: int| 0 <= j < slot_indices.at(p)@.len() implies #[trigger] slot_indices.at(p)@[j] < ds.len() by {
                assert(slot_indices.at(p)@ == enc.at(p));
                assert(enc.at(p)[j] < assignment.len());
            }
            assert forall|i: int| 0 <= i < ds.len() implies #[trigger] pool@[i] == if Set::<usize>::empty().contains(i as usize) {
                None
            } else {
                Some(ds[i])
            } by {}
        }
        let ghost taken0 = taken_by(enc, seq![]);
        let ghost taken1 = taken_by(enc, seq![Position::Top]);
        let ghost taken2 = taken_by(enc, seq![Position::Top, Position::Left]);
        let ghost taken3 = taken_by(enc, seq![Position::Top, Position::Left, Position::Bottom]);
        assert(taken0 == Set::<usize>::empty());
        assert(seq![Position::Top, Position::Left].drop_last() =~= seq![Position::Top]);
        assert(seq![Position::Top, Position::Left, Position::Bottom].drop_last() =~= seq![Position::Top, Position::Left]);
        assert(seq![Position::Top].drop_last() =~= Seq::<Position>::empty());
        let top = take_slot(&mut pool, &slot_indices.top, Ghost(ds), Ghost(taken0));
        proof { lemma_taken_step(pool@, ds, taken0, enc.at(Position::Top)); }
        proof { lemma_fresh_slot(assignment, Position::Left, seq![Position::Top]); }
        let left = take_slot(&mut pool, &slot_indices.left, Ghost(ds), Ghost(taken1));
        proof { lemma_taken_step(pool@, ds, taken1, enc.at(Position::Left)); }
        proof { lemma_fresh_slot(assignment, Position::Bottom, seq![Position::Top, Position::Left]); }
        let bottom = take_slot(&mut pool, &slot_indices.bottom, Ghost(ds), Ghost(taken2));
        proof { lemma_taken_step(pool@, ds, taken2, enc.at(Position::Bottom)); }
        proof {
            let others = seq![Position::Top, Position::Left, Position::Bottom];
            assert(!others.contains(Position::Right)) by {
                if others.contains(Position::Right) {
                    let q = choose|q: int| 0 <= q < others.len() && others[q] == Position::Right;
                }
            }
            lemma_fresh_slot(assignment, Position::Right, others);
            assert(slot_indices.right@ == enc.at(Position::Right));
        }
        let right = take_slot(&mut pool, &slot_indices.right, Ghost(ds), Ghost(taken3));
        let filled = TotalMap { top, left, bottom, right };
        assert(slots_follow(ds, assignment, filled));
    filled
}

/// Restating the pool after a slot was taken in terms of the grown set of taken indices.
proof fn lemma_taken_step<D>(pool: Seq<Option<D>>, diacritics: Seq<D>, taken: Set<usize>, slot: Seq<usize>)
    requires
        pool.len() == diacritics.len(),
        forall|i: int|
            0 <= i < diacritics.len() ==> #[trigger] pool[i] == if taken.contains(i as usize)
                || slot.contains(i as usize) {
                None
            } else {
                Some(diacritics[i])
            },
    ensures
        forall|i: int|
            0 <= i < diacritics.len() ==> #[trigger] pool[i] == if (taken + slot.to_set()).contains(i as usize) {
                None
            } else {
                Some(diacritics[i])
            },
{
    assert forall|i: int| 0 <= i < diacritics.len() implies #[trigger] pool[i] == if (taken + slot.to_set()).contains(i as usize) {
        None
    } else {
        Some(diacritics[i])
    } by {
        assert(slot.to_set().contains(i as usize) == slot.contains(i as usize));
    }
}

/// The indices listed in the slots at `positions`.
pub open spec fn taken_by(slots: TotalMap<Seq<usize>>, positions: Seq<Position>) -> Set<usize>
    decreases positions.len(),
{
    if positions.len() == 0 {
        Set::empty()
    } else {
        taken_by(slots, positions.drop_last()) + slots.at(positions.last()).to_set()
    }
}

proof fn lemma_taken_by(slots: TotalMap<Seq<usize>>, positions: Seq<Position>, i: usize)
    requires
        taken_by(slots, positions).contains(i),
    ensures
        exists|q: int| 0 <= q < positions.len() && #[trigger] slots.at(positions[q]).contains(i),
    decreases positions.len(),
{
    if positions.len() > 0 {
        if taken_by(slots, positions.drop_last()).contains(i) {
            lemma_taken_by(slots, positions.drop_last(), i);
            let q = choose|q: int| 0 <= q < positions.drop_last().len() && #[trigger] slots.at(positions.drop_last()[q]).contains(i);
            assert(positions[q] == positions.drop_last()[q]);
        } else {
            assert(slots.at(positions[positions.len() - 1]).contains(i));
        }
    }
}

/// The indices of one slot of an encoding are not among those of other slots.
proof fn lemma_fresh_slot(assignment: Seq<Position>, position: Position, others: Seq<Position>)
    requires
        assignment.len() <= usize::MAX,
        !others.contains(position),
    ensures
        forall|j: int| 0 <= j < encode(assignment, 0).at(position).len() ==> !taken_by(encode(assignment, 0), others).contains(#[trigger] encode(assignment, 0).at(position)[j]),
{
    lemma_encode(assignment, 0);
    let enc = encode(assignment, 0);
    assert forall|j: int| 0 <= j < enc.at(position).len() implies !taken_by(enc, others).contains(#[trigger] enc.at(position)[j]) by {
        let i = enc.at(position)[j];
        if taken_by(enc, others).contains(i) {
            lemma_taken_by(enc, others, i);
            let q = choose|q: int| 0 <= q < others.len() && #[trigger] enc.at(others[q]).contains(i);
            let j2 = choose|j2: int| 0 <= j2 < enc.at(others[q]).len() && enc.at(others[q])[j2] == i;
            assert(assignment[i as int] == others[q]);
            assert(assignment[i as int] == position);
        }
    }
}

proof fn lemma_entry_points_some<D: Diacritic>(diacritics: Seq<D>, slot: Seq<usize>, position: Position)
    requires
        forall|j: int| 0 <= j < slot.len() ==> (#[trigger] index_of(diacritics[slot[j] as int].spec_renderings(), position)) is Some,
    ensures
        entry_points(diacritics, slot, position) is Some,
    decreases slot.len(),
{
    if slot.len() > 0 {
        let prefix = slot.drop_last();
        assert forall|j: int| 0 <= j < prefix.len() implies (#[trigger] index_of(diacritics[prefix[j] as int].spec_renderings(), position)) is Some by {
            assert(prefix[j] == slot[j]);
        }
        lemma_entry_points_some(diacritics, prefix, position);
        assert(index_of(diacritics[slot[slot.len() - 1] as int].spec_renderings(), position) is Some);
    }
}

/// When every diacritic can be drawn somewhere, some placement draws them all.
pub proof fn lemma_has_placement<D: Diacritic>(diacritics: Seq<D>, hints: TotalMap<Hint>)
    requires
        diacritics.len() <= usize::MAX,
        forall|i: int| 0 <= i < diacritics.len() ==> (#[trigger] diacritics[i].spec_renderings()).len() > 0,
    ensures
        has_placement(diacritics, hints),
{
    let assignment = Seq::new(diacritics.len(), |i: int| diacritics[i].spec_renderings()[0].0);
    lemma_encode(assignment, 0);
    let enc = encode(assignment, 0);
    assert forall|p: Position| #![trigger enc.at(p)] entry_points(diacritics, enc.at(p), p) is Some by {
        assert forall|j: int| 0 <= j < enc.at(p).len() implies (#[trigger] index_of(diacritics[enc.at(p)[j] as int].spec_renderings(), p)) is Some by {
            let i = enc.at(p)[j] as int;
            assert(assignment[i] == p);
            let r = diacritics[i].spec_renderings();
            assert(r[0].0 == p);
            assert(exists|k: int| 0 <= k < r.len() && #[trigger] r[k].0 == p);
        }
        lemma_entry_points_some(diacritics, enc.at(p), p);
    }
    assert(entry_points(diacritics, enc.at(Position::Left), Position::Left) is Some);
    assert(entry_points(diacritics, enc.at(Position::Top), Position::Top) is Some);
    assert(entry_points(diacritics, enc.at(Position::Bottom), Position::Bottom) is Some);
    assert(entry_points(diacritics, enc.at(Position::Right), Position::Right) is Some);
    assert(prefix_points(diacritics, enc, hints, 0) is Some);
    assert(prefix_points(diacritics, enc, hints, 1) is Some);
    assert(prefix_points(diacritics, enc, hints, 2) is Some);
    assert(prefix_points(diacritics, enc, hints, 3) is Some);
    assert(prefix_points(diacritics, enc, hints, 4) is Some);
    assert(placement_points(diacritics, assignment, hints) is Some);
}

/// Once the first slots cannot be drawn, no placement can.
proof fn lemma_prefix_points_none_extends<D: Diacritic>(
    diacritics: Seq<D>,
    slots: TotalMap<Seq<usize>>,
    hints: TotalMap<Hint>,
    count: int,
)
    requires
        0 <= count <= 4,
        prefix_points(diacritics, slots, hints, count) is None,
    ensures
        solution_points(diacritics, slots, hints) is None,
    decreases 4 - count,
{
    if count < 4 {
        lemma_prefix_points_none_extends(diacritics, slots, hints, count + 1);
    }
}

/// Once the entries of a prefix of a slot cannot be drawn, the whole slot cannot.
proof fn lemma_entry_points_none_extends<D: Diacritic>(
    diacritics: Seq<D>,
    slot: Seq<usize>,
    position: Position,
    k: int,
)
    requires
        0 <= k <= slot.len(),
        entry_points(diacritics, slot.take(k), position) is None,
    ensures
        entry_points(diacritics, slot.take(slot.len() as int), position) is None,
    decreases slot.len() - k,
{
    if k < slot.len() {
        assert(slot.take(k + 1).drop_last() =~= slot.take(k));
        lemma_entry_points_none_extends(diacritics, slot, position, k + 1);
    }
}

} // verus!
