use vstd::prelude::*;

verus! {

/// One of the four places around a character where a diacritic can be drawn.
#[derive(Debug, Clone, Copy, PartialEq, Eq, PartialOrd, Ord, Hash, Structural)]
pub enum Position {
    Top,
    Left,
    Bottom,
    Right,
}

impl Position {
    /// Every position, in the order in which the library visits them.
    pub const ALL: [Position; 4] = [Position::Left, Position::Top, Position::Bottom, Position::Right];
}

/// The order in which positions are visited.
pub open spec fn all_positions() -> Seq<Position> {
    seq![Position::Left, Position::Top, Position::Bottom, Position::Right]
}

/// A map that holds one value for every position.
#[derive(Debug, Clone, Copy, PartialEq, Eq, PartialOrd, Ord, Hash, Default)]
pub struct TotalMap<T> {
    pub top: T,
    pub left: T,
    pub bottom: T,
    pub right: T,
}

impl<T> TotalMap<T> {
    /// The value stored at a position.
    pub open spec fn at(self, position: Position) -> T {
        match position {
            Position::Top => self.top,
            Position::Left => self.left,
            Position::Bottom => self.bottom,
            Position::Right => self.right,
        }
    }

    pub fn from_fn<F>(mut function: F) -> (map: Self)
        where
            F: FnMut(Position) -> T,
        requires
            forall|p: Position| call_requires(function, (p,)),
        ensures
            call_ensures(function, (Position::Top,), map.top),
            call_ensures(function, (Position::Left,), map.left),
            call_ensures(function, (Position::Bottom,), map.bottom),
            call_ensures(function, (Position::Right,), map.right),
    {
        TotalMap {
            top: function(Position::Top),
            left: function(Position::Left),
            bottom: function(Position::Bottom),
            right: function(Position::Right),
        }
    }
}

impl<T> TotalMap<T> {
    pub fn as_ref(&self) -> (map: TotalMap<&T>)
        ensures
            *map.top == self.top,
            *map.left == self.left,
            *map.bottom == self.bottom,
            *map.right == self.right,
    {
        TotalMap { top: &self.top, left: &self.left, bottom: &self.bottom, right: &self.right }
    }

    pub fn as_mut(&mut self) -> (map: TotalMap<&mut T>)
        ensures
            *map.top == old(self).top,
            *map.left == old(self).left,
            *map.bottom == old(self).bottom,
            *map.right == old(self).right,
            *final(self) == (TotalMap {
                top: *final(map.top),
                left: *final(map.left),
                bottom: *final(map.bottom),
                right: *final(map.right),
            }),
    {
        TotalMap {
            top: &mut self.top,
            left: &mut self.left,
            bottom: &mut self.bottom,
            right: &mut self.right,
        }
    }

    pub fn index(&self, index: Position) -> (value: &T)
        ensures
            *value == self.at(index),
    {
        match index {
            Position::Top => &self.top,
            Position::Bottom => &self.bottom,
            Position::Left => &self.left,
            Position::Right => &self.right,
        }
    }

    pub fn index_mut(&mut self, index: Position) -> (value: &mut T)
        ensures
            *value == old(self).at(index),
            final(self).at(index) == *final(value),
            forall|p: Position| p != index ==> final(self).at(p) == old(self).at(p),
        no_unwind
    {
        match index {
            Position::Top => &mut self.top,
            Position::Bottom => &mut self.bottom,
            Position::Left => &mut self.left,
            Position::Right => &mut self.right,
        }
    }
}

impl<T> TotalMap<T> {
    /// The map with `f` applied to the value at each position.
    pub open spec fn mapped<U>(self, f: spec_fn(T) -> U) -> TotalMap<U> {
        TotalMap { top: f(self.top), left: f(self.left), bottom: f(self.bottom), right: f(self.right) }
    }
}

/// Mapping by a function that gives one value for each argument gives the map with that
/// function applied at each position; mapping by the identity gives the map back; mapping by
/// one function and then by another is mapping by the two composed.
pub proof fn lemma_map_laws<T, U, V, F>(
    map: TotalMap<T>,
    mapper: F,
    result: TotalMap<U>,
    f: spec_fn(T) -> U,
    g: spec_fn(U) -> V,
)
    where
        F: FnMut(T) -> U,
    requires
        forall|t: T, u: U| #[trigger] call_ensures(mapper, (t,), u) ==> u == f(t),
        call_ensures(mapper, (map.top,), result.top),
        call_ensures(mapper, (map.left,), result.left),
        call_ensures(mapper, (map.bottom,), result.bottom),
        call_ensures(mapper, (map.right,), result.right),
    ensures
        result == map.mapped(f),
        forall|p: Position| #[trigger] map.mapped(f).at(p) == f(map.at(p)),
        map.mapped(|t: T| t) == map,
        map.mapped(f).mapped(g) == map.mapped(|t: T| g(f(t))),
{
}

impl<T> TotalMap<T> {
    pub fn map<F, U>(self, mut mapper: F) -> (map: TotalMap<U>)
        where
            F: FnMut(T) -> U,
        requires
            forall|t: T| call_requires(mapper, (t,)),
        ensures
            call_ensures(mapper, (self.top,), map.top),
            call_ensures(mapper, (self.left,), map.left),
            call_ensures(mapper, (self.bottom,), map.bottom),
            call_ensures(mapper, (self.right,), map.right),
    {
        TotalMap {
            top: mapper(self.top),
            left: mapper(self.left),
            bottom: mapper(self.bottom),
            right: mapper(self.right),
        }
    }

    pub fn map_with_pos<F, U>(self, mut mapper: F) -> (map: TotalMap<U>)
        where
            F: FnMut(Position, T) -> U,
        requires
            forall|p: Position, t: T| call_requires(mapper, (p, t)),
        ensures
            call_ensures(mapper, (Position::Top, self.top), map.top),
            call_ensures(mapper, (Position::Left, self.left), map.left),
            call_ensures(mapper, (Position::Bottom, self.bottom), map.bottom),
            call_ensures(mapper, (Position::Right, self.right), map.right),
    {
        TotalMap {
            top: mapper(Position::Top, self.top),
            left: mapper(Position::Left, self.left),
            bottom: mapper(Position::Bottom, self.bottom),
            right: mapper(Position::Right, self.right),
        }
    }

    /// The entries of this map, in the order of `all_positions`.
    pub open spec fn entries(self) -> Seq<(Position, T)> {
        seq![
            (Position::Left, self.left),
            (Position::Top, self.top),
            (Position::Bottom, self.bottom),
            (Position::Right, self.right),
        ]
    }

    pub fn into_iter(self) -> (iter: TotalMapIntoIter<T>)
        ensures
            iter.remaining() == self.entries(),
    {
        TotalMapIntoIter {
            next_index: 0,
            map: TotalMap {
                top: Some(self.top),
                left: Some(self.left),
                bottom: Some(self.bottom),
                right: Some(self.right),
            },
        }
    }

    pub fn iter(&self) -> (iter: TotalMapIntoIter<&T>)
        ensures
            iter.remaining().len() == 4,
            forall|i: int| 0 <= i < 4 ==> (#[trigger] iter.remaining()[i]).0 == self.entries()[i].0
                && *iter.remaining()[i].1 == self.entries()[i].1,
    {
        self.as_ref().into_iter()
    }

    /// Iterates over the entries by mutable reference, in the order Left, Top, Bottom, Right;
    /// what is written through them is written here.
    pub fn iter_mut(&mut self) -> (iter: TotalMapIntoIter<&mut T>)
        ensures
            iter.remaining().len() == 4,
            forall|i: int| 0 <= i < 4 ==> (#[trigger] iter.remaining()[i]).0 == old(self).entries()[i].0
                && *iter.remaining()[i].1 == old(self).entries()[i].1,
            *final(self) == (TotalMap {
                left: *final(iter.remaining()[0].1),
                top: *final(iter.remaining()[1].1),
                bottom: *final(iter.remaining()[2].1),
                right: *final(iter.remaining()[3].1),
            }),
    {
        self.as_mut().into_iter()
    }
}

impl<T> TotalMap<Option<T>> {
    pub fn transpose(self) -> (map: Option<TotalMap<T>>)
        ensures
            map is Some <==> (self.top is Some && self.left is Some && self.bottom is Some
                && self.right is Some),
            map matches Some(m) ==> (m == TotalMap {
                top: self.top->0,
                left: self.left->0,
                bottom: self.bottom->0,
                right: self.right->0,
            }),
    {
        match (self.top, self.left, self.bottom, self.right) {
            (Some(top), Some(left), Some(bottom), Some(right)) => Some(
                TotalMap { top, left, bottom, right },
            ),
            _ => None,
        }
    }
}

/// The position visited at the given step of an iteration.
pub fn position_at(index: usize) -> (position: Position)
    requires
        index < 4,
    ensures
        position == all_positions()[index as int],
{
    match index {
        0 => Position::Left,
        1 => Position::Top,
        2 => Position::Bottom,
        _ => Position::Right,
    }
}

/// Iterator over the entries of a `TotalMap`, by value.
pub struct TotalMapIntoIter<T> {
    next_index: usize,
    map: TotalMap<Option<T>>,
}

impl<T> TotalMapIntoIter<T> {
    #[verifier::type_invariant]
    spec fn inv(self) -> bool {
        &&& self.next_index <= 4
        &&& forall|i: int|
            self.next_index <= i < 4 ==> (#[trigger] self.map.at(all_positions()[i])) is Some
    }

    /// The entries that are still to be yielded, in order.
    pub closed spec fn remaining(self) -> Seq<(Position, T)> {
        Seq::new(
            (4 - self.next_index) as nat,
            |i: int|
                (
                    all_positions()[self.next_index + i],
                    self.map.at(all_positions()[self.next_index + i])->0,
                ),
        )
    }

    pub fn next(&mut self) -> (item: Option<(Position, T)>)
        ensures
            old(self).remaining().len() == 0 ==> item is None && final(self).remaining()
                == old(self).remaining(),
            old(self).remaining().len() > 0 ==> item == Some(old(self).remaining()[0])
                && final(self).remaining() == old(self).remaining().drop_first(),
    {
        proof {
            use_type_invariant(&*self);
        }
        if self.next_index >= 4 {
            return None;
        }
        let position = position_at(self.next_index);
        self.next_index = self.next_index + 1;
        let slot = self.map.index_mut(position);
        let value = slot.take();
        assert(self.remaining() =~= old(self).remaining().drop_first());
        Some((position, value.unwrap()))
    }
}

/// Storage for the up to four entries of a `PartialMap`, by insertion index.
#[derive(Debug, Clone, Copy, PartialEq, Eq, Hash)]
struct Entries<T> {
    first: Option<(Position, T)>,
    second: Option<(Position, T)>,
    third: Option<(Position, T)>,
    fourth: Option<(Position, T)>,
}

impl<T> Entries<T> {
    spec fn at(self, index: int) -> Option<(Position, T)> {
        if index == 0 {
            self.first
        } else if index == 1 {
            self.second
        } else if index == 2 {
            self.third
        } else {
            self.fourth
        }
    }

    fn get(&self, index: u8) -> (entry: &Option<(Position, T)>)
        requires
            index < 4,
        ensures
            *entry == self.at(index as int),
    {
        match index {
            0 => &self.first,
            1 => &self.second,
            2 => &self.third,
            _ => &self.fourth,
        }
    }

    fn get_mut(&mut self, index: u8) -> (entry: &mut Option<(Position, T)>)
        requires
            index < 4,
        ensures
            *entry == old(self).at(index as int),
            final(self).at(index as int) == *final(entry),
            forall|i: int| 0 <= i < 4 && i != index ==> final(self).at(i) == old(self).at(i),
        no_unwind
    {
        match index {
            0 => &mut self.first,
            1 => &mut self.second,
            2 => &mut self.third,
            _ => &mut self.fourth,
        }
    }
}

/// A map that holds a value for some of the positions, remembering the order in which the
/// positions were inserted. Two maps are equal when they hold equal entries in the same order:
/// the storage past the entries is always empty.
#[derive(Debug, PartialEq, Eq, Hash)]
pub struct PartialMap<T> {
    length: u8,
    positions: Entries<T>,
}

/// The entries of `entries` that come before `length`, unwrapped.
pub open spec fn no_duplicate_positions<T>(entries: Seq<(Position, T)>) -> bool {
    forall|i: int, j: int|
        0 <= i < entries.len() && 0 <= j < entries.len() && i != j ==> #[trigger] entries[i].0
            != #[trigger] entries[j].0
}

/// The index of the entry whose position is `position`, if there is one.
pub open spec fn index_of<T>(entries: Seq<(Position, T)>, position: Position) -> Option<u8> {
    if exists|i: int| 0 <= i < entries.len() && #[trigger] entries[i].0 == position {
        Some((choose|i: int| 0 <= i < entries.len() && #[trigger] entries[i].0 == position) as u8)
    } else {
        None
    }
}

/// The outcome of inserting an entry into a map whose entries are `entries`: the new entries and
/// the index of the inserted one, or the index of the entry already at that position, or `None`
/// when all four positions are taken.
pub open spec fn insert_result<T>(entries: Seq<(Position, T)>, position: Position, data: T) -> Result<
    (Seq<(Position, T)>, u8),
    Option<u8>,
> {
    match index_of(entries, position) {
        Some(index) => Err(Some(index)),
        None => if entries.len() < 4 {
            Ok((entries.push((position, data)), entries.len() as u8))
        } else {
            Err(None)
        },
    }
}

/// The outcome of inserting `entries`, in order, into an empty map.
pub open spec fn build_result<T>(entries: Seq<(Position, T)>) -> Result<Seq<(Position, T)>, Option<u8>>
    decreases entries.len(),
{
    if entries.len() == 0 {
        Ok(Seq::empty())
    } else {
        match build_result(entries.drop_last()) {
            Err(error) => Err(error),
            Ok(built) => match insert_result(built, entries.last().0, entries.last().1) {
                Ok((inserted, _)) => Ok(inserted),
                Err(error) => Err(error),
            },
        }
    }
}

impl<T> PartialMap<T> {
    #[verifier::type_invariant]
    spec fn inv(self) -> bool {
        &&& self.length <= 4
        &&& forall|i: int| 0 <= i < self.length ==> (#[trigger] self.positions.at(i)) is Some
        &&& forall|i: int| self.length <= i < 4 ==> (#[trigger] self.positions.at(i)) is None
        &&& no_duplicate_positions(self@)
    }

    /// The entries, in insertion order.
    pub closed spec fn view(self) -> Seq<(Position, T)> {
        Seq::new(self.length as nat, |i: int| self.positions.at(i)->0)
    }

    pub fn empty() -> (map: Self)
        ensures
            map@ == Seq::<(Position, T)>::empty(),
    {
        let positions = Entries { first: None, second: None, third: None, fourth: None };
        assert(Seq::new(0, |i: int| positions.at(i)->0) =~= Seq::<(Position, T)>::empty());
        assert(no_duplicate_positions(Seq::new(0, |i: int| positions.at(i)->0)));
        let map = Self { length: 0, positions };
        assert(map@ =~= Seq::<(Position, T)>::empty());
        map
    }

    pub fn len(&self) -> (length: u8)
        ensures
            length == self@.len(),
            length <= 4,
            no_duplicate_positions(self@),
    {
        proof {
            use_type_invariant(self);
        }
        self.length
    }

    pub fn index_entry(&self, index: u8) -> (entry: Option<(Position, &T)>)
        ensures
            index < self@.len() ==> (entry matches Some(e) && e.0 == self@[index as int].0 && *e.1
                == self@[index as int].1),
            index >= self@.len() ==> entry is None,
    {
        proof {
            use_type_invariant(self);
        }
        if index >= self.length {
            return None;
        }
        match self.positions.get(index) {
            Some((position, value)) => Some((*position, value)),
            None => None,
        }
    }

    pub fn index_position(&self, index: u8) -> (position: Option<Position>)
        ensures
            index < self@.len() ==> position == Some(self@[index as int].0),
            index >= self@.len() ==> position is None,
    {
        match self.index_entry(index) {
            Some((position, _)) => Some(position),
            None => None,
        }
    }

    pub fn index_data(&self, index: u8) -> (data: Option<&T>)
        ensures
            index < self@.len() ==> (data matches Some(d) && *d == self@[index as int].1),
            index >= self@.len() ==> data is None,
    {
        match self.index_entry(index) {
            Some((_, data)) => Some(data),
            None => None,
        }
    }

    pub fn to_index(&self, position: Position) -> (index: Option<u8>)
        ensures
            index == index_of(self@, position),
            index matches Some(i) ==> i < self@.len() && self@[i as int].0 == position,
            no_duplicate_positions(self@),
            self@.len() <= 4,
    {
        proof {
            use_type_invariant(self);
        }
        let mut i: u8 = 0;
        while i < self.length
            invariant
                i <= self.length,
                self.length <= 4,
                forall|j: int| 0 <= j < self.length ==> (#[trigger] self.positions.at(j)) is Some,
                forall|j: int| 0 <= j < i ==> (#[trigger] self@[j]).0 != position,
                no_duplicate_positions(self@),
            decreases self.length - i,
        {
            let entry = self.positions.get(i);
            match entry {
                Some((stored, _)) => {
                    if *stored == position {
                        proof {
                            assert(self@[i as int].0 == position);
                            let c = choose|k: int|
                                0 <= k < self@.len() && #[trigger] self@[k].0 == position;
                            assert(c == i as int);
                        }
                        return Some(i);
                    }
                },
                None => {},
            }
            i = i + 1;
        }
        None
    }

    pub fn contains(&self, position: Position) -> (found: bool)
        ensures
            found == (exists|i: int| 0 <= i < self@.len() && #[trigger] self@[i].0 == position),
    {
        self.to_index(position).is_some()
    }

    pub fn data(&self, position: Position) -> (data: Option<&T>)
        ensures
            data is Some == (index_of(self@, position) is Some),
            data matches Some(d) ==> *d == self@[index_of(self@, position)->0 as int].1,
            no_duplicate_positions(self@),
    {
        match self.to_index(position) {
            Some(index) => self.index_data(index),
            None => None,
        }
    }

    pub fn insert(&mut self, position: Position, data: T) -> (result: Result<u8, Option<u8>>)
        ensures
            match insert_result(old(self)@, position, data) {
                Ok((entries, index)) => result == Ok::<u8, Option<u8>>(index) && final(self)@
                    == entries,
                Err(error) => result == Err::<u8, Option<u8>>(error) && final(self)@ == old(
                    self,
                )@,
            },
    {
        proof {
            use_type_invariant(&*self);
        }
        match self.to_index(position) {
            Some(index) => Err(Some(index)),
            None => {
                if self.length < 4 {
                    let index = self.length;
                    let ghost old_view = self@;
                    let mut taken = Self::empty();
                    core::mem::swap(self, &mut taken);
                    let PartialMap { length, mut positions } = taken;
                    let slot = positions.get_mut(index);
                    *slot = Some((position, data));
                    assert(Seq::new((length + 1) as nat, |i: int| positions.at(i)->0) =~= old_view.push((position, data)));
                    let mut updated = PartialMap { length: length + 1, positions };
                    core::mem::swap(self, &mut updated);
                    proof {
                        assert(self@ =~= old_view.push((position, data)));
                    }
                    Ok(index)
                } else {
                    Err(None)
                }
            },
        }
    }
}

/// A failure to build a prefix of the entries is a failure to build all of them.
pub proof fn lemma_build_result_error_extends<T>(entries: Seq<(Position, T)>, k: int)
    requires
        0 <= k <= entries.len(),
        build_result(entries.take(k)) is Err,
    ensures
        build_result(entries) == build_result(entries.take(k)),
    decreases entries.len() - k,
{
    if k < entries.len() {
        assert(entries.take(k + 1).drop_last() =~= entries.take(k));
        lemma_build_result_error_extends(entries, k + 1);
    } else {
        assert(entries.take(k) =~= entries);
    }
}

impl<T> PartialMap<T> {
    pub fn new(positions: Vec<(Position, T)>) -> (result: Result<Self, Option<u8>>)
        ensures
            match build_result(positions@) {
                Ok(entries) => result matches Ok(map) && map@ == entries,
                Err(error) => result == Err::<Self, Option<u8>>(error),
            },
    {
        let ghost all = positions@;
        assert(all.len() == positions.len());
        let mut rest = positions;
        let mut this = Self::empty();
        let mut k: usize = 0;
        assert(all.take(0) =~= Seq::<(Position, T)>::empty());
        while rest.len() > 0
            invariant
                k + rest@.len() == all.len(),
                all.len() <= usize::MAX,
                all == positions@,
                rest@ =~= all.skip(k as int),
                build_result(all.take(k as int)) == Ok::<Seq<(Position, T)>, Option<u8>>(this@),
            decreases rest@.len(),
        {
            let (position, data) = rest.remove(0);
            assert(all.take(k + 1).drop_last() =~= all.take(k as int));
            assert(all[k as int] == (position, data));
            assert(all.take(k + 1).last() == (position, data));
            let ghost before = this@;
            match this.insert(position, data) {
                Ok(_) => {},
                Err(error) => {
                    proof {
                        assert(insert_result(before, position, data) == Err::<(Seq<(Position, T)>, u8), Option<u8>>(error));
                        assert(build_result(all.take(k + 1)) == Err::<Seq<(Position, T)>, Option<u8>>(error));
                        lemma_build_result_error_extends(all, k + 1);
                    }
                    return Err(error);
                },
            }
            k = k + 1;
        }
        assert(all.take(k as int) =~= all);
        Ok(this)
    }

    pub fn iter(&self) -> (iter: PartialMapIter<'_, T>)
        ensures
            iter.remaining().len() == self@.len(),
            forall|i: int|
                0 <= i < self@.len() ==> (#[trigger] iter.remaining()[i]).0 == self@[i].0
                    && *iter.remaining()[i].1 == self@[i].1,
    {
        proof {
            use_type_invariant(self);
        }
        PartialMapIter { front: 0, back: self.length, map: self }
    }

    pub fn into_iter(self) -> (iter: PartialMapIntoIter<T>)
        ensures
            iter.remaining() == self@,
    {
        proof {
            use_type_invariant(&self);
        }
        let PartialMap { length, positions } = self;
        let iter = PartialMapIntoIter { front: 0, back: length, positions };
        assert(iter.remaining() =~= self@);
        iter
    }
}

/// Iterator over the entries of a `PartialMap`, by reference.
#[derive(Debug)]
pub struct PartialMapIter<'map, T> {
    front: u8,
    back: u8,
    map: &'map PartialMap<T>,
}

impl<'map, T> PartialMapIter<'map, T> {
    #[verifier::type_invariant]
    spec fn inv(self) -> bool {
        self.front <= self.back <= self.map@.len()
    }

    /// The entries that are still to be yielded, in order.
    pub closed spec fn remaining(self) -> Seq<(Position, &'map T)> {
        Seq::new(
            (self.back - self.front) as nat,
            |i: int| (self.map@[self.front + i].0, &self.map@[self.front + i].1),
        )
    }

    pub fn next(&mut self) -> (item: Option<(Position, &'map T)>)
        ensures
            old(self).remaining().len() == 0 ==> item is None && final(self).remaining()
                == old(self).remaining(),
            old(self).remaining().len() > 0 ==> item == Some(old(self).remaining()[0])
                && final(self).remaining() == old(self).remaining().drop_first(),
    {
        proof {
            use_type_invariant(&*self);
            use_type_invariant(self.map);
        }
        if self.front < self.back {
            let entry = self.map.positions.get(self.front);
            let (position, data) = entry.as_ref().unwrap();
            self.front = self.front + 1;
            assert(self.remaining() =~= old(self).remaining().drop_first());
            Some((*position, data))
        } else {
            None
        }
    }

    pub fn next_back(&mut self) -> (item: Option<(Position, &'map T)>)
        ensures
            old(self).remaining().len() == 0 ==> item is None && final(self).remaining()
                == old(self).remaining(),
            old(self).remaining().len() > 0 ==> item == Some(old(self).remaining().last())
                && final(self).remaining() == old(self).remaining().drop_last(),
    {
        proof {
            use_type_invariant(&*self);
            use_type_invariant(self.map);
        }
        if self.back > self.front {
            self.back = self.back - 1;
            let entry = self.map.positions.get(self.back);
            let (position, data) = entry.as_ref().unwrap();
            assert(self.remaining() =~= old(self).remaining().drop_last());
            Some((*position, data))
        } else {
            None
        }
    }
}

/// Iterator over the entries of a `PartialMap`, by value.
#[derive(Debug)]
pub struct PartialMapIntoIter<T> {
    front: u8,
    back: u8,
    positions: Entries<T>,
}

impl<T> PartialMapIntoIter<T> {
    #[verifier::type_invariant]
    spec fn inv(self) -> bool {
        &&& self.front <= self.back <= 4
        &&& forall|i: int| self.front <= i < self.back ==> (#[trigger] self.positions.at(i)) is Some
    }

    /// The entries that are still to be yielded, in order.
    pub closed spec fn remaining(self) -> Seq<(Position, T)> {
        Seq::new(
            (self.back - self.front) as nat,
            |i: int| self.positions.at(self.front + i)->0,
        )
    }

    pub fn next(&mut self) -> (item: Option<(Position, T)>)
        ensures
            old(self).remaining().len() == 0 ==> item is None && final(self).remaining()
                == old(self).remaining(),
            old(self).remaining().len() > 0 ==> item == Some(old(self).remaining()[0])
                && final(self).remaining() == old(self).remaining().drop_first(),
    {
        proof {
            use_type_invariant(&*self);
        }
        if self.front < self.back {
            let index = self.front;
            self.front = self.front + 1;
            let entry = self.positions.get_mut(index).take();
            assert(self.remaining() =~= old(self).remaining().drop_first());
            Some(entry.unwrap())
        } else {
            None
        }
    }

    pub fn next_back(&mut self) -> (item: Option<(Position, T)>)
        ensures
            old(self).remaining().len() == 0 ==> item is None && final(self).remaining()
                == old(self).remaining(),
            old(self).remaining().len() > 0 ==> item == Some(old(self).remaining().last())
                && final(self).remaining() == old(self).remaining().drop_last(),
    {
        proof {
            use_type_invariant(&*self);
        }
        if self.back > self.front {
            self.back = self.back - 1;
            let index = self.back;
            let entry = self.positions.get_mut(index).take();
            assert(self.remaining() =~= old(self).remaining().drop_last());
            Some(entry.unwrap())
        } else {
            None
        }
    }
}

} // verus!
