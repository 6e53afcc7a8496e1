use vstd::laws_eq::obeys_concrete_eq;
use vstd::prelude::*;

verus! {

/// A type with finitely many values.
pub trait Countable {
    /// How many values the type has.
    const COUNT: usize;

    /// Whether `COUNT` is the true count, no product of counts having overflowed.
    spec fn count_exact() -> bool;
}

impl Countable for () {
    const COUNT: usize = 0x1;

    open spec fn count_exact() -> bool {
        true
    }
}

impl<A: Countable, B: Countable> Countable for (A, B) {
    const COUNT: usize = A::COUNT * B::COUNT;

    open spec fn count_exact() -> bool {
        A::count_exact() && B::count_exact() && A::COUNT * B::COUNT <= usize::MAX
    }
}

impl Countable for bool {
    const COUNT: usize = 0x2;

    open spec fn count_exact() -> bool {
        true
    }
}

impl Countable for u8 {
    const COUNT: usize = 0x100;

    open spec fn count_exact() -> bool {
        true
    }
}

impl Countable for i8 {
    const COUNT: usize = 0x100;

    open spec fn count_exact() -> bool {
        true
    }
}

impl Countable for u16 {
    const COUNT: usize = 0x100_00;

    open spec fn count_exact() -> bool {
        true
    }
}

impl Countable for i16 {
    const COUNT: usize = 0x100_00;

    open spec fn count_exact() -> bool {
        true
    }
}

/// A countable type whose values are numbered from zero.
pub trait ToIndex: Countable {
    /// The number of a value.
    spec fn index_of(&self) -> nat;

    /// Every value's number is below the count.
    proof fn lemma_index_in_range(&self)
        requires
            Self::count_exact(),
        ensures
            self.index_of() < Self::COUNT,
    ;

    fn to_index(&self) -> (index: usize)
        requires
            Self::count_exact(),
        ensures
            index == self.index_of(),
            index < Self::COUNT,
    ;
}

impl ToIndex for () {
    open spec fn index_of(&self) -> nat {
        0
    }

    proof fn lemma_index_in_range(&self) {
    }

    fn to_index(&self) -> (index: usize) {
        0
    }
}

impl<A: ToIndex, B: ToIndex> ToIndex for (A, B) {
    open spec fn index_of(&self) -> nat {
        (self.0.index_of() * B::COUNT + self.1.index_of()) as nat
    }

    proof fn lemma_index_in_range(&self) {
        self.0.lemma_index_in_range();
        self.1.lemma_index_in_range();
        let first = self.0.index_of();
        let second = self.1.index_of();
        assert(first * B::COUNT + second < A::COUNT * B::COUNT) by (nonlinear_arith)
            requires
                first < A::COUNT,
                second < B::COUNT,
        ;
    }

    fn to_index(&self) -> (index: usize) {
        let first = self.0.to_index();
        let second = self.1.to_index();
        proof {
            assert(first * B::COUNT + second < A::COUNT * B::COUNT) by (nonlinear_arith)
                requires
                    first < A::COUNT,
                    second < B::COUNT,
            ;
        }
        first * B::COUNT + second
    }
}

impl ToIndex for bool {
    open spec fn index_of(&self) -> nat {
        if *self { 1 } else { 0 }
    }

    proof fn lemma_index_in_range(&self) {
    }

    fn to_index(&self) -> (index: usize) {
        if *self { 1 } else { 0 }
    }
}

impl ToIndex for u8 {
    open spec fn index_of(&self) -> nat {
        *self as nat
    }

    proof fn lemma_index_in_range(&self) {
    }

    fn to_index(&self) -> (index: usize) {
        *self as usize
    }
}

impl ToIndex for i8 {
    open spec fn index_of(&self) -> nat {
        (*self as u8) as nat
    }

    proof fn lemma_index_in_range(&self) {
    }

    fn to_index(&self) -> (index: usize) {
        (*self as u8) as usize
    }
}

impl ToIndex for u16 {
    open spec fn index_of(&self) -> nat {
        *self as nat
    }

    proof fn lemma_index_in_range(&self) {
    }

    fn to_index(&self) -> (index: usize) {
        *self as usize
    }
}

impl ToIndex for i16 {
    open spec fn index_of(&self) -> nat {
        (*self as u16) as nat
    }

    proof fn lemma_index_in_range(&self) {
    }

    fn to_index(&self) -> (index: usize) {
        (*self as u16) as usize
    }
}

/// A countable type whose values can be found from their numbers.
pub trait FromIndex: Countable + Sized {
    /// The value numbered `index`.
    spec fn value_at(index: nat) -> Self;

    fn from_index(index: usize) -> (value: Self)
        requires
            Self::count_exact(),
            index < Self::COUNT,
        ensures
            value == Self::value_at(index as nat),
    ;
}

impl FromIndex for () {
    open spec fn value_at(index: nat) -> Self {
        ()
    }

    fn from_index(_index: usize) -> (value: Self) {
        ()
    }
}

impl<A: FromIndex, B: FromIndex> FromIndex for (A, B) {
    open spec fn value_at(index: nat) -> Self {
        (A::value_at(index / (B::COUNT as nat)), B::value_at(index % (B::COUNT as nat)))
    }

    fn from_index(index: usize) -> (value: Self) {
        proof {
            assert(index / B::COUNT < A::COUNT) by (nonlinear_arith)
                requires
                    index < A::COUNT * B::COUNT,
                    B::COUNT > 0,
            ;
        }
        (A::from_index(index / B::COUNT), B::from_index(index % B::COUNT))
    }
}

impl FromIndex for bool {
    open spec fn value_at(index: nat) -> Self {
        index == 1
    }

    fn from_index(index: usize) -> (value: Self) {
        let values = [false, true];
        values[index]
    }
}

impl FromIndex for u8 {
    open spec fn value_at(index: nat) -> Self {
        index as u8
    }

    fn from_index(index: usize) -> (value: Self) {
        index as Self
    }
}

impl FromIndex for i8 {
    open spec fn value_at(index: nat) -> Self {
        index as i8
    }

    fn from_index(index: usize) -> (value: Self) {
        index as Self
    }
}

impl FromIndex for u16 {
    open spec fn value_at(index: nat) -> Self {
        index as u16
    }

    fn from_index(index: usize) -> (value: Self) {
        index as Self
    }
}

impl FromIndex for i16 {
    open spec fn value_at(index: nat) -> Self {
        index as i16
    }

    fn from_index(index: usize) -> (value: Self) {
        index as Self
    }
}

/// A type whose values are numbered both ways.
pub trait Indexable: ToIndex + FromIndex {}

impl<T> Indexable for T where T: ToIndex + FromIndex + ?Sized {}

/// Whether symbols of type `T` compare by value and clone to equal values, as
/// the keys of a hash map must.
pub open spec fn lawful_symbol<T: PartialEq + Clone>() -> bool {
    &&& obeys_concrete_eq::<T>()
    &&& forall|a: T, b: T| #[trigger] vstd::pervasive::strictly_cloned(a, b) ==> a == b
}

/// Compares two symbols.
pub fn same_symbol<T: PartialEq + Clone>(a: &T, b: &T) -> (same: bool)
    requires
        lawful_symbol::<T>(),
    ensures
        same == (*a == *b),
{
    proof {
        reveal(obeys_concrete_eq);
    }
    *a == *b
}

/// Copies a symbol.
pub fn copy_symbol<T: PartialEq + Clone>(a: &T) -> (b: T)
    requires
        lawful_symbol::<T>(),
    ensures
        b == *a,
{
    let b = a.clone();
    assert(vstd::pervasive::strictly_cloned(*a, b));
    b
}

} // verus!
