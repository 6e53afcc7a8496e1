//! Renumbering of automaton states: each old state gets the next free number the
//! first time it is seen.
use vstd::prelude::*;

verus! {

/// A one-to-one table from old state numbers to new ones.
pub(crate) struct Renaming {
    pub(crate) pairs: Vec<(u128, u128)>,
}

/// The table as a map, for pairs whose old numbers differ.
pub(crate) open spec fn pairs_map(pairs: Seq<(u128, u128)>) -> Map<int, int> {
    Map::new(
        |k: int| exists|i: int| 0 <= i < pairs.len() && (#[trigger] pairs[i]).0 == k,
        |k: int| pairs[choose|i: int| 0 <= i < pairs.len() && (#[trigger] pairs[i]).0 == k].1 as int,
    )
}

impl Renaming {
    pub(crate) open spec fn view(&self) -> Map<int, int> {
        pairs_map(self.pairs@)
    }

    /// No old number nor new number occurs twice.
    pub(crate) open spec fn wf(&self) -> bool {
        forall|i: int, j: int|
            0 <= i < j < self.pairs@.len() ==> (#[trigger] self.pairs@[i]).0 != (
            #[trigger] self.pairs@[j]).0 && self.pairs@[i].1 != self.pairs@[j].1
    }

    /// Every new number is below `bound`.
    pub(crate) open spec fn below(&self, bound: int) -> bool {
        forall|i: int| 0 <= i < self.pairs@.len() ==> (#[trigger] self.pairs@[i]).1 < bound
    }

    pub(crate) proof fn lemma_lookup(&self, i: int)
        requires
            self.wf(),
            0 <= i < self.pairs@.len(),
        ensures
            self@.contains_key(self.pairs@[i].0 as int),
            self@[self.pairs@[i].0 as int] == self.pairs@[i].1,
    {
        let k = self.pairs@[i].0 as int;
        let j = choose|j: int| 0 <= j < self.pairs@.len() && (#[trigger] self.pairs@[j]).0 == k;
        if j != i {
            if j < i {
                assert(self.pairs@[j].0 != self.pairs@[i].0);
            } else {
                assert(self.pairs@[i].0 != self.pairs@[j].0);
            }
        }
    }

    /// The table is one-to-one and its new numbers are below `bound`.
    pub(crate) proof fn lemma_injective(&self, bound: int)
        requires
            self.wf(),
            self.below(bound),
        ensures
            self@.is_injective(),
            forall|k: int| #[trigger] self@.contains_key(k) ==> self@[k] < bound,
    {
        assert forall|a: int, b: int|
            #[trigger] self@.contains_key(a) && #[trigger] self@.contains_key(b) && a != b implies self@[a]
            != self@[b] by {
            let i = choose|i: int| 0 <= i < self.pairs@.len() && (#[trigger] self.pairs@[i]).0 == a;
            let j = choose|j: int| 0 <= j < self.pairs@.len() && (#[trigger] self.pairs@[j]).0 == b;
            self.lemma_lookup(i);
            self.lemma_lookup(j);
            if i < j {
                assert(self.pairs@[i].1 != self.pairs@[j].1);
            } else {
                assert(self.pairs@[j].1 != self.pairs@[i].1);
            }
        }
        assert forall|k: int| #[trigger] self@.contains_key(k) implies self@[k] < bound by {
            let i = choose|i: int| 0 <= i < self.pairs@.len() && (#[trigger] self.pairs@[i]).0 == k;
            self.lemma_lookup(i);
        }
    }

    /// A table with `key` numbered `new`.
    pub(crate) fn single(key: u128, new: u128) -> (renaming: Self)
        ensures
            renaming.wf(),
            renaming@ == map![key as int => new as int],
            renaming.below(new + 1),
            renaming.pairs@.len() == 1,
    {
        let renaming = Renaming { pairs: vec![(key, new)] };
        proof {
            renaming.lemma_lookup(0);
            assert(renaming@ =~= map![key as int => new as int]);
        }
        renaming
    }

    /// The new number of `key`, if it has one.
    pub(crate) fn get(&self, key: u128) -> (new: Option<u128>)
        requires
            self.wf(),
        ensures
            new is Some <==> self@.contains_key(key as int),
            new matches Some(n) ==> self@[key as int] == n,
    {
        let mut i: usize = 0;
        while i < self.pairs.len()
            invariant
                self.wf(),
                i <= self.pairs.len(),
                forall|j: int| 0 <= j < i ==> (#[trigger] self.pairs@[j]).0 != key,
            decreases self.pairs.len() - i,
        {
            if self.pairs[i].0 == key {
                proof {
                    self.lemma_lookup(i as int);
                }
                return Some(self.pairs[i].1);
            }
            i += 1;
        }
        None
    }

    /// The new number of `key`; the next free number, taken from `counter`, the
    /// first time `key` is seen.
    pub(crate) fn rename(&mut self, key: u128, counter: &mut u128) -> (new: u128)
        requires
            old(self).wf(),
            old(self).below(*old(counter) as int),
            *old(counter) < u128::MAX,
        ensures
            final(self).wf(),
            final(self).below(*final(counter) as int),
            final(self)@.contains_key(key as int),
            final(self)@[key as int] == new,
            final(self).pairs@.len() == old(self).pairs@.len() + if old(self)@.contains_key(key as int) {
                0int
            } else {
                1int
            },
            old(self)@.contains_key(key as int) ==> final(self)@ == old(self)@ && *final(counter)
                == *old(counter),
            !old(self)@.contains_key(key as int) ==> final(self)@ == old(self)@.insert(
                key as int,
                new as int,
            ) && new == *old(counter) && *final(counter) == *old(counter) + 1,
    {
        match self.get(key) {
            Some(new) => new,
            None => {
                let new = *counter;
                let ghost before = *self;
                self.pairs.push((key, new));
                *counter = new + 1;
                proof {
                    assert forall|i: int, j: int|
                        0 <= i < j < self.pairs@.len() implies (#[trigger] self.pairs@[i]).0 != (
                        #[trigger] self.pairs@[j]).0 && self.pairs@[i].1 != self.pairs@[j].1 by {
                        if j == self.pairs@.len() - 1 {
                            assert(self.pairs@[i] == before.pairs@[i]);
                            if before.pairs@[i].0 == key {
                                before.lemma_lookup(i);
                            }
                        } else {
                            assert(self.pairs@[i] == before.pairs@[i]);
                            assert(self.pairs@[j] == before.pairs@[j]);
                        }
                    }
                    assert forall|i: int| 0 <= i < self.pairs@.len() implies (
                    #[trigger] self.pairs@[i]).1 < *counter by {
                        if i < before.pairs@.len() {
                            assert(self.pairs@[i] == before.pairs@[i]);
                        }
                    }
                    self.lemma_lookup(self.pairs@.len() - 1);
                    assert forall|k: int| #[trigger] before@.contains_key(k) implies self@.contains_key(k)
                        && self@[k] == before@[k] by {
                        let i = choose|i: int|
                            0 <= i < before.pairs@.len() && (#[trigger] before.pairs@[i]).0 == k;
                        before.lemma_lookup(i);
                        assert(self.pairs@[i] == before.pairs@[i]);
                        self.lemma_lookup(i);
                    }
                    assert forall|k: int| #[trigger] self@.contains_key(k) implies k == key as int
                        || before@.contains_key(k) by {
                        let i = choose|i: int|
                            0 <= i < self.pairs@.len() && (#[trigger] self.pairs@[i]).0 == k;
                        if i < before.pairs@.len() {
                            assert(self.pairs@[i] == before.pairs@[i]);
                        }
                    }
                    assert(self@ =~= before@.insert(key as int, new as int));
                }
                new
            },
        }
    }
}

} // verus!
