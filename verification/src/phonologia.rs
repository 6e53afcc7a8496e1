//! Phonemes, and the conditions under which a phoneme is realized as one of its allophones.
use crate::phonetikos::Phone;
use vstd::prelude::*;

verus! {

/// A sound as the phonology sees it: a phoneme, or one of the phones realizing one.
#[derive(Debug, Clone, Copy, PartialEq, Eq, PartialOrd, Ord, Hash)]
pub enum Value {
    Phoneme(Phoneme),
    Allophone(Phone),
}

/// A condition on the sounds around a phoneme: always or never met, a sound that must or must
/// not be there, the negation of a condition, any or all of several, several in sequence, or a
/// condition given a name.
#[derive(Debug, PartialEq, Eq, PartialOrd, Ord, Hash)]
pub enum Cond {
    Always,
    Never,
    Eq(Value),
    Neq(Value),
    Not(Box<Cond>),
    Any(Box<[Cond]>),
    All(Box<[Cond]>),
    Sequence(Box<[Cond]>),
    Named(Box<str>, Box<Cond>),
}

/// A phoneme, known by its broad transcription.
#[derive(Debug, Clone, Copy, PartialEq, Eq, PartialOrd, Ord, Hash)]
pub struct Phoneme {
    pub broad: Phone,
}

/// A phoneme with its allophones, each phone listed once with the condition under which it is
/// used, in the order they were first given. Two specs are equal, and are ordered, by their
/// phoneme and then by their allophones in that order.
#[derive(Debug, PartialEq, Eq, PartialOrd, Ord, Hash)]
pub struct PhonemeSpec {
    pub phoneme: Phoneme,
    pub allophones: Vec<(Phone, Cond)>,
}

/// Whether no phone is listed twice.
pub open spec fn distinct_phones(allophones: Seq<(Phone, Cond)>) -> bool {
    forall|i: int, j: int|
        0 <= i < allophones.len() && 0 <= j < allophones.len() && i != j ==> #[trigger] allophones[i].0
            != #[trigger] allophones[j].0
}

impl PhonemeSpec {
    /// Whether each phone is listed once.
    pub open spec fn wf(&self) -> bool {
        distinct_phones(self.allophones@)
    }

    /// The phoneme, with no allophone yet.
    pub fn new(phoneme: Phoneme) -> (spec: Self)
        ensures
            spec.phoneme == phoneme,
            spec.allophones@ == Seq::<(Phone, Cond)>::empty(),
            spec.wf(),
    {
        PhonemeSpec { phoneme, allophones: Vec::new() }
    }

    /// Uses `phone` under `cond`. Where `phone` is listed already, its condition is replaced in
    /// place and the former one given back; otherwise it is listed last. Each phone stays
    /// listed once.
    pub fn insert_allophone(&mut self, phone: Phone, cond: Cond) -> (previous: Option<Cond>)
        requires
            old(self).wf(),
        ensures
            final(self).wf(),
            final(self).phoneme == old(self).phoneme,
            match previous {
                Some(former) => exists|i: int|
                    0 <= i < old(self).allophones@.len() && old(self).allophones@[i].0 == phone
                        && former == old(self).allophones@[i].1
                        && final(self).allophones@ == old(self).allophones@.update(i, (phone, cond)),
                None => (forall|i: int| 0 <= i < old(self).allophones@.len() ==> old(self).allophones@[i].0 != phone)
                    && final(self).allophones@ == old(self).allophones@.push((phone, cond)),
            },
    {
        let mut i: usize = 0;
        while i < self.allophones.len()
            invariant
                i <= self.allophones@.len(),
                old(self).wf(),
                self.allophones@ == old(self).allophones@,
                self.phoneme == old(self).phoneme,
                forall|k: int| 0 <= k < i ==> self.allophones@[k].0 != phone,
            decreases self.allophones.len() - i,
        {
            if self.allophones[i].0 == phone {
                let ghost before = self.allophones@;
                let (_, former) = self.allophones.remove(i);
                self.allophones.insert(i, (phone, cond));
                proof {
                    assert(self.allophones@ =~= before.update(i as int, (phone, cond)));
                    assert forall|a: int, b: int|
                        0 <= a < self.allophones@.len() && 0 <= b < self.allophones@.len() && a != b implies
                        #[trigger] self.allophones@[a].0 != #[trigger] self.allophones@[b].0 by {
                        if a != i && b != i {
                            assert(self.allophones@[a] == before[a] && self.allophones@[b] == before[b]);
                        } else if a == i {
                            assert(self.allophones@[b] == before[b]);
                            assert(before[i as int].0 == phone);
                        } else {
                            assert(self.allophones@[a] == before[a]);
                            assert(before[i as int].0 == phone);
                        }
                    }
                }
                return Some(former);
            }
            i = i + 1;
        }
        let ghost before = self.allophones@;
        self.allophones.push((phone, cond));
        proof {
            assert forall|a: int, b: int|
                0 <= a < self.allophones@.len() && 0 <= b < self.allophones@.len() && a != b implies
                #[trigger] self.allophones@[a].0 != #[trigger] self.allophones@[b].0 by {
                if a < before.len() {
                    assert(self.allophones@[a] == before[a]);
                }
                if b < before.len() {
                    assert(self.allophones@[b] == before[b]);
                }
            }
        }
        None
    }
}

} // verus!
