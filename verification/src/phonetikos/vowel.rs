use super::diacritic::Diacritic;
use super::{Cavity, Phonation};
use crate::diakritikos::slot::{hints, spec_hints};
use crate::diakritikos::{cluster_text, is_cluster_of, lemma_has_placement, GraphemeCluster};
use crate::diakritikos::Diacritic as DiacriticMark;
use vstd::prelude::*;

verus! {

#[derive(Debug, Clone, Copy, PartialEq, Eq, PartialOrd, Ord, Hash, Structural)]
pub enum Height {
    Open,
    Mid,
    Close,
}

#[derive(Debug, Clone, Copy, PartialEq, Eq, PartialOrd, Ord, Hash, Structural)]
pub enum Frontness {
    Front,
    Central,
    Back,
}

#[derive(Debug, Clone, Copy, PartialEq, Eq, PartialOrd, Ord, Hash, Structural)]
pub enum Roundedness {
    Unrounded,
    Rounded,
}

#[derive(Debug, Clone, Copy, PartialEq, Eq, PartialOrd, Ord, Hash, Structural)]
pub struct Vowel {
    pub height: Height,
    pub frontness: Frontness,
    pub roundedness: Roundedness,
    pub phonation: Phonation,
    pub cavity: Cavity,
    pub syllabic: bool,
}

/// The base character of a vowel and the diacritic that adjusts its quality, if any.
pub open spec fn vowel_base(vowel: Vowel) -> (char, Option<Diacritic>) {
    match (vowel.height, vowel.frontness, vowel.roundedness) {
        (Height::Open, Frontness::Front, Roundedness::Unrounded) => ('a', None),
        (Height::Open, Frontness::Front, Roundedness::Rounded) => ('ɶ', None),
        (Height::Open, Frontness::Central, Roundedness::Unrounded) => ('a', Some(Diacritic::Centralized)),
        (Height::Open, Frontness::Central, Roundedness::Rounded) => ('ɶ', Some(Diacritic::Centralized)),
        (Height::Open, Frontness::Back, Roundedness::Unrounded) => ('ɑ', None),
        (Height::Open, Frontness::Back, Roundedness::Rounded) => ('ɒ', None),
        (Height::Mid, Frontness::Front, Roundedness::Unrounded) => ('e', Some(Diacritic::Lowered)),
        (Height::Mid, Frontness::Front, Roundedness::Rounded) => ('ø', Some(Diacritic::Lowered)),
        (Height::Mid, Frontness::Central, Roundedness::Unrounded) => ('ə', None),
        (Height::Mid, Frontness::Central, Roundedness::Rounded) => ('ə', Some(Diacritic::Labialized)),
        (Height::Mid, Frontness::Back, Roundedness::Unrounded) => ('ɤ', Some(Diacritic::Lowered)),
        (Height::Mid, Frontness::Back, Roundedness::Rounded) => ('o', Some(Diacritic::Lowered)),
        (Height::Close, Frontness::Front, Roundedness::Unrounded) => ('i', None),
        (Height::Close, Frontness::Front, Roundedness::Rounded) => ('y', None),
        (Height::Close, Frontness::Central, Roundedness::Unrounded) => ('ɨ', None),
        (Height::Close, Frontness::Central, Roundedness::Rounded) => ('ʉ', None),
        (Height::Close, Frontness::Back, Roundedness::Unrounded) => ('ɯ', None),
        (Height::Close, Frontness::Back, Roundedness::Rounded) => ('u', None),
    }
}

pub open spec fn vowel_character(vowel: Vowel) -> char {
    vowel_base(vowel).0
}

/// The diacritics of a vowel, in order: quality, nasality, voicelessness, non-syllabicity.
pub open spec fn vowel_diacritics(vowel: Vowel) -> Seq<Diacritic> {
    (match vowel_base(vowel).1 {
        Some(d) => seq![d],
        None => Seq::empty(),
    }) + (if vowel.cavity == Cavity::Nasal {
        seq![Diacritic::Nasalized]
    } else {
        Seq::empty()
    }) + (if vowel.phonation == Phonation::Voiceless {
        seq![Diacritic::Voiceless]
    } else {
        Seq::empty()
    }) + (if !vowel.syllabic {
        seq![Diacritic::NonSyllabic]
    } else {
        Seq::empty()
    })
}

/// Whether `cluster` writes `vowel`.
pub open spec fn is_vowel_cluster(vowel: Vowel, cluster: GraphemeCluster<Diacritic>) -> bool {
    is_cluster_of(
        cluster,
        vowel_character(vowel),
        spec_hints(vowel_character(vowel))->0,
        vowel_diacritics(vowel),
    )
}

/// Vowels of different qualities (height, frontness, roundedness) are written differently:
/// by another base character, or by the same one with another quality diacritic. So a vowel's
/// written form tells its quality back: a rounded vowel is never written as its unrounded
/// counterpart, nor a front one as a central or back one.
pub proof fn lemma_vowel_qualities_distinct(v: Vowel, w: Vowel)
    requires
        v.height != w.height || v.frontness != w.frontness || v.roundedness != w.roundedness,
    ensures
        vowel_base(v) != vowel_base(w),
        vowel_character(v) != vowel_character(w) || vowel_diacritics(v) != vowel_diacritics(w),
{
    lemma_base_distinct(v, w);
    if vowel_character(v) == vowel_character(w) && vowel_diacritics(v) == vowel_diacritics(w) {
        let dv = vowel_diacritics(v);
        lemma_first_diacritic(v);
        lemma_first_diacritic(w);
        assert(vowel_base(v).1 == vowel_base(w).1);
    }
}

/// The quality diacritic, if any, comes first among a vowel's diacritics, and the others are
/// never quality diacritics.
proof fn lemma_first_diacritic(v: Vowel)
    ensures
        match vowel_base(v).1 {
            Some(d) => vowel_diacritics(v).len() > 0 && vowel_diacritics(v)[0] == d,
            None => vowel_diacritics(v).len() == 0 || !quality_diacritic(vowel_diacritics(v)[0]),
        },
        vowel_base(v).1 matches Some(d) ==> quality_diacritic(d),
{
}

/// Whether a diacritic adjusts a vowel's quality.
spec fn quality_diacritic(d: Diacritic) -> bool {
    d == Diacritic::Centralized || d == Diacritic::Lowered || d == Diacritic::Labialized
}

/// Different qualities have different bases.
#[verifier::spinoff_prover]
proof fn lemma_base_distinct(v: Vowel, w: Vowel)
    requires
        v.height != w.height || v.frontness != w.frontness || v.roundedness != w.roundedness,
    ensures
        vowel_base(v) != vowel_base(w),
{
    match v.height {
        Height::Open => match v.frontness {
            Frontness::Front => {},
            Frontness::Central => {},
            Frontness::Back => {},
        },
        Height::Mid => match v.frontness {
            Frontness::Front => {},
            Frontness::Central => {},
            Frontness::Back => {},
        },
        Height::Close => match v.frontness {
            Frontness::Front => {},
            Frontness::Central => {},
            Frontness::Back => {},
        },
    }
}

/// The base character of a vowel depends on its quality alone: nasality, voicelessness and
/// non-syllabicity only add diacritics after the quality's own.
pub proof fn lemma_vowel_base_by_quality(v: Vowel, w: Vowel)
    requires
        v.height == w.height && v.frontness == w.frontness && v.roundedness == w.roundedness,
    ensures
        vowel_base(v) == vowel_base(w),
{
}

impl Vowel {
    pub fn grapheme_cluster(self) -> (cluster: GraphemeCluster<Diacritic>)
        requires
            spec_hints(vowel_character(self)) is Some,
        ensures
            is_vowel_cluster(self, cluster),
    {
        let mut diacritics = Vec::new();
        let character = match (self.height, self.frontness, self.roundedness) {
            (Height::Open, Frontness::Front, Roundedness::Unrounded) => 'a',
            (Height::Open, Frontness::Front, Roundedness::Rounded) => 'ɶ',
            (Height::Open, Frontness::Central, Roundedness::Unrounded) => {
                diacritics.push(Diacritic::Centralized);
                'a'
            },
            (Height::Open, Frontness::Central, Roundedness::Rounded) => {
                diacritics.push(Diacritic::Centralized);
                'ɶ'
            },
            (Height::Open, Frontness::Back, Roundedness::Unrounded) => 'ɑ',
            (Height::Open, Frontness::Back, Roundedness::Rounded) => 'ɒ',
            (Height::Mid, Frontness::Front, Roundedness::Unrounded) => {
                diacritics.push(Diacritic::Lowered);
                'e'
            },
            (Height::Mid, Frontness::Front, Roundedness::Rounded) => {
                diacritics.push(Diacritic::Lowered);
                'ø'
            },
            (Height::Mid, Frontness::Central, Roundedness::Unrounded) => 'ə',
            (Height::Mid, Frontness::Central, Roundedness::Rounded) => {
                diacritics.push(Diacritic::Labialized);
                'ə'
            },
            (Height::Mid, Frontness::Back, Roundedness::Unrounded) => {
                diacritics.push(Diacritic::Lowered);
                'ɤ'
            },
            (Height::Mid, Frontness::Back, Roundedness::Rounded) => {
                diacritics.push(Diacritic::Lowered);
                'o'
            },
            (Height::Close, Frontness::Front, Roundedness::Unrounded) => 'i',
            (Height::Close, Frontness::Front, Roundedness::Rounded) => 'y',
            (Height::Close, Frontness::Central, Roundedness::Unrounded) => 'ɨ',
            (Height::Close, Frontness::Central, Roundedness::Rounded) => 'ʉ',
            (Height::Close, Frontness::Back, Roundedness::Unrounded) => 'ɯ',
            (Height::Close, Frontness::Back, Roundedness::Rounded) => 'u',
        };
        let ghost base = diacritics@;
        match self.cavity {
            Cavity::Oral => (),
            Cavity::Nasal => diacritics.push(Diacritic::Nasalized),
        }
        let ghost nasal = diacritics@;
        match self.phonation {
            Phonation::Voiced => (),
            Phonation::Voiceless => diacritics.push(Diacritic::Voiceless),
        }
        let ghost voice = diacritics@;
        if !self.syllabic {
            diacritics.push(Diacritic::NonSyllabic);
        }
        proof {
            assert(base =~= match vowel_base(self).1 {
                Some(d) => seq![d],
                None => Seq::empty(),
            });
            assert(diacritics@ =~= vowel_diacritics(self));
            assert forall|i: int| 0 <= i < diacritics@.len() implies (#[trigger] diacritics@[i].spec_renderings()).len() > 0 by {}
            lemma_has_placement(diacritics@, spec_hints(character)->0);
        }
        let slot_hints = hints(character).unwrap();
        GraphemeCluster::solve(character, slot_hints, diacritics).unwrap()
    }

    /// The vowel written as its character with its diacritics.
    pub fn to_string(&self) -> (text: String)
        requires
            spec_hints(vowel_character(*self)) is Some,
        ensures
            exists|cluster: GraphemeCluster<Diacritic>| #[trigger] cluster_text(cluster.character, cluster.slots) == text@
                && is_vowel_cluster(*self, cluster),
    {
        let cluster = self.grapheme_cluster();
        let text = cluster.to_string();
        assert(cluster_text(cluster.character, cluster.slots) == text@);
        text
    }
}

} // verus!
