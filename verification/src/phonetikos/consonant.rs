use super::diacritic::Diacritic;
use super::{Cavity, Phonation};
use crate::diakritikos::slot::{hints, spec_hints};
use crate::diakritikos::{cluster_text, is_cluster_of, lemma_has_placement, GraphemeCluster};
use crate::diakritikos::Diacritic as DiacriticMark;
use vstd::prelude::*;

verus! {

#[derive(Debug, Clone, Copy, PartialEq, Eq, PartialOrd, Ord, Hash, Structural)]
pub enum Place {
    Labial,
    Alveolar,
    Velar,
}

#[derive(Debug, Clone, Copy, PartialEq, Eq, PartialOrd, Ord, Hash, Structural)]
pub enum Manner {
    Plosive,
    Fricative,
    Approximant,
}

/// The manner one step weaker: plosives weaken to fricatives, fricatives to
/// approximants, and approximants cannot weaken further.
pub open spec fn lenited(manner: Manner) -> Option<Manner> {
    match manner {
        Manner::Plosive => Some(Manner::Fricative),
        Manner::Fricative => Some(Manner::Approximant),
        Manner::Approximant => None,
    }
}

/// The manner one step stronger, the inverse of `lenited`.
pub open spec fn fortified(manner: Manner) -> Option<Manner> {
    match manner {
        Manner::Plosive => None,
        Manner::Fricative => Some(Manner::Plosive),
        Manner::Approximant => Some(Manner::Fricative),
    }
}

impl Manner {
    pub fn try_lenit(self) -> (lenited_manner: Option<Self>)
        ensures
            lenited_manner == lenited(self),
    {
        match self {
            Self::Plosive => Some(Self::Fricative),
            Self::Fricative => Some(Self::Approximant),
            Self::Approximant => None,
        }
    }

    pub fn try_fortify(self) -> (fortified_manner: Option<Self>)
        ensures
            fortified_manner == fortified(self),
    {
        match self {
            Self::Plosive => None,
            Self::Fricative => Some(Self::Plosive),
            Self::Approximant => Some(Self::Fricative),
        }
    }

    /// Weakens the manner by one step; the weakest manner stays as it is.
    pub fn lenit(&mut self)
        ensures
            *final(self) == match lenited(*old(self)) {
                Some(manner) => manner,
                None => *old(self),
            },
    {
        if let Some(manner) = self.try_lenit() {
            *self = manner;
        }
    }

    /// Strengthens the manner by one step; the strongest manner stays as it is.
    pub fn fortify(&mut self)
        ensures
            *final(self) == match fortified(*old(self)) {
                Some(manner) => manner,
                None => *old(self),
            },
    {
        if let Some(manner) = self.try_fortify() {
            *self = manner;
        }
    }
}

/// Lenition and fortition undo each other: whenever a manner can be weakened,
/// strengthening the result gives the manner back, and the other way round.
pub proof fn lemma_lenit_fortify_inverse(manner: Manner)
    ensures
        lenited(manner) matches Some(weaker) ==> fortified(weaker) == Some(manner),
        fortified(manner) matches Some(stronger) ==> lenited(stronger) == Some(manner),
        lenited(manner) is None <==> manner == Manner::Approximant,
        fortified(manner) is None <==> manner == Manner::Plosive,
{
}

#[derive(Debug, Clone, Copy, PartialEq, Eq, PartialOrd, Ord, Hash, Structural)]
pub struct Consonant {
    pub place: Place,
    pub manner: Manner,
    pub phonation: Phonation,
    pub cavity: Cavity,
    pub syllabic: bool,
}

/// The base character a consonant is written with.
pub open spec fn consonant_character(consonant: Consonant) -> char {
    match consonant.manner {
        Manner::Plosive => match consonant.cavity {
            Cavity::Oral => match (consonant.place, consonant.phonation) {
                (Place::Labial, Phonation::Voiceless) => 'p',
                (Place::Labial, Phonation::Voiced) => 'b',
                (Place::Alveolar, Phonation::Voiceless) => 't',
                (Place::Alveolar, Phonation::Voiced) => 'd',
                (Place::Velar, Phonation::Voiceless) => 'k',
                (Place::Velar, Phonation::Voiced) => 'g',
            },
            Cavity::Nasal => match consonant.place {
                Place::Labial => 'm',
                Place::Alveolar => 'n',
                Place::Velar => 'ŋ',
            },
        },
        Manner::Fricative => match (consonant.place, consonant.phonation) {
            (Place::Labial, Phonation::Voiceless) => 'ɸ',
            (Place::Labial, Phonation::Voiced) => 'β',
            (Place::Alveolar, Phonation::Voiceless) => 's',
            (Place::Alveolar, Phonation::Voiced) => 'z',
            (Place::Velar, Phonation::Voiceless) => 'x',
            (Place::Velar, Phonation::Voiced) => 'ɣ',
        },
        Manner::Approximant => match consonant.place {
            Place::Labial => 'ʋ',
            Place::Alveolar => 'ɹ',
            Place::Velar => 'ɰ',
        },
    }
}

/// `d` when `present` holds, nothing otherwise.
pub open spec fn mark_if(present: bool, d: Diacritic) -> Seq<Diacritic> {
    if present {
        seq![d]
    } else {
        Seq::empty()
    }
}

/// The diacritics of a consonant, in the order they are attached: a nasal
/// stop marks voicelessness, a fricative marks nasality, an approximant marks
/// voicelessness and then nasality, and syllabicity comes last.
pub open spec fn consonant_diacritics(consonant: Consonant) -> Seq<Diacritic> {
    let voiceless = consonant.phonation == Phonation::Voiceless;
    let nasal = consonant.cavity == Cavity::Nasal;
    (match consonant.manner {
        Manner::Plosive => mark_if(nasal && voiceless, Diacritic::Voiceless),
        Manner::Fricative => mark_if(nasal, Diacritic::Nasalized),
        Manner::Approximant => mark_if(voiceless, Diacritic::Voiceless) + mark_if(
            nasal,
            Diacritic::Nasalized,
        ),
    }) + mark_if(consonant.syllabic, Diacritic::Syllabic)
}

/// Whether `cluster` writes `consonant`.
pub open spec fn is_consonant_cluster(
    consonant: Consonant,
    cluster: GraphemeCluster<Diacritic>,
) -> bool {
    is_cluster_of(
        cluster,
        consonant_character(consonant),
        spec_hints(consonant_character(consonant))->0,
        consonant_diacritics(consonant),
    )
}

impl Consonant {
    pub fn grapheme_cluster(self) -> (cluster: GraphemeCluster<Diacritic>)
        requires
            spec_hints(consonant_character(self)) is Some,
        ensures
            is_consonant_cluster(self, cluster),
    {
        let mut diacritics = Vec::new();
        let character = match self.manner {
            Manner::Plosive => match self.cavity {
                Cavity::Oral => match (self.place, self.phonation) {
                    (Place::Labial, Phonation::Voiceless) => 'p',
                    (Place::Labial, Phonation::Voiced) => 'b',
                    (Place::Alveolar, Phonation::Voiceless) => 't',
                    (Place::Alveolar, Phonation::Voiced) => 'd',
                    (Place::Velar, Phonation::Voiceless) => 'k',
                    (Place::Velar, Phonation::Voiced) => 'g',
                },
                Cavity::Nasal => {
                    match self.phonation {
                        Phonation::Voiceless => diacritics.push(Diacritic::Voiceless),
                        Phonation::Voiced => (),
                    }
                    match self.place {
                        Place::Labial => 'm',
                        Place::Alveolar => 'n',
                        Place::Velar => 'ŋ',
                    }
                },
            },
            Manner::Fricative => {
                match self.cavity {
                    Cavity::Nasal => diacritics.push(Diacritic::Nasalized),
                    Cavity::Oral => (),
                }
                match (self.place, self.phonation) {
                    (Place::Labial, Phonation::Voiceless) => 'ɸ',
                    (Place::Labial, Phonation::Voiced) => 'β',
                    (Place::Alveolar, Phonation::Voiceless) => 's',
                    (Place::Alveolar, Phonation::Voiced) => 'z',
                    (Place::Velar, Phonation::Voiceless) => 'x',
                    (Place::Velar, Phonation::Voiced) => 'ɣ',
                }
            },
            Manner::Approximant => {
                match self.phonation {
                    Phonation::Voiced => (),
                    Phonation::Voiceless => diacritics.push(Diacritic::Voiceless),
                }
                match self.cavity {
                    Cavity::Nasal => diacritics.push(Diacritic::Nasalized),
                    Cavity::Oral => (),
                }
                match self.place {
                    Place::Labial => 'ʋ',
                    Place::Alveolar => 'ɹ',
                    Place::Velar => 'ɰ',
                }
            },
        };
        let ghost base = diacritics@;
        if self.syllabic {
            diacritics.push(Diacritic::Syllabic);
        }
        proof {
            let voiceless = self.phonation == Phonation::Voiceless;
            let nasal = self.cavity == Cavity::Nasal;
            assert(base =~= match self.manner {
                Manner::Plosive => mark_if(nasal && voiceless, Diacritic::Voiceless),
                Manner::Fricative => mark_if(nasal, Diacritic::Nasalized),
                Manner::Approximant => mark_if(voiceless, Diacritic::Voiceless) + mark_if(
                    nasal,
                    Diacritic::Nasalized,
                ),
            });
            assert(diacritics@ =~= consonant_diacritics(self));
            assert forall|i: int| 0 <= i < diacritics@.len() implies (
            #[trigger] diacritics@[i].spec_renderings()).len() > 0 by {}
            lemma_has_placement(diacritics@, spec_hints(character)->0);
        }
        let slot_hints = hints(character).unwrap();
        GraphemeCluster::solve(character, slot_hints, diacritics).unwrap()
    }

    /// The consonant written as its character with its diacritics.
    pub fn to_string(&self) -> (text: String)
        requires
            spec_hints(consonant_character(*self)) is Some,
        ensures
            exists|cluster: GraphemeCluster<Diacritic>| #[trigger] cluster_text(cluster.character, cluster.slots) == text@
                && is_consonant_cluster(*self, cluster),
    {
        let cluster = self.grapheme_cluster();
        let text = cluster.to_string();
        assert(cluster_text(cluster.character, cluster.slots) == text@);
        text
    }
}

} // verus!
