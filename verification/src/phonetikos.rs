pub mod consonant;
pub mod diacritic;
pub mod vowel;

use consonant::{consonant_character, consonant_diacritics, Consonant};
use crate::diakritikos::{cluster_text, GraphemeCluster};
use diacritic::Diacritic;
use crate::diakritikos::slot::spec_hints;
use vowel::{vowel_character, vowel_diacritics, Vowel};
use vstd::prelude::*;

verus! {

#[derive(Debug, Clone, Copy, PartialEq, Eq, PartialOrd, Ord, Hash, Structural)]
pub enum Phonation {
    Voiceless,
    Voiced,
}

#[derive(Debug, Clone, Copy, PartialEq, Eq, PartialOrd, Ord, Hash, Structural)]
pub enum Cavity {
    Nasal,
    Oral,
}

/// A speech sound.
#[derive(Debug, Clone, Copy, PartialEq, Eq, PartialOrd, Ord, Hash, Structural)]
pub enum Phone {
    Consonant(Consonant),
    Vowel(Vowel),
}

/// The character a phone is written with.
pub open spec fn phone_character(phone: Phone) -> char {
    match phone {
        Phone::Vowel(vowel) => vowel_character(vowel),
        Phone::Consonant(consonant) => consonant_character(consonant),
    }
}

/// Whether the library knows the shape of the character a phone is written with.
pub open spec fn is_writable(phone: Phone) -> bool {
    spec_hints(phone_character(phone)) is Some
}

impl Phone {
    pub fn syllabic(self) -> (syllabic: bool)
        ensures
            syllabic == match self {
                Phone::Vowel(vowel) => vowel.syllabic,
                Phone::Consonant(consonant) => consonant.syllabic,
            },
    {
        match self {
            Phone::Vowel(vowel) => vowel.syllabic,
            Phone::Consonant(consonant) => consonant.syllabic,
        }
    }

    pub fn cavity(self) -> (cavity: Cavity)
        ensures
            cavity == match self {
                Phone::Vowel(vowel) => vowel.cavity,
                Phone::Consonant(consonant) => consonant.cavity,
            },
    {
        match self {
            Phone::Vowel(vowel) => vowel.cavity,
            Phone::Consonant(consonant) => consonant.cavity,
        }
    }

    pub fn phonation(self) -> (phonation: Phonation)
        ensures
            phonation == match self {
                Phone::Vowel(vowel) => vowel.phonation,
                Phone::Consonant(consonant) => consonant.phonation,
            },
    {
        match self {
            Phone::Vowel(vowel) => vowel.phonation,
            Phone::Consonant(consonant) => consonant.phonation,
        }
    }

    /// The phone written as its character with its diacritics.
    pub fn to_string(&self) -> (text: String)
        requires
            is_writable(*self),
        ensures
            exists|cluster: GraphemeCluster<Diacritic>| #[trigger] cluster_text(cluster.character, cluster.slots) == text@
                && match *self {
                Phone::Vowel(vowel) => vowel::is_vowel_cluster(vowel, cluster),
                Phone::Consonant(consonant) => consonant::is_consonant_cluster(consonant, cluster),
            },
    {
        match self {
            Phone::Vowel(vowel) => vowel.to_string(),
            Phone::Consonant(consonant) => consonant.to_string(),
        }
    }
}

} // verus!
