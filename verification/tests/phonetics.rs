use glossa::phonetikos::consonant::{Consonant, Manner, Place};
use glossa::phonetikos::vowel::{Frontness, Height, Roundedness, Vowel};
use glossa::phonetikos::{Cavity, Phonation, Phone};
use glossa::phonologia::{Cond, Phoneme, PhonemeSpec, Value};

#[test]
fn mid_e_nasal_voiceless_non_syllabic() {
    let vowel = Vowel {
        roundedness: Roundedness::Unrounded,
        height: Height::Mid,
        frontness: Frontness::Front,
        cavity: Cavity::Nasal,
        phonation: Phonation::Voiceless,
        syllabic: false,
    };
    assert_eq!(vowel.to_string(), "e\u{303}\u{325}\u{32f}\u{2d5}");
}

#[test]
fn syllabic_voiceless_nasal_labial_approximant() {
    let consonant = Consonant {
        place: Place::Labial,
        manner: Manner::Approximant,
        cavity: Cavity::Nasal,
        phonation: Phonation::Voiceless,
        syllabic: true,
    };
    assert_eq!(consonant.to_string(), "\u{28b}\u{303}\u{325}\u{329}");
}

#[test]
fn lenition_then_fortition_comes_back() {
    let mut manner = Manner::Plosive;
    manner.lenit();
    assert_eq!(manner, Manner::Fricative);
    manner.fortify();
    assert_eq!(manner, Manner::Plosive);
    assert_eq!(Manner::Plosive.try_fortify(), None);
    assert_eq!(Manner::Approximant.try_lenit(), None);
}

fn vowel(height: Height, phonation: Phonation) -> Phone {
    Phone::Vowel(Vowel {
        roundedness: Roundedness::Unrounded,
        height,
        frontness: Frontness::Front,
        cavity: Cavity::Oral,
        phonation,
        syllabic: true,
    })
}

#[test]
fn phoneme_specs_compare_by_phoneme_then_allophones_in_order() {
    let e = vowel(Height::Mid, Phonation::Voiced);
    let e_voiceless = vowel(Height::Mid, Phonation::Voiceless);
    let i = vowel(Height::Close, Phonation::Voiced);
    let phoneme = Phoneme { broad: e };
    let spec = PhonemeSpec {
        phoneme,
        allophones: vec![(e_voiceless, Cond::Eq(Value::Allophone(i))), (e, Cond::Always)],
    };
    let same = PhonemeSpec {
        phoneme,
        allophones: vec![(e_voiceless, Cond::Eq(Value::Allophone(i))), (e, Cond::Always)],
    };
    let reordered = PhonemeSpec {
        phoneme,
        allophones: vec![(e, Cond::Always), (e_voiceless, Cond::Eq(Value::Allophone(i)))],
    };
    assert_eq!(spec, same);
    assert_ne!(spec, reordered);
    assert_eq!(spec.cmp(&reordered), spec.allophones.cmp(&reordered.allophones));
    let other = PhonemeSpec { phoneme: Phoneme { broad: i }, allophones: Vec::new() };
    assert_eq!(spec.cmp(&other), e.cmp(&i));
}

#[test]
fn allophones_are_listed_once() {
    let e = vowel(Height::Mid, Phonation::Voiced);
    let e_voiceless = vowel(Height::Mid, Phonation::Voiceless);
    let mut spec = PhonemeSpec::new(Phoneme { broad: e });
    assert!(spec.insert_allophone(e_voiceless, Cond::Never).is_none());
    assert!(spec.insert_allophone(e, Cond::Always).is_none());
    assert_eq!(spec.insert_allophone(e_voiceless, Cond::Eq(Value::Phoneme(Phoneme { broad: e }))), Some(Cond::Never));
    assert_eq!(spec.allophones, vec![
        (e_voiceless, Cond::Eq(Value::Phoneme(Phoneme { broad: e }))),
        (e, Cond::Always),
    ]);
}
