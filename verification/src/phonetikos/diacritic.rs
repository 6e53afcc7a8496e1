use crate::diakritikos::pos::{build_result, PartialMap, Position, TotalMap};
use crate::diakritikos::slot::Hint;
use crate::diakritikos::{rendering_text, Diacritic as DiacriticMark};
use vstd::prelude::*;

verus! {

/// The diacritics used to write phones.
#[derive(Debug, Clone, Copy, PartialEq, Eq, PartialOrd, Ord, Hash, Structural)]
pub enum Diacritic {
    Nasalized,
    Lowered,
    Voiced,
    Voiceless,
    Centralized,
    NonSyllabic,
    Syllabic,
    Labialized,
}

/// Builds a map from entries whose positions are all different.
fn distinct_renderings(entries: Vec<(Position, &'static str)>) -> (map: PartialMap<&'static str>)
    requires
        build_result(entries@) is Ok,
    ensures
        map@ == build_result(entries@)->Ok_0,
{
    match PartialMap::new(entries) {
        Ok(map) => map,
        Err(_) => PartialMap::empty(),
    }
}

fn one_entry(position: Position, text: &'static str) -> (entries: Vec<(Position, &'static str)>)
    ensures
        entries@ == seq![(position, text)],
        build_result(entries@) == Ok::<Seq<(Position, &'static str)>, Option<u8>>(entries@),
{
    let mut entries = Vec::new();
    entries.push((position, text));
    proof {
        let e = entries@;
        let empty = Seq::<(Position, &'static str)>::empty();
        assert(e.drop_last() =~= empty);
        assert(build_result(empty) == Ok::<Seq<(Position, &'static str)>, Option<u8>>(empty));
        assert(!(exists|i: int| 0 <= i < empty.len() && #[trigger] empty[i].0 == position));
        assert(e =~= empty.push((position, text)));
    }
    entries
}

fn two_entries(
    first: Position,
    first_text: &'static str,
    second: Position,
    second_text: &'static str,
) -> (entries: Vec<(Position, &'static str)>)
    requires
        first != second,
    ensures
        entries@ == seq![(first, first_text), (second, second_text)],
        build_result(entries@) == Ok::<Seq<(Position, &'static str)>, Option<u8>>(entries@),
{
    let mut entries = Vec::new();
    entries.push((first, first_text));
    entries.push((second, second_text));
    proof {
        let e = entries@;
        let a = e.drop_last();
        let empty = Seq::<(Position, &'static str)>::empty();
        assert(a.drop_last() =~= empty);
        assert(build_result(empty) == Ok::<Seq<(Position, &'static str)>, Option<u8>>(empty));
        assert(!(exists|i: int| 0 <= i < empty.len() && #[trigger] empty[i].0 == first));
        assert(a =~= empty.push((first, first_text)));
        assert(build_result(a) == Ok::<Seq<(Position, &'static str)>, Option<u8>>(a));
        assert(!(exists|i: int| 0 <= i < a.len() && #[trigger] a[i].0 == second));
        assert(e =~= a.push((second, second_text)));
    }
    entries
}

impl DiacriticMark for Diacritic {
    open spec fn spec_renderings(&self) -> Seq<(Position, Seq<char>)> {
        match self {
            Diacritic::Nasalized => seq![(Position::Top, seq!['\u{0303}'])],
            Diacritic::Lowered => seq![
                (Position::Bottom, seq!['\u{031e}']),
                (Position::Right, seq!['\u{02d5}']),
            ],
            Diacritic::Voiced => seq![(Position::Bottom, seq!['\u{032c}'])],
            Diacritic::Voiceless => seq![
                (Position::Bottom, seq!['\u{0325}']),
                (Position::Top, seq!['\u{030a}']),
            ],
            Diacritic::Centralized => seq![(Position::Top, seq!['\u{0308}'])],
            Diacritic::NonSyllabic => seq![
                (Position::Bottom, seq!['\u{032f}']),
                (Position::Top, seq!['\u{0311}']),
            ],
            Diacritic::Syllabic => seq![
                (Position::Bottom, seq!['\u{0329}']),
                (Position::Top, seq!['\u{030d}']),
            ],
            Diacritic::Labialized => seq![(Position::Right, seq!['ʷ'])],
        }
    }

    fn renderings(&self) -> (map: PartialMap<&str>) {
        let entries = match self {
            Diacritic::Nasalized => one_entry(Position::Top, "\u{0303}"),
            Diacritic::Lowered => two_entries(Position::Bottom, "\u{031e}", Position::Right, "\u{02d5}"),
            Diacritic::Voiced => one_entry(Position::Bottom, "\u{032c}"),
            Diacritic::Voiceless => two_entries(Position::Bottom, "\u{0325}", Position::Top, "\u{030a}"),
            Diacritic::Centralized => one_entry(Position::Top, "\u{0308}"),
            Diacritic::NonSyllabic => two_entries(Position::Bottom, "\u{032f}", Position::Top, "\u{0311}"),
            Diacritic::Syllabic => two_entries(Position::Bottom, "\u{0329}", Position::Top, "\u{030d}"),
            Diacritic::Labialized => one_entry(Position::Right, "ʷ"),
        };
        proof {
            reveal_strlit("\u{0303}");
            reveal_strlit("\u{031e}");
            reveal_strlit("\u{02d5}");
            reveal_strlit("\u{032c}");
            reveal_strlit("\u{0325}");
            reveal_strlit("\u{030a}");
            reveal_strlit("\u{0308}");
            reveal_strlit("\u{032f}");
            reveal_strlit("\u{0311}");
            reveal_strlit("\u{0329}");
            reveal_strlit("\u{030d}");
            reveal_strlit("ʷ");
        }
        let map = distinct_renderings(entries);
        proof {
            assert(rendering_text(map@) =~~= self.spec_renderings());
        }
        map
    }
}

/// The places around `character` that its own shape takes, by the older table of the base
/// letters: a letter with a descender takes its top slot as it is written here, one with an
/// ascender its bottom slot; `None` for a character the table does not know.
pub open spec fn slot_hint_spec(character: char) -> Option<TotalMap<Hint>> {
    let regular = TotalMap {
        top: Hint::Regular,
        left: Hint::Regular,
        bottom: Hint::Regular,
        right: Hint::Regular,
    };
    if character == 'a' || character == 'ɑ' || character == 'b' || character == 'c' || character
        == 'd' || character == 'e' || character == 'ɛ' || character == 'h' || character == 'i'
        || character == 'k' || character == 'm' || character == 'n' || character == 'o'
        || character == 'ɔ' || character == 'p' || character == 'q' || character == 'r'
        || character == 's' || character == 'u' || character == 'v' || character == 'w'
        || character == 'x' || character == 'z' {
        Some(regular)
    } else if character == 'g' || character == 'j' || character == 'ŋ' || character == 'y' {
        Some(TotalMap { top: Hint::Obstructed, ..regular })
    } else if character == 'f' || character == 'l' || character == 't' {
        Some(TotalMap { bottom: Hint::Obstructed, ..regular })
    } else {
        None
    }
}

/// The places around `character` that its own shape takes, by the older table of the base
/// letters.
pub fn slot_hint(character: char) -> (result: Option<TotalMap<Hint>>)
    ensures
        result == slot_hint_spec(character),
{
    let top_and_bottom = TotalMap {
        top: Hint::Regular,
        left: Hint::Regular,
        bottom: Hint::Regular,
        right: Hint::Regular,
    };
    let top = TotalMap { top: Hint::Obstructed, ..top_and_bottom };
    let bottom = TotalMap { bottom: Hint::Obstructed, ..top_and_bottom };
    match character {
        'a' | 'ɑ' | 'b' | 'c' | 'd' | 'e' | 'ɛ' | 'h' | 'i' | 'k' | 'm' | 'n' | 'o' | 'ɔ' | 'p'
        | 'q' | 'r' | 's' | 'u' | 'v' | 'w' | 'x' | 'z' => Some(top_and_bottom),
        'g' | 'j' | 'ŋ' | 'y' => Some(top),
        'f' | 'l' | 't' => Some(bottom),
        _ => None,
    }
}

} // verus!
