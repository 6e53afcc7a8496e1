use super::pos::{index_of, Position, TotalMap};
use super::Diacritic;
use vstd::prelude::*;

verus! {

/// Whether a place around a character is free for diacritics or already taken by the
/// character's own shape.
#[derive(Debug, Clone, Copy, PartialEq, Eq, PartialOrd, Ord, Hash, Structural)]
pub enum Hint {
    Regular,
    Obstructed,
}

impl Default for Hint {
    fn default() -> (hint: Self)
        ensures
            hint == Hint::Regular,
    {
        Hint::Regular
    }
}

/// The diacritics drawn at one place around a character, in drawing order.
#[derive(Debug, Clone, PartialEq, Eq, PartialOrd, Ord, Hash)]
pub struct Slot<D> where D: Diacritic {
    pub diacritics: Vec<D>,
}

impl<D> Default for Slot<D> where D: Diacritic {
    fn default() -> (slot: Self)
        ensures
            slot.diacritics@ == Seq::<D>::empty(),
    {
        Self { diacritics: Vec::new() }
    }
}

/// The text a diacritic draws at a position, if it can be drawn there.
pub open spec fn rendering_at<D: Diacritic>(diacritic: D, position: Position) -> Option<Seq<char>> {
    match index_of(diacritic.spec_renderings(), position) {
        Some(index) => Some(diacritic.spec_renderings()[index as int].1),
        None => None,
    }
}

/// The text drawn for a sequence of diacritics at a position: the concatenation of the
/// renderings of those that can be drawn there.
pub open spec fn render_all<D: Diacritic>(diacritics: Seq<D>, position: Position) -> Seq<char>
    decreases diacritics.len(),
{
    if diacritics.len() == 0 {
        Seq::empty()
    } else {
        render_all(diacritics.drop_last(), position) + match rendering_at(
            diacritics.last(),
            position,
        ) {
            Some(text) => text,
            None => Seq::empty(),
        }
    }
}

impl<D> Slot<D> where D: Diacritic {
    /// Appends the renderings of this slot's diacritics at `position` to `out`.
    pub fn render(&self, position: Position, out: &mut String)
        ensures
            final(out)@ == old(out)@ + render_all(self.diacritics@, position),
    {
        let mut i: usize = 0;
        while i < self.diacritics.len()
            invariant
                i <= self.diacritics@.len(),
                out@ == old(out)@ + render_all(self.diacritics@.take(i as int), position),
            decreases self.diacritics@.len() - i,
        {
            let renderings = self.diacritics[i].renderings();
            assert(self.diacritics@.take(i + 1).drop_last() =~= self.diacritics@.take(i as int));
            match renderings.data(position) {
                Some(rendered) => {
                    proof {
                        super::lemma_renderings_index(self.diacritics@[i as int], renderings@, position);
                    }
                    out.append(rendered);
                },
                None => {
                    proof {
                        super::lemma_renderings_index(self.diacritics@[i as int], renderings@, position);
                    }
                },
            }
            assert(out@ =~= old(out)@ + render_all(self.diacritics@.take(i + 1), position));
            i = i + 1;
        }
        assert(self.diacritics@.take(i as int) =~= self.diacritics@);
    }
}

/// The places around `character` that its own shape already takes, for the characters the
/// library knows.
pub open spec fn spec_hints(character: char) -> Option<TotalMap<Hint>> {
    let regular = TotalMap {
        top: Hint::Regular,
        left: Hint::Regular,
        bottom: Hint::Regular,
        right: Hint::Regular,
    };
    if character == 'a' || character == 'ɑ' || character == 'b' || character == 'c' || character
        == 'd' || character == 'e' || character == 'ɛ' || character == 'h' || character == 'i'
        || character == 'k' || character == 'm' || character == 'n' || character == 'o'
        || character == 'ɔ' || character == 'p' || character == 'q' || character == 'r'
        || character == 'ɹ' || character == 's' || character == 'u' || character == 'v'
        || character == 'ʋ' || character == 'w' || character == 'ɰ' || character == 'x'
        || character == 'z' {
        Some(regular)
    } else if character == 'g' || character == 'j' || character == 'ŋ' || character == 'y' {
        Some(TotalMap { top: Hint::Obstructed, ..regular })
    } else if character == 'f' || character == 'l' || character == 't' {
        Some(TotalMap { bottom: Hint::Obstructed, ..regular })
    } else {
        None
    }
}

fn regular_hints() -> (map: TotalMap<Hint>)
    ensures
        map == (TotalMap {
            top: Hint::Regular,
            left: Hint::Regular,
            bottom: Hint::Regular,
            right: Hint::Regular,
        }),
{
    TotalMap { top: Hint::Regular, left: Hint::Regular, bottom: Hint::Regular, right: Hint::Regular }
}

pub fn hints(character: char) -> (result: Option<TotalMap<Hint>>)
    ensures
        result == spec_hints(character),
{
    let top_and_bottom = regular_hints();
    let top = TotalMap { top: Hint::Obstructed, ..regular_hints() };
    let bottom = TotalMap { bottom: Hint::Obstructed, ..regular_hints() };
    match character {
        'a' | 'ɑ' | 'b' | 'c' | 'd' | 'e' | 'ɛ' | 'h' | 'i' | 'k' | 'm' | 'n' | 'o' | 'ɔ' | 'p'
        | 'q' | 'r' | 'ɹ' | 's' | 'u' | 'v' | 'ʋ' | 'w' | 'ɰ' | 'x' | 'z' => Some(top_and_bottom),
        'g' | 'j' | 'ŋ' | 'y' => Some(top),
        'f' | 'l' | 't' => Some(bottom),
        _ => None,
    }
}

} // verus!
