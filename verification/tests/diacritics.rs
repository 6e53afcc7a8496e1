use glossa::diakritikos::pos::{PartialMap, TotalMap};
use glossa::diakritikos::slot::Hint;
use glossa::diakritikos::{solve, Diacritic, GraphemeCluster, Position, Slot};

#[derive(Debug, Clone, Copy, PartialEq, Eq, PartialOrd, Ord, Hash)]
enum PhoneticDiacritic {
    Nasalized,
    Lowered,
    Voiceless,
}

impl Diacritic for PhoneticDiacritic {
    fn renderings(&self) -> PartialMap<&str> {
        match self {
            PhoneticDiacritic::Nasalized => {
                PartialMap::new(vec![(Position::Top, "\u{0303}")]).unwrap()
            },
            PhoneticDiacritic::Lowered => PartialMap::new(vec![
                (Position::Bottom, "\u{031e}"),
                (Position::Left, "\u{02d5}"),
            ])
            .unwrap(),
            PhoneticDiacritic::Voiceless => PartialMap::new(vec![
                (Position::Bottom, "\u{0325}"),
                (Position::Top, "\u{030a}"),
            ])
            .unwrap(),
        }
    }
}

#[test]
fn single_diacritic() {
    let solution = solve(TotalMap::default(), vec![PhoneticDiacritic::Nasalized]).unwrap();
    assert_eq!(solution, TotalMap {
        top: Slot { diacritics: vec![PhoneticDiacritic::Nasalized] },
        left: Slot { diacritics: Vec::new() },
        bottom: Slot { diacritics: Vec::new() },
        right: Slot { diacritics: Vec::new() },
    });
}

#[test]
fn triple_diacritic() {
    let solution = solve(TotalMap::default(), vec![
        PhoneticDiacritic::Nasalized,
        PhoneticDiacritic::Lowered,
        PhoneticDiacritic::Voiceless,
    ])
    .unwrap();

    assert_eq!(solution, TotalMap {
        top: Slot { diacritics: vec![PhoneticDiacritic::Nasalized] },
        left: Slot { diacritics: vec![PhoneticDiacritic::Lowered] },
        bottom: Slot { diacritics: vec![PhoneticDiacritic::Voiceless] },
        right: Slot { diacritics: Vec::new() },
    });
}

#[test]
fn no_diacritic_leaves_every_slot_empty() {
    let solution = solve::<PhoneticDiacritic>(TotalMap::default(), Vec::new()).unwrap();
    assert_eq!(solution, TotalMap::default());
}

#[test]
fn obstructed_slot_is_avoided() {
    let hints = TotalMap {
        top: Hint::Regular,
        left: Hint::Obstructed,
        bottom: Hint::Regular,
        right: Hint::Regular,
    };
    let solution =
        solve(hints, vec![PhoneticDiacritic::Lowered, PhoneticDiacritic::Nasalized]).unwrap();
    assert_eq!(solution.bottom, Slot { diacritics: vec![PhoneticDiacritic::Lowered] });
    assert_eq!(solution.top, Slot { diacritics: vec![PhoneticDiacritic::Nasalized] });
}

#[test]
fn grapheme_cluster_renders_around_its_character() {
    let cluster = GraphemeCluster::solve(
        'e',
        TotalMap::default(),
        vec![PhoneticDiacritic::Nasalized, PhoneticDiacritic::Lowered],
    )
    .unwrap();
    assert_eq!(cluster.character, 'e');
    assert_eq!(cluster.slots.top, Slot { diacritics: vec![PhoneticDiacritic::Nasalized] });
    assert_eq!(cluster.slots.bottom, Slot { diacritics: vec![PhoneticDiacritic::Lowered] });
    assert_eq!(cluster.to_string(), "e\u{0303}\u{031e}");
}

#[test]
fn partial_map_refuses_a_position_twice() {
    let map = PartialMap::new(vec![(Position::Top, 1u8), (Position::Top, 2u8)]);
    assert!(map.is_err());
    let map = PartialMap::new(vec![(Position::Right, 1u8), (Position::Left, 2u8)]).unwrap();
    assert_eq!(map.len(), 2);
    assert_eq!(map.to_index(Position::Left), Some(1));
    assert_eq!(map.to_index(Position::Top), None);
    assert_eq!(map.data(Position::Right), Some(&1));
}

#[test]
fn total_map_writes_through_iter_mut_in_order() {
    let mut map = TotalMap { top: 1u32, left: 2, bottom: 3, right: 4 };
    let mut iter = map.iter_mut();
    let mut seen = Vec::new();
    let mut step = 10;
    while let Some((position, value)) = iter.next() {
        seen.push((position, *value));
        *value += step;
        step += 10;
    }
    assert_eq!(seen, vec![
        (Position::Left, 2),
        (Position::Top, 1),
        (Position::Bottom, 3),
        (Position::Right, 4),
    ]);
    assert_eq!(map, TotalMap { left: 12, top: 21, bottom: 33, right: 44 });
}

#[test]
fn partial_maps_are_equal_by_their_entries_in_order() {
    let first = PartialMap::new(vec![(Position::Top, 1), (Position::Left, 2)]).unwrap();
    let same = PartialMap::new(vec![(Position::Top, 1), (Position::Left, 2)]).unwrap();
    let swapped = PartialMap::new(vec![(Position::Left, 2), (Position::Top, 1)]).unwrap();
    let shorter = PartialMap::new(vec![(Position::Top, 1)]).unwrap();
    assert_eq!(first, same);
    assert_ne!(first, swapped);
    assert_ne!(first, shorter);
}

#[test]
fn total_map_mapping_composes() {
    let map = TotalMap { top: 1u32, left: 2, bottom: 3, right: 4 };
    assert_eq!(map.map(|x| x), map);
    assert_eq!(map.map(|x| x + 1).map(|x| x * 10), map.map(|x| (x + 1) * 10));
    assert_eq!(map.map(|x| x * 2), TotalMap { top: 2, left: 4, bottom: 6, right: 8 });
}
