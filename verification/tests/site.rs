use glossa::paideia::location::{Fragment, Id, InternalLoc, InternalPath, InvalidInternalLoc};
use glossa::paideia::site::{Directory, Entry};

/// A page of the test site; the directory only carries it.
#[derive(Debug, Clone, PartialEq, Eq)]
struct Page {
    title: String,
}

fn make_directory() -> Directory<Page> {
    Directory {
        entries: [
            (
                Fragment::new("avocado").unwrap(),
                Entry::Directory(Directory {
                    entries: [
                        (
                            Fragment::new("apple").unwrap(),
                            Entry::Page(Page { title: String::from("My Page") }),
                        ),
                        (Fragment::new("audio.ogg").unwrap(), Entry::Resource),
                    ]
                    .into_iter()
                    .collect(),
                }),
            ),
            (Fragment::new("pineapple").unwrap(), Entry::Resource),
        ]
        .into_iter()
        .collect(),
    }
}

#[test]
fn access_fragment_valid() {
    let dir = make_directory();
    assert!(dir.get(Fragment::new("avocado").unwrap()).unwrap().is_directory());
}

#[test]
fn access_fragment_invalid() {
    let dir = make_directory();
    assert!(dir.get(Fragment::new("grapes").unwrap()).is_none());
}

#[test]
fn access_internal_path_valid() {
    let dir = make_directory();
    assert!(dir.get(InternalPath::parse("avocado/apple").unwrap()).unwrap().is_page());
}

#[test]
fn access_internal_path_invalid() {
    let dir = make_directory();
    assert!(dir.get(InternalPath::parse("avocado/grapes").unwrap()).is_none());
}

#[test]
fn access_through_a_resource_fails() {
    let dir = make_directory();
    assert!(dir.get(InternalPath::parse("pineapple/apple").unwrap()).is_none());
    assert!(dir.get(InternalPath::parse("").unwrap()).unwrap().is_directory());
    assert!(dir.get(&InternalPath::parse("avocado/audio.ogg").unwrap()).unwrap().is_resource());
    match dir.get(InternalPath::parse("avocado/apple").unwrap()) {
        Some(Entry::Page(page)) => assert_eq!(page.title, "My Page"),
        _ => panic!("the page was not found"),
    }
}

#[test]
fn entries_by_mutable_reference_write_through() {
    let mut entry: Entry<u8, ()> = Entry::Page(3);
    if let Entry::Page(page) = entry.by_mut() {
        *page = 4;
    }
    assert_eq!(entry, Entry::Page(4));
    assert!(entry.by_ref().is_page());
}

#[test]
fn eq_index() {
    let left = InternalPath::parse("langs/div-prt/phonology").unwrap();
    let right = InternalPath::parse("langs/div-prt/phonology/index.html").unwrap();
    assert!(left.eq_index(&right));
    assert!(right.eq_index(&left));
    assert!(!left.eq_index(&InternalPath::parse("langs/div-prt/index.html").unwrap()));
}

#[test]
fn fragments_and_ids_follow_their_rules() {
    assert!(Fragment::new("").is_err());
    assert!(Fragment::new(".").is_err());
    assert!(Fragment::new("..").is_err());
    assert!(Fragment::new("a/b").is_err());
    assert!(Fragment::new("a#b").is_err());
    assert_eq!(Fragment::new("...").unwrap().as_str(), "...");
    assert!(Id::new("hello-world_2").is_ok());
    assert!(Id::new("2hello").is_err());
    assert!(Id::new("").is_err());
    assert!(Id::new("h\u{e9}").is_err());
    assert!(InternalPath::parse("a//b").is_err());
    assert!(InternalPath::parse("a/").is_err());
    let path = InternalPath::parse("a/b/c").unwrap();
    assert_eq!(path.fragments.len(), 3);
    assert_eq!(path.dir_depth(), 2);
    assert_eq!(path.to_string(), "a/b/c");
    assert!(InternalPath::root().is_root());
    assert_eq!(InternalPath::root().dir_depth(), 0);
    let longer = path.append(Fragment::new("d").unwrap());
    assert_eq!(longer.to_string(), "a/b/c/d");
}

#[test]
fn internal_locations_split_at_the_last_hash() {
    let location = InternalLoc::parse("langs/phonology#vowels").unwrap();
    assert_eq!(location.path.to_string(), "langs/phonology");
    assert_eq!(location.id.as_ref().unwrap().as_str(), "vowels");
    assert_eq!(location.to_string(), "langs/phonology#vowels");
    let plain = InternalLoc::parse("langs").unwrap();
    assert!(plain.id.is_none());
    assert!(matches!(InternalLoc::parse("a#b#c"), Err(InvalidInternalLoc::Fragment(_))));
    assert!(matches!(InternalLoc::parse("a#9"), Err(InvalidInternalLoc::Id(_))));
    assert_eq!(
        InternalLoc::parse("a#9").unwrap_err().to_string(),
        "Invalid ID string"
    );
    let from_path = InternalLoc::from(InternalPath::parse("x").unwrap());
    assert!(from_path.id.is_none());
}

#[test]
fn entries_are_changed_through_get_mut() {
    let mut dir = make_directory();
    match dir.get_mut(&Fragment::new("pineapple").unwrap()) {
        Some(entry) => *entry = Entry::Page(Page { title: String::from("Pine") }),
        None => panic!("pineapple is in the directory"),
    }
    assert!(dir.get(Fragment::new("pineapple").unwrap()).unwrap().is_page());
    assert!(dir.get_mut(&Fragment::new("grapes").unwrap()).is_none());
    assert!(dir.get(Fragment::new("avocado").unwrap()).unwrap().is_directory());
}
