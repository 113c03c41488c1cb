use linkage::charset::CharSet;
use linkage::keyboard::Layout;
use linkage::profile::{Active, List, Name, Profile};
use linkage::session::Hit;
use linkage::session::Line;
use linkage::training::Difficulty;
use linkage::words::{Setting, Words};
use linkage::zipper_list::{Item, ZipperList};

fn strings(words: &[&str]) -> Vec<String> {
    words.iter().map(|w| w.to_string()).collect()
}

#[test]
fn name_parsing_accepts_trimmed_bounded_names() {
    assert!(Name::parse("Alice").is_some());
    assert!(Name::parse("A").is_some());
    assert!(Name::parse("123456789012345678901234").is_some());
    assert!(Name::parse("").is_none());
    assert!(Name::parse(" Alice").is_none());
    assert!(Name::parse("Alice ").is_none());
    assert!(Name::parse("1234567890123456789012345").is_none());
    let n = Name::parse("Alice").unwrap();
    assert_eq!(n.as_str(), "Alice");
    assert_eq!(n.clone(), n);
}

#[test]
fn fresh_profile_unlocks_the_layout_seed() {
    let p = Profile::new(Name::parse("Alice").unwrap(), Layout::Qwerty);
    assert_eq!(p.layout, Layout::Qwerty);
    assert_eq!(p.difficulty, Difficulty::Normal);
    assert_eq!(p.words, Setting::Dictionary);
    let set = p.state.char_set();
    assert_eq!(set.to_vec(), vec!['a', 's', 'd', 'f', 'e', 'j']);
    let d = Profile::default();
    assert_eq!(d.name.as_str(), "Default Profile");
}

#[test]
fn activation_round_trip_keeps_the_setting() {
    let p = Profile::new(Name::parse("Alice").unwrap(), Layout::Qwerty);
    let set = p.state.char_set();
    let words = Words::dictionary(strings(&["as", "sad", "fade", "jade"]), &set);
    let active = Active::activate(p, words);
    let back = active.into_profile();
    assert_eq!(back.words, Setting::Dictionary);
    assert_eq!(back.layout, Layout::Qwerty);
}

#[test]
fn active_add_line_forwards_to_the_state() {
    let p = Profile::new(Name::parse("Alice").unwrap(), Layout::Qwerty);
    let set = p.state.char_set();
    let words = Words::dictionary(strings(&["as", "sad", "fade", "jade"]), &set);
    let mut active = Active::activate(p, words);
    // A line of clean hits is folded in; no unlock yet.
    let mut ctx = Hit::new(' ', ' ');
    ctx.finalize(0, 300);
    let mut hits = vec![ctx];
    for c in ['a', 's', 'd', 'f'] {
        let mut h = Hit::new(c, ' ');
        h.finalize(0, 300);
        hits.push(h);
    }
    let r = active.add_line(Line::new(hits, 1));
    assert!(r.is_none());
}

#[test]
fn list_tracks_the_active_profile() {
    let mut list = List::new(Profile::new(Name::parse("Alice").unwrap(), Layout::Qwerty));
    assert_eq!(list.len(), 1);
    assert_eq!(list.active().name.as_str(), "Alice");

    list.insert_active(Profile::new(Name::parse("Bob").unwrap(), Layout::Dvorak));
    assert_eq!(list.len(), 2);
    assert_eq!(list.active().name.as_str(), "Bob");

    let names = list.names();
    assert_eq!(names.len(), 2);
    assert_eq!(names[0].0.as_str(), "Alice");
    assert!(!names[0].1);
    assert_eq!(names[1].0.as_str(), "Bob");
    assert!(names[1].1);

    assert!(list.contains_name(&Name::parse("Alice").unwrap()));
    assert!(!list.contains_name(&Name::parse("Carol").unwrap()));

    assert!(list.select(0));
    assert_eq!(list.active().name.as_str(), "Alice");
    assert!(!list.select(0));
    assert!(!list.select(7));
}

#[test]
fn list_active_mut_edits_in_place() {
    let mut list = List::new(Profile::new(Name::parse("Alice").unwrap(), Layout::Qwerty));
    list.active_mut().difficulty = Difficulty::Strict;
    assert_eq!(list.active().difficulty, Difficulty::Strict);
}

#[test]
fn zipper_list_select_moves_the_cursor() {
    let mut z: ZipperList<u32, u32> = ZipperList::from_parts((vec![1, 2], 3, vec![4, 5]));
    assert_eq!(z.len(), 5);
    assert_eq!(*z.current(), 3u32);

    // Walking the list marks the current element.
    let items = z.iter();
    assert_eq!(items.len(), 5);
    match items[2] {
        Item::Current(u) => assert_eq!(*u, 3u32),
        Item::Other(_) => panic!("position 2 is the cursor"),
    }
    match items[0] {
        Item::Other(t) => assert_eq!(*t, 1u32),
        Item::Current(_) => panic!("position 0 is stored"),
    }

    // Selecting the current position or out of range is a no-op.
    assert!(!z.select(2));
    assert!(!z.select(9));

    // Selecting behind the cursor rotates the old current into the tail.
    assert!(z.select(0));
    assert_eq!(*z.current(), 1u32);
    let parts = z.into_parts();
    assert_eq!(parts.0, Vec::<u32>::new());
    assert_eq!(parts.1, 1u32);
    assert_eq!(parts.2, vec![2, 3, 4, 5]);

    // Selecting ahead of the cursor moves the passed elements behind it.
    let mut z2: ZipperList<u32, u32> = ZipperList::from_parts((vec![1, 2], 3, vec![4, 5]));
    assert!(z2.select(4));
    assert_eq!(*z2.current(), 5u32);
    let parts2 = z2.into_parts();
    assert_eq!(parts2.0, vec![1, 2, 3, 4]);
    assert_eq!(parts2.1, 5u32);
    assert_eq!(parts2.2, Vec::<u32>::new());

    let mut z3: ZipperList<u32, u32> = ZipperList::new(7u32);
    z3.push(8);
    assert_eq!(z3.len(), 2);
    *z3.current_mut() = 9;
    assert_eq!(*z3.current(), 9u32);
}

#[test]
fn unlock_widens_the_session_word_source() {
    // Drive an active profile until the state unlocks a character; the
    // returned set holds the seed plus the next layout character.
    let p = Profile::new(Name::parse("Alice").unwrap(), Layout::Qwerty);
    let seed = p.state.char_set().to_vec();
    let words = Words::dictionary(strings(&["as", "sad", "fade", "jade"]), &p.state.char_set());
    let mut active = Active::activate(p, words);
    let mut unlocked: Option<CharSet> = None;
    for round in 0..80 {
        let mut ctx = Hit::new(' ', ' ');
        ctx.finalize(0, 300);
        let mut hits = vec![ctx];
        for &c in &seed {
            let mut h = Hit::new(c, ' ');
            h.finalize(0, 300);
            hits.push(h);
        }
        if let Some(set) = active.add_line(Line::new(hits, round)) {
            unlocked = Some(set);
            break;
        }
    }
    let set = unlocked.expect("clean fast lines must unlock");
    assert_eq!(set.len(), seed.len() + 1);
    // Qwerty's seventh unlock character follows the six seed characters.
    assert!(set.contains('k'));
    assert_eq!(active.session.words_setting(), Setting::Dictionary);
}
