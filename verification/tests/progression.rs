use linkage::keyboard::Layout;
use linkage::session::{Hit, Line};
use linkage::stats::WordsPerMinute;
use linkage::training::{Difficulty, Event, Snapshot, State, CLEAN_SCALE, MIN_CLEAN_PCT};

/// A clean hit on `target` that took 300 ms: 40 wpm.
fn clean_hit(target: char) -> Hit {
    let mut h = Hit::new(target, ' ');
    h.finalize(0, 300);
    h
}

/// A hit on `target` that had a wrong key pressed first.
fn dirty_hit(target: char) -> Hit {
    let mut h = Hit::new(target, ' ');
    h.add_miss('x');
    h.finalize(0, 300);
    h
}

/// A line whose first (context) hit is a dummy, followed by the given hits.
fn line_of(hits: Vec<Hit>, time: u64) -> Line {
    let mut all = vec![clean_hit(' ')];
    all.extend(hits);
    Line::new(all, time)
}

fn snapshot(state: &State) -> Vec<(char, WordsPerMinute, WordsPerMinute, u32)> {
    state
        .stats_snapshot()
        .into_iter()
        .map(|(c, r)| (c, r.wpm_mean, r.wpm_harmonic_mean, r.clean_per_myriad))
        .collect()
}

#[test]
fn new_state_starts_zeroed_with_seed_events() {
    let state = State::new(vec!['a', 's']);
    let events = state.events().clone();
    assert_eq!(events.len(), 2);
    match events[0] {
        Event::Unlock { letter, .. } => assert_eq!(letter, 'a'),
    }
    match events[1] {
        Event::Unlock { letter, .. } => assert_eq!(letter, 's'),
    }
    for (_, mean, harmonic, clean) in snapshot(&state) {
        assert_eq!(mean, WordsPerMinute(0));
        assert_eq!(harmonic, WordsPerMinute(0));
        assert_eq!(clean, 0);
    }
}

#[test]
fn one_clean_hit_updates_the_records_exactly() {
    let mut state = State::new(vec!['a', 's']);
    let r = state.add_line(
        line_of(vec![clean_hit('a')], 7),
        &Layout::Qwerty,
        &Difficulty::Normal,
    );
    assert!(r.is_none());
    let snap = snapshot(&state);
    let a = snap.iter().find(|e| e.0 == 'a').unwrap();
    // One 300 ms sample: 40 wpm; one full clean signal smoothed from zero:
    // 10000 / 11 = 909.
    assert_eq!(a.1, WordsPerMinute(4000));
    assert_eq!(a.2, WordsPerMinute(4000));
    assert_eq!(a.3, 909);
    let s = snap.iter().find(|e| e.0 == 's').unwrap();
    assert_eq!(s.3, 0);
}

#[test]
fn dirty_hit_contributes_no_speed_sample_and_decays_accuracy() {
    let mut state = State::new(vec!['a']);
    state.add_line(line_of(vec![clean_hit('a')], 1), &Layout::Qwerty, &Difficulty::Normal);
    let before = snapshot(&state);
    state.add_line(line_of(vec![dirty_hit('a')], 2), &Layout::Qwerty, &Difficulty::Normal);
    let after = snapshot(&state);
    // The speed window gained nothing; the clean fraction decayed: 909
    // becomes 10 * 909 / 11 = 826.
    assert_eq!(after[0].1, before[0].1);
    assert_eq!(after[0].2, before[0].2);
    assert_eq!(after[0].3, 826);
}

#[test]
fn the_first_hit_of_a_line_is_context_only() {
    let mut state = State::new(vec!['a']);
    // The only hit of this line is its first: nothing may change.
    let r = state.add_line(
        Line::new(vec![clean_hit('a')], 5),
        &Layout::Qwerty,
        &Difficulty::Normal,
    );
    assert!(r.is_none());
    let snap = snapshot(&state);
    assert_eq!(snap[0].3, 0);
    assert_eq!(snap[0].1, WordsPerMinute(0));
}

#[test]
fn add_line_with_no_hits_changes_nothing() {
    let mut state = State::new(vec!['a', 's', 'd', 'f']);
    let before = snapshot(&state);
    let before_set = state.char_set().to_vec();
    let before_events = state.events().len();
    for t in [1u64, 2] {
        let r = state.add_line(Line::new(Vec::new(), t), &Layout::Qwerty, &Difficulty::Normal);
        assert!(r.is_none());
    }
    assert_eq!(snapshot(&state), before);
    assert_eq!(state.char_set().to_vec(), before_set);
    assert_eq!(state.events().len(), before_events);
}

/// Drive a state with lines of clean 40-wpm hits, evenly spread over the
/// seed characters, until a character unlocks.
fn drive_until_unlock(state: &mut State, seed: &[char], max_lines: usize) -> Option<(usize, Vec<char>)> {
    for round in 0..max_lines {
        let hits: Vec<Hit> = seed.iter().map(|&c| clean_hit(c)).collect();
        let r = state.add_line(line_of(hits, round as u64), &Layout::Qwerty, &Difficulty::Normal);
        if let Some(set) = r {
            return Some((round, set.to_vec()));
        }
    }
    None
}

#[test]
fn sustained_clean_fast_typing_unlocks_the_next_layout_character() {
    // Seed {a, s, d, f}, difficulty Normal (30 wpm). Clean hits at 40 wpm
    // converge the clean fraction above the threshold, and the expanded
    // set has exactly one new character: Qwerty's fifth, 'e'.
    let seed = ['a', 's', 'd', 'f'];
    let mut state = State::new(seed.to_vec());
    let unlocked = drive_until_unlock(&mut state, &seed, 60)
        .expect("sustained clean fast typing must unlock a character");
    let (_, set) = unlocked;
    assert_eq!(set.len(), 5);
    for c in seed {
        assert!(set.contains(&c));
    }
    assert_eq!(*set.last().unwrap(), 'e');
    // The unlock was logged.
    let events = state.events().clone();
    assert_eq!(events.len(), 5);
    match events[4] {
        Event::Unlock { letter, .. } => assert_eq!(letter, 'e'),
    }
}

#[test]
fn one_inaccurate_character_blocks_the_gate() {
    // Three characters get clean fast hits, the fourth only dirty hits:
    // its clean fraction stays at zero and no line ever unlocks.
    let mut state = State::new(vec!['a', 's', 'd', 'f']);
    for round in 0..60 {
        let hits = vec![clean_hit('a'), clean_hit('s'), clean_hit('d'), dirty_hit('f')];
        let r = state.add_line(line_of(hits, round), &Layout::Qwerty, &Difficulty::Normal);
        assert!(r.is_none());
    }
    let snap = snapshot(&state);
    let f = snap.iter().find(|e| e.0 == 'f').unwrap();
    assert!(f.3 < MIN_CLEAN_PCT);
    let a = snap.iter().find(|e| e.0 == 'a').unwrap();
    assert!(a.3 >= MIN_CLEAN_PCT);
}

#[test]
fn too_slow_typing_blocks_the_gate() {
    // Clean hits at 4000 ms each: 3 wpm, far below even the Easy tier's
    // harmonic requirement once compared against Strict.
    let mut state = State::new(vec!['a']);
    for round in 0..60 {
        let mut h = Hit::new('a', ' ');
        h.finalize(0, 4000);
        let r = state.add_line(line_of(vec![h], round), &Layout::Qwerty, &Difficulty::Strict);
        assert!(r.is_none());
    }
}

#[test]
fn unlocked_set_only_grows() {
    let seed = ['a', 's', 'd', 'f'];
    let mut state = State::new(seed.to_vec());
    let mut previous = state.char_set().to_vec();
    for round in 0..80 {
        let hits: Vec<Hit> = seed.iter().map(|&c| clean_hit(c)).collect();
        state.add_line(line_of(hits, round), &Layout::Qwerty, &Difficulty::Normal);
        let now = state.char_set().to_vec();
        for c in &previous {
            assert!(now.contains(c));
        }
        previous = now;
    }
}

#[test]
fn needs_improvement_prefers_inaccurate_characters() {
    let mut state = State::new(vec!['a', 's']);
    // Push 'a' above the threshold, leave 's' at zero.
    for round in 0..40 {
        state.add_line(line_of(vec![clean_hit('a')], round), &Layout::Qwerty, &Difficulty::Normal);
    }
    let snap = snapshot(&state);
    assert!(snap.iter().find(|e| e.0 == 'a').unwrap().3 >= MIN_CLEAN_PCT);
    let bias = state.needs_improvement(1);
    assert_eq!(bias.len(), 1);
    assert!(bias.contains('s'));
    assert_eq!(state.needs_improvement(0).len(), 0);
}

#[test]
fn needs_improvement_pads_with_the_slowest_characters() {
    // 'a' and 's' both end up above the accuracy threshold, with 's' the
    // slower of the two; asking for two characters returns the only
    // below-threshold character 'd' padded with the slowest recorded one.
    let mut state = State::new(vec!['a', 's', 'd']);
    for round in 0..40 {
        let mut slow = Hit::new('s', ' ');
        slow.finalize(0, 600);
        state.add_line(
            line_of(vec![clean_hit('a'), slow], round),
            &Layout::Qwerty,
            &Difficulty::Normal,
        );
    }
    let snap = snapshot(&state);
    assert!(snap.iter().find(|e| e.0 == 'a').unwrap().3 >= MIN_CLEAN_PCT);
    assert!(snap.iter().find(|e| e.0 == 's').unwrap().3 >= MIN_CLEAN_PCT);
    let bias = state.needs_improvement(2);
    assert_eq!(bias.len(), 2);
    assert!(bias.contains('d'));
    assert!(bias.contains('s'));
    // Asking for more than is recorded returns everything there is.
    let all = state.needs_improvement(9);
    assert_eq!(all.len(), 3);
}

#[test]
fn clean_letters_sorts_most_accurate_first() {
    let mut state = State::new(vec!['a', 's', 'd']);
    for round in 0..10 {
        let hits = vec![clean_hit('a'), clean_hit('a'), clean_hit('s')];
        state.add_line(line_of(hits, round), &Layout::Qwerty, &Difficulty::Normal);
    }
    let letters = state.clean_letters();
    assert_eq!(letters.len(), 3);
    for w in letters.windows(2) {
        assert!(w[0].1 >= w[1].1);
    }
    assert_eq!(letters[0].0, 'a');
    assert_eq!(letters[2].0, 'd');
    assert_eq!(letters[2].1, 0);
    assert!(letters[0].1 <= CLEAN_SCALE);
}

#[test]
fn snapshot_round_trip_preserves_the_records() {
    let mut state = State::new(vec!['a', 's', 'd', 'f']);
    for round in 0..10 {
        let hits = vec![clean_hit('a'), clean_hit('s'), dirty_hit('d')];
        state.add_line(line_of(hits, round), &Layout::Qwerty, &Difficulty::Normal);
    }
    let snap = state.export_snapshot();
    assert_eq!(snap.chars, vec!['a', 's', 'd', 'f']);
    let restored = State::restore_snapshot(&snap).expect("an exported snapshot is valid");
    assert_eq!(snapshot(&restored), snapshot(&state));
    assert_eq!(restored.char_set().to_vec(), state.char_set().to_vec());
    assert_eq!(restored.events().len(), state.events().len());
}

#[test]
fn out_of_range_snapshots_are_rejected() {
    let bad_clean = Snapshot {
        chars: vec!['a'],
        clean: vec![('a', CLEAN_SCALE + 1)],
        windows: Vec::new(),
        events: Vec::new(),
    };
    assert!(State::restore_snapshot(&bad_clean).is_none());

    let bad_window = Snapshot {
        chars: vec!['a'],
        clean: Vec::new(),
        windows: vec![('a', vec![0u64])],
        events: Vec::new(),
    };
    assert!(State::restore_snapshot(&bad_window).is_none());

    let long_window = Snapshot {
        chars: vec!['a'],
        clean: Vec::new(),
        windows: vec![('a', vec![300u64; 17])],
        events: Vec::new(),
    };
    assert!(State::restore_snapshot(&long_window).is_none());
}

#[test]
fn the_unlock_check_runs_even_for_an_empty_line() {
    // The transition rule runs once per completed line, whatever the line
    // held. Once every unlocked character clears both thresholds, even a
    // line with no hits triggers the unlock; afterwards the fresh
    // character's zeroed records block further unlocks, so a second empty
    // line changes nothing.
    let seed = ['a', 's', 'd', 'f'];
    let mut state = State::new(seed.to_vec());
    // Bring every seed character above both thresholds without tripping
    // the unlock: after each line, remove the proof by checking None until
    // the thresholds converge.
    let mut unlocked_at = None;
    for round in 0..60 {
        let hits: Vec<Hit> = seed.iter().map(|&c| clean_hit(c)).collect();
        if state
            .add_line(line_of(hits, round), &Layout::Qwerty, &Difficulty::Normal)
            .is_some()
        {
            unlocked_at = Some(round);
            break;
        }
    }
    assert!(unlocked_at.is_some());
    // The new character 'e' starts at zero, so an empty line is a no-op.
    let before = snapshot(&state);
    let r = state.add_line(Line::new(Vec::new(), 99), &Layout::Qwerty, &Difficulty::Normal);
    assert!(r.is_none());
    assert_eq!(snapshot(&state), before);
}
