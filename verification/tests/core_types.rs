use linkage::charset::CharSet;
use linkage::keyboard::Layout;
use linkage::stats::{Stats, WordsPerMinute, MAX_DURATION_MS, NUM_RECENT_TIMINGS};
use linkage::training::{Difficulty, TriplePoint};

#[test]
fn charset_insert_and_contains() {
    let mut s = CharSet::new();
    assert!(s.is_empty());
    s.insert('a');
    s.insert('b');
    s.insert('a');
    assert_eq!(s.len(), 2);
    assert!(s.contains('a'));
    assert!(s.contains('b'));
    assert!(!s.contains('c'));
    assert_eq!(s.to_vec(), vec!['a', 'b']);
}

#[test]
fn charset_from_chars_dedups_in_order() {
    let s = CharSet::from_chars(&vec!['d', 'a', 'd', 'a', 'b']);
    assert_eq!(s.to_vec(), vec!['d', 'a', 'b']);
}

#[test]
fn stats_means_of_two_equal_samples() {
    let mut st = Stats::new();
    st.push(300);
    st.push(300);
    st.recompute();
    // 300 ms per character is 40 wpm: 4000 hundredths.
    assert_eq!(st.wpm_mean(), WordsPerMinute(4000));
    assert_eq!(st.wpm_harmonic_mean(), WordsPerMinute(4000));
}

#[test]
fn stats_harmonic_mean_penalizes_slow_samples() {
    let mut st = Stats::new();
    st.push(300);
    st.push(300);
    st.push(600);
    st.recompute();
    // Samples are 4000, 4000 and 2000 hundredths of a wpm.
    assert_eq!(st.wpm_mean(), WordsPerMinute(3333));
    // Harmonic mean: 1_200_000 * 3 / 1200 = 3000.
    assert_eq!(st.wpm_harmonic_mean(), WordsPerMinute(3000));
}

#[test]
fn stats_empty_window_means_zero() {
    let mut st = Stats::new();
    st.recompute();
    assert_eq!(st.wpm_mean(), WordsPerMinute(0));
    assert_eq!(st.wpm_harmonic_mean(), WordsPerMinute(0));
}

#[test]
fn stats_window_evicts_oldest_first() {
    let mut st = Stats::new();
    st.push(100);
    for _ in 0..NUM_RECENT_TIMINGS {
        st.push(200);
    }
    st.recompute();
    // The 100 ms sample was evicted; every remaining sample is 200 ms,
    // which is 60 wpm.
    assert_eq!(st.wpm_mean(), WordsPerMinute(6000));
    assert_eq!(st.wpm_harmonic_mean(), WordsPerMinute(6000));
}

#[test]
fn stats_rejects_nothing_up_to_the_clamp() {
    let mut st = Stats::new();
    st.push(MAX_DURATION_MS);
    st.recompute();
    // 5000 ms per character is 2.4 wpm: 240 hundredths.
    assert_eq!(st.wpm_harmonic_mean(), WordsPerMinute(240));
}

#[test]
fn difficulty_thresholds() {
    assert_eq!(Difficulty::Easy.words_per_minute(), WordsPerMinute(500));
    assert_eq!(Difficulty::Casual.words_per_minute(), WordsPerMinute(1500));
    assert_eq!(Difficulty::Normal.words_per_minute(), WordsPerMinute(3000));
    assert_eq!(Difficulty::Strict.words_per_minute(), WordsPerMinute(4500));
    assert_eq!(Difficulty::default(), Difficulty::Normal);
    assert_eq!(
        Difficulty::all(),
        vec![Difficulty::Easy, Difficulty::Casual, Difficulty::Normal, Difficulty::Strict]
    );
}

#[test]
fn layout_orders_and_next_char() {
    let order = Layout::Qwerty.letter_order();
    assert_eq!(order.len(), 26);
    assert_eq!(&order[0..6], &['a', 's', 'd', 'f', 'e', 'j']);
    assert_eq!(Layout::Qwerty.initial_chars(), vec!['a', 's', 'd', 'f', 'e', 'j']);

    let have = CharSet::from_chars(&vec!['a', 's', 'd', 'f']);
    assert_eq!(Layout::Qwerty.next_char(&have), Some('e'));

    let all = CharSet::from_chars(&Layout::Qwerty.letter_order());
    assert_eq!(Layout::Qwerty.next_char(&all), None);

    assert_eq!(Layout::Dvorak.letter_order()[0], 'h');
    assert_eq!(Layout::Colemak.letter_order()[0], 'n');
    assert_eq!(Layout::default(), Layout::Qwerty);
}

#[test]
fn layout_all_lists_every_layout() {
    let all = Layout::all();
    assert_eq!(all.len(), 10);
    assert_eq!(all[0], Layout::Qwerty);
    assert_eq!(all[1], Layout::Dvorak);
}

#[test]
fn triple_point_maps_two_linear_segments() {
    let t = TriplePoint::new(0, 100, 200).unwrap();
    assert_eq!(t.value(0), 0);
    assert_eq!(t.value(50), 2500);
    assert_eq!(t.value(100), 5000);
    assert_eq!(t.value(150), 7500);
    assert_eq!(t.value(200), 10000);
    assert_eq!(t.value(999), 10000);
    assert!(TriplePoint::new(5, 5, 10).is_none());
    assert!(TriplePoint::new(10, 5, 20).is_none());
}
