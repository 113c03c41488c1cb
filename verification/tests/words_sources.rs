use linkage::charset::CharSet;
use linkage::dictionary::Dictionary;
use linkage::random::{cumulative, sample_cumulative, Random};
use linkage::words::{Setting, WordData, Words};

fn strings(words: &[&str]) -> Vec<String> {
    words.iter().map(|w| w.to_string()).collect()
}

#[test]
fn char_limited_keeps_only_allowed_words() {
    let d = Dictionary::from_words(strings(&["as", "sad", "dash", "fad", "hex"]));
    let set = CharSet::from_chars(&vec!['a', 's', 'd', 'f']);
    let limited = d.char_limited(&set);
    assert_eq!(limited.num_words(), 3); // "as", "sad", "fad"
}

#[test]
fn length_limited_variants() {
    let d = Dictionary::from_words(strings(&["a", "ab", "abc", "abcd"]));
    let exact = d.length_limited_exact(2).unwrap();
    assert_eq!(exact.num_words(), 1);
    let max = d.length_limited_max(2).unwrap();
    assert_eq!(max.num_words(), 2);
    assert!(d.length_limited_exact(9).is_none());
    assert!(d.length_limited_max(0).is_none());
}

#[test]
fn empty_filter_yields_empty_sentinel_line() {
    // No word of the dictionary is built only from {a, s}: the filtered
    // list is empty and composition returns the empty line instead of
    // looping past its budget.
    let d = Dictionary::from_words(strings(&["hello", "world"]));
    let set = CharSet::from_chars(&vec!['a', 's']);
    let limited = d.char_limited(&set);
    assert_eq!(limited.num_words(), 0);
    let line = limited.line(52, &CharSet::new());
    assert_eq!(line, String::new());
}

#[test]
fn dictionary_line_respects_length_and_characters() {
    let d = Dictionary::from_words(strings(&["as", "sad", "fad", "dad"]));
    let line = d.line(52, &CharSet::new());
    assert!(line.chars().count() <= 52);
    for c in line.chars() {
        assert!(c == ' ' || c == 'a' || c == 's' || c == 'd' || c == 'f');
    }
    // The line is whole sampled words, each followed by one space.
    if !line.is_empty() {
        assert!(line.ends_with(' '));
    }
    for token in line.split(' ') {
        assert!(token.is_empty() || ["as", "sad", "fad", "dad"].contains(&token));
    }
}

#[test]
fn cumulative_builds_sorted_clamped_table() {
    let table = cumulative(vec![('c', 2000), ('a', 5000), ('b', 3000)]);
    assert_eq!(table, vec![(5000, 'a'), (8000, 'b'), (10000, 'c')]);
}

#[test]
fn cumulative_clamps_at_scale() {
    let table = cumulative(vec![('a', 9000), ('b', 9000)]);
    assert_eq!(table, vec![(9000, 'a'), (10000, 'b')]);
}

#[test]
fn sample_cumulative_picks_the_first_entry_reaching_the_sample() {
    let table = vec![(5000, 'a'), (8000, 'b'), (10000, 'c')];
    let abc = CharSet::from_chars(&vec!['a', 'b', 'c']);
    // Inverse CDF: the first entry whose cumulative weight reaches the
    // sample wins, so 'a' owns (0, 5000] and 'b' owns (5000, 8000].
    assert_eq!(sample_cumulative(0, &table, &abc), 'a');
    assert_eq!(sample_cumulative(4000, &table, &abc), 'a');
    assert_eq!(sample_cumulative(5000, &table, &abc), 'a');
    assert_eq!(sample_cumulative(6000, &table, &abc), 'b');
    assert_eq!(sample_cumulative(8000, &table, &abc), 'b');
    assert_eq!(sample_cumulative(10000, &table, &abc), 'c');

    // Restricting the set skips entries during the scan.
    let bc = CharSet::from_chars(&vec!['b', 'c']);
    assert_eq!(sample_cumulative(4000, &table, &bc), 'b');
    assert_eq!(sample_cumulative(9000, &table, &bc), 'c');

    // When no allowed weight reaches the sample, the table's first letter
    // is the fallback; an empty table yields the default letter.
    let a_only = CharSet::from_chars(&vec!['a']);
    assert_eq!(sample_cumulative(6000, &table, &a_only), 'a');
    let empty: Vec<(u16, char)> = Vec::new();
    assert_eq!(sample_cumulative(5000, &empty, &abc), 'n');
}

#[test]
fn random_words_avoid_spaces_and_stay_short() {
    let gen = Random::new(
        vec![('t', 5000), ('e', 5000)],
        vec![('t', vec![('e', 5000), ('t', 5000)]), ('e', vec![('t', 10000)])],
    );
    let set = CharSet::from_chars(&vec!['t', 'e']);
    for _ in 0..20 {
        let w = gen.word(&set);
        let n = w.chars().count();
        assert!(1 <= n && n <= 7);
        assert!(!w.contains(' '));
    }
}

#[test]
fn random_line_reaches_requested_length() {
    let gen = Random::new(
        vec![('t', 5000), ('e', 5000)],
        vec![('t', vec![('e', 10000)]), ('e', vec![('t', 10000)])],
    );
    let set = CharSet::from_chars(&vec!['t', 'e']);
    let line = gen.line(&set, 30);
    let n = line.chars().count();
    assert!(30 <= n && n <= 37);
    // The line is whole generated words, each followed by one space.
    assert!(line.ends_with(' '));
    for token in line.split(' ') {
        assert!(token.len() <= 7);
        assert!(!token.contains(' '));
    }
}

#[test]
fn setting_builds_the_matching_source() {
    let data = WordData {
        words: strings(&["as", "sad"]),
        letters: vec![('a', 5000), ('s', 5000)],
        bigrams: vec![('a', vec![('s', 10000)]), ('s', vec![('a', 10000)])],
    };
    let set = CharSet::from_chars(&vec!['a', 's']);
    let w = Setting::Dictionary.get_words(data, set);
    assert_eq!(w.setting(), Setting::Dictionary);

    let data2 = WordData {
        words: strings(&["as", "sad"]),
        letters: vec![('a', 5000), ('s', 5000)],
        bigrams: vec![('a', vec![('s', 10000)]), ('s', vec![('a', 10000)])],
    };
    let set2 = CharSet::from_chars(&vec!['a', 's']);
    let w2 = Setting::Random.get_words(data2, set2);
    assert_eq!(w2.setting(), Setting::Random);
    assert_eq!(Setting::default(), Setting::Dictionary);
}

#[test]
fn with_char_set_refilters_the_dictionary() {
    let set = CharSet::from_chars(&vec!['a', 's']);
    let w = Words::dictionary(strings(&["as", "sad", "fad"]), &set);
    // Widen the set: "sad" and "fad" become available.
    let wide = CharSet::from_chars(&vec!['a', 's', 'd', 'f']);
    let w2 = w.with_char_set(wide);
    let line = w2.line(52, &CharSet::new());
    assert!(line.chars().count() <= 52);
    assert_eq!(w2.setting(), Setting::Dictionary);
}
