use linkage::charset::CharSet;
use linkage::session::{Hit, Line, Session, MAX_ERRORS};
use linkage::training::State;
use linkage::words::Words;

fn strings(words: &[&str]) -> Vec<String> {
    words.iter().map(|w| w.to_string()).collect()
}

fn fresh_session() -> (Session, State) {
    let seed = vec!['a', 's', 'd', 'f'];
    let state = State::new(seed.clone());
    let set = CharSet::from_chars(&seed);
    let words = Words::dictionary(strings(&["as", "sad", "fad", "dad"]), &set);
    (Session::new(words, &state), state)
}

#[test]
fn hit_records_misses_and_clamps_elapsed() {
    let mut h = Hit::new('a', ' ');
    assert_eq!(h.target(), 'a');
    assert!(!h.is_dirty());
    h.add_miss('x');
    h.add_miss('x');
    h.add_miss('y');
    assert!(h.is_dirty());
    h.finalize(1000, 1300);
    let n = h.next('b');
    assert_eq!(n.target(), 'b');
    assert!(!n.is_dirty());
}

#[test]
fn typing_the_exact_targets_stays_clean() {
    let (mut session, _state) = fresh_session();
    let mut emitted: Option<Line> = None;
    for _ in 0..200 {
        assert!(session.errors.is_empty());
        let c = session.active_hit.target();
        match session.apply_char(c) {
            Some(line) => {
                emitted = Some(line);
                break;
            },
            None => {},
        }
    }
    let line = emitted.expect("typing every target must complete the line");
    assert!(line.hits().len() > 0);
    for h in line.hits().iter() {
        assert!(!h.is_dirty());
    }
    assert!(session.errors.is_empty());
    assert!(session.hits.is_empty());
}

#[test]
fn wrong_key_blocks_progress_until_backspace() {
    let (mut session, _state) = fresh_session();
    let target = session.active_hit.target();
    let wrong = if target == 'z' { 'q' } else { 'z' };

    // A wrong key does not finalize the hit; it is recorded as a miss and
    // pushed onto the error buffer.
    assert!(session.apply_char(wrong).is_none());
    assert_eq!(session.errors, vec![wrong]);
    assert!(session.active_hit.is_dirty());
    assert!(session.hits.is_empty());

    // Even the correct key does not complete the hit while the buffer is
    // occupied.
    assert!(session.apply_char(target).is_none());
    assert!(session.hits.is_empty());
    assert_eq!(session.errors.len(), 2);

    // Clearing the buffer lets the correct key land.
    session.backspace();
    session.backspace();
    assert!(session.errors.is_empty());
    session.apply_char(target);
    assert_eq!(session.hits.len(), 1);
}

#[test]
fn error_buffer_evicts_oldest_at_capacity() {
    let (mut session, _state) = fresh_session();
    let target = session.active_hit.target();
    assert!(!['z', 'x', 'q', 'v', 'w', 'y'].contains(&target));
    for w in ['z', 'x', 'q', 'v', 'w', 'y'] {
        session.apply_char(w);
    }
    assert_eq!(session.errors.len(), MAX_ERRORS);
    // The first wrong key was evicted, the rest kept in order.
    assert_eq!(session.errors, vec!['x', 'q', 'v', 'w', 'y']);
}

#[test]
fn backspace_on_empty_buffer_is_a_no_op() {
    let (mut session, _state) = fresh_session();
    let target_before = session.active_hit.target();
    let hits_before = session.hits.len();
    let targets_before: Vec<char> = session.targets.iter().cloned().collect();
    assert!(session.errors.is_empty());
    session.backspace();
    assert!(session.errors.is_empty());
    assert_eq!(session.active_hit.target(), target_before);
    assert_eq!(session.hits.len(), hits_before);
    let targets_after: Vec<char> = session.targets.iter().cloned().collect();
    assert_eq!(targets_after, targets_before);
}

#[test]
fn fill_next_lines_restocks_and_advances() {
    let (mut session, state) = fresh_session();
    // Complete the current line.
    let mut done = false;
    for _ in 0..200 {
        let c = session.active_hit.target();
        if session.apply_char(c).is_some() {
            done = true;
            break;
        }
    }
    assert!(done);
    let last_target = session.active_hit.target();
    session.fill_next_lines(&state);
    assert_eq!(session.next_lines.len(), 1);
    assert_eq!(session.active_hit.prev, last_target);
    assert!(!session.active_hit.is_dirty());
}

#[test]
fn line_carries_its_timestamp() {
    let hits = vec![Hit::new('a', ' ')];
    let line = Line::new(hits, 12345);
    assert_eq!(line.time(), 12345);
    assert_eq!(line.hits().len(), 1);
}
