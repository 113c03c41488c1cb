//! The live typing session: hits, lines, and the keystroke state machine.
//!
//! A session waits on one active target character. A correct keystroke with
//! a clear error buffer finalizes the active hit and advances; any other
//! keystroke records a miss and joins the error buffer, which must be
//! cleared with backspace before progress resumes. When the target queue
//! empties, the completed hits are packaged into a `Line` for the
//! progression state.

use vstd::prelude::*;
use crate::charset::CharSet;
use crate::clock::now_unix_millis;
use crate::dictionary::{allowed_pred, Dictionary};
use crate::stats::MAX_DURATION_MS;
use crate::training::State;
use crate::words::{Setting, Words};

verus! {

/// Number of characters in one practice line.
pub const CHARS_PER_LINE: usize = 52;

/// How many upcoming lines are kept ready beyond the active one.
pub const NEXT_LINES: usize = 1;

/// Capacity of the error buffer; the oldest entry is evicted when a further
/// wrong key arrives.
pub const MAX_ERRORS: usize = 5;

/// One keystroke attempt: the character to type, the character typed before
/// it, the wrong keys pressed while it was active, and — once the correct
/// key arrives — the clamped time it took.
#[derive(Debug)]
pub struct Hit {
    pub target: char,
    pub prev: char,
    pub misses: CharSet,
    pub elapsed_ms: u64,
}

/// The miss set is well-formed and the recorded time respects the clamp.
pub open spec fn hit_ok(h: Hit) -> bool {
    &&& h.misses.wf()
    &&& h.elapsed_ms <= MAX_DURATION_MS
}

/// The clamped time between two clock readings: never below one
/// millisecond, never above the five-second cap, whatever the clock did.
pub open spec fn clamp_elapsed(baseline: int, now: int) -> int {
    let d = now - baseline;
    if d < 1 {
        1
    } else if d > MAX_DURATION_MS as int {
        MAX_DURATION_MS as int
    } else {
        d
    }
}

/// The fields of `a` match `b` up to the stored order of the miss sets.
pub open spec fn hit_like(a: Hit, b: Hit) -> bool {
    &&& a.target == b.target
    &&& a.prev == b.prev
    &&& a.misses@ == b.misses@
    &&& a.elapsed_ms == b.elapsed_ms
}

impl Clone for Hit {
    fn clone(&self) -> (r: Self)
        ensures
            hit_like(r, *self),
            r.misses.order() == self.misses.order(),
    {
        Hit {
            target: self.target,
            prev: self.prev,
            misses: self.misses.clone(),
            elapsed_ms: self.elapsed_ms,
        }
    }
}

impl Hit {
    pub fn new(target: char, prev: char) -> (r: Hit)
        ensures
            hit_ok(r),
            r.target == target,
            r.prev == prev,
            r.misses@ == Set::<char>::empty(),
            r.misses.order() == Seq::<char>::empty(),
            r.elapsed_ms == 0,
    {
        Hit { target, prev, misses: CharSet::new(), elapsed_ms: 0 }
    }

    /// A fresh hit for the next target; this hit's target becomes its
    /// previous character.
    pub fn next(&self, target: char) -> (r: Hit)
        ensures
            hit_ok(r),
            r.target == target,
            r.prev == self.target,
            r.misses@ == Set::<char>::empty(),
            r.misses.order() == Seq::<char>::empty(),
            r.elapsed_ms == 0,
    {
        Hit::new(target, self.target)
    }

    /// Record a wrong key pressed while this hit was active.
    pub fn add_miss(&mut self, miss: char)
        requires
            old(self).misses.wf(),
        ensures
            final(self).misses.wf(),
            final(self).misses@ == old(self).misses@.insert(miss),
            final(self).target == old(self).target,
            final(self).prev == old(self).prev,
            final(self).elapsed_ms == old(self).elapsed_ms,
    {
        self.misses.insert(miss);
    }

    /// Fix the time this hit took, clamped between one millisecond and the
    /// five-second cap.
    pub fn finalize(&mut self, baseline_ms: u64, now_ms: u64)
        ensures
            final(self).elapsed_ms == clamp_elapsed(baseline_ms as int, now_ms as int),
            1 <= final(self).elapsed_ms <= MAX_DURATION_MS,
            final(self).target == old(self).target,
            final(self).prev == old(self).prev,
            final(self).misses == old(self).misses,
    {
        let raw: u64 = if now_ms > baseline_ms {
            now_ms - baseline_ms
        } else {
            0
        };
        self.elapsed_ms = if raw < 1 {
            1
        } else if raw > MAX_DURATION_MS {
            MAX_DURATION_MS
        } else {
            raw
        };
    }

    pub fn target(&self) -> (c: char)
        ensures
            c == self.target,
    {
        self.target
    }

    /// Whether any wrong key was pressed while this hit was active.
    pub fn is_dirty(&self) -> (r: bool)
        ensures
            r == (self.misses@ != Set::<char>::empty()),
    {
        !self.misses.is_empty()
    }
}

/// A completed run of hits, finalized at a line boundary and folded into
/// the progression state exactly once.
#[derive(Debug)]
pub struct Line {
    hits: Vec<Hit>,
    time: u64,
}

/// A completed hit: well-formed, with a finalized (clamped, non-zero) time.
pub open spec fn hit_done_ok(h: Hit) -> bool {
    &&& hit_ok(h)
    &&& 1 <= h.elapsed_ms
}

pub open spec fn hits_all_ok(hits: Seq<Hit>) -> bool {
    forall|i: int| 0 <= i < hits.len() ==> hit_done_ok(#[trigger] hits[i])
}

impl Line {
    /// The completed hits, in typing order.
    pub closed spec fn hits_seq(&self) -> Seq<Hit> {
        self.hits@
    }

    /// When the line was completed, in milliseconds since the Unix epoch.
    pub closed spec fn spec_time(&self) -> u64 {
        self.time
    }

    pub open spec fn wf(&self) -> bool {
        hits_all_ok(self.hits_seq())
    }

    pub fn new(hits: Vec<Hit>, time: u64) -> (r: Line)
        ensures
            r.hits_seq() == hits@,
            r.spec_time() == time,
    {
        Line { hits, time }
    }

    pub fn hits(&self) -> (r: &Vec<Hit>)
        ensures
            r@ == self.hits_seq(),
    {
        &self.hits
    }

    pub fn time(&self) -> (r: u64)
        ensures
            r == self.spec_time(),
    {
        self.time
    }
}

/// The error buffer after a wrong key: the new key goes at the end, and the
/// oldest entry leaves when the buffer is full.
pub open spec fn fifo_push(errors: Seq<char>, c: char) -> Seq<char> {
    if errors.len() >= MAX_ERRORS {
        errors.drop_first().push(c)
    } else {
        errors.push(c)
    }
}

/// The keystroke-relevant heart of a session: what the state machine reads
/// and writes, with hits reduced to their miss sets.
#[verifier::ext_equal]
pub ghost struct SessionCore {
    pub active_target: char,
    pub active_misses: Set<char>,
    pub done_misses: Seq<Set<char>>,
    pub pending: Seq<char>,
    pub errors: Seq<char>,
}

/// One keystroke of the state machine: a correct key with a clear error
/// buffer completes the active hit and advances or — when no target is
/// pending — emits the line's miss sets; any other key records a miss and
/// joins the error buffer.
pub open spec fn core_step(s: SessionCore, c: char) -> (SessionCore, Option<Seq<Set<char>>>) {
    if s.errors.len() == 0 && c == s.active_target {
        if s.pending.len() > 0 {
            (
                SessionCore {
                    active_target: s.pending[0],
                    active_misses: Set::empty(),
                    done_misses: s.done_misses.push(s.active_misses),
                    pending: s.pending.drop_first(),
                    errors: s.errors,
                },
                None,
            )
        } else {
            (
                SessionCore { done_misses: Seq::empty(), ..s },
                Some(s.done_misses.push(s.active_misses)),
            )
        }
    } else {
        (
            SessionCore { active_misses: s.active_misses.insert(c), errors: fifo_push(s.errors, c), ..s },
            None,
        )
    }
}

/// Run the state machine over a whole keystroke sequence, reporting the
/// last emission.
pub open spec fn core_run(s: SessionCore, cs: Seq<char>) -> (SessionCore, Option<Seq<Set<char>>>)
    decreases cs.len(),
{
    if cs.len() == 0 {
        (s, None)
    } else {
        let stepped = core_step(s, cs[0]);
        if cs.len() == 1 {
            stepped
        } else {
            core_run(stepped.0, cs.drop_first())
        }
    }
}

/// Typing exactly the remaining targets — the active one, then the pending
/// queue — with a clear error buffer and no prior misses completes the line
/// with every hit clean, and the error buffer stays empty throughout.
pub proof fn lemma_clean_typing(s: SessionCore, cs: Seq<char>)
    requires
        s.errors.len() == 0,
        s.active_misses == Set::<char>::empty(),
        forall|i: int| 0 <= i < s.done_misses.len() ==> s.done_misses[i] == Set::<char>::empty(),
        cs == seq![s.active_target] + s.pending,
    ensures
        ({
            let (sf, out) = core_run(s, cs);
            &&& sf.errors.len() == 0
            &&& match out {
                Some(ms) => forall|i: int| 0 <= i < ms.len() ==> ms[i] == Set::<char>::empty(),
                None => false,
            }
        }),
    decreases cs.len(),
{
    assert(cs[0] == s.active_target);
    let stepped = core_step(s, cs[0]);
    if s.pending.len() == 0 {
        assert(cs.len() == 1);
    } else {
        let s1 = stepped.0;
        assert(cs.drop_first() =~= seq![s1.active_target] + s1.pending);
        lemma_clean_typing(s1, cs.drop_first());
    }
}

/// A wrong key never completes the active hit: with a clear error buffer it
/// records the key as a miss and pushes it onto the buffer; and while the
/// buffer is non-empty, even the correct key is treated the same way.
pub proof fn lemma_error_buffer_blocks(s: SessionCore, c: char)
    ensures
        c != s.active_target || s.errors.len() > 0 ==> ({
            let (sf, out) = core_step(s, c);
            &&& out is None
            &&& sf.active_target == s.active_target
            &&& sf.active_misses == s.active_misses.insert(c)
            &&& sf.active_misses.contains(c)
            &&& sf.done_misses == s.done_misses
            &&& sf.pending == s.pending
            &&& sf.errors == fifo_push(s.errors, c)
            &&& sf.errors.len() > 0
            &&& sf.errors.last() == c
        }),
{
}

/// The live typing session.
#[derive(Debug)]
pub struct Session {
    /// The word source practice lines are drawn from.
    pub words: Words,
    /// Clock reading when the active hit became active.
    pub baseline_ms: u64,
    /// The hit being typed right now.
    pub active_hit: Hit,
    /// Hits completed since the last line boundary.
    pub hits: Vec<Hit>,
    /// The characters still to type after the active one.
    pub targets: std::collections::VecDeque<char>,
    /// Recent wrong keys; must be cleared before progress resumes.
    pub errors: Vec<char>,
    /// Pre-generated upcoming lines.
    pub next_lines: Vec<String>,
}

/// The keystroke-relevant projection of a session.
pub open spec fn core_of(s: &Session) -> SessionCore {
    SessionCore {
        active_target: s.active_hit.target,
        active_misses: s.active_hit.misses@,
        done_misses: s.hits@.map_values(|h: Hit| h.misses@),
        pending: s.targets@,
        errors: s.errors@,
    }
}

impl Session {
    pub open spec fn wf(&self) -> bool {
        &&& hit_ok(self.active_hit)
        &&& hits_all_ok(self.hits@)
        &&& self.errors@.len() <= MAX_ERRORS
        &&& self.words.wf()
        &&& self.next_lines@.len() >= NEXT_LINES
    }

    /// Feed one typed character to the session. The returned line, when the
    /// keystroke completes one, carries the finalized hits.
    pub fn apply_char(&mut self, c: char) -> (r: Option<Line>)
        requires
            old(self).wf(),
        ensures
            final(self).wf(),
            ({
                let (sc, out) = core_step(core_of(old(self)), c);
                &&& core_of(final(self)) == sc
                &&& match (r, out) {
                    (Some(l), Some(ms)) => l.hits_seq().map_values(|h: Hit| h.misses@) == ms
                        && l.wf(),
                    (None, None) => true,
                    _ => false,
                }
            }),
            final(self).words == old(self).words,
            final(self).next_lines == old(self).next_lines,
            // A correct key on a clear error buffer finalizes the active hit
            // with a clamped elapsed time and resets the clock baseline.
            old(self).errors@.len() == 0 && c == old(self).active_hit.target ==> ({
                let fin_elapsed = clamp_elapsed(
                    old(self).baseline_ms as int,
                    final(self).baseline_ms as int,
                );
                &&& 1 <= fin_elapsed <= MAX_DURATION_MS
                &&& if old(self).targets@.len() > 0 {
                    &&& r is None
                    &&& final(self).active_hit.prev == old(self).active_hit.target
                    &&& final(self).hits@.len() == old(self).hits@.len() + 1
                    &&& (forall|i: int|
                        0 <= i < old(self).hits@.len() ==> final(self).hits@[i] == old(
                            self,
                        ).hits@[i])
                    &&& final(self).hits@.last().target == old(self).active_hit.target
                    &&& final(self).hits@.last().prev == old(self).active_hit.prev
                    &&& final(self).hits@.last().misses@ == old(self).active_hit.misses@
                    &&& final(self).hits@.last().elapsed_ms == fin_elapsed
                    &&& final(self).active_hit.elapsed_ms == 0
                } else {
                    &&& match r {
                        Some(l) => {
                            &&& l.hits_seq().len() == old(self).hits@.len() + 1
                            &&& (forall|i: int|
                                0 <= i < old(self).hits@.len() ==> l.hits_seq()[i] == old(
                                    self,
                                ).hits@[i])
                            &&& l.hits_seq().last().target == old(self).active_hit.target
                            &&& l.hits_seq().last().prev == old(self).active_hit.prev
                            &&& l.hits_seq().last().misses@ == old(self).active_hit.misses@
                            &&& l.hits_seq().last().elapsed_ms == fin_elapsed
                        },
                        None => false,
                    }
                    &&& final(self).hits@.len() == 0
                }
            }),
            // Any other key changes nothing but the active hit's misses and
            // the error buffer.
            !(old(self).errors@.len() == 0 && c == old(self).active_hit.target) ==> ({
                &&& final(self).baseline_ms == old(self).baseline_ms
                &&& final(self).hits@ == old(self).hits@
                &&& final(self).targets@ == old(self).targets@
                &&& final(self).active_hit.elapsed_ms == old(self).active_hit.elapsed_ms
            }),
    {
        if self.errors.len() == 0 && c == self.active_hit.target {
            let now = now_unix_millis();
            self.active_hit.finalize(self.baseline_ms, now);
            self.baseline_ms = now;
            let prev_target = self.active_hit.target;
            match self.targets.pop_front() {
                Some(next_target) => {
                    let mut fin = Hit::new(next_target, prev_target);
                    std::mem::swap(&mut self.active_hit, &mut fin);
                    self.hits.push(fin);
                    proof {
                        assert(core_of(final(self)).done_misses =~= core_step(
                            core_of(old(self)),
                            c,
                        ).0.done_misses);
                        assert(core_of(final(self)) =~= core_step(core_of(old(self)), c).0);
                    }
                    None
                },
                None => {
                    let fin = self.active_hit.clone();
                    self.hits.push(fin);
                    let mut taken: Vec<Hit> = Vec::new();
                    std::mem::swap(&mut taken, &mut self.hits);
                    let line = Line::new(taken, now);
                    proof {
                        assert(core_of(final(self)).done_misses =~= Seq::<Set<char>>::empty());
                        assert(core_of(final(self)) =~= core_step(core_of(old(self)), c).0);
                        assert(line.hits_seq().map_values(|h: Hit| h.misses@) =~= core_step(
                            core_of(old(self)),
                            c,
                        ).1.unwrap());
                    }
                    Some(line)
                },
            }
        } else {
            self.active_hit.add_miss(c);
            if self.errors.len() == MAX_ERRORS {
                self.errors.remove(0);
            }
            self.errors.push(c);
            proof {
                assert(core_of(final(self)).errors =~= fifo_push(old(self).errors@, c));
                assert(core_of(final(self)).done_misses =~= core_of(old(self)).done_misses);
                assert(core_of(final(self)) =~= core_step(core_of(old(self)), c).0);
            }
            None
        }
    }

    /// Remove the most recent entry of the error buffer; with an empty
    /// buffer the session is left exactly as it was.
    pub fn backspace(&mut self)
        requires
            old(self).wf(),
        ensures
            final(self).wf(),
            old(self).errors@.len() == 0 ==> *final(self) == *old(self),
            old(self).errors@.len() > 0 ==> final(self).errors@ == old(self).errors@.drop_last(),
            final(self).active_hit == old(self).active_hit,
            final(self).hits == old(self).hits,
            final(self).targets == old(self).targets,
            final(self).words == old(self).words,
            final(self).next_lines == old(self).next_lines,
            final(self).baseline_ms == old(self).baseline_ms,
    {
        if self.errors.len() > 0 {
            self.errors.pop();
        }
    }

    /// A fresh session over the given word source and progression state:
    /// one composed line becomes the active targets, and the lookahead
    /// buffer is filled.
    pub fn new(words: Words, state: &State) -> (r: Session)
        requires
            words.wf(),
            state.wf(),
        ensures
            r.wf(),
            r.words == words,
            r.hits@.len() == 0,
            r.errors@.len() == 0,
            r.active_hit.misses@ == Set::<char>::empty(),
            r.active_hit.prev == ' ',
            r.active_hit.elapsed_ms == 0,
            r.next_lines@.len() == NEXT_LINES,
            // The active target and queue come from one composed line.
            exists|l: Seq<char>|
                #![trigger words.line_ok(CHARS_PER_LINE as int, l)]
                {
                    &&& words.line_ok(CHARS_PER_LINE as int, l)
                    &&& if l.len() > 0 {
                        r.active_hit.target == l[0] && r.targets@ == l.drop_first()
                    } else {
                        r.active_hit.target == ' ' && r.targets@ == l
                    }
                },
            forall|i: int|
                0 <= i < r.next_lines@.len() ==> words.line_ok(
                    CHARS_PER_LINE as int,
                    (#[trigger] r.next_lines@[i])@,
                ),
    {
        let least_accurate = state.needs_improvement(1);
        let line = words.line(CHARS_PER_LINE, &least_accurate);
        let mut targets: std::collections::VecDeque<char> = std::collections::VecDeque::new();
        let n = line.as_str().unicode_len();
        for i in 0..n
            invariant
                n == line@.len(),
                targets@ == line@.take(i as int),
        {
            targets.push_back(line.as_str().get_char(i));
            proof {
                assert(targets@ =~= line@.take(i + 1));
            }
        }
        let first_letter = match targets.pop_front() {
            Some(c) => c,
            None => ' ',
        };
        let mut next_lines: Vec<String> = Vec::new();
        while next_lines.len() < NEXT_LINES
            invariant
                words.wf(),
                state.wf(),
                least_accurate.wf(),
                next_lines@.len() <= NEXT_LINES,
                forall|i: int|
                    0 <= i < next_lines@.len() ==> words.line_ok(
                        CHARS_PER_LINE as int,
                        (#[trigger] next_lines@[i])@,
                    ),
            decreases NEXT_LINES - next_lines@.len(),
        {
            let ghost pre = next_lines@;
            let extra = words.line(CHARS_PER_LINE, &least_accurate);
            next_lines.push(extra);
            proof {
                crate::training::lemma_push_facts(pre, extra);
            }
        }
        let r = Session {
            words,
            baseline_ms: now_unix_millis(),
            active_hit: Hit::new(first_letter, ' '),
            hits: Vec::new(),
            targets,
            errors: Vec::new(),
            next_lines,
        };
        proof {
            assert(words.line_ok(CHARS_PER_LINE as int, line@));
            if line@.len() > 0 {
                assert(r.active_hit.target == line@[0] && r.targets@ == line@.drop_first());
            } else {
                assert(r.targets@ =~= line@);
            }
            assert(exists|l: Seq<char>|
                #![trigger words.line_ok(CHARS_PER_LINE as int, l)]
                {
                    &&& words.line_ok(CHARS_PER_LINE as int, l)
                    &&& if l.len() > 0 {
                        r.active_hit.target == l[0] && r.targets@ == l.drop_first()
                    } else {
                        r.active_hit.target == ' ' && r.targets@ == l
                    }
                });
        }
        r
    }

    /// Replace the word source; everything else stays as it was.
    pub fn update_words(&mut self, words: Words)
        requires
            old(self).wf(),
            words.wf(),
        ensures
            final(self).wf(),
            final(self).words == words,
            final(self).baseline_ms == old(self).baseline_ms,
            final(self).active_hit == old(self).active_hit,
            final(self).hits == old(self).hits,
            final(self).targets == old(self).targets,
            final(self).errors == old(self).errors,
            final(self).next_lines == old(self).next_lines,
    {
        self.words = words;
    }

    /// The setting the current word source was built from, so it can be
    /// folded back into durable profile settings.
    pub fn words_setting(&self) -> (r: Setting)
        ensures
            r == self.words.spec_setting(),
    {
        self.words.setting()
    }

    /// Restrict the current word source to a new character set, keeping its
    /// loaded data; used after an unlock widens the set.
    pub fn update_char_set(&mut self, char_set: CharSet)
        requires
            old(self).wf(),
        ensures
            final(self).wf(),
            final(self).words.spec_setting() == old(self).words.spec_setting(),
            old(self).words matches Words::Dictionary { full, .. }
                ==> (final(self).words matches Words::Dictionary { full: f2, char_limited }
                && f2.word_list() == full.word_list() && char_limited.word_list()
                == full.word_list().filter(allowed_pred(char_set@))),
            old(self).words matches Words::Random { generator, .. }
                ==> (final(self).words matches Words::Random { generator: g2, char_set: cs2 }
                && g2 == generator && cs2 == char_set),
            final(self).baseline_ms == old(self).baseline_ms,
            final(self).active_hit == old(self).active_hit,
            final(self).hits == old(self).hits,
            final(self).targets == old(self).targets,
            final(self).errors == old(self).errors,
            final(self).next_lines == old(self).next_lines,
    {
        let mut tmp = Words::Dictionary {
            full: Dictionary::from_words(Vec::new()),
            char_limited: Dictionary::from_words(Vec::new()),
        };
        std::mem::swap(&mut self.words, &mut tmp);
        self.words = tmp.with_char_set(char_set);
    }

    /// Refill the lookahead buffer, move the next line's characters into
    /// the target queue, and activate its first character. The active hit
    /// starts fresh, with this line boundary's last target as its previous
    /// character.
    pub fn fill_next_lines(&mut self, state: &State)
        requires
            old(self).wf(),
            state.wf(),
        ensures
            final(self).wf(),
            final(self).next_lines@.len() == (if old(self).next_lines@.len() >= NEXT_LINES + 1 {
                old(self).next_lines@.len() - 1
            } else {
                NEXT_LINES as int
            }),
            final(self).words == old(self).words,
            final(self).hits == old(self).hits,
            final(self).errors == old(self).errors,
            final(self).baseline_ms == old(self).baseline_ms,
            final(self).active_hit.prev == old(self).active_hit.target,
            final(self).active_hit.misses@ == Set::<char>::empty(),
            final(self).active_hit.elapsed_ms == 0,
            old(self).next_lines@.len() >= 1 ==> ({
                let merged = old(self).targets@ + old(self).next_lines@[0]@;
                &&& if merged.len() > 0 {
                    final(self).active_hit.target == merged[0] && final(self).targets@
                        == merged.drop_first()
                } else {
                    final(self).active_hit.target == ' ' && final(self).targets@ == merged
                }
            }),
    {
        let least_accurate = state.needs_improvement(1);
        while self.next_lines.len() < NEXT_LINES + 1
            invariant
                old(self).wf(),
                self.words == old(self).words,
                self.hits == old(self).hits,
                self.errors == old(self).errors,
                self.targets == old(self).targets,
                self.active_hit == old(self).active_hit,
                self.baseline_ms == old(self).baseline_ms,
                least_accurate.wf(),
                old(self).next_lines@.len() >= 1 ==> self.next_lines@.len() >= 1
                    && self.next_lines@[0] == old(self).next_lines@[0],
                self.next_lines@.len() >= old(self).next_lines@.len(),
                self.next_lines@.len() <= NEXT_LINES + 1 || self.next_lines@ == old(
                    self,
                ).next_lines@,
            decreases NEXT_LINES + 1 - self.next_lines@.len(),
        {
            let line = self.words.line(CHARS_PER_LINE, &least_accurate);
            self.next_lines.push(line);
        }
        let consumed = self.next_lines.remove(0);
        let ghost base = self.targets@;
        let n = consumed.as_str().unicode_len();
        for i in 0..n
            invariant
                n == consumed@.len(),
                self.targets@ == base + consumed@.take(i as int),
                old(self).wf(),
                self.words == old(self).words,
                self.hits == old(self).hits,
                self.errors == old(self).errors,
                self.active_hit == old(self).active_hit,
                self.baseline_ms == old(self).baseline_ms,
                self.next_lines@.len() == (if old(self).next_lines@.len() >= NEXT_LINES + 1 {
                    old(self).next_lines@.len() - 1
                } else {
                    NEXT_LINES as int
                }),
                base == old(self).targets@,
                old(self).next_lines@.len() >= 1 ==> consumed == old(self).next_lines@[0],
        {
            self.targets.push_back(consumed.as_str().get_char(i));
            proof {
                assert(base + consumed@.take(i as int) + seq![consumed@[i as int]] =~= base
                    + consumed@.take(i + 1));
            }
        }
        proof {
            assert(consumed@.take(n as int) =~= consumed@);
        }
        let next_target = match self.targets.pop_front() {
            Some(c) => c,
            None => ' ',
        };
        let fresh = self.active_hit.next(next_target);
        self.active_hit = fresh;
        proof {
            if old(self).next_lines@.len() >= 1 {
                let merged = old(self).targets@ + old(self).next_lines@[0]@;
                if merged.len() > 0 {
                    assert(final(self).targets@ =~= merged.drop_first());
                }
            }
        }
    }
}

} // verus!
