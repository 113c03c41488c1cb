//! The progression state: per-character statistics, the smoothed clean
//! fraction, the unlock gate, and the event log.
//!
//! Accuracy is a smoothed clean fraction carried in ten-thousandths: each
//! hit contributes a full-scale signal when it had no misses and zero
//! otherwise, smoothed with coefficient 1/11. A new character is unlocked
//! only when every unlocked character is both accurate enough and fast
//! enough at once.

use vstd::prelude::*;
use vstd::multiset::Multiset;
use crate::charmap::CharMap;
use crate::charset::CharSet;
use crate::keyboard::{spec_letter_order, spec_next_char, Layout};
use crate::session::{hit_ok, Hit, Line};
use crate::stats::{
    harmonic_wpm_centi, mean_wpm_centi, push_window, Stats, WordsPerMinute, MAX_DURATION_MS,
};

verus! {

/// Full scale of the smoothed clean fraction: ten-thousandths.
pub const CLEAN_SCALE: u32 = 10000;

/// Minimum smoothed clean fraction (in ten-thousandths) the accuracy gate
/// asks of every unlocked character.
pub const MIN_CLEAN_PCT: u32 = 7500;

/// An entry of the audit log: a character joined the unlocked set at the
/// given time (milliseconds since the Unix epoch).
#[derive(Clone, Copy, Debug, PartialEq, Eq, Structural)]
pub enum Event {
    Unlock { letter: char, time: u64 },
}

/// The four difficulty tiers and their speed gates.
#[derive(Clone, Copy, Debug, PartialEq, Eq, Structural)]
pub enum Difficulty {
    Easy,
    Casual,
    Normal,
    Strict,
}

/// The minimum harmonic-mean speed each tier asks for, in hundredths of a
/// word per minute.
pub open spec fn spec_words_per_minute(d: Difficulty) -> WordsPerMinute {
    match d {
        Difficulty::Easy => WordsPerMinute(500),
        Difficulty::Casual => WordsPerMinute(1500),
        Difficulty::Normal => WordsPerMinute(3000),
        Difficulty::Strict => WordsPerMinute(4500),
    }
}

impl Default for Difficulty {
    fn default() -> (r: Self)
        ensures
            r == Difficulty::Normal,
    {
        Difficulty::Normal
    }
}

impl Difficulty {
    pub fn words_per_minute(&self) -> (r: WordsPerMinute)
        ensures
            r == spec_words_per_minute(*self),
    {
        match self {
            Difficulty::Easy => WordsPerMinute(500),
            Difficulty::Casual => WordsPerMinute(1500),
            Difficulty::Normal => WordsPerMinute(3000),
            Difficulty::Strict => WordsPerMinute(4500),
        }
    }

    /// Every tier, mildest first.
    pub fn all() -> (r: Vec<Difficulty>)
        ensures
            r@ == seq![
                Difficulty::Easy,
                Difficulty::Casual,
                Difficulty::Normal,
                Difficulty::Strict,
            ],
    {
        let v = vec![Difficulty::Easy, Difficulty::Casual, Difficulty::Normal, Difficulty::Strict];
        proof {
            assert(v@ =~= seq![
                Difficulty::Easy,
                Difficulty::Casual,
                Difficulty::Normal,
                Difficulty::Strict,
            ]);
        }
        v
    }
}

/// Restate how one appended element sits in a sequence; spelled out here so
/// the facts are available at the element types the event log uses.
pub(crate) proof fn lemma_push_facts<A>(s: Seq<A>, a: A)
    ensures
        s.push(a).len() == s.len() + 1,
        s.push(a)[s.len() as int] == a,
        forall|i: int| 0 <= i < s.len() ==> #[trigger] s.push(a)[i] == s[i],
{
}

/// A hit with no misses carries a full clean signal.
pub open spec fn hit_is_clean(h: Hit) -> bool {
    h.misses@ == Set::<char>::empty()
}

/// One step of exponential smoothing with coefficient 1/11: the new value
/// is `(signal + 10 * previous) / 11`, with the signal at full scale for a
/// clean hit and zero otherwise.
pub open spec fn clean_update(prev: int, clean_hit: bool) -> int {
    if clean_hit {
        (CLEAN_SCALE + 10 * prev) / 11
    } else {
        (10 * prev) / 11
    }
}

pub proof fn lemma_clean_update_bounds(prev: int, clean_hit: bool)
    requires
        0 <= prev <= CLEAN_SCALE,
    ensures
        0 <= clean_update(prev, clean_hit) <= CLEAN_SCALE,
{
}

/// The smoothed clean fraction on record for `c`; a character never hit is
/// at zero.
pub open spec fn clean_of(m: Map<char, u32>, c: char) -> int {
    if m.contains_key(c) {
        m[c] as int
    } else {
        0
    }
}

/// The rolling window on record for `c`; a character never hit cleanly has
/// an empty window.
pub open spec fn window_of(w: Map<char, Seq<u64>>, c: char) -> Seq<u64> {
    if w.contains_key(c) {
        w[c]
    } else {
        Seq::empty()
    }
}

/// Fold one hit into the clean fractions: the target's fraction is smoothed
/// with the hit's signal, starting from zero for a first hit.
pub open spec fn fold_hit_clean(m: Map<char, u32>, h: Hit) -> Map<char, u32> {
    m.insert(h.target, clean_update(clean_of(m, h.target), hit_is_clean(h)) as u32)
}

/// Fold one hit into the rolling windows: only a clean hit contributes its
/// time as a speed sample.
pub open spec fn fold_hit_wins(w: Map<char, Seq<u64>>, h: Hit) -> Map<char, Seq<u64>> {
    if hit_is_clean(h) {
        w.insert(h.target, push_window(window_of(w, h.target), h.elapsed_ms))
    } else {
        w
    }
}

pub open spec fn fold_hits_clean(m: Map<char, u32>, hits: Seq<Hit>) -> Map<char, u32>
    decreases hits.len(),
{
    if hits.len() == 0 {
        m
    } else {
        fold_hits_clean(fold_hit_clean(m, hits[0]), hits.drop_first())
    }
}

pub open spec fn fold_hits_wins(w: Map<char, Seq<u64>>, hits: Seq<Hit>) -> Map<char, Seq<u64>>
    decreases hits.len(),
{
    if hits.len() == 0 {
        w
    } else {
        fold_hits_wins(fold_hit_wins(w, hits[0]), hits.drop_first())
    }
}

pub proof fn lemma_fold_clean_snoc(m: Map<char, u32>, hits: Seq<Hit>, h: Hit)
    ensures
        fold_hits_clean(m, hits.push(h)) == fold_hit_clean(fold_hits_clean(m, hits), h),
    decreases hits.len(),
{
    let p = hits.push(h);
    assert(fold_hits_clean(m, p) == fold_hits_clean(fold_hit_clean(m, p[0]), p.drop_first()));
    if hits.len() == 0 {
        assert(p[0] == h);
        assert(p.drop_first() =~= Seq::<Hit>::empty());
        assert(fold_hits_clean(fold_hit_clean(m, h), Seq::<Hit>::empty()) == fold_hit_clean(m, h));
    } else {
        assert(p.drop_first() =~= hits.drop_first().push(h));
        assert(p[0] == hits[0]);
        lemma_fold_clean_snoc(fold_hit_clean(m, hits[0]), hits.drop_first(), h);
    }
}

pub proof fn lemma_fold_wins_snoc(w: Map<char, Seq<u64>>, hits: Seq<Hit>, h: Hit)
    ensures
        fold_hits_wins(w, hits.push(h)) == fold_hit_wins(fold_hits_wins(w, hits), h),
    decreases hits.len(),
{
    let p = hits.push(h);
    assert(fold_hits_wins(w, p) == fold_hits_wins(fold_hit_wins(w, p[0]), p.drop_first()));
    if hits.len() == 0 {
        assert(p[0] == h);
        assert(p.drop_first() =~= Seq::<Hit>::empty());
        assert(fold_hits_wins(fold_hit_wins(w, h), Seq::<Hit>::empty()) == fold_hit_wins(w, h));
    } else {
        assert(p.drop_first() =~= hits.drop_first().push(h));
        assert(p[0] == hits[0]);
        lemma_fold_wins_snoc(fold_hit_wins(w, hits[0]), hits.drop_first(), h);
    }
}

/// A hit with at least one miss contributes no speed sample, and its clean
/// signal is zero: the target's smoothed fraction only decays.
pub proof fn lemma_dirty_hit_fold(m: Map<char, u32>, w: Map<char, Seq<u64>>, h: Hit)
    requires
        h.misses@ != Set::<char>::empty(),
    ensures
        fold_hit_wins(w, h) == w,
        clean_of(fold_hit_clean(m, h), h.target) == (10 * clean_of(m, h.target)) / 11,
        clean_of(m, h.target) >= 0 ==> clean_of(fold_hit_clean(m, h), h.target) <= clean_of(
            m,
            h.target,
        ),
{
}

/// The hits of a line that count for the records: everything after the
/// first hit, whose timing reflects the line boundary rather than real
/// typing.
pub open spec fn tail_hits(hits: Seq<Hit>) -> Seq<Hit> {
    if hits.len() == 0 {
        hits
    } else {
        hits.drop_first()
    }
}

/// Folding hits never removes a character from the accuracy record.
pub proof fn lemma_fold_clean_keys(m: Map<char, u32>, hits: Seq<Hit>, c: char)
    requires
        m.contains_key(c),
    ensures
        fold_hits_clean(m, hits).contains_key(c),
    decreases hits.len(),
{
    if hits.len() > 0 {
        assert(fold_hit_clean(m, hits[0]).contains_key(c));
        lemma_fold_clean_keys(fold_hit_clean(m, hits[0]), hits.drop_first(), c);
    }
}

/// A line with no hits past the context hit leaves both records exactly as
/// they were.
pub proof fn lemma_fold_of_no_hits(m: Map<char, u32>, w: Map<char, Seq<u64>>, hits: Seq<Hit>)
    requires
        hits.len() == 0,
    ensures
        fold_hits_clean(m, hits) == m,
        fold_hits_wins(w, hits) == w,
{
}

/// The character's recorded clean fraction sits below the accuracy
/// threshold.
pub open spec fn below_threshold(m: Map<char, u32>, c: char) -> bool {
    m.contains_key(c) && (m[c] as int) < MIN_CLEAN_PCT as int
}

/// The unlock gate: every unlocked character is accurate enough and fast
/// enough at once. A character without samples has harmonic speed zero and
/// blocks any positive speed gate.
pub open spec fn gate_passes(
    unlocked: Set<char>,
    clean: Map<char, u32>,
    wins: Map<char, Seq<u64>>,
    min_wpm_centi: int,
) -> bool {
    forall|c: char|
        unlocked.contains(c) ==> clean_of(clean, c) >= MIN_CLEAN_PCT && harmonic_wpm_centi(
            window_of(wins, c),
        ) >= min_wpm_centi
}

/// When both thresholds hold and the layout still has a locked letter, the
/// unlock adds exactly one character: the first letter of the layout order
/// not yet unlocked, which was not in the set before.
pub proof fn lemma_gate_unlocks(unlocked: Set<char>, order: Seq<char>)
    requires
        unlocked.finite(),
        spec_next_char(order, unlocked) is Some,
    ensures
        ({
            let nc = spec_next_char(order, unlocked).unwrap();
            &&& order.contains(nc)
            &&& !unlocked.contains(nc)
            &&& unlocked.insert(nc).len() == unlocked.len() + 1
            &&& unlocked.subset_of(unlocked.insert(nc))
        }),
{
    crate::keyboard::lemma_next_char_props(order, unlocked);
}

/// One unlocked character below the accuracy threshold blocks the unlock,
/// whatever every other character's figures look like.
pub proof fn lemma_gate_blocked(
    unlocked: Set<char>,
    clean: Map<char, u32>,
    wins: Map<char, Seq<u64>>,
    min_wpm_centi: int,
    c: char,
)
    requires
        unlocked.contains(c),
        clean_of(clean, c) < MIN_CLEAN_PCT,
    ensures
        !gate_passes(unlocked, clean, wins, min_wpm_centi),
{
}

/// A per-character report for display.
#[derive(Clone, Copy, Debug, PartialEq, Eq, Structural)]
pub struct CharReport {
    pub wpm_mean: WordsPerMinute,
    pub wpm_harmonic_mean: WordsPerMinute,
    pub clean_per_myriad: u32,
}

/// A plain-values image of a progression state, for an outer persistence
/// layer to store and hand back.
#[derive(Debug)]
pub struct Snapshot {
    pub chars: Vec<char>,
    pub clean: Vec<(char, u32)>,
    pub windows: Vec<(char, Vec<u64>)>,
    pub events: Vec<Event>,
}

/// Every recorded value of the snapshot is in range: clean fractions within
/// scale and speed windows within capacity with clamped times.
pub open spec fn snapshot_values_ok(s: Snapshot) -> bool {
    &&& forall|i: int| 0 <= i < s.clean@.len() ==> (#[trigger] s.clean@[i]).1 <= CLEAN_SCALE
    &&& forall|i: int|
        0 <= i < s.windows@.len() ==> crate::stats::window_ok((#[trigger] s.windows@[i]).1@)
}

/// After an upsert, every stored clean fraction is still within scale.
proof fn clean_values_bound_after_insert(prev: Seq<u32>, now: Seq<u32>, v: u32)
    requires
        forall|j: int| 0 <= j < prev.len() ==> (#[trigger] prev[j]) <= CLEAN_SCALE,
        v <= CLEAN_SCALE,
        now == prev.push(v) || exists|x: int|
            0 <= x < prev.len() && now == prev.update(x, v),
    ensures
        forall|j: int| 0 <= j < now.len() ==> (#[trigger] now[j]) <= CLEAN_SCALE,
{
    if now == prev.push(v) {
        assert forall|j: int| 0 <= j < now.len() implies (#[trigger] now[j]) <= CLEAN_SCALE by {
            if j < prev.len() {
                assert(now[j] == prev[j]);
            }
        }
    } else {
        let x = choose|x: int| 0 <= x < prev.len() && now == prev.update(x, v);
        assert forall|j: int| 0 <= j < now.len() implies (#[trigger] now[j]) <= CLEAN_SCALE by {
            if j != x {
                assert(now[j] == prev[j]);
            }
        }
    }
}

/// After an upsert, every stored record is still well-formed and synced.
proof fn stats_values_ok_after_insert(prev: Seq<Stats>, now: Seq<Stats>, v: Stats)
    requires
        forall|j: int| 0 <= j < prev.len() ==> (#[trigger] prev[j]).wf() && prev[j].synced(),
        v.wf(),
        v.synced(),
        now == prev.push(v) || exists|x: int| 0 <= x < prev.len() && now == prev.update(x, v),
    ensures
        forall|j: int| 0 <= j < now.len() ==> (#[trigger] now[j]).wf() && now[j].synced(),
{
    if now == prev.push(v) {
        assert forall|j: int| 0 <= j < now.len() implies (#[trigger] now[j]).wf()
            && now[j].synced() by {
            if j < prev.len() {
                assert(now[j] == prev[j]);
            }
        }
    } else {
        let x = choose|x: int| 0 <= x < prev.len() && now == prev.update(x, v);
        assert forall|j: int| 0 <= j < now.len() implies (#[trigger] now[j]).wf()
            && now[j].synced() by {
            if j != x {
                assert(now[j] == prev[j]);
            }
        }
    }
}

/// The progression state of one profile: the unlocked character set, the
/// per-character records, and the unlock event log.
#[derive(Debug)]
pub struct State {
    char_set: CharSet,
    timings: CharMap<Stats>,
    clean: CharMap<u32>,
    events: Vec<Event>,
}

impl State {
    /// The unlocked characters.
    pub closed spec fn unlocked(&self) -> Set<char> {
        self.char_set@
    }

    /// The unlocked characters in unlock order.
    pub closed spec fn unlocked_order(&self) -> Seq<char> {
        self.char_set.order()
    }

    /// The smoothed clean fractions on record.
    pub closed spec fn clean_map(&self) -> Map<char, u32> {
        self.clean@
    }

    /// The rolling windows of keystroke times on record.
    pub closed spec fn windows(&self) -> Map<char, Seq<u64>> {
        self.timings@.map_values(|s: Stats| s.window())
    }

    /// The unlock event log, oldest first.
    pub closed spec fn events_seq(&self) -> Seq<Event> {
        self.events@
    }

    pub closed spec fn wf(&self) -> bool {
        &&& self.char_set.wf()
        &&& self.timings.wf()
        &&& self.clean.wf()
        &&& forall|i: int|
            0 <= i < self.clean.values().len() ==> (#[trigger] self.clean.values()[i])
                <= CLEAN_SCALE
        &&& forall|i: int|
            0 <= i < self.timings.values().len() ==> (#[trigger] self.timings.values()[i]).wf()
                && self.timings.values()[i].synced()
        &&& forall|c: char| self.unlocked().contains(c) ==> self.clean_map().contains_key(c)
    }

    /// Every unlocked character has an accuracy record.
    pub proof fn lemma_wf_contains(&self, c: char)
        requires
            self.wf(),
            self.unlocked().contains(c),
        ensures
            self.clean_map().contains_key(c),
    {
    }

    /// A fresh state: the seed characters are unlocked with zeroed records,
    /// and the log opens with one unlock event per seed character.
    pub fn new(chars: Vec<char>) -> (r: State)
        ensures
            r.wf(),
            r.unlocked() == chars@.to_set(),
            chars@.no_duplicates() ==> r.unlocked_order() == chars@,
            r.clean_map().dom() == r.unlocked(),
            forall|c: char| #[trigger]
                r.unlocked().contains(c) ==> r.clean_map().contains_key(c) && r.clean_map()[c]
                    == 0,
            r.windows() == Map::<char, Seq<u64>>::empty(),
            r.events_seq().len() == r.unlocked_order().len(),
            forall|i: int|
                0 <= i < r.events_seq().len() ==> ((#[trigger] r.events_seq()[i]) matches
                    Event::Unlock { letter, .. } && letter == r.unlocked_order()[i]),
    {
        let time = crate::clock::now_unix_millis();
        let mut char_set = CharSet::new();
        let mut clean: CharMap<u32> = CharMap::new();
        let mut events: Vec<Event> = Vec::new();
        let n = chars.len();
        for i in 0..n
            invariant
                n == chars@.len(),
                char_set.wf(),
                clean.wf(),
                char_set@ == chars@.take(i as int).to_set(),
                chars@.take(i as int).no_duplicates() ==> char_set.order() == chars@.take(
                    i as int,
                ),
                clean.keys() == char_set.order(),
                forall|j: int|
                    0 <= j < clean.values().len() ==> (#[trigger] clean.values()[j]) == 0,
                events@.len() == char_set.order().len(),
                forall|j: int|
                    0 <= j < events@.len() ==> ((#[trigger] events@[j]) matches Event::Unlock {
                        letter,
                        ..
                    } && letter == char_set.order()[j]),
        {
            let c = chars[i];
            proof {
                assert(chars@.take(i as int).push(chars@[i as int]) =~= chars@.take(i + 1));
                broadcast use vstd::prelude::Seq::lemma_push_to_set_commute;

                if chars@.take(i + 1).no_duplicates() {
                    assert forall|a: int, b: int|
                        0 <= a < b < i implies chars@.take(i as int)[a] != chars@.take(
                        i as int,
                    )[b] by {
                        assert(chars@.take(i + 1)[a] != chars@.take(i + 1)[b]);
                    }
                    assert(chars@.take(i as int).no_duplicates());
                    assert(!chars@.take(i as int).contains(chars@[i as int])) by {
                        if chars@.take(i as int).contains(chars@[i as int]) {
                            let a = choose|a: int|
                                0 <= a < i && chars@.take(i as int)[a] == chars@[i as int];
                            assert(chars@.take(i + 1)[a] == chars@.take(i + 1)[i as int]);
                        }
                    }
                    assert(!chars@.take(i as int).to_set().contains(chars@[i as int]));
                }
            }
            if !char_set.contains(c) {
                proof {
                    clean.lemma_view();
                    char_set.lemma_view_is_order_set();
                    assert(!char_set.order().to_set().contains(c));
                    assert(!clean@.contains_key(c));
                }
                let ghost pre_order = char_set.order();
                let ghost pre_events = events@;
                char_set.insert(c);
                clean.insert(c, 0);
                events.push(Event::Unlock { letter: c, time });
                proof {
                    lemma_push_facts(pre_events, Event::Unlock { letter: c, time });
                    lemma_push_facts(pre_order, c);
                    assert(char_set.order() == pre_order.push(c));
                    assert(events@ == pre_events.push(Event::Unlock { letter: c, time }));
                    assert forall|j: int| 0 <= j < events@.len() implies ((
                    #[trigger] events@[j]) matches Event::Unlock { letter, .. } && letter
                        == char_set.order()[j]) by {
                        if j < pre_events.len() {
                            assert(events@[j] == pre_events[j]);
                            assert(char_set.order()[j] == pre_order[j]);
                        } else {
                            assert(events@[j] == Event::Unlock { letter: c, time });
                            assert(char_set.order()[j] == c);
                        }
                    }
                }
            } else {
                proof {
                    assert(char_set@.insert(c) =~= char_set@);
                }
            }
        }
        proof {
            assert(chars@.take(n as int) =~= chars@);
        }
        let r = State { char_set, timings: CharMap::new(), clean, events };
        proof {
            r.clean.lemma_view();
            r.char_set.lemma_view_is_order_set();
            assert(r.windows() =~= Map::<char, Seq<u64>>::empty());
            assert(r.clean_map().dom() =~= r.unlocked());
            assert forall|c: char| #[trigger] r.unlocked().contains(c) implies r
                .clean_map()
                .contains_key(c) && r.clean_map()[c] == 0 by {
                assert(r.char_set.order().to_set().contains(c));
                assert(r.clean.keys().to_set().contains(c));
                let i = choose|i: int| 0 <= i < r.clean.keys().len() && r.clean.keys()[i] == c;
                assert(r.clean_map()[c] == r.clean.values()[i]);
            }
        }
        r
    }

    /// A copy of the unlocked character set.
    pub fn char_set(&self) -> (r: CharSet)
        ensures
            r@ == self.unlocked(),
            r.order() == self.unlocked_order(),
    {
        let r = self.char_set.clone();
        r
    }

    /// Fold a completed line into the records, evaluate the unlock gate,
    /// and widen the character set when both thresholds hold and the layout has
    /// a letter left. The line's first hit is context only: its timing
    /// reflects the line boundary, so it is skipped.
    pub fn add_line(&mut self, line: Line, layout: &Layout, difficulty: &Difficulty) -> (r: Option<
        CharSet,
    >)
        requires
            old(self).wf(),
            line.wf(),
        ensures
            final(self).wf(),
            ({
                let folded_clean = fold_hits_clean(
                    old(self).clean_map(),
                    tail_hits(line.hits_seq()),
                );
                let folded_wins = fold_hits_wins(old(self).windows(), tail_hits(line.hits_seq()));
                let gate = gate_passes(
                    old(self).unlocked(),
                    folded_clean,
                    folded_wins,
                    spec_words_per_minute(*difficulty).0 as int,
                );
                let next = spec_next_char(spec_letter_order(*layout), old(self).unlocked());
                &&& final(self).windows() == folded_wins
                &&& if gate && next is Some {
                    let nc = next.unwrap();
                    &&& r matches Some(cs) && cs.wf() && cs@ == final(self).unlocked()
                        && cs.order() == final(self).unlocked_order()
                    &&& final(self).unlocked() == old(self).unlocked().insert(nc)
                    &&& final(self).unlocked_order() == old(self).unlocked_order().push(nc)
                    &&& final(self).clean_map() == folded_clean.insert(nc, 0)
                    &&& final(self).events_seq() == old(self).events_seq().push(
                        Event::Unlock { letter: nc, time: line.spec_time() },
                    )
                } else {
                    &&& r is None
                    &&& final(self).unlocked() == old(self).unlocked()
                    &&& final(self).unlocked_order() == old(self).unlocked_order()
                    &&& final(self).clean_map() == folded_clean
                    &&& final(self).events_seq() == old(self).events_seq()
                }
            }),
            // The unlocked set never shrinks.
            old(self).unlocked().subset_of(final(self).unlocked()),
    {
        let ghost orig_clean = self.clean_map();
        let ghost orig_wins = self.windows();
        let hits = line.hits();
        let n = hits.len();
        let mut i: usize = 1;
        while i < n
            invariant
                old(self).wf(),
                line.wf(),
                n == hits@.len(),
                hits@ == line.hits_seq(),
                1 <= i,
                n > 0 ==> i <= n,
                n == 0 ==> i == 1,
                self.char_set == old(self).char_set,
                self.events == old(self).events,
                self.char_set.wf(),
                self.timings.wf(),
                self.clean.wf(),
                forall|j: int|
                    0 <= j < self.clean.values().len() ==> (#[trigger] self.clean.values()[j])
                        <= CLEAN_SCALE,
                forall|j: int|
                    0 <= j < self.timings.values().len() ==> (
                    #[trigger] self.timings.values()[j]).wf(),
                n > 0 ==> self.clean_map() == fold_hits_clean(
                    orig_clean,
                    line.hits_seq().subrange(1, i as int),
                ),
                n > 0 ==> self.windows() == fold_hits_wins(
                    orig_wins,
                    line.hits_seq().subrange(1, i as int),
                ),
                n == 0 ==> self.clean_map() == orig_clean && self.windows() == orig_wins,
            decreases n - i,
        {
            let hit = &hits[i];
            let ghost pre_clean = self.clean_map();
            let ghost pre_wins = self.windows();
            proof {
                assert(line.hits_seq().subrange(1, i + 1) =~= line.hits_seq().subrange(
                    1,
                    i as int,
                ).push(line.hits_seq()[i as int]));
                lemma_fold_clean_snoc(orig_clean, line.hits_seq().subrange(1, i as int), hits@[i as int]);
                lemma_fold_wins_snoc(orig_wins, line.hits_seq().subrange(1, i as int), hits@[i as int]);
                assert(hit_ok(hits@[i as int]));
            }
            let clean_hit = hit.misses.is_empty();
            proof {
                if clean_hit {
                    assert(hit.misses@ =~= Set::<char>::empty());
                }
            }
            if clean_hit {
                proof {
                    self.timings.lemma_view();
                }
                let ghost pre_tvals = self.timings.values();
                let ghost pre_tkeys = self.timings.keys();
                let ghost pre_tmap = self.timings@;
                match self.timings.index_of(hit.target) {
                    Some(ix) => {
                        let mut s = self.timings.value_at(ix).clone();
                        proof {
                            assert(s.window() == self.timings.values()[ix as int].window());
                            assert(window_of(pre_wins, hit.target) == s.window());
                        }
                        s.push(hit.elapsed_ms);
                        self.timings.set_value_at(ix, s);
                        proof {
                            assert(self.windows() =~= pre_wins.insert(
                                hits@[i as int].target,
                                push_window(
                                    window_of(pre_wins, hits@[i as int].target),
                                    hits@[i as int].elapsed_ms,
                                ),
                            ));
                            assert forall|j: int|
                                0 <= j < self.timings.values().len() implies (
                            #[trigger] self.timings.values()[j]).wf() by {
                                if j != ix {
                                    assert(self.timings.values()[j] == pre_tvals[j]);
                                }
                            }
                        }
                    },
                    None => {
                        let mut s = Stats::new();
                        proof {
                            assert(window_of(pre_wins, hit.target) =~= Seq::<u64>::empty());
                        }
                        s.push(hit.elapsed_ms);
                        self.timings.insert(hit.target, s);
                        proof {
                            assert(self.windows() =~= pre_wins.insert(
                                hits@[i as int].target,
                                push_window(
                                    window_of(pre_wins, hits@[i as int].target),
                                    hits@[i as int].elapsed_ms,
                                ),
                            ));
                            assert(self.timings.values() == pre_tvals.push(s));
                            assert forall|j: int|
                                0 <= j < self.timings.values().len() implies (
                            #[trigger] self.timings.values()[j]).wf() by {
                                if j < pre_tvals.len() {
                                    assert(self.timings.values()[j] == pre_tvals[j]);
                                }
                            }
                        }
                    },
                }
            } else {
                proof {
                    assert(self.windows() == pre_wins);
                }
            }
            proof {
                self.clean.lemma_view();
            }
            let prev: u32 = match self.clean.index_of(hit.target) {
                Some(ix) => {
                    let v = *self.clean.value_at(ix);
                    proof {
                        assert(v == self.clean.values()[ix as int]);
                        assert(v <= CLEAN_SCALE);
                    }
                    v
                },
                None => 0,
            };
            proof {
                assert(prev as int == clean_of(pre_clean, hits@[i as int].target));
                lemma_clean_update_bounds(prev as int, clean_hit);
            }
            let signal: u32 = if clean_hit {
                CLEAN_SCALE
            } else {
                0
            };
            let updated: u32 = (signal + 10 * prev) / 11;
            let ghost pre_vals = self.clean.values();
            let ghost pre_keys = self.clean.keys();
            let ghost pre_map = self.clean@;
            self.clean.insert(hit.target, updated);
            proof {
                assert(self.clean_map() =~= fold_hit_clean(pre_clean, hits@[i as int]));
                assert(self.clean_map() =~= fold_hits_clean(
                    orig_clean,
                    line.hits_seq().subrange(1, i + 1),
                ));
                let tgt = hits@[i as int].target;
                assert forall|j: int|
                    0 <= j < self.clean.values().len() implies (#[trigger] self.clean.values()[j])
                    <= CLEAN_SCALE by {
                    if pre_map.contains_key(tgt) {
                        let x = choose|x: int|
                            0 <= x < pre_keys.len() && pre_keys[x] == tgt && self.clean.values()
                                == pre_vals.update(x, updated);
                        if j != x {
                            assert(self.clean.values()[j] == pre_vals[j]);
                            assert(pre_vals[j] <= CLEAN_SCALE);
                        }
                    } else {
                        assert(self.clean.values() == pre_vals.push(updated));
                        if j < pre_vals.len() {
                            assert(self.clean.values()[j] == pre_vals[j]);
                            assert(pre_vals[j] <= CLEAN_SCALE);
                        }
                    }
                }
            }
            i = i + 1;
        }
        proof {
            if n == 0 {
                assert(tail_hits(line.hits_seq()) =~= line.hits_seq());
            } else {
                assert(line.hits_seq().subrange(1, n as int) =~= tail_hits(line.hits_seq()));
            }
        }
        let ghost folded_clean = self.clean_map();
        let ghost folded_wins = self.windows();

        // Refresh the derived speed figures over the new windows.
        let m = self.timings.num_entries();
        let mut j: usize = 0;
        while j < m
            invariant
                m == self.timings.keys().len(),
                m == self.timings.values().len(),
                j <= m,
                self.char_set == old(self).char_set,
                self.events == old(self).events,
                self.char_set.wf(),
                self.clean.wf(),
                self.timings.wf(),
                self.clean_map() == folded_clean,
                forall|k: int|
                    0 <= k < self.clean.values().len() ==> (#[trigger] self.clean.values()[k])
                        <= CLEAN_SCALE,
                self.windows() == folded_wins,
                forall|k: int|
                    0 <= k < m ==> (#[trigger] self.timings.values()[k]).wf(),
                forall|k: int|
                    0 <= k < j ==> (#[trigger] self.timings.values()[k]).synced(),
            decreases m - j,
        {
            proof {
                self.timings.lemma_view();
            }
            let ghost pre = self.timings;
            let mut s = self.timings.value_at(j).clone();
            s.recompute();
            self.timings.set_value_at(j, s);
            proof {
                assert(pre@.contains_key(pre.keys()[j as int]));
                assert(self.timings@ == pre@.insert(pre.keys()[j as int], s));
                assert(s.window() == pre@[pre.keys()[j as int]].window());
                assert(self.windows() =~= pre@.map_values(|s: Stats| s.window()));
                assert forall|k: int|
                    0 <= k < self.timings.values().len() implies (
                #[trigger] self.timings.values()[k]).wf() && (k < j + 1
                    ==> self.timings.values()[k].synced()) by {
                    if k != j {
                        assert(self.timings.values()[k] == pre.values()[k]);
                    }
                }
            }
            j = j + 1;
        }

        proof {
            assert forall|c: char| self.unlocked().contains(c) implies self
                .clean_map()
                .contains_key(c) by {
                old(self).lemma_wf_contains(c);
                if n == 0 {
                    assert(tail_hits(line.hits_seq()) =~= line.hits_seq());
                }
                lemma_fold_clean_keys(orig_clean, tail_hits(line.hits_seq()), c);
            }
        }

        // Evaluate both unlock thresholds over the unlocked set.
        let min_wpm = difficulty.words_per_minute();
        let ghost min_c = spec_words_per_minute(*difficulty).0 as int;
        let unlocked_count = self.char_set.len();
        let mut all_ok = true;
        let mut k: usize = 0;
        while k < unlocked_count
            invariant
                old(self).wf(),
                self.char_set == old(self).char_set,
                self.char_set.wf(),
                self.clean.wf(),
                self.timings.wf(),
                unlocked_count == self.unlocked_order().len(),
                k <= unlocked_count,
                min_c == min_wpm.0 as int,
                forall|c: char|
                    self.unlocked().contains(c) ==> self.clean_map().contains_key(c),
                self.clean_map() == folded_clean,
                self.windows() == folded_wins,
                self.timings.keys().len() == self.timings.values().len(),
                forall|t: int|
                    0 <= t < self.timings.values().len() ==> (
                    #[trigger] self.timings.values()[t]).wf() && self.timings.values()[t].synced(),
                all_ok == forall|t: int|
                    0 <= t < k ==> clean_of(folded_clean, #[trigger] self.unlocked_order()[t])
                        >= MIN_CLEAN_PCT && harmonic_wpm_centi(
                        window_of(folded_wins, self.unlocked_order()[t]),
                    ) >= min_c,
            decreases unlocked_count - k,
        {
            let c = self.char_set.char_at(k);
            let cl: u32 = match self.clean.index_of(c) {
                Some(ix) => *self.clean.value_at(ix),
                None => 0,
            };
            proof {
                assert(cl as int == clean_of(folded_clean, c));
            }
            let hm: u64 = match self.timings.index_of(c) {
                Some(ix) => {
                    let s = self.timings.value_at(ix);
                    proof {
                        assert(s.synced());
                        assert(window_of(folded_wins, c) == s.window());
                    }
                    s.wpm_harmonic_mean().0
                },
                None => {
                    proof {
                        assert(window_of(folded_wins, c) =~= Seq::<u64>::empty());
                    }
                    0
                },
            };
            proof {
                assert(hm as int == harmonic_wpm_centi(window_of(folded_wins, c)));
            }
            if cl < MIN_CLEAN_PCT || hm < min_wpm.0 {
                all_ok = false;
            }
            k = k + 1;
        }
        proof {
            self.char_set.lemma_view_is_order_set();
            if all_ok {
                assert forall|c: char| old(self).unlocked().contains(c) implies clean_of(
                    folded_clean,
                    c,
                ) >= MIN_CLEAN_PCT && harmonic_wpm_centi(window_of(folded_wins, c)) >= min_c by {
                    let t = choose|t: int|
                        0 <= t < self.unlocked_order().len() && self.unlocked_order()[t] == c;
                    assert(clean_of(folded_clean, self.unlocked_order()[t]) >= MIN_CLEAN_PCT);
                }
                assert(gate_passes(old(self).unlocked(), folded_clean, folded_wins, min_c));
            } else {
                let t = choose|t: int|
                    0 <= t < unlocked_count && !(clean_of(
                        folded_clean,
                        self.unlocked_order()[t],
                    ) >= MIN_CLEAN_PCT && harmonic_wpm_centi(
                        window_of(folded_wins, self.unlocked_order()[t]),
                    ) >= min_c);
                assert(old(self).unlocked().contains(self.unlocked_order()[t]));
                assert(!gate_passes(old(self).unlocked(), folded_clean, folded_wins, min_c));
            }
        }
        if all_ok {
            match layout.next_char(&self.char_set) {
                Some(letter) => {
                    proof {
                        crate::keyboard::lemma_next_char_props(
                            spec_letter_order(*layout),
                            self.char_set@,
                        );
                        self.clean.lemma_view();
                    }
                    let ghost pre_set = self.char_set@;
                    let ghost pre_cmap = self.clean@;
                    let ghost pre_cvals = self.clean.values();
                    let ghost pre_ckeys = self.clean.keys();
                    self.char_set.insert(letter);
                    self.clean.insert(letter, 0);
                    let time = line.time();
                    self.events.push(Event::Unlock { letter, time });
                    let out = self.char_set.clone();
                    proof {
                        assert(self.clean@ == pre_cmap.insert(letter, 0u32));
                        assert forall|c: char| self.unlocked().contains(c) implies self
                            .clean_map()
                            .contains_key(c) by {
                            assert(pre_set.contains(c) || c == letter);
                            if pre_set.contains(c) {
                                assert(pre_cmap.contains_key(c));
                            }
                        }
                        assert forall|j: int|
                            0 <= j < self.clean.values().len() implies (
                        #[trigger] self.clean.values()[j]) <= CLEAN_SCALE by {
                            if pre_cmap.contains_key(letter) {
                                let x = choose|x: int|
                                    0 <= x < pre_ckeys.len() && pre_ckeys[x] == letter
                                        && self.clean.values() == pre_cvals.update(x, 0u32);
                                if j != x {
                                    assert(self.clean.values()[j] == pre_cvals[j]);
                                }
                            } else {
                                assert(self.clean.values() == pre_cvals.push(0u32));
                                if j < pre_cvals.len() {
                                    assert(self.clean.values()[j] == pre_cvals[j]);
                                }
                            }
                        }
                    }
                    return Some(out);
                },
                None => {
                },
            }
        }
        None
    }

    /// The unlock event log.
    pub fn events(&self) -> (r: &Vec<Event>)
        ensures
            r@ == self.events_seq(),
    {
        &self.events
    }


    /// Export the progression state as plain values, so an outer layer can
    /// persist it in whatever schema it likes.
    pub fn export_snapshot(&self) -> (r: Snapshot)
        requires
            self.wf(),
        ensures
            r.chars@ == self.unlocked_order(),
            r.events@ == self.events_seq(),
            r.clean@.len() == self.clean_map().dom().len(),
            forall|i: int|
                0 <= i < r.clean@.len() ==> self.clean_map().contains_key(
                    (#[trigger] r.clean@[i]).0,
                ) && self.clean_map()[r.clean@[i].0] == r.clean@[i].1,
            forall|c: char| #[trigger]
                self.clean_map().contains_key(c) ==> exists|i: int|
                    0 <= i < r.clean@.len() && (#[trigger] r.clean@[i]).0 == c,
            r.windows@.len() == self.windows().dom().len(),
            forall|i: int|
                0 <= i < r.windows@.len() ==> self.windows().contains_key(
                    (#[trigger] r.windows@[i]).0,
                ) && self.windows()[r.windows@[i].0] == r.windows@[i].1@,
            forall|c: char| #[trigger]
                self.windows().contains_key(c) ==> exists|i: int|
                    0 <= i < r.windows@.len() && (#[trigger] r.windows@[i]).0 == c,
    {
        proof {
            self.clean.lemma_view();
            self.timings.lemma_view();
        }
        let chars = self.char_set.to_vec();
        let events = self.events.clone();
        proof {
            assert forall|i: int| 0 <= i < events@.len() implies events@[i] == self.events@[i]
                by {
                assert(cloned::<Event>(self.events@[i], events@[i]));
            }
            assert(events@ =~= self.events@);
        }
        let mut clean: Vec<(char, u32)> = Vec::new();
        let n = self.clean.num_entries();
        for i in 0..n
            invariant
                self.wf(),
                n == self.clean.keys().len(),
                self.clean.keys().len() == self.clean.values().len(),
                clean@.len() == i,
                forall|j: int|
                    0 <= j < i ==> (#[trigger] clean@[j]) == (
                        self.clean.keys()[j],
                        self.clean.values()[j],
                    ),
        {
            let ghost pre = clean@;
            let pair = (self.clean.key_at(i), *self.clean.value_at(i));
            clean.push(pair);
            proof {
                lemma_push_facts(pre, pair);
            }
        }
        let mut windows: Vec<(char, Vec<u64>)> = Vec::new();
        let m = self.timings.num_entries();
        for i in 0..m
            invariant
                self.wf(),
                m == self.timings.keys().len(),
                self.timings.keys().len() == self.timings.values().len(),
                windows@.len() == i,
                forall|j: int|
                    0 <= j < i ==> (#[trigger] windows@[j]).0 == self.timings.keys()[j]
                        && windows@[j].1@ == self.timings.values()[j].window(),
        {
            let ghost pre = windows@;
            let pair = (self.timings.key_at(i), self.timings.value_at(i).window_vec());
            windows.push(pair);
            proof {
                lemma_push_facts(pre, pair);
            }
        }
        let r = Snapshot { chars, clean, windows, events };
        proof {
            self.clean.lemma_view();
            self.timings.lemma_view();
            assert(self.windows().dom() =~= self.timings@.dom());
            assert forall|i: int| 0 <= i < r.clean@.len() implies self.clean_map().contains_key(
                (#[trigger] r.clean@[i]).0,
            ) && self.clean_map()[r.clean@[i].0] == r.clean@[i].1 by {
                assert(r.clean@[i].0 == self.clean.keys()[i]);
            }
            assert forall|c: char| #[trigger] self.clean_map().contains_key(c) implies exists|
                i: int,
            | 0 <= i < r.clean@.len() && (#[trigger] r.clean@[i]).0 == c by {
                assert(self.clean.keys().to_set().contains(c));
                assert(self.clean.keys().contains(c));
                let i = choose|i: int|
                    0 <= i < self.clean.keys().len() && self.clean.keys()[i] == c;
                assert(r.clean@[i].0 == c);
            }
            assert forall|i: int| 0 <= i < r.windows@.len() implies self
                .windows()
                .contains_key((#[trigger] r.windows@[i]).0) && self.windows()[r.windows@[i].0]
                == r.windows@[i].1@ by {
                assert(r.windows@[i].0 == self.timings.keys()[i]);
            }
            assert forall|c: char| #[trigger] self.windows().contains_key(c) implies exists|
                i: int,
            | 0 <= i < r.windows@.len() && (#[trigger] r.windows@[i]).0 == c by {
                assert(self.timings@.dom().contains(c));
                assert(self.timings.keys().to_set().contains(c));
                assert(self.timings.keys().contains(c));
                let i = choose|i: int|
                    0 <= i < self.timings.keys().len() && self.timings.keys()[i] == c;
                assert(r.windows@[i].0 == c);
            }
        }
        r
    }

    /// Rebuild a progression state from a snapshot. A snapshot whose
    /// recorded values are out of range — a clean fraction beyond full
    /// scale, or a speed window beyond its capacity or holding an
    /// implausible time — is rejected.
    pub fn restore_snapshot(s: &Snapshot) -> (r: Option<State>)
        ensures
            r is Some <==> snapshot_values_ok(*s),
            match r {
                Some(st) => {
                    &&& st.wf()
                    &&& st.unlocked() == s.chars@.to_set()
                    &&& st.events_seq() == s.events@
                },
                None => true,
            },
    {
        for i in 0..s.clean.len()
            invariant
                forall|j: int| 0 <= j < i ==> (#[trigger] s.clean@[j]).1 <= CLEAN_SCALE,
        {
            if s.clean[i].1 > CLEAN_SCALE {
                return None;
            }
        }
        for i in 0..s.windows.len()
            invariant
                forall|j: int|
                    0 <= j < i ==> crate::stats::window_ok((#[trigger] s.windows@[j]).1@),
        {
            let w = &s.windows[i].1;
            if w.len() > crate::stats::NUM_RECENT_TIMINGS {
                return None;
            }
            for k in 0..w.len()
                invariant
                    i < s.windows@.len(),
                    w@ == s.windows@[i as int].1@,
                    w@.len() <= crate::stats::NUM_RECENT_TIMINGS,
                    forall|t: int| 0 <= t < k ==> 1 <= #[trigger] w@[t] <= MAX_DURATION_MS,
            {
                if w[k] < 1 || w[k] > MAX_DURATION_MS {
                    return None;
                }
            }
        }
        proof {
            assert(snapshot_values_ok(*s));
        }
        let char_set = CharSet::from_chars(&s.chars);
        let mut st = State {
            char_set,
            timings: CharMap::new(),
            clean: CharMap::new(),
            events: s.events.clone(),
        };
        proof {
            assert forall|i2: int| 0 <= i2 < st.events@.len() implies st.events@[i2]
                == s.events@[i2] by {
                assert(cloned::<Event>(s.events@[i2], st.events@[i2]));
            }
            assert(st.events@ =~= s.events@);
        }
        // Overlay the recorded fractions.
        let mut i: usize = 0;
        while i < s.clean.len()
            invariant
                snapshot_values_ok(*s),
                i <= s.clean@.len(),
                st.char_set.wf(),
                st.clean.wf(),
                st.timings.wf(),
                st.events@ == s.events@,
                st.char_set@ == s.chars@.to_set(),
                st.timings.values() == Seq::<Stats>::empty(),
                forall|j: int|
                    0 <= j < st.clean.values().len() ==> (#[trigger] st.clean.values()[j])
                        <= CLEAN_SCALE,
            decreases s.clean@.len() - i,
        {
            let ghost prev = st.clean.values();
            let v = s.clean[i].1;
            proof {
                assert(v <= CLEAN_SCALE);
            }
            st.clean.insert(s.clean[i].0, v);
            proof {
                clean_values_bound_after_insert(prev, st.clean.values(), v);
            }
            i = i + 1;
        }
        // Overlay the recorded windows, refreshing the derived figures.
        let mut i: usize = 0;
        while i < s.windows.len()
            invariant
                snapshot_values_ok(*s),
                i <= s.windows@.len(),
                st.char_set.wf(),
                st.clean.wf(),
                st.timings.wf(),
                st.events@ == s.events@,
                st.char_set@ == s.chars@.to_set(),
                forall|j: int|
                    0 <= j < st.clean.values().len() ==> (#[trigger] st.clean.values()[j])
                        <= CLEAN_SCALE,
                forall|j: int|
                    0 <= j < st.timings.values().len() ==> (#[trigger] st.timings.values()[j]).wf()
                        && st.timings.values()[j].synced(),
            decreases s.windows@.len() - i,
        {
            let ghost prev = st.timings.values();
            proof {
                assert(crate::stats::window_ok(s.windows@[i as int].1@));
            }
            let mut stat = Stats::from_window(&s.windows[i].1);
            stat.recompute();
            st.timings.insert(s.windows[i].0, stat);
            proof {
                stats_values_ok_after_insert(prev, st.timings.values(), stat);
            }
            i = i + 1;
        }
        // Every unlocked character without a recorded fraction starts at
        // zero.
        let cn = st.char_set.order_len();
        let mut i: usize = 0;
        while i < cn
            invariant
                snapshot_values_ok(*s),
                cn == st.char_set.order().len(),
                i <= cn,
                st.char_set.wf(),
                st.clean.wf(),
                st.timings.wf(),
                st.events@ == s.events@,
                st.char_set@ == s.chars@.to_set(),
                forall|j: int|
                    0 <= j < st.clean.values().len() ==> (#[trigger] st.clean.values()[j])
                        <= CLEAN_SCALE,
                forall|j: int|
                    0 <= j < st.timings.values().len() ==> (#[trigger] st.timings.values()[j]).wf()
                        && st.timings.values()[j].synced(),
                forall|j: int|
                    0 <= j < i ==> st.clean@.contains_key(#[trigger] st.char_set.order()[j]),
            decreases cn - i,
        {
            let c = st.char_set.char_at(i);
            match st.clean.index_of(c) {
                Some(_) => {
                },
                None => {
                    let ghost prev = st.clean.values();
                    st.clean.insert(c, 0);
                    proof {
                        clean_values_bound_after_insert(prev, st.clean.values(), 0);
                    }
                },
            }
            i = i + 1;
        }
        proof {
            st.char_set.lemma_view_is_order_set();
            assert forall|c: char| st.unlocked().contains(c) implies st
                .clean_map()
                .contains_key(c) by {
                assert(st.char_set.order().to_set().contains(c));
                assert(st.char_set.order().contains(c));
                let j = choose|j: int|
                    0 <= j < st.char_set.order().len() && st.char_set.order()[j] == c;
                assert(st.clean@.contains_key(st.char_set.order()[j]));
            }
        }
        Some(st)
    }

    /// Up to `n` characters most in need of practice: the characters below
    /// the accuracy threshold, least accurate first; if fewer than `n`
    /// qualify, padded with the recorded characters of lowest harmonic-mean
    /// speed. The result falls short of `n` only when it already holds
    /// every below-threshold character and every character with a speed
    /// record.
    pub fn needs_improvement(&self, n: usize) -> (r: CharSet)
        requires
            self.wf(),
        ensures
            r.wf(),
            r@.len() <= n,
            forall|c: char| #[trigger]
                r@.contains(c) ==> self.clean_map().contains_key(c)
                    || self.windows().contains_key(c),
            n > 0 && (exists|c: char| below_threshold(self.clean_map(), c)) ==> exists|c: char|
                r@.contains(c) && below_threshold(self.clean_map(), c),
            // The result is only short of `n` when nothing is left to take.
            r@.len() < n ==> (forall|c: char|
                below_threshold(self.clean_map(), c) ==> r@.contains(c)) && (forall|c: char| #[trigger]
                self.windows().contains_key(c) ==> r@.contains(c)),
            // A below-threshold character left out means the result is full.
            forall|c: char|
                below_threshold(self.clean_map(), c) && !r@.contains(c) ==> r@.len() == n,
            // Below-threshold characters are taken least accurate first:
            // every below-threshold character in the result is at most as
            // accurate as every below-threshold character left out.
            forall|c1: char, c2: char|
                #![trigger r@.contains(c1), clean_of(self.clean_map(), c2)]
                r@.contains(c1) && below_threshold(self.clean_map(), c1) && below_threshold(
                    self.clean_map(),
                    c2,
                ) && !r@.contains(c2) ==> clean_of(self.clean_map(), c1) <= clean_of(
                    self.clean_map(),
                    c2,
                ),
            // The padding takes the slowest recorded characters first.
            forall|c1: char, c2: char|
                #![trigger r@.contains(c1), harmonic_wpm_centi(window_of(self.windows(), c2))]
                r@.contains(c1) && !below_threshold(self.clean_map(), c1)
                    && self.windows().contains_key(c2) && !r@.contains(c2)
                    ==> harmonic_wpm_centi(window_of(self.windows(), c1)) <= harmonic_wpm_centi(
                    window_of(self.windows(), c2),
                ),
    {
        proof {
            self.clean.lemma_view();
            self.timings.lemma_view();
        }
        let mut result = CharSet::new();
        let total = self.clean.num_entries();
        let mut more = true;
        while more && result.len() < n
            invariant
                self.wf(),
                result.wf(),
                total == self.clean.keys().len(),
                self.clean.keys().len() == self.clean.values().len(),
                result@.len() <= n,
                result@.len() == result.order().len(),
                forall|i: int|
                    0 <= i < result.order().len() ==> below_threshold(
                        self.clean_map(),
                        #[trigger] result.order()[i],
                    ),
                forall|i: int, c2: char|
                    #![trigger result.order()[i], clean_of(self.clean_map(), c2)]
                    0 <= i < result.order().len() && below_threshold(self.clean_map(), c2)
                        && !result@.contains(c2) ==> clean_of(
                        self.clean_map(),
                        result.order()[i],
                    ) <= clean_of(self.clean_map(), c2),
                !more ==> forall|c: char|
                    below_threshold(self.clean_map(), c) ==> result@.contains(c),
            decreases (if more { 1int } else { 0int }), n - result@.len(),
        {
            let mut best: usize = 0;
            let mut best_found = false;
            let mut idx: usize = 0;
            while idx < total
                invariant
                    self.wf(),
                    result.wf(),
                    total == self.clean.keys().len(),
                    self.clean.keys().len() == self.clean.values().len(),
                    idx <= total,
                    best_found ==> best < total && self.clean.values()[best as int]
                        < MIN_CLEAN_PCT && !result@.contains(self.clean.keys()[best as int]),
                    best_found ==> forall|j: int|
                        0 <= j < idx ==> (#[trigger] self.clean.values()[j] < MIN_CLEAN_PCT
                            && !result@.contains(self.clean.keys()[j])) ==> self.clean.values()[
                        best as int] <= self.clean.values()[j],
                    !best_found ==> forall|j: int|
                        0 <= j < idx ==> !(#[trigger] self.clean.values()[j] < MIN_CLEAN_PCT
                            && !result@.contains(self.clean.keys()[j])),
                decreases total - idx,
            {
                let key = self.clean.key_at(idx);
                let val = *self.clean.value_at(idx);
                if val < MIN_CLEAN_PCT && !result.contains(key) {
                    if !best_found {
                        best = idx;
                        best_found = true;
                    } else {
                        let bv = *self.clean.value_at(best);
                        if val < bv {
                            best = idx;
                        }
                    }
                }
                idx = idx + 1;
            }
            if best_found {
                let key = self.clean.key_at(best);
                let ghost pre_order = result.order();
                let ghost pre_set = result@;
                proof {
                    result.lemma_view_is_order_set();
                }
                result.insert(key);
                proof {
                    self.clean.lemma_view();
                    result.lemma_view_is_order_set();
                    assert(result.order() == pre_order.push(key));
                    lemma_push_facts(pre_order, key);
                    assert(below_threshold(self.clean_map(), key));
                    assert forall|i: int| 0 <= i < result.order().len() implies below_threshold(
                        self.clean_map(),
                        #[trigger] result.order()[i],
                    ) by {
                        if i < pre_order.len() {
                            assert(result.order()[i] == pre_order[i]);
                        }
                    }
                    assert forall|i: int, c2: char|
                        #![trigger result.order()[i], clean_of(self.clean_map(), c2)]
                        0 <= i < result.order().len() && below_threshold(self.clean_map(), c2)
                            && !result@.contains(c2) implies clean_of(
                        self.clean_map(),
                        result.order()[i],
                    ) <= clean_of(self.clean_map(), c2) by {
                        assert(!pre_set.contains(c2));
                        if i < pre_order.len() {
                            assert(result.order()[i] == pre_order[i]);
                        } else {
                            // `key` was the least accurate qualifying
                            // character of the scan; `c2` also qualified.
                            assert(self.clean.keys().to_set().contains(c2));
                            assert(self.clean.keys().contains(c2));
                            let j = choose|j: int|
                                0 <= j < self.clean.keys().len() && self.clean.keys()[j] == c2;
                            assert(self.clean.values()[j] == self.clean_map()[c2]);
                            assert(self.clean.values()[j] < MIN_CLEAN_PCT && !pre_set.contains(
                                self.clean.keys()[j],
                            ));
                            assert(self.clean.values()[best as int] <= self.clean.values()[j]);
                            assert(clean_of(self.clean_map(), key) == self.clean.values()[
                            best as int]);
                        }
                    }
                }
            } else {
                more = false;
                proof {
                    self.clean.lemma_view();
                    assert forall|c: char| below_threshold(self.clean_map(), c) implies result@
                        .contains(c) by {
                        assert(self.clean.keys().to_set().contains(c));
                        assert(self.clean.keys().contains(c));
                        let j = choose|j: int|
                            0 <= j < self.clean.keys().len() && self.clean.keys()[j] == c;
                        assert(self.clean.values()[j] == self.clean_map()[c]);
                        assert(!(self.clean.values()[j] < MIN_CLEAN_PCT && !result@.contains(
                            self.clean.keys()[j],
                        )));
                    }
                }
            }
        }
        let ghost mut has_below = false;
        let ghost mut wit: char = ' ';
        proof {
            if n > 0 && (exists|c: char| below_threshold(self.clean_map(), c)) {
                has_below = true;
                if result.order().len() > 0 {
                    wit = result.order()[0];
                    result.lemma_view_is_order_set();
                    assert(result@.contains(wit));
                } else {
                    assert(!more) by {
                        if more {
                            assert(result@.len() == n);
                            assert(result@.len() == result.order().len()) by {
                                result.lemma_view_is_order_set();
                            }
                        }
                    }
                    wit = choose|c: char| below_threshold(self.clean_map(), c);
                    assert(result@.contains(wit));
                }
                assert(result@.contains(wit) && below_threshold(self.clean_map(), wit));
            }
        }
        // Padding: the slowest recorded characters by harmonic-mean speed.
        let timing_total = self.timings.num_entries();
        let mut more2 = true;
        while more2 && result.len() < n
            invariant
                self.wf(),
                result.wf(),
                timing_total == self.timings.keys().len(),
                self.timings.keys().len() == self.timings.values().len(),
                result@.len() <= n,
                result@.len() == result.order().len(),
                has_below ==> result@.contains(wit) && below_threshold(self.clean_map(), wit),
                forall|i: int|
                    0 <= i < result.order().len() ==> self.clean_map().contains_key(
                        #[trigger] result.order()[i],
                    ) || self.windows().contains_key(result.order()[i]),
                result@.len() == n || forall|c: char|
                    below_threshold(self.clean_map(), c) ==> result@.contains(c),
                forall|i: int, c2: char|
                    #![trigger result.order()[i], clean_of(self.clean_map(), c2)]
                    0 <= i < result.order().len() && below_threshold(self.clean_map(), c2)
                        && !result@.contains(c2) ==> clean_of(
                        self.clean_map(),
                        result.order()[i],
                    ) <= clean_of(self.clean_map(), c2),
                forall|i: int, c2: char|
                    #![trigger result.order()[i], harmonic_wpm_centi(window_of(self.windows(), c2))]
                    0 <= i < result.order().len() && !below_threshold(
                        self.clean_map(),
                        result.order()[i],
                    ) && self.windows().contains_key(c2) && !result@.contains(c2)
                        ==> harmonic_wpm_centi(
                        window_of(self.windows(), result.order()[i]),
                    ) <= harmonic_wpm_centi(window_of(self.windows(), c2)),
                !more2 ==> forall|c: char| #[trigger]
                    self.windows().contains_key(c) ==> result@.contains(c),
            decreases (if more2 { 1int } else { 0int }), n - result@.len(),
        {
            let mut best: usize = 0;
            let mut best_found = false;
            let mut idx: usize = 0;
            while idx < timing_total
                invariant
                    self.wf(),
                    result.wf(),
                    timing_total == self.timings.keys().len(),
                    self.timings.keys().len() == self.timings.values().len(),
                    idx <= timing_total,
                    best_found ==> best < timing_total && !result@.contains(
                        self.timings.keys()[best as int],
                    ),
                    best_found ==> forall|j: int|
                        0 <= j < idx ==> !result@.contains(#[trigger] self.timings.keys()[j])
                            ==> self.timings.values()[best as int].spec_harmonic_mean().0
                            <= self.timings.values()[j].spec_harmonic_mean().0,
                    !best_found ==> forall|j: int|
                        0 <= j < idx ==> result@.contains(#[trigger] self.timings.keys()[j]),
                decreases timing_total - idx,
            {
                let key = self.timings.key_at(idx);
                if !result.contains(key) {
                    if !best_found {
                        best = idx;
                        best_found = true;
                    } else {
                        let v = self.timings.value_at(idx).wpm_harmonic_mean();
                        let bv = self.timings.value_at(best).wpm_harmonic_mean();
                        if v.0 < bv.0 {
                            best = idx;
                        }
                    }
                }
                idx = idx + 1;
            }
            if best_found {
                let key = self.timings.key_at(best);
                let ghost pre_order = result.order();
                let ghost pre_set = result@;
                proof {
                    self.timings.lemma_view();
                    assert(self.timings@.contains_key(key));
                    assert(self.windows().contains_key(key));
                    result.lemma_view_is_order_set();
                    // The selected character is not below threshold: phase
                    // two only runs once every below-threshold character is
                    // already in the result.
                    assert(result@.len() < n);
                    if below_threshold(self.clean_map(), key) {
                        assert(result@.contains(key));
                    }
                }
                result.insert(key);
                proof {
                    self.timings.lemma_view();
                    result.lemma_view_is_order_set();
                    assert(result.order() == pre_order.push(key));
                    lemma_push_facts(pre_order, key);
                    assert forall|i: int| 0 <= i < result.order().len() implies self
                        .clean_map()
                        .contains_key(#[trigger] result.order()[i]) || self
                        .windows()
                        .contains_key(result.order()[i]) by {
                        if i < pre_order.len() {
                            assert(result.order()[i] == pre_order[i]);
                        }
                    }
                    assert forall|c: char| below_threshold(self.clean_map(), c) implies result@
                        .contains(c) by {
                        assert(pre_set.contains(c));
                    }
                    assert forall|i: int, c2: char|
                        #![trigger result.order()[i], clean_of(self.clean_map(), c2)]
                        0 <= i < result.order().len() && below_threshold(self.clean_map(), c2)
                            && !result@.contains(c2) implies clean_of(
                        self.clean_map(),
                        result.order()[i],
                    ) <= clean_of(self.clean_map(), c2) by {
                        assert(pre_set.contains(c2));
                    }
                    assert forall|i: int, c2: char|
                        #![trigger result.order()[i], harmonic_wpm_centi(window_of(self.windows(), c2))]
                        0 <= i < result.order().len() && !below_threshold(
                            self.clean_map(),
                            result.order()[i],
                        ) && self.windows().contains_key(c2) && !result@.contains(c2) implies
                        harmonic_wpm_centi(window_of(self.windows(), result.order()[i]))
                        <= harmonic_wpm_centi(window_of(self.windows(), c2)) by {
                        assert(!pre_set.contains(c2));
                        if i < pre_order.len() {
                            assert(result.order()[i] == pre_order[i]);
                        } else {
                            // `key` was the slowest unselected recorded
                            // character of the scan; `c2` also qualified.
                            assert(result.order()[i] == key);
                            assert(self.timings@.dom().contains(c2));
                            assert(self.timings.keys().to_set().contains(c2));
                            assert(self.timings.keys().contains(c2));
                            let j = choose|j: int|
                                0 <= j < self.timings.keys().len() && self.timings.keys()[j]
                                    == c2;
                            assert(self.timings@[c2] == self.timings.values()[j]);
                            assert(self.timings.values()[j].wf()
                                && self.timings.values()[j].synced());
                            assert(window_of(self.windows(), c2) == self.timings.values()[
                            j].window());
                            assert(self.timings.values()[best as int].spec_harmonic_mean().0
                                <= self.timings.values()[j].spec_harmonic_mean().0);
                            assert(self.timings.values()[best as int].wf()
                                && self.timings.values()[best as int].synced());
                            assert(self.timings@[key] == self.timings.values()[best as int]);
                            assert(window_of(self.windows(), key) == self.timings.values()[
                            best as int].window());
                        }
                    }
                }
            } else {
                more2 = false;
                proof {
                    self.timings.lemma_view();
                    assert forall|c: char| #[trigger]
                        self.windows().contains_key(c) implies result@.contains(c) by {
                        assert(self.timings@.dom().contains(c));
                        assert(self.timings.keys().to_set().contains(c));
                        assert(self.timings.keys().contains(c));
                        let j = choose|j: int|
                            0 <= j < self.timings.keys().len() && self.timings.keys()[j] == c;
                        assert(result@.contains(self.timings.keys()[j]));
                    }
                }
            }
        }
        proof {
            result.lemma_view_is_order_set();
            assert forall|c: char| #[trigger] result@.contains(c) implies self
                .clean_map()
                .contains_key(c) || self.windows().contains_key(c) by {
                assert(result.order().to_set().contains(c));
                assert(result.order().contains(c));
                let i = choose|i: int|
                    0 <= i < result.order().len() && result.order()[i] == c;
                assert(self.clean_map().contains_key(result.order()[i]) || self
                    .windows()
                    .contains_key(result.order()[i]));
            }
            assert forall|c1: char, c2: char|
                #![trigger result@.contains(c1), clean_of(self.clean_map(), c2)]
                result@.contains(c1) && below_threshold(self.clean_map(), c1)
                    && below_threshold(self.clean_map(), c2) && !result@.contains(c2) implies
                clean_of(self.clean_map(), c1) <= clean_of(self.clean_map(), c2) by {
                assert(result.order().to_set().contains(c1));
                assert(result.order().contains(c1));
                let i = choose|i: int|
                    0 <= i < result.order().len() && result.order()[i] == c1;
                assert(clean_of(self.clean_map(), result.order()[i]) <= clean_of(
                    self.clean_map(),
                    c2,
                ));
            }
            assert forall|c1: char, c2: char|
                #![trigger result@.contains(c1), harmonic_wpm_centi(window_of(self.windows(), c2))]
                result@.contains(c1) && !below_threshold(self.clean_map(), c1)
                    && self.windows().contains_key(c2) && !result@.contains(c2) implies
                harmonic_wpm_centi(window_of(self.windows(), c1)) <= harmonic_wpm_centi(
                window_of(self.windows(), c2),
            ) by {
                assert(result.order().to_set().contains(c1));
                assert(result.order().contains(c1));
                let i = choose|i: int|
                    0 <= i < result.order().len() && result.order()[i] == c1;
                assert(harmonic_wpm_centi(window_of(self.windows(), result.order()[i]))
                    <= harmonic_wpm_centi(window_of(self.windows(), c2)));
            }
        }
        result
    }

    /// The recorded characters with their smoothed clean fractions, most
    /// accurate first.
    pub fn clean_letters(&self) -> (r: Vec<(char, u32)>)
        requires
            self.wf(),
        ensures
            r@.len() == self.clean_map().dom().len(),
            forall|i: int|
                0 <= i < r@.len() ==> self.clean_map().contains_key((#[trigger] r@[i]).0)
                    && self.clean_map()[r@[i].0] == r@[i].1,
            forall|c: char| #[trigger]
                self.clean_map().contains_key(c) ==> exists|i: int|
                    0 <= i < r@.len() && (#[trigger] r@[i]).0 == c,
            forall|i: int, j: int| 0 <= i <= j < r@.len() ==> (#[trigger] r@[i]).1 >= (
            #[trigger] r@[j]).1,
    {
        broadcast use vstd::seq_lib::group_to_multiset_ensures;

        proof {
            self.clean.lemma_view();
        }
        let ghost entries = Seq::new(
            self.clean.keys().len(),
            |i: int| (self.clean.keys()[i], self.clean.values()[i]),
        );
        let total = self.clean.num_entries();
        let mut pairs: Vec<(char, u32)> = Vec::new();
        for i in 0..total
            invariant
                self.wf(),
                total == self.clean.keys().len(),
                entries == Seq::new(
                    self.clean.keys().len(),
                    |i: int| (self.clean.keys()[i], self.clean.values()[i]),
                ),
                pairs@ =~= entries.take(i as int),
        {
            let key = self.clean.key_at(i);
            let val = *self.clean.value_at(i);
            pairs.push((key, val));
            proof {
                assert(pairs@ =~= entries.take(i + 1));
            }
        }
        proof {
            assert(entries.take(total as int) =~= entries);
        }
        let mut remaining = pairs;
        let mut out: Vec<(char, u32)> = Vec::new();
        while remaining.len() > 0
            invariant
                out@.to_multiset().add(remaining@.to_multiset()) == entries.to_multiset(),
                forall|a: int, b: int|
                    0 <= a <= b < out@.len() ==> (#[trigger] out@[a]).1 >= (#[trigger] out@[b]).1,
                forall|a: int, b: int|
                    0 <= a < out@.len() && 0 <= b < remaining@.len() ==> (#[trigger] out@[a]).1
                        >= (#[trigger] remaining@[b]).1,
                out@.len() + remaining@.len() == entries.len(),
            decreases remaining@.len(),
        {
            broadcast use vstd::seq_lib::group_to_multiset_ensures;

            let mut mi: usize = 0;
            let m = remaining.len();
            for k in 1..m
                invariant
                    m == remaining@.len(),
                    m >= 1,
                    mi < m,
                    forall|j: int|
                        0 <= j < k ==> (#[trigger] remaining@[j]).1 <= remaining@[mi as int].1,
            {
                if remaining[k].1 > remaining[mi].1 {
                    mi = k;
                }
            }
            let ghost rem_before = remaining@;
            let picked = remaining.remove(mi);
            proof {
                assert(rem_before.to_multiset().count(picked) > 0) by {
                    assert(rem_before.contains(picked));
                }
                assert(out@.push(picked).to_multiset().add(remaining@.to_multiset()) =~= out@
                    .to_multiset()
                    .add(rem_before.to_multiset()));
            }
            out.push(picked);
        }
        proof {
            assert(remaining@.to_multiset() =~= Multiset::<(char, u32)>::empty());
            assert(out@.to_multiset() =~= entries.to_multiset());
            entries.to_multiset_ensures();
            out@.to_multiset_ensures();
            self.clean.lemma_view();
            assert(out@.len() == entries.len());
            assert forall|i: int| 0 <= i < out@.len() implies self.clean_map().contains_key(
                (#[trigger] out@[i]).0,
            ) && self.clean_map()[out@[i].0] == out@[i].1 by {
                assert(out@.contains(out@[i]));
                assert(out@.to_multiset().count(out@[i]) > 0);
                assert(entries.to_multiset().count(out@[i]) > 0);
                assert(entries.contains(out@[i]));
                let j = choose|j: int| 0 <= j < entries.len() && entries[j] == out@[i];
                assert(entries[j].0 == self.clean.keys()[j]);
                assert(entries[j].1 == self.clean.values()[j]);
            }
            assert forall|c: char| #[trigger] self.clean_map().contains_key(c) implies exists|
                i: int,
            | 0 <= i < out@.len() && (#[trigger] out@[i]).0 == c by {
                assert(self.clean.keys().to_set().contains(c));
                assert(self.clean.keys().contains(c));
                let j = choose|j: int|
                    0 <= j < self.clean.keys().len() && self.clean.keys()[j] == c;
                assert(entries[j] == (c, self.clean.values()[j]));
                assert(entries.contains(entries[j]));
                assert(entries.to_multiset().count(entries[j]) > 0);
                assert(out@.to_multiset().count(entries[j]) > 0);
                assert(out@.contains(entries[j]));
                let i = choose|i: int| 0 <= i < out@.len() && out@[i] == entries[j];
                assert(out@[i].0 == c);
            }
        }
        out
    }

    /// A per-character display report for every unlocked character, in
    /// unlock order: the two speed figures and the smoothed clean fraction.
    pub fn stats_snapshot(&self) -> (r: Vec<(char, CharReport)>)
        requires
            self.wf(),
        ensures
            r@.len() == self.unlocked_order().len(),
            forall|i: int|
                0 <= i < r@.len() ==> {
                    let c = self.unlocked_order()[i];
                    &&& (#[trigger] r@[i]).0 == c
                    &&& r@[i].1.wpm_mean.0 == mean_wpm_centi(window_of(self.windows(), c))
                    &&& r@[i].1.wpm_harmonic_mean.0 == harmonic_wpm_centi(
                        window_of(self.windows(), c),
                    )
                    &&& r@[i].1.clean_per_myriad == clean_of(self.clean_map(), c)
                },
    {
        proof {
            self.timings.lemma_view();
            self.clean.lemma_view();
        }
        let count = self.char_set.order_len();
        let mut r: Vec<(char, CharReport)> = Vec::new();
        let mut i: usize = 0;
        while i < count
            invariant
                self.wf(),
                count == self.unlocked_order().len(),
                self.timings.keys().len() == self.timings.values().len(),
                self.clean.keys().len() == self.clean.values().len(),
                i <= count,
                r@.len() == i,
                forall|j: int|
                    0 <= j < i ==> {
                        let c = self.unlocked_order()[j];
                        &&& (#[trigger] r@[j]).0 == c
                        &&& r@[j].1.wpm_mean.0 == mean_wpm_centi(window_of(self.windows(), c))
                        &&& r@[j].1.wpm_harmonic_mean.0 == harmonic_wpm_centi(
                            window_of(self.windows(), c),
                        )
                        &&& r@[j].1.clean_per_myriad == clean_of(self.clean_map(), c)
                    },
            decreases count - i,
        {
            let c = self.char_set.char_at(i);
            let (mean, harmonic) = match self.timings.index_of(c) {
                Some(ix) => {
                    let s = self.timings.value_at(ix);
                    proof {
                        assert(s.wf() && s.synced());
                        assert(window_of(self.windows(), c) == s.window());
                    }
                    (s.wpm_mean(), s.wpm_harmonic_mean())
                },
                None => {
                    proof {
                        assert(window_of(self.windows(), c) =~= Seq::<u64>::empty());
                    }
                    (WordsPerMinute(0), WordsPerMinute(0))
                },
            };
            let clean = match self.clean.index_of(c) {
                Some(ix) => *self.clean.value_at(ix),
                None => 0,
            };
            let ghost pre = r@;
            r.push((c, CharReport { wpm_mean: mean, wpm_harmonic_mean: harmonic, clean_per_myriad: clean }));
            proof {
                lemma_push_facts(pre, (c, CharReport { wpm_mean: mean, wpm_harmonic_mean: harmonic, clean_per_myriad: clean }));
            }
            i = i + 1;
        }
        r
    }
}

/// A two-segment linear scale for display metrics, carried in
/// ten-thousandths: values up to `lower` map to zero, values up to `mid`
/// onto the first half, values up to `upper` onto the second half, and
/// anything beyond saturates at full scale.
#[derive(Clone, Copy, Debug, PartialEq, Eq, Structural)]
pub struct TriplePoint {
    lower: u32,
    mid: u32,
    upper: u32,
}

/// Where `val` lands on the scale, in ten-thousandths.
pub open spec fn spec_triple_value(lower: int, mid: int, upper: int, val: int) -> int {
    if val <= lower {
        0
    } else if val <= mid {
        5000 * (val - lower) / (mid - lower)
    } else if val <= upper {
        5000 + 5000 * (val - mid) / (upper - mid)
    } else {
        10000
    }
}

impl TriplePoint {
    pub closed spec fn spec_lower(&self) -> u32 {
        self.lower
    }

    pub closed spec fn spec_mid(&self) -> u32 {
        self.mid
    }

    pub closed spec fn spec_upper(&self) -> u32 {
        self.upper
    }

    /// A scale needs strictly increasing anchor points.
    pub fn new(lower: u32, mid: u32, upper: u32) -> (r: Option<TriplePoint>)
        ensures
            match r {
                Some(t) => lower < mid < upper && t.spec_lower() == lower && t.spec_mid() == mid
                    && t.spec_upper() == upper,
                None => !(lower < mid < upper),
            },
    {
        if lower < mid && mid < upper {
            Some(TriplePoint { lower, mid, upper })
        } else {
            None
        }
    }

    /// Map `val` onto the scale; out-of-range values clamp to the ends.
    pub fn value(&self, val: u32) -> (r: u32)
        requires
            self.spec_lower() < self.spec_mid() < self.spec_upper(),
        ensures
            r == spec_triple_value(
                self.spec_lower() as int,
                self.spec_mid() as int,
                self.spec_upper() as int,
                val as int,
            ),
            r <= 10000,
    {
        proof {
            if self.lower < val <= self.mid {
                assert(5000 * (val - self.lower) <= 5000 * (self.mid - self.lower) as u64)
                    by (nonlinear_arith)
                    requires val <= self.mid, self.lower < val;
                assert(5000 * (val - self.lower) as int / (self.mid - self.lower) as int <= 5000)
                    by (nonlinear_arith)
                    requires self.lower < val <= self.mid;
                assert(5000 * (val - self.lower) as int / (self.mid - self.lower) as int >= 0);
            }
            if self.mid < val <= self.upper {
                assert(5000 * (val - self.mid) as int / (self.upper - self.mid) as int <= 5000)
                    by (nonlinear_arith)
                    requires self.mid < val <= self.upper;
                assert(5000 * (val - self.mid) as int / (self.upper - self.mid) as int >= 0);
            }
        }
        if val <= self.lower {
            0
        } else if val <= self.mid {
            let num: u64 = 5000 * ((val - self.lower) as u64);
            (num / ((self.mid - self.lower) as u64)) as u32
        } else if val <= self.upper {
            let num: u64 = 5000 * ((val - self.mid) as u64);
            5000 + (num / ((self.upper - self.mid) as u64)) as u32
        } else {
            10000
        }
    }
}

} // verus!
