//! Per-character speed statistics.
//!
//! Speeds are exact rationals over the recorded keystroke times, carried as
//! integers in hundredths of a word per minute: a keystroke that took `ms`
//! milliseconds runs at `60000 / (5 * ms)` words per minute (five characters
//! per word), which is `1_200_000 / ms` hundredths.

use vstd::prelude::*;

verus! {

/// Capacity of the rolling window of recent keystroke times.
pub const NUM_RECENT_TIMINGS: usize = 16;

/// Keystroke times are clamped to this many milliseconds, so a pause away
/// from the keyboard cannot poison the averages.
pub const MAX_DURATION_MS: u64 = 5000;

/// Hundredths of a word per minute for a one-millisecond keystroke; divide by
/// the actual milliseconds to get the speed of a keystroke.
pub const CENTI_WPM_PER_MS: u64 = 1_200_000;

/// A speed in hundredths of a word per minute.
#[derive(Clone, Copy, Debug, PartialEq, Eq, Structural)]
pub struct WordsPerMinute(pub u64);

/// The speed of a single keystroke that took `ms` milliseconds.
pub open spec fn wpm_centi_of_ms(ms: int) -> int
    recommends
        ms >= 1,
{
    CENTI_WPM_PER_MS as int / ms
}

/// Sum of the times of a window, in milliseconds.
pub open spec fn sum_ms(w: Seq<u64>) -> int
    decreases w.len(),
{
    if w.len() == 0 {
        0
    } else {
        sum_ms(w.drop_last()) + w.last()
    }
}

/// Sum of the per-keystroke speeds of a window.
pub open spec fn sum_wpm_centi(w: Seq<u64>) -> int
    decreases w.len(),
{
    if w.len() == 0 {
        0
    } else {
        sum_wpm_centi(w.drop_last()) + wpm_centi_of_ms(w.last() as int)
    }
}

/// Arithmetic mean speed of a window; 0 for an empty window.
pub open spec fn mean_wpm_centi(w: Seq<u64>) -> int {
    if w.len() == 0 {
        0
    } else {
        sum_wpm_centi(w) / w.len() as int
    }
}

/// Harmonic mean speed of a window; 0 for an empty window, so a character
/// without samples fails any positive speed gate. The harmonic mean of the
/// per-keystroke speeds `F / ms_i` is exactly `F * n / sum(ms_i)`.
pub open spec fn harmonic_wpm_centi(w: Seq<u64>) -> int {
    if w.len() == 0 {
        0
    } else {
        (CENTI_WPM_PER_MS * w.len()) as int / sum_ms(w)
    }
}

/// Every stored time is a plausible clamped keystroke time, and the window
/// respects its capacity.
pub open spec fn window_ok(w: Seq<u64>) -> bool {
    &&& w.len() <= NUM_RECENT_TIMINGS
    &&& forall|i: int| 0 <= i < w.len() ==> 1 <= #[trigger] w[i] <= MAX_DURATION_MS
}

/// The window after recording one more time: the new sample goes at the end,
/// and the oldest samples are dropped down to capacity.
pub open spec fn push_window(w: Seq<u64>, ms: u64) -> Seq<u64> {
    let p = w.push(ms);
    if p.len() > NUM_RECENT_TIMINGS {
        p.skip(p.len() - NUM_RECENT_TIMINGS as int)
    } else {
        p
    }
}

/// The rolling window never exceeds its capacity, and recording evicts the
/// oldest samples first: the new window is always the newest suffix of the
/// old window extended with the new sample.
pub proof fn lemma_window_fifo(w: Seq<u64>, ms: u64)
    requires
        w.len() <= NUM_RECENT_TIMINGS,
    ensures
        push_window(w, ms).len() <= NUM_RECENT_TIMINGS,
        w.len() < NUM_RECENT_TIMINGS ==> push_window(w, ms) == w.push(ms),
        w.len() == NUM_RECENT_TIMINGS ==> push_window(w, ms) == w.push(ms).skip(1),
        push_window(w, ms).last() == ms,
{
}

pub proof fn lemma_window_sums(w: Seq<u64>)
    requires
        forall|i: int| 0 <= i < w.len() ==> 1 <= #[trigger] w[i] <= MAX_DURATION_MS,
    ensures
        w.len() <= sum_ms(w) <= w.len() * MAX_DURATION_MS,
        0 <= sum_wpm_centi(w) <= w.len() * CENTI_WPM_PER_MS,
    decreases w.len(),
{
    if w.len() > 0 {
        lemma_window_sums(w.drop_last());
        assert(1 <= w.last() <= MAX_DURATION_MS);
        assert(wpm_centi_of_ms(w.last() as int) <= CENTI_WPM_PER_MS) by (nonlinear_arith)
            requires 1 <= w.last();
        assert(wpm_centi_of_ms(w.last() as int) >= 0);
    }
}

/// Rolling statistics for one character: the window of recent keystroke
/// times and the two derived speed figures, refreshed by `recompute`.
#[derive(Debug)]
pub struct Stats {
    raw: Vec<u64>,
    mean_centi: WordsPerMinute,
    harmonic_centi: WordsPerMinute,
}

impl Clone for Stats {
    fn clone(&self) -> (r: Self)
        ensures
            r.window() == self.window(),
            r.spec_mean() == self.spec_mean(),
            r.spec_harmonic_mean() == self.spec_harmonic_mean(),
    {
        Stats { raw: self.raw.clone(), mean_centi: self.mean_centi, harmonic_centi: self.harmonic_centi }
    }
}

impl Stats {
    /// The recorded keystroke times, oldest first, in milliseconds.
    pub closed spec fn window(&self) -> Seq<u64> {
        self.raw@
    }

    /// The cached arithmetic-mean speed.
    pub closed spec fn spec_mean(&self) -> WordsPerMinute {
        self.mean_centi
    }

    /// The cached harmonic-mean speed.
    pub closed spec fn spec_harmonic_mean(&self) -> WordsPerMinute {
        self.harmonic_centi
    }

    pub fn wpm_mean(&self) -> (r: WordsPerMinute)
        ensures
            r == self.spec_mean(),
    {
        self.mean_centi
    }

    pub fn wpm_harmonic_mean(&self) -> (r: WordsPerMinute)
        ensures
            r == self.spec_harmonic_mean(),
    {
        self.harmonic_centi
    }

    pub open spec fn wf(&self) -> bool {
        window_ok(self.window())
    }

    /// The derived figures agree with the window; `recompute` restores this
    /// after a batch of `push` calls.
    pub open spec fn synced(&self) -> bool {
        &&& self.spec_mean().0 == mean_wpm_centi(self.window())
        &&& self.spec_harmonic_mean().0 == harmonic_wpm_centi(self.window())
    }

    pub fn new() -> (r: Stats)
        ensures
            r.wf(),
            r.synced(),
            r.window() == Seq::<u64>::empty(),
            r.spec_mean().0 == 0,
            r.spec_harmonic_mean().0 == 0,
    {
        Stats { raw: Vec::new(), mean_centi: WordsPerMinute(0), harmonic_centi: WordsPerMinute(0) }
    }

    /// A copy of the recorded times, oldest first.
    pub fn window_vec(&self) -> (r: Vec<u64>)
        ensures
            r@ == self.window(),
    {
        self.raw.clone()
    }

    /// Rebuild a record from a stored window; the derived figures are left
    /// stale until `recompute`.
    pub fn from_window(window: &Vec<u64>) -> (r: Stats)
        requires
            window_ok(window@),
        ensures
            r.wf(),
            r.window() == window@,
            r.spec_mean().0 == 0,
            r.spec_harmonic_mean().0 == 0,
    {
        Stats { raw: window.clone(), mean_centi: WordsPerMinute(0), harmonic_centi: WordsPerMinute(0) }
    }

    /// Record one keystroke time, evicting the oldest sample when the window
    /// is full. The derived figures are left stale until `recompute`.
    pub fn push(&mut self, elapsed_ms: u64)
        requires
            old(self).wf(),
            1 <= elapsed_ms <= MAX_DURATION_MS,
        ensures
            final(self).wf(),
            final(self).window() == push_window(old(self).window(), elapsed_ms),
            final(self).spec_mean() == old(self).spec_mean(),
            final(self).spec_harmonic_mean() == old(self).spec_harmonic_mean(),
    {
        self.raw.push(elapsed_ms);
        if self.raw.len() > NUM_RECENT_TIMINGS {
            self.raw.remove(0);
            proof {
                assert(final(self).window() =~= push_window(old(self).window(), elapsed_ms));
            }
        }
    }

    /// Refresh the mean and harmonic-mean speeds from the current window.
    pub fn recompute(&mut self)
        requires
            old(self).wf(),
        ensures
            final(self).wf(),
            final(self).synced(),
            final(self).window() == old(self).window(),
    {
        let ghost w = self.raw@;
        let n = self.raw.len();
        let mut ms_total: u64 = 0;
        let mut wpm_total: u64 = 0;
        for i in 0..n
            invariant
                self == old(self),
                w == self.raw@,
                window_ok(w),
                n == w.len(),
                ms_total == sum_ms(w.take(i as int)),
                wpm_total == sum_wpm_centi(w.take(i as int)),
                ms_total <= i * MAX_DURATION_MS,
                wpm_total <= i * CENTI_WPM_PER_MS,
        {
            let ms = self.raw[i];
            proof {
                assert(w.take(i + 1).drop_last() =~= w.take(i as int));
                assert(w.take(i + 1).last() == w[i as int]);
                assert(wpm_centi_of_ms(ms as int) <= CENTI_WPM_PER_MS) by (nonlinear_arith)
                    requires 1 <= ms;
            }
            ms_total = ms_total + ms;
            wpm_total = wpm_total + CENTI_WPM_PER_MS / ms;
        }
        proof {
            assert(w.take(n as int) =~= w);
            lemma_window_sums(w);
        }
        if n == 0 {
            self.mean_centi = WordsPerMinute(0);
            self.harmonic_centi = WordsPerMinute(0);
        } else {
            self.mean_centi = WordsPerMinute(wpm_total / n as u64);
            self.harmonic_centi = WordsPerMinute(CENTI_WPM_PER_MS * n as u64 / ms_total);
        }
    }
}

} // verus!
