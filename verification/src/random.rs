//! Letter-frequency word generator.
//!
//! Built from empirical letter and letter-bigram weights: each weight table
//! is turned into a weight-descending cumulative table clamped at `SCALAR`,
//! and letters are drawn by inverse-CDF sampling restricted to the allowed
//! character set. Words are generated letter by letter from the bigram table
//! conditioned on the previous letter.

use vstd::prelude::*;
use vstd::multiset::Multiset;
use crate::charmap::CharMap;
use crate::charset::CharSet;
use crate::rng::rand_scalar;

verus! {

/// Upper bound of the cumulative weight tables.
pub const SCALAR: u16 = 10000;

/// How many samples a letter draw may burn before giving up on finding a
/// usable letter.
pub const DRAW_LIMIT: usize = 64;

/// Weights never increase along the table.
pub open spec fn sorted_desc(s: Seq<(u16, char)>) -> bool {
    forall|i: int, j: int| 0 <= i <= j < s.len() ==> (#[trigger] s[i]).0 >= (#[trigger] s[j]).0
}

/// The raw weight entries with weight first, so tables built from them can
/// be compared by multiset.
pub open spec fn swapped(raw: Seq<(char, u16)>) -> Seq<(u16, char)> {
    raw.map_values(|p: (char, u16)| (p.1, p.0))
}

/// Total weight of the entries, clamped at `SCALAR` as it accumulates.
pub open spec fn acc_weight(s: Seq<(u16, char)>) -> int
    decreases s.len(),
{
    if s.len() == 0 {
        0
    } else {
        let a = acc_weight(s.drop_last()) + s.last().0;
        if a >= SCALAR as int {
            SCALAR as int
        } else {
            a
        }
    }
}

pub proof fn lemma_acc_weight_bounds(s: Seq<(u16, char)>)
    ensures
        0 <= acc_weight(s) <= SCALAR,
    decreases s.len(),
{
    if s.len() > 0 {
        lemma_acc_weight_bounds(s.drop_last());
    }
}

/// The cumulative table of a weight-ordered sequence: each entry carries the
/// clamped running total of the weights up to and through it.
pub open spec fn cumsum_spec(s: Seq<(u16, char)>) -> Seq<(u16, char)> {
    Seq::new(s.len(), |i: int| (acc_weight(s.take(i + 1)) as u16, s[i].1))
}

pub proof fn lemma_cumsum_push(s: Seq<(u16, char)>, x: (u16, char))
    ensures
        cumsum_spec(s.push(x)) == cumsum_spec(s).push(
            (
                if acc_weight(s) + x.0 >= SCALAR as int {
                    SCALAR
                } else {
                    (acc_weight(s) + x.0) as u16
                },
                x.1,
            ),
        ),
{
    lemma_acc_weight_bounds(s);
    assert(s.push(x).take(s.len() as int + 1) =~= s.push(x));
    assert(s.push(x).drop_last() =~= s);
    assert forall|i: int| 0 <= i < s.len() implies s.push(x).take(#[trigger] (i + 1)) =~= s.take(
        i + 1,
    ) by {}
    assert(cumsum_spec(s.push(x)) =~= cumsum_spec(s).push(
        (
            if acc_weight(s) + x.0 >= SCALAR as int {
                SCALAR
            } else {
                (acc_weight(s) + x.0) as u16
            },
            x.1,
        ),
    ));
}

/// `t` is the cumulative table of some weight-descending ordering of the raw
/// weight entries.
pub open spec fn cumulative_table_of(t: Seq<(u16, char)>, raw: Seq<(char, u16)>) -> bool {
    exists|ws: Seq<(u16, char)>|
        sorted_desc(ws) && #[trigger] ws.to_multiset() == swapped(raw).to_multiset() && t
            == cumsum_spec(ws)
}

/// Turn raw letter weights into a cumulative sampling table: entries are
/// ordered by descending weight and each carries the clamped running total.
pub fn cumulative(mapping: Vec<(char, u16)>) -> (r: Vec<(u16, char)>)
    ensures
        r@.len() == mapping@.len(),
        cumulative_table_of(r@, mapping@),
{
    broadcast use vstd::seq_lib::group_to_multiset_ensures;

    let ghost orig = mapping@;
    let mut remaining = mapping;
    let mut out: Vec<(u16, char)> = Vec::new();
    let ghost mut ws: Seq<(u16, char)> = Seq::empty();
    let mut acc: u16 = 0;
    proof {
        assert(out@ =~= cumsum_spec(ws));
        assert(ws.to_multiset().add(swapped(remaining@).to_multiset()) =~= swapped(
            orig,
        ).to_multiset());
    }
    while remaining.len() > 0
        invariant
            sorted_desc(ws),
            ws.to_multiset().add(swapped(remaining@).to_multiset()) == swapped(
                orig,
            ).to_multiset(),
            forall|a: int, b: int|
                0 <= a < ws.len() && 0 <= b < remaining@.len() ==> (#[trigger] ws[a]).0 >= (
                #[trigger] remaining@[b]).1,
            out@ == cumsum_spec(ws),
            acc == acc_weight(ws),
            ws.len() + remaining@.len() == orig.len(),
            out@.len() == ws.len(),
        decreases remaining@.len(),
    {
        broadcast use vstd::seq_lib::group_to_multiset_ensures;

        let mut mi: usize = 0;
        let n = remaining.len();
        for k in 1..n
            invariant
                n == remaining@.len(),
                n >= 1,
                mi < n,
                forall|j: int| 0 <= j < k ==> (#[trigger] remaining@[j]).1 <= remaining@[mi as int].1,
        {
            if remaining[k].1 > remaining[mi].1 {
                mi = k;
            }
        }
        let ghost rem_before = remaining@;
        let picked = remaining.remove(mi);
        let w = picked.1;
        let c = picked.0;
        let na: u16 = if acc as u32 + w as u32 >= SCALAR as u32 {
            SCALAR
        } else {
            acc + w
        };
        proof {
            lemma_acc_weight_bounds(ws);
            lemma_cumsum_push(ws, (w, c));
            assert(swapped(remaining@) =~= swapped(rem_before).remove(mi as int));
            assert(swapped(rem_before)[mi as int] == (w, c));
            assert(swapped(rem_before).to_multiset().count((w, c)) > 0) by {
                assert(swapped(rem_before).contains((w, c)));
            }
            assert(ws.push((w, c)).to_multiset().add(swapped(remaining@).to_multiset()) =~= ws
                .to_multiset()
                .add(swapped(rem_before).to_multiset()));
        }
        acc = na;
        out.push((na, c));
        proof {
            let prev_ws = ws;
            ws = ws.push((w, c));
            assert(ws.drop_last() =~= prev_ws);
            assert(ws.last() == (w, c));
        }
    }
    proof {
        assert(swapped(remaining@).to_multiset() =~= Multiset::<(u16, char)>::empty());
        assert(ws.to_multiset() =~= swapped(orig).to_multiset());
        assert(cumulative_table_of(out@, orig));
        ws.to_multiset_ensures();
        assert(out@.len() == orig.len());
    }
    out
}

/// Standard inverse-CDF selection: scanning the table in order, entries
/// outside `set` are skipped, and the first allowed entry whose cumulative
/// weight reaches the sample wins.
pub open spec fn scan_cumulative(m: Seq<(u16, char)>, value: u16, set: Set<char>) -> Option<char>
    decreases m.len(),
{
    if m.len() == 0 {
        None
    } else if set.contains(m[0].1) && m[0].0 >= value {
        Some(m[0].1)
    } else {
        scan_cumulative(m.drop_first(), value, set)
    }
}

/// The sampled letter, with the fallbacks of the scan: the table's first
/// letter when every allowed cumulative weight falls short of the sample,
/// and a default letter for an empty table.
pub open spec fn spec_sample_cumulative(value: u16, m: Seq<(u16, char)>, set: Set<char>) -> char {
    match scan_cumulative(m, value, set) {
        Some(c) => c,
        None => if m.len() > 0 {
            m[0].1
        } else {
            'n'
        },
    }
}

/// Select the letter a uniform sample `value` lands on in a cumulative
/// weight table, restricted to `char_set`: the first allowed entry whose
/// cumulative weight is at least `value`.
pub fn sample_cumulative(value: u16, mapping: &Vec<(u16, char)>, char_set: &CharSet) -> (r: char)
    ensures
        r == spec_sample_cumulative(value, mapping@, char_set@),
{
    let ghost m = mapping@;
    let n = mapping.len();
    proof {
        assert(m.skip(0) =~= m);
    }
    for i in 0..n
        invariant
            n == mapping@.len(),
            m == mapping@,
            scan_cumulative(m, value, char_set@) == scan_cumulative(
                m.skip(i as int),
                value,
                char_set@,
            ),
    {
        let v = mapping[i].0;
        let c = mapping[i].1;
        proof {
            assert(m.skip(i as int)[0] == m[i as int]);
            assert(m.skip(i as int).drop_first() =~= m.skip(i + 1));
        }
        if v >= value && char_set.contains(c) {
            return c;
        }
    }
    proof {
        assert(m.skip(n as int) =~= Seq::<(u16, char)>::empty());
    }
    if n > 0 {
        mapping[0].1
    } else {
        'n'
    }
}

/// The text is a run of generated words — one to seven non-space
/// characters each — every word followed by a single space.
pub open spec fn is_short_word_concat(l: Seq<char>) -> bool
    decreases l.len(),
{
    if l.len() == 0 {
        true
    } else {
        exists|k: int|
            1 <= k <= 7 && l.len() >= k + 1 && (forall|i: int| 0 <= i < k ==> l[i] != ' ')
                && l[k] == ' ' && is_short_word_concat(l.skip(k + 1))
    }
}

/// Appending one more generated word and its space keeps a line a run of
/// generated words.
pub proof fn lemma_short_word_concat_append(l: Seq<char>, w: Seq<char>)
    requires
        is_short_word_concat(l),
        1 <= w.len() <= 7,
        forall|i: int| 0 <= i < w.len() ==> w[i] != ' ',
    ensures
        is_short_word_concat(l + w + seq![' ']),
    decreases l.len(),
{
    let ext = l + w + seq![' '];
    if l.len() == 0 {
        let kk = w.len() as int;
        assert(ext =~= w + seq![' ']);
        assert forall|i: int| 0 <= i < kk implies ext[i] != ' ' by {
            assert(ext[i] == w[i]);
        }
        assert(ext[kk] == ' ');
        assert(ext.skip(kk + 1) =~= Seq::<char>::empty());
        assert(is_short_word_concat(ext.skip(kk + 1)));
        assert(1 <= kk <= 7 && ext.len() >= kk + 1 && (forall|i: int|
            0 <= i < kk ==> ext[i] != ' ') && ext[kk] == ' ' && is_short_word_concat(
            ext.skip(kk + 1),
        ));
    } else {
        let k = choose|k: int|
            1 <= k <= 7 && l.len() >= k + 1 && (forall|i: int| 0 <= i < k ==> l[i] != ' ')
                && l[k] == ' ' && is_short_word_concat(l.skip(k + 1));
        lemma_short_word_concat_append(l.skip(k + 1), w);
        assert(ext.skip(k + 1) =~= l.skip(k + 1) + w + seq![' ']);
        assert forall|i: int| 0 <= i < k implies ext[i] != ' ' by {
            assert(ext[i] == l[i]);
        }
        assert(ext[k] == l[k]);
        assert(1 <= k <= 7 && ext.len() >= k + 1 && (forall|i: int|
            0 <= i < k ==> ext[i] != ' ') && ext[k] == ' ' && is_short_word_concat(
            ext.skip(k + 1),
        ));
    }
}

/// Relies on `String::from_iter` over the characters, through `collect`: the
/// collected string holds exactly the given characters in order.
#[verifier::external_body]
fn chars_to_string(cs: &Vec<char>) -> (r: String)
    ensures
        r@ == cs@,
{
    cs.iter().collect()
}

/// A word generator driven by letter and bigram frequencies.
#[derive(Debug)]
pub struct Random {
    letter: Vec<(u16, char)>,
    next_letter: CharMap<Vec<(u16, char)>>,
}

impl Random {
    /// The cumulative table for the first letter of a word.
    pub closed spec fn letter_table(&self) -> Seq<(u16, char)> {
        self.letter@
    }

    /// The cumulative tables for the letter following a given letter.
    pub closed spec fn bigram_tables(&self) -> Map<char, Vec<(u16, char)>> {
        self.next_letter@
    }

    pub closed spec fn wf(&self) -> bool {
        self.next_letter.wf()
    }

    /// Build the generator from raw letter weights and per-letter bigram
    /// weights; each table becomes a sorted cumulative sampling table.
    pub fn new(letters: Vec<(char, u16)>, bigrams: Vec<(char, Vec<(char, u16)>)>) -> (r: Random)
        requires
            bigrams@.map_values(|p: (char, Vec<(char, u16)>)| p.0).no_duplicates(),
        ensures
            r.wf(),
            cumulative_table_of(r.letter_table(), letters@),
            r.letter_table().len() == letters@.len(),
            forall|i: int|
                0 <= i < bigrams@.len() ==> r.bigram_tables().contains_key(
                    (#[trigger] bigrams@[i]).0,
                ) && cumulative_table_of(r.bigram_tables()[bigrams@[i].0]@, bigrams@[i].1@),
    {
        let letter = cumulative(letters);
        let mut next_letter: CharMap<Vec<(u16, char)>> = CharMap::new();
        let ghost orig = bigrams@;
        let ghost keys = orig.map_values(|p: (char, Vec<(char, u16)>)| p.0);
        let mut rest = bigrams;
        while rest.len() > 0
            invariant
                keys == orig.map_values(|p: (char, Vec<(char, u16)>)| p.0),
                keys.no_duplicates(),
                rest@.len() <= orig.len(),
                rest@ == orig.skip(orig.len() - rest@.len()),
                next_letter.wf(),
                forall|j: int|
                    0 <= j < orig.len() - rest@.len() ==> next_letter@.contains_key(
                        (#[trigger] orig[j]).0,
                    ) && cumulative_table_of(next_letter@[orig[j].0]@, orig[j].1@),
            decreases rest@.len(),
        {
            let ghost i = orig.len() - rest@.len();
            let entry = rest.remove(0);
            proof {
                assert(rest@ =~= orig.skip(orig.len() - rest@.len()));
                assert(entry == orig[i]);
                assert(forall|j: int| 0 <= j < orig.len() ==> keys[j] == (#[trigger] orig[j]).0);
                assert forall|j: int| 0 <= j < i implies (#[trigger] orig[j]).0 != entry.0 by {
                    assert(keys[j] != keys[i]);
                }
            }
            let c = entry.0;
            let table = cumulative(entry.1);
            next_letter.insert(c, table);
        }
        proof {
            assert(forall|j: int| 0 <= j < orig.len() ==> keys[j] == (#[trigger] orig[j]).0);
        }
        Random { letter, next_letter }
    }

    /// Pick the first letter of a word: sample the letter table until a
    /// non-space letter comes up, with a bounded number of draws.
    fn first_letter(&self, char_set: &CharSet) -> (r: char)
        ensures
            r != ' ',
    {
        for _attempt in 0..DRAW_LIMIT {
            let v = rand_scalar(SCALAR);
            let l = sample_cumulative(v, &self.letter, char_set);
            if l != ' ' {
                return l;
            }
        }
        'n'
    }

    /// Generate one word of three to seven letters: a first letter from the
    /// letter table, then letters from the bigram table conditioned on the
    /// previous letter, stopping early when no continuation exists.
    pub fn word(&self, char_set: &CharSet) -> (r: String)
        requires
            self.wf(),
        ensures
            1 <= r@.len() <= 7,
            forall|i: int| 0 <= i < r@.len() ==> (#[trigger] r@[i]) != ' ',
    {
        let mut letters: Vec<char> = Vec::new();
        let mut last = self.first_letter(char_set);
        letters.push(last);
        let target: usize = 3 + (rand_scalar(SCALAR) % 5) as usize;
        let mut guard: usize = 0;
        while letters.len() < target && guard < DRAW_LIMIT
            invariant
                self.wf(),
                1 <= letters@.len() <= 7,
                3 <= target <= 7,
                forall|i: int| 0 <= i < letters@.len() ==> (#[trigger] letters@[i]) != ' ',
            ensures
                1 <= letters@.len() <= 7,
                forall|i: int| 0 <= i < letters@.len() ==> (#[trigger] letters@[i]) != ' ',
            decreases DRAW_LIMIT - guard,
        {
            guard = guard + 1;
            match self.next_letter.get(last) {
                Some(freqs) => {
                    let v = rand_scalar(SCALAR);
                    let test_letter = sample_cumulative(v, freqs, char_set);
                    if test_letter != ' ' {
                        last = test_letter;
                        letters.push(last);
                    }
                },
                None => {
                    break ;
                },
            }
        }
        chars_to_string(&letters)
    }

    /// Compose a line of at least `min_length` characters: generated words
    /// of one to seven non-space characters, each followed by a single
    /// space.
    pub fn line(&self, char_set: &CharSet, min_length: usize) -> (r: String)
        requires
            self.wf(),
        ensures
            min_length <= r@.len() <= min_length + 7,
            is_short_word_concat(r@),
    {
        let mut line: Vec<char> = Vec::new();
        let mut rounds: usize = 0;
        while line.len() < min_length
            invariant
                self.wf(),
                line@.len() <= min_length + 7,
                rounds <= line@.len(),
                rounds <= min_length,
                is_short_word_concat(line@),
            decreases min_length - rounds,
        {
            rounds = rounds + 1;
            let ghost pre_seq = line@;
            let word = self.word(char_set);
            let n = word.as_str().unicode_len();
            for i in 0..n
                invariant
                    n == word@.len(),
                    1 <= n <= 7,
                    pre_seq.len() < min_length,
                    line@ == pre_seq + word@.take(i as int),
            {
                line.push(word.as_str().get_char(i));
                proof {
                    assert(line@ =~= pre_seq + word@.take(i + 1));
                }
            }
            proof {
                assert(word@.take(n as int) =~= word@);
            }
            line.push(' ');
            proof {
                assert(line@ =~= pre_seq + word@ + seq![' ']);
                lemma_short_word_concat_append(pre_seq, word@);
            }
        }
        chars_to_string(&line)
    }
}

impl Default for Random {
    /// An empty generator: every word degrades to the default letter.
    fn default() -> (r: Self)
        ensures
            r.wf(),
            r.letter_table().len() == 0,
            r.bigram_tables() == Map::<char, Vec<(u16, char)>>::empty(),
    {
        Random { letter: Vec::new(), next_letter: CharMap::new() }
    }
}

} // verus!
