//! Dictionary word source and practice-line composition.
//!
//! A dictionary holds a list of words; restricted variants keep only words
//! drawn from an allowed character set or of a bounded length. Lines are
//! composed by sampling words at random, preferring lines that land exactly
//! on the requested length and biasing toward words that exercise the least
//! accurate characters.

use vstd::prelude::*;
use vstd::string::StrSliceExecFns;
use vstd::string::StringExecFns;
use crate::charset::CharSet;
use crate::rng::{rand_coin, rand_index};

verus! {

/// How many independent composition attempts a line gets before the best
/// shortfall candidate is accepted.
pub const LINE_ATTEMPTS: usize = 100;

/// Every character of the word lies in `allowed`.
pub open spec fn word_chars_ok(w: Seq<char>, allowed: Set<char>) -> bool {
    forall|i: int| 0 <= i < w.len() ==> allowed.contains(#[trigger] w[i])
}

/// Every character of `l` is a space or occurs in one of `words`.
pub open spec fn line_chars_from(l: Seq<char>, words: Seq<String>) -> bool {
    forall|i: int|
        0 <= i < l.len() ==> (#[trigger] l[i]) == ' ' || exists|j: int|
            0 <= j < words.len() && (#[trigger] words[j]@).contains(l[i])
}

/// `l` starts with the word `w` followed by a single space.
pub open spec fn starts_with_word(l: Seq<char>, w: Seq<char>) -> bool {
    &&& l.len() >= w.len() + 1
    &&& l.take(w.len() as int) == w
    &&& l[w.len() as int] == ' '
}

/// The line is a run of whole words drawn from `words`, every word followed
/// by a single space.
pub open spec fn is_word_concat(l: Seq<char>, words: Seq<String>) -> bool
    decreases l.len(),
{
    if l.len() == 0 {
        true
    } else {
        exists|j: int|
            0 <= j < words.len() && starts_with_word(l, (#[trigger] words[j])@)
                && is_word_concat(l.skip(words[j]@.len() as int + 1), words)
    }
}

/// Appending one more listed word and its space keeps a line a run of
/// listed words.
pub proof fn lemma_word_concat_append(l: Seq<char>, words: Seq<String>, j: int)
    requires
        is_word_concat(l, words),
        0 <= j < words.len(),
    ensures
        is_word_concat(l + words[j]@ + seq![' '], words),
    decreases l.len(),
{
    let w = words[j]@;
    let ext = l + w + seq![' '];
    if l.len() == 0 {
        assert(ext =~= w + seq![' ']);
        assert(ext.take(w.len() as int) =~= w);
        assert(ext[w.len() as int] == ' ');
        assert(ext.skip(w.len() as int + 1) =~= Seq::<char>::empty());
        assert(starts_with_word(ext, words[j]@) && is_word_concat(
            ext.skip(words[j]@.len() as int + 1),
            words,
        ));
    } else {
        let j0 = choose|j0: int|
            0 <= j0 < words.len() && starts_with_word(l, (#[trigger] words[j0])@)
                && is_word_concat(l.skip(words[j0]@.len() as int + 1), words);
        let w0 = words[j0]@;
        lemma_word_concat_append(l.skip(w0.len() as int + 1), words, j);
        assert(ext.skip(w0.len() as int + 1) =~= l.skip(w0.len() as int + 1) + w + seq![' ']);
        assert(ext.take(w0.len() as int) =~= l.take(w0.len() as int));
        assert(ext[w0.len() as int] == l[w0.len() as int]);
        assert(starts_with_word(ext, words[j0]@) && is_word_concat(
            ext.skip(words[j0]@.len() as int + 1),
            words,
        ));
    }
}

/// The words whose characters all lie in `allowed`.
pub open spec fn allowed_pred(allowed: Set<char>) -> spec_fn(String) -> bool {
    |w: String| word_chars_ok(w@, allowed)
}

/// The words of exactly `length` characters.
pub open spec fn length_eq_pred(length: int) -> spec_fn(String) -> bool {
    |w: String| w@.len() == length
}

/// The words of at most `max_length` characters.
pub open spec fn length_le_pred(max_length: int) -> spec_fn(String) -> bool {
    |w: String| w@.len() <= max_length
}

/// A list of candidate words, sampled uniformly at random.
#[derive(Debug)]
pub struct Dictionary {
    words: Vec<String>,
}

impl Clone for Dictionary {
    fn clone(&self) -> (r: Self)
        ensures
            r.word_list() == self.word_list(),
    {
        let words = self.words.clone();
        proof {
            assert forall|i: int| 0 <= i < words@.len() implies words@[i] == self.words@[i] by {
                assert(cloned::<String>(self.words@[i], words@[i]));
            }
            assert(words@ =~= self.words@);
        }
        Dictionary { words }
    }
}

impl Dictionary {
    /// The candidate words, in order.
    pub closed spec fn word_list(&self) -> Seq<String> {
        self.words@
    }

    /// Build a dictionary from an already-loaded word list.
    pub fn from_words(words: Vec<String>) -> (r: Dictionary)
        ensures
            r.word_list() == words@,
    {
        Dictionary { words }
    }

    pub fn num_words(&self) -> (r: usize)
        ensures
            r == self.word_list().len(),
    {
        self.words.len()
    }

    fn word_allowed(word: &String, set: &CharSet) -> (r: bool)
        ensures
            r == word_chars_ok(word@, set@),
    {
        let n = word.as_str().unicode_len();
        for i in 0..n
            invariant
                n == word@.len(),
                forall|j: int| 0 <= j < i ==> set@.contains(#[trigger] word@[j]),
        {
            if !set.contains(word.as_str().get_char(i)) {
                return false;
            }
        }
        true
    }

    fn word_intersects(word: &String, set: &CharSet) -> (r: bool)
        ensures
            r == exists|i: int| 0 <= i < word@.len() && set@.contains(#[trigger] word@[i]),
    {
        let n = word.as_str().unicode_len();
        for i in 0..n
            invariant
                n == word@.len(),
                forall|j: int| 0 <= j < i ==> !set@.contains(#[trigger] word@[j]),
        {
            if set.contains(word.as_str().get_char(i)) {
                return true;
            }
        }
        false
    }

    /// The sub-dictionary of words built only from the given characters.
    pub fn char_limited(&self, char_set: &CharSet) -> (r: Dictionary)
        ensures
            r.word_list() == self.word_list().filter(allowed_pred(char_set@)),
    {
        let ghost pred = allowed_pred(char_set@);
        let mut kept: Vec<String> = Vec::new();
        let n = self.words.len();
        proof {
            reveal(Seq::filter);
            assert(self.words@.take(0).filter(pred) =~= Seq::<String>::empty());
        }
        for i in 0..n
            invariant
                n == self.words@.len(),
                pred == allowed_pred(char_set@),
                kept@ == self.words@.take(i as int).filter(pred),
        {
            let w = &self.words[i];
            proof {
                reveal(Seq::filter);
                assert(self.words@.take(i + 1).drop_last() =~= self.words@.take(i as int));
                assert(self.words@.take(i + 1).last() == self.words@[i as int]);
            }
            if Self::word_allowed(w, char_set) {
                kept.push(w.clone());
            }
        }
        proof {
            assert(self.words@.take(n as int) =~= self.words@);
        }
        Dictionary { words: kept }
    }

    /// The sub-dictionary of words of exactly `length` characters, or `None`
    /// when no word qualifies.
    pub fn length_limited_exact(&self, length: usize) -> (r: Option<Dictionary>)
        ensures
            match r {
                Some(d) => d.word_list() == self.word_list().filter(length_eq_pred(length as int))
                    && d.word_list().len() > 0,
                None => self.word_list().filter(length_eq_pred(length as int)).len() == 0,
            },
    {
        let ghost pred = length_eq_pred(length as int);
        let mut kept: Vec<String> = Vec::new();
        let n = self.words.len();
        proof {
            reveal(Seq::filter);
            assert(self.words@.take(0).filter(pred) =~= Seq::<String>::empty());
        }
        for i in 0..n
            invariant
                n == self.words@.len(),
                pred == length_eq_pred(length as int),
                kept@ == self.words@.take(i as int).filter(pred),
        {
            let w = &self.words[i];
            proof {
                reveal(Seq::filter);
                assert(self.words@.take(i + 1).drop_last() =~= self.words@.take(i as int));
                assert(self.words@.take(i + 1).last() == self.words@[i as int]);
            }
            if w.as_str().unicode_len() == length {
                kept.push(w.clone());
            }
        }
        proof {
            assert(self.words@.take(n as int) =~= self.words@);
        }
        if kept.len() == 0 {
            None
        } else {
            Some(Dictionary { words: kept })
        }
    }

    /// The sub-dictionary of words of at most `max_length` characters, or
    /// `None` when no word qualifies.
    pub fn length_limited_max(&self, max_length: usize) -> (r: Option<Dictionary>)
        ensures
            match r {
                Some(d) => d.word_list() == self.word_list().filter(
                    length_le_pred(max_length as int),
                ) && d.word_list().len() > 0,
                None => self.word_list().filter(length_le_pred(max_length as int)).len() == 0,
            },
    {
        let ghost pred = length_le_pred(max_length as int);
        let mut kept: Vec<String> = Vec::new();
        let n = self.words.len();
        proof {
            reveal(Seq::filter);
            assert(self.words@.take(0).filter(pred) =~= Seq::<String>::empty());
        }
        for i in 0..n
            invariant
                n == self.words@.len(),
                pred == length_le_pred(max_length as int),
                kept@ == self.words@.take(i as int).filter(pred),
        {
            let w = &self.words[i];
            proof {
                reveal(Seq::filter);
                assert(self.words@.take(i + 1).drop_last() =~= self.words@.take(i as int));
                assert(self.words@.take(i + 1).last() == self.words@[i as int]);
            }
            if w.as_str().unicode_len() <= max_length {
                kept.push(w.clone());
            }
        }
        proof {
            assert(self.words@.take(n as int) =~= self.words@);
        }
        if kept.len() == 0 {
            None
        } else {
            Some(Dictionary { words: kept })
        }
    }

    /// A uniformly random word of the list.
    fn sample(&self) -> (r: String)
        requires
            self.word_list().len() >= 1,
        ensures
            exists|j: int| 0 <= j < self.word_list().len() && r@ == (
            #[trigger] self.word_list()[j])@,
    {
        let i = rand_index(self.words.len());
        self.words[i].clone()
    }

    /// Compose a practice line of at most `length` characters from randomly
    /// sampled words separated by single spaces, preferring an exact hit on
    /// `length` and otherwise the smallest shortfall found within the
    /// attempt budget. A word that exercises none of the `least_accurate`
    /// characters is discarded about half the time, to bias practice toward
    /// weak characters. An empty dictionary yields the empty line.
    pub fn line(&self, length: usize, least_accurate: &CharSet) -> (r: String)
        ensures
            r@.len() <= length,
            is_word_concat(r@, self.word_list()),
            line_chars_from(r@, self.word_list()),
            self.word_list().len() == 0 ==> r@.len() == 0,
    {
        proof {
            reveal_strlit(" ");
        }
        if self.words.len() == 0 {
            return String::new();
        }
        let mut best = String::new();
        let mut best_short: usize = length;
        let budget: usize = if length < usize::MAX - 100 {
            length + 100
        } else {
            usize::MAX
        };
        for attempt in 0..LINE_ATTEMPTS
            invariant
                self.word_list().len() >= 1,
                best@.len() <= length,
                best_short == length - best@.len(),
                line_chars_from(best@, self.word_list()),
                is_word_concat(best@, self.word_list()),
        {
            let mut line = String::new();
            let mut line_len: usize = 0;
            let mut draws: usize = 0;
            while line_len < length && draws < budget
                invariant
                    self.word_list().len() >= 1,
                    line_len == line@.len(),
                    line_chars_from(line@, self.word_list()),
                    is_word_concat(line@, self.word_list()),
                    best@.len() <= length,
                    best_short == length - best@.len(),
                    line_chars_from(best@, self.word_list()),
                    is_word_concat(best@, self.word_list()),
                decreases budget - draws,
            {
                draws = draws + 1;
                let word = self.sample();
                if !Self::word_intersects(&word, least_accurate) && rand_coin() {
                    continue ;
                }
                let ghost before = line@;
                line.append(word.as_str());
                line.append(" ");
                proof {
                    reveal_strlit(" ");
                    assert(line@ =~= before + word@ + seq![' ']);
                    let j = choose|j: int|
                        0 <= j < self.word_list().len() && word@ == (
                        #[trigger] self.word_list()[j])@;
                    lemma_word_concat_append(before, self.word_list(), j);
                    assert forall|i: int| 0 <= i < line@.len() implies (#[trigger] line@[i]) == ' '
                        || exists|j: int|
                        0 <= j < self.word_list().len() && (#[trigger] self.word_list()[j]@)
                            .contains(line@[i]) by {
                        if i < before.len() {
                            assert(before[i] == line@[i]);
                        } else if i < before.len() + word@.len() {
                            let k = choose|k: int|
                                0 <= k < self.word_list().len() && word@ == (
                                #[trigger] self.word_list()[k])@;
                            assert(self.word_list()[k]@.contains(line@[i]));
                        } else {
                            assert(line@[i] == ' ');
                        }
                    }
                }
                line_len = line.as_str().unicode_len();
                if line_len == length {
                    return line;
                }
                if line_len < length {
                    let short = length - line_len;
                    if short < best_short {
                        best_short = short;
                        best = line.clone();
                    }
                }
            }
        }
        best
    }
}

} // verus!
