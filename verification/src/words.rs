//! Word sources for practice lines.
//!
//! A profile picks one of two sources: a dictionary restricted to the
//! unlocked characters, or a letter-frequency generator weighted toward
//! them. Both answer the same question: a line of roughly the requested
//! length built from the allowed characters.

use vstd::prelude::*;
use crate::charset::CharSet;
use crate::dictionary::{allowed_pred, is_word_concat, line_chars_from, Dictionary};
use crate::random::{cumulative_table_of, is_short_word_concat, Random};

verus! {

/// Which word source a profile uses; persisted as part of its settings.
#[derive(Clone, Copy, Debug, PartialEq, Eq, Structural)]
pub enum Setting {
    Dictionary,
    Random,
}

impl Default for Setting {
    fn default() -> (r: Self)
        ensures
            r == Setting::Dictionary,
    {
        Setting::Dictionary
    }
}

/// The raw word-source data, loaded and decoded by the caller: a word list
/// for the dictionary source, and letter plus bigram weights for the
/// frequency source.
pub struct WordData {
    pub words: Vec<String>,
    pub letters: Vec<(char, u16)>,
    pub bigrams: Vec<(char, Vec<(char, u16)>)>,
}

/// A live word source.
#[derive(Debug)]
pub enum Words {
    Dictionary { full: Dictionary, char_limited: Dictionary },
    Random { generator: Random, char_set: CharSet },
}

impl Words {
    pub open spec fn wf(&self) -> bool {
        match self {
            Words::Random { generator, .. } => generator.wf(),
            Words::Dictionary { .. } => true,
        }
    }

    /// What every line this source composes satisfies: a dictionary source
    /// yields at most `length` characters of whole restricted words (none
    /// at all when no word qualifies); a frequency source yields whole
    /// generated words totalling at least `length` characters.
    pub open spec fn line_ok(&self, length: int, l: Seq<char>) -> bool {
        match self {
            Words::Dictionary { char_limited, .. } => {
                &&& l.len() <= length
                &&& is_word_concat(l, char_limited.word_list())
                &&& line_chars_from(l, char_limited.word_list())
                &&& (char_limited.word_list().len() == 0 ==> l.len() == 0)
            },
            Words::Random { .. } => length <= l.len() <= length + 7 && is_short_word_concat(l),
        }
    }

    /// The setting this source was built from.
    pub open spec fn spec_setting(&self) -> Setting {
        match self {
            Words::Dictionary { .. } => Setting::Dictionary,
            Words::Random { .. } => Setting::Random,
        }
    }

    /// A dictionary source over `word_list`, restricted to words built only
    /// from `char_set`.
    pub fn dictionary(word_list: Vec<String>, char_set: &CharSet) -> (r: Words)
        ensures
            r.wf(),
            r matches Words::Dictionary { full, char_limited } && full.word_list() == word_list@
                && char_limited.word_list() == word_list@.filter(allowed_pred(char_set@)),
    {
        let full = Dictionary::from_words(word_list);
        let char_limited = full.char_limited(char_set);
        Words::Dictionary { full, char_limited }
    }

    /// A frequency source over the given letter and bigram weights,
    /// restricted to `char_set`.
    pub fn random(
        letters: Vec<(char, u16)>,
        bigrams: Vec<(char, Vec<(char, u16)>)>,
        char_set: CharSet,
    ) -> (r: Words)
        requires
            bigrams@.map_values(|p: (char, Vec<(char, u16)>)| p.0).no_duplicates(),
        ensures
            r.wf(),
            r matches Words::Random { generator, char_set: cs } && cs == char_set
                && cumulative_table_of(generator.letter_table(), letters@) && forall|i: int|
                0 <= i < bigrams@.len() ==> generator.bigram_tables().contains_key(
                    (#[trigger] bigrams@[i]).0,
                ) && cumulative_table_of(generator.bigram_tables()[bigrams@[i].0]@, bigrams@[i].1@),
    {
        let generator = Random::new(letters, bigrams);
        Words::Random { generator, char_set }
    }

    /// Compose one practice line; see `line_ok` for what every composed
    /// line satisfies.
    pub fn line(&self, length: usize, least_accurate: &CharSet) -> (r: String)
        requires
            self.wf(),
        ensures
            self.line_ok(length as int, r@),
    {
        match self {
            Words::Dictionary { char_limited, .. } => char_limited.line(length, least_accurate),
            Words::Random { generator, char_set } => generator.line(char_set, length),
        }
    }

    /// The same source, restricted anew to a widened character set; used
    /// after an unlock, so no data has to be reloaded.
    pub fn with_char_set(self, char_set: CharSet) -> (r: Words)
        requires
            self.wf(),
        ensures
            r.wf(),
            r.spec_setting() == self.spec_setting(),
            self matches Words::Dictionary { full, .. } ==> (r matches Words::Dictionary {
                full: f2,
                char_limited,
            } && f2.word_list() == full.word_list() && char_limited.word_list()
                == full.word_list().filter(allowed_pred(char_set@))),
            self matches Words::Random { generator, .. } ==> (r matches Words::Random {
                generator: g2,
                char_set: cs,
            } && g2 == generator && cs == char_set),
    {
        match self {
            Words::Dictionary { full, char_limited: _ } => {
                let char_limited = full.char_limited(&char_set);
                Words::Dictionary { full, char_limited }
            },
            Words::Random { generator, char_set: _ } => Words::Random { generator, char_set },
        }
    }

    /// The setting this source was built from.
    pub fn setting(&self) -> (r: Setting)
        ensures
            r == self.spec_setting(),
    {
        match self {
            Words::Dictionary { .. } => Setting::Dictionary,
            Words::Random { .. } => Setting::Random,
        }
    }
}

impl Setting {
    /// Build the word source this setting names from the raw data.
    pub fn get_words(&self, data: WordData, char_set: CharSet) -> (r: Words)
        requires
            *self == Setting::Random ==> data.bigrams@.map_values(
                |p: (char, Vec<(char, u16)>)| p.0,
            ).no_duplicates(),
        ensures
            r.wf(),
            r.spec_setting() == *self,
    {
        match self {
            Setting::Dictionary => Words::dictionary(data.words, &char_set),
            Setting::Random => Words::random(data.letters, data.bigrams, char_set),
        }
    }
}

} // verus!
