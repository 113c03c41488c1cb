//! Profiles: a validated name, a keyboard layout, a difficulty, the
//! progression state, and the chosen word source; plus the cursored list of
//! profiles, one of which is active at a time.

use vstd::prelude::*;
use vstd::string::StrSliceExecFns;
use crate::charset::CharSet;
use crate::dictionary::allowed_pred;
use crate::keyboard::{lemma_letter_order_distinct, spec_letter_order, Layout};
use crate::session::{Line, Session};
use crate::training::{Difficulty, Event, State};
use crate::words::{Setting, Words};

verus! {

/// Longest accepted profile name, in characters.
pub const NAME_MAX_LENGTH: usize = 24;

/// What `str::trim` returns for the given characters.
pub uninterp spec fn trim_of(s: Seq<char>) -> Seq<char>;

/// Relies on `str::trim`: the result is the input without leading and
/// trailing whitespace — a subslice of it, so a result of the input's
/// length is the whole input.
#[verifier::external_body]
fn trim(s: &str) -> (r: &str)
    ensures
        r@ == trim_of(s@),
        r@.len() <= s@.len(),
        r@.len() == s@.len() ==> r@ == s@,
{
    s.trim()
}

/// A validated profile name: free of surrounding whitespace and of a
/// bounded, non-zero length.
#[derive(Debug)]
pub struct Name(String);

impl View for Name {
    type V = Seq<char>;

    closed spec fn view(&self) -> Seq<char> {
        self.0@
    }
}

impl Clone for Name {
    fn clone(&self) -> (r: Self)
        ensures
            r@ == self@,
    {
        Name(self.0.clone())
    }
}

impl PartialEq for Name {
    fn eq(&self, o: &Name) -> (r: bool) {
        self.0 == o.0
    }
}

impl vstd::std_specs::cmp::PartialEqSpecImpl for Name {
    open spec fn obeys_eq_spec() -> bool {
        true
    }

    open spec fn eq_spec(&self, o: &Name) -> bool {
        self@ == o@
    }
}

impl Name {
    /// Accept a name exactly when it carries no surrounding whitespace and
    /// is between one and `NAME_MAX_LENGTH` bytes long.
    pub fn parse(s: &str) -> (r: Option<Name>)
        ensures
            match r {
                Some(name) => name@ == s@ && trim_of(s@) == s@ && 1 <= s@.len()
                    <= NAME_MAX_LENGTH,
                None => !(trim_of(s@) == s@ && 1 <= s@.len() <= NAME_MAX_LENGTH),
            },
    {
        let t = trim(s);
        let sl = s.unicode_len();
        if t.unicode_len() == sl && 1 <= sl && sl <= NAME_MAX_LENGTH {
            Some(Name(s.to_owned()))
        } else {
            None
        }
    }

    /// Wrap a string without validating it; for built-in names only.
    pub(crate) fn unchecked_from(s: &str) -> (r: Name)
        ensures
            r@ == s@,
    {
        Name(s.to_owned())
    }

    pub fn as_str(&self) -> (r: &str)
        ensures
            r@ == self@,
    {
        self.0.as_str()
    }
}

/// A stored profile.
#[derive(Debug)]
pub struct Profile {
    pub name: Name,
    pub layout: Layout,
    pub difficulty: Difficulty,
    pub state: State,
    pub words: Setting,
}

impl Profile {
    /// A fresh profile: the layout's first six letters unlocked with zeroed
    /// records, one unlock event per seed character, and default difficulty
    /// and word source.
    pub fn new(name: Name, layout: Layout) -> (r: Profile)
        ensures
            r.name == name,
            r.layout == layout,
            r.difficulty == Difficulty::Normal,
            r.words == Setting::Dictionary,
            r.state.wf(),
            r.state.unlocked() == spec_letter_order(layout).take(6).to_set(),
            r.state.unlocked_order() == spec_letter_order(layout).take(6),
            r.state.clean_map().dom() == r.state.unlocked(),
            forall|c: char| #[trigger]
                r.state.unlocked().contains(c) ==> r.state.clean_map().contains_key(c)
                    && r.state.clean_map()[c] == 0,
            r.state.windows() == Map::<char, Seq<u64>>::empty(),
            r.state.events_seq().len() == r.state.unlocked_order().len(),
            forall|i: int|
                0 <= i < r.state.events_seq().len() ==> ((#[trigger] r.state.events_seq()[i])
                    matches Event::Unlock { letter, .. } && letter == r.state.unlocked_order()[i]),
    {
        let chars = layout.initial_chars();
        proof {
            lemma_letter_order_distinct(layout);
            let full = spec_letter_order(layout);
            assert forall|a: int, b: int| 0 <= a < b < 6 implies full.take(6)[a] != full.take(
                6,
            )[b] by {
                assert(full[a] != full[b]);
            }
            assert(chars@.no_duplicates());
        }
        let state = State::new(chars);
        Profile {
            name,
            layout,
            difficulty: Difficulty::default(),
            state,
            words: Setting::default(),
        }
    }
}

impl Default for Profile {
    fn default() -> (r: Self)
        ensures
            r.layout == Layout::Qwerty,
            r.difficulty == Difficulty::Normal,
            r.words == Setting::Dictionary,
            r.state.wf(),
    {
        Profile::new(Name::unchecked_from("Default Profile"), Layout::default())
    }
}

/// An activated profile: its state plus a live typing session.
#[derive(Debug)]
pub struct Active {
    pub name: Name,
    pub layout: Layout,
    pub difficulty: Difficulty,
    pub state: State,
    pub session: Session,
}

impl Active {
    /// Activate a stored profile around a live word source.
    pub fn activate(profile: Profile, words: Words) -> (r: Active)
        requires
            profile.state.wf(),
            words.wf(),
        ensures
            r.name == profile.name,
            r.layout == profile.layout,
            r.difficulty == profile.difficulty,
            r.state == profile.state,
            r.state.wf(),
            r.session.wf(),
    {
        let session = Session::new(words, &profile.state);
        Active {
            name: profile.name,
            layout: profile.layout,
            difficulty: profile.difficulty,
            state: profile.state,
            session,
        }
    }

    /// Fold the session's word-source choice back into a storable profile.
    pub fn into_profile(self) -> (r: Profile)
        ensures
            r.name == self.name,
            r.layout == self.layout,
            r.difficulty == self.difficulty,
            r.state == self.state,
            r.words == self.session.words.spec_setting(),
    {
        let words = self.session.words_setting();
        Profile {
            name: self.name,
            layout: self.layout,
            difficulty: self.difficulty,
            state: self.state,
            words,
        }
    }

    /// Feed one completed line to the progression state; when a character
    /// is unlocked, the session's word source is restricted to the widened
    /// set, which is also returned so callers can react.
    pub fn add_line(&mut self, line: Line) -> (r: Option<CharSet>)
        requires
            old(self).state.wf(),
            old(self).session.wf(),
            line.wf(),
        ensures
            final(self).state.wf(),
            final(self).session.wf(),
            final(self).name == old(self).name,
            final(self).layout == old(self).layout,
            final(self).difficulty == old(self).difficulty,
            final(self).session.words.spec_setting() == old(self).session.words.spec_setting(),
            old(self).state.unlocked().subset_of(final(self).state.unlocked()),
            match r {
                Some(cs) => {
                    &&& cs.wf()
                    &&& cs@ == final(self).state.unlocked()
                    &&& exists|nc: char|
                        !old(self).state.unlocked().contains(nc) && final(self).state.unlocked()
                            == old(self).state.unlocked().insert(nc)
                    // The session's word source is re-restricted to the
                    // widened set.
                    &&& (old(self).session.words matches Words::Dictionary { full, .. }
                        ==> (final(self).session.words matches Words::Dictionary {
                        full: f2,
                        char_limited,
                    } && f2.word_list() == full.word_list() && char_limited.word_list()
                        == full.word_list().filter(allowed_pred(cs@))))
                    &&& (old(self).session.words matches Words::Random { generator, .. }
                        ==> (final(self).session.words matches Words::Random {
                        generator: g2,
                        char_set: cs2,
                    } && g2 == generator && cs2@ == cs@ && cs2.order() == cs.order()))
                },
                None => final(self).state.unlocked() == old(self).state.unlocked(),
            },
    {
        let r = self.state.add_line(line, &self.layout, &self.difficulty);
        proof {
            crate::keyboard::lemma_next_char_props(
                spec_letter_order(old(self).layout),
                old(self).state.unlocked(),
            );
        }
        match r {
            Some(cs) => {
                self.session.update_char_set(cs.clone());
                Some(cs)
            },
            None => None,
        }
    }
}

/// The profiles, with one active: a flat list and a cursor.
#[derive(Debug)]
pub struct List {
    profiles: Vec<Profile>,
    current: usize,
}

impl List {
    /// The profiles, in order.
    pub closed spec fn profiles_seq(&self) -> Seq<Profile> {
        self.profiles@
    }

    /// The position of the active profile.
    pub closed spec fn cursor(&self) -> int {
        self.current as int
    }

    /// The cursor always points at a profile.
    pub open spec fn wf(&self) -> bool {
        0 <= self.cursor() < self.profiles_seq().len()
    }

    /// A list holding one profile, which is active.
    pub fn new(first: Profile) -> (r: List)
        ensures
            r.wf(),
            r.profiles_seq() == seq![first],
            r.cursor() == 0,
    {
        let mut profiles = Vec::new();
        profiles.push(first);
        proof {
            assert(profiles@ =~= seq![first]);
        }
        List { profiles, current: 0 }
    }

    pub fn active(&self) -> (r: &Profile)
        requires
            self.wf(),
        ensures
            *r == self.profiles_seq()[self.cursor()],
    {
        &self.profiles[self.current]
    }

    pub fn active_mut(&mut self) -> (r: &mut Profile)
        requires
            old(self).wf(),
        ensures
            final(self).wf(),
            *r == old(self).profiles_seq()[old(self).cursor()],
            final(self).cursor() == old(self).cursor(),
            final(self).profiles_seq() == old(self).profiles_seq().update(
                old(self).cursor(),
                *final(r),
            ),
    {
        &mut self.profiles[self.current]
    }

    pub fn len(&self) -> (r: usize)
        ensures
            r == self.profiles_seq().len(),
    {
        self.profiles.len()
    }

    /// The profile at position `i`.
    pub fn get(&self, i: usize) -> (r: &Profile)
        requires
            i < self.profiles_seq().len(),
        ensures
            *r == self.profiles_seq()[i as int],
    {
        &self.profiles[i]
    }

    /// Make the profile at `index` active. Selecting the already-active
    /// position or a position out of range changes nothing and reports
    /// `false`.
    pub fn select(&mut self, index: usize) -> (r: bool)
        requires
            old(self).wf(),
        ensures
            final(self).wf(),
            final(self).profiles_seq() == old(self).profiles_seq(),
            r == (index < old(self).profiles_seq().len() && index != old(self).cursor()),
            r ==> final(self).cursor() == index,
            !r ==> final(self).cursor() == old(self).cursor(),
    {
        if index < self.profiles.len() && index != self.current {
            self.current = index;
            true
        } else {
            false
        }
    }

    /// Append a profile and make it active.
    pub fn insert_active(&mut self, profile: Profile)
        requires
            old(self).wf(),
        ensures
            final(self).wf(),
            final(self).profiles_seq() == old(self).profiles_seq().push(profile),
            final(self).cursor() == old(self).profiles_seq().len(),
    {
        self.profiles.push(profile);
        self.current = self.profiles.len() - 1;
    }

    /// Every profile's name, with whether it is the active one.
    pub fn names(&self) -> (r: Vec<(Name, bool)>)
        requires
            self.wf(),
        ensures
            r@.len() == self.profiles_seq().len(),
            forall|i: int|
                0 <= i < r@.len() ==> (#[trigger] r@[i]).0@ == self.profiles_seq()[i].name@
                    && r@[i].1 == (i == self.cursor()),
    {
        let mut r: Vec<(Name, bool)> = Vec::new();
        let n = self.profiles.len();
        for i in 0..n
            invariant
                self.wf(),
                n == self.profiles_seq().len(),
                r@.len() == i,
                forall|j: int|
                    0 <= j < i ==> (#[trigger] r@[j]).0@ == self.profiles_seq()[j].name@
                        && r@[j].1 == (j == self.cursor()),
        {
            let ghost pre = r@;
            let name = self.profiles[i].name.clone();
            let is_active = i == self.current;
            let ghost pair = (name, is_active);
            r.push((name, is_active));
            proof {
                crate::training::lemma_push_facts(pre, pair);
            }
        }
        r
    }

    /// Whether a profile of this name exists.
    pub fn contains_name(&self, name: &Name) -> (r: bool)
        requires
            self.wf(),
        ensures
            r == exists|i: int|
                0 <= i < self.profiles_seq().len() && (#[trigger] self.profiles_seq()[i]).name@
                    == name@,
    {
        let n = self.profiles.len();
        for i in 0..n
            invariant
                self.wf(),
                n == self.profiles_seq().len(),
                forall|j: int|
                    0 <= j < i ==> (#[trigger] self.profiles_seq()[j]).name@ != name@,
        {
            if self.profiles[i].name.eq(name) {
                return true;
            }
        }
        false
    }
}

} // verus!
