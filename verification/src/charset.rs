//! A small character set kept in first-insertion order without duplicates.
//!
//! The unlocked-character set, the miss set of a hit, and the bias set handed
//! to the line composer are all values of this type.

use vstd::prelude::*;

verus! {

/// A set of characters, stored as a duplicate-free vector in first-insertion
/// order. The view is the mathematical set of its characters.
#[derive(Debug)]
pub struct CharSet {
    chars: Vec<char>,
}

impl View for CharSet {
    type V = Set<char>;

    closed spec fn view(&self) -> Set<char> {
        self.chars@.to_set()
    }
}

impl Clone for CharSet {
    fn clone(&self) -> (r: Self)
        ensures
            r.order() == self.order(),
            r@ == self@,
    {
        CharSet { chars: self.chars.clone() }
    }
}

impl CharSet {
    /// The characters in first-insertion order.
    pub closed spec fn order(&self) -> Seq<char> {
        self.chars@
    }

    /// The stored order holds no character twice.
    pub open spec fn wf(&self) -> bool {
        self.order().no_duplicates()
    }

    pub proof fn lemma_view_is_order_set(&self)
        ensures
            self@ == self.order().to_set(),
            self.wf() ==> self@.len() == self.order().len(),
            self@.finite(),
    {
        broadcast use vstd::seq_lib::seq_to_set_is_finite;

        if self.wf() {
            self.order().unique_seq_to_set();
        }
    }

    pub fn new() -> (r: CharSet)
        ensures
            r.wf(),
            r.order() == Seq::<char>::empty(),
            r@ == Set::<char>::empty(),
    {
        let r = CharSet { chars: Vec::new() };
        proof {
            assert(r@ =~= Set::<char>::empty());
        }
        r
    }

    /// Collect the characters of `cs`, dropping duplicates and keeping the
    /// order of first occurrence.
    pub fn from_chars(cs: &Vec<char>) -> (r: CharSet)
        ensures
            r.wf(),
            r@ == cs@.to_set(),
    {
        let mut r = CharSet::new();
        let n = cs.len();
        for i in 0..n
            invariant
                n == cs@.len(),
                r.wf(),
                r@ == cs@.take(i as int).to_set(),
        {
            proof {
                assert(cs@.take(i as int).push(cs@[i as int]) =~= cs@.take(i + 1));
                broadcast use vstd::prelude::Seq::lemma_push_to_set_commute;
            }
            r.insert(cs[i]);
        }
        proof {
            assert(cs@.take(n as int) =~= cs@);
        }
        r
    }

    pub fn contains(&self, c: char) -> (r: bool)
        ensures
            r == self@.contains(c),
    {
        let n = self.chars.len();
        for i in 0..n
            invariant
                n == self.chars@.len(),
                forall|j: int| 0 <= j < i ==> self.chars@[j] != c,
        {
            if self.chars[i] == c {
                assert(self.order().contains(c));
                return true;
            }
        }
        assert(!self.order().contains(c));
        false
    }

    /// Add `c`; a character already present is left where it is.
    pub fn insert(&mut self, c: char)
        requires
            old(self).wf(),
        ensures
            final(self).wf(),
            final(self)@ == old(self)@.insert(c),
            old(self)@.contains(c) ==> final(self).order() == old(self).order(),
            !old(self)@.contains(c) ==> final(self).order() == old(self).order().push(c),
    {
        if !self.contains(c) {
            self.chars.push(c);
            proof {
                broadcast use vstd::prelude::Seq::lemma_push_to_set_commute;
            }
        } else {
            proof {
                assert(self@.insert(c) =~= self@);
            }
        }
    }

    pub fn len(&self) -> (r: usize)
        requires
            self.wf(),
        ensures
            r == self@.len(),
            r == self.order().len(),
    {
        proof {
            self.lemma_view_is_order_set();
        }
        self.chars.len()
    }

    pub fn is_empty(&self) -> (r: bool)
        ensures
            r == (self.order().len() == 0),
            r == (self@ == Set::<char>::empty()),
    {
        proof {
            if self.order().len() == 0 {
                assert(self@ =~= Set::<char>::empty());
            } else {
                assert(self@.contains(self.order()[0]));
            }
        }
        self.chars.is_empty()
    }

    /// The character at position `i` of the insertion order.
    pub fn char_at(&self, i: usize) -> (r: char)
        requires
            i < self.order().len(),
        ensures
            r == self.order()[i as int],
            self@.contains(r),
    {
        self.chars[i]
    }

    /// The number of stored characters, without assuming well-formedness.
    pub fn order_len(&self) -> (r: usize)
        ensures
            r == self.order().len(),
    {
        self.chars.len()
    }

    /// A copy of the characters in first-insertion order.
    pub fn to_vec(&self) -> (r: Vec<char>)
        ensures
            r@ == self.order(),
    {
        self.chars.clone()
    }
}

} // verus!
