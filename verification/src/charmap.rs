//! A small map from characters to values, stored as a duplicate-free
//! association vector in first-insertion order.
//!
//! The per-character statistics and the smoothed clean fractions are kept in
//! maps of this type; the alphabet is small, so linear lookup is fine.

use vstd::prelude::*;

verus! {

/// The map described by an association sequence; a later entry for the same
/// key would win, though well-formed maps never hold a key twice.
pub open spec fn map_of<V>(s: Seq<(char, V)>) -> Map<char, V>
    decreases s.len(),
{
    if s.len() == 0 {
        Map::empty()
    } else {
        map_of(s.drop_last()).insert(s.last().0, s.last().1)
    }
}

/// The keys of an association sequence, in order.
pub open spec fn keys_of<V>(s: Seq<(char, V)>) -> Seq<char> {
    s.map_values(|e: (char, V)| e.0)
}

pub proof fn lemma_map_of_dom<V>(s: Seq<(char, V)>)
    ensures
        map_of(s).dom() == keys_of(s).to_set(),
    decreases s.len(),
{
    if s.len() == 0 {
        assert(map_of(s).dom() =~= keys_of(s).to_set());
    } else {
        lemma_map_of_dom(s.drop_last());
        assert(keys_of(s.drop_last()) =~= keys_of(s).drop_last());
        assert(keys_of(s) =~= keys_of(s).drop_last().push(s.last().0));
        broadcast use vstd::prelude::Seq::lemma_push_to_set_commute;

        assert(map_of(s).dom() =~= keys_of(s).to_set());
    }
}

pub proof fn lemma_map_of_index<V>(s: Seq<(char, V)>, i: int)
    requires
        keys_of(s).no_duplicates(),
        0 <= i < s.len(),
    ensures
        map_of(s).contains_key(s[i].0),
        map_of(s)[s[i].0] == s[i].1,
    decreases s.len(),
{
    lemma_map_of_dom(s);
    assert(keys_of(s)[i] == s[i].0);
    if i == s.len() - 1 {
    } else {
        assert(keys_of(s.drop_last()) =~= keys_of(s).drop_last());
        lemma_map_of_index(s.drop_last(), i);
        assert(keys_of(s)[i] != keys_of(s)[s.len() - 1]);
    }
}

pub proof fn lemma_map_of_update<V>(s: Seq<(char, V)>, i: int, v: V)
    requires
        keys_of(s).no_duplicates(),
        0 <= i < s.len(),
    ensures
        map_of(s.update(i, (s[i].0, v))) == map_of(s).insert(s[i].0, v),
    decreases s.len(),
{
    let c = s[i].0;
    let t = s.update(i, (c, v));
    if i == s.len() - 1 {
        assert(t.drop_last() =~= s.drop_last());
        assert(map_of(t) =~= map_of(s).insert(c, v));
    } else {
        assert(t.drop_last() =~= s.drop_last().update(i, (c, v)));
        assert(keys_of(s.drop_last()) =~= keys_of(s).drop_last());
        lemma_map_of_update(s.drop_last(), i, v);
        assert(keys_of(s)[i] != keys_of(s)[s.len() - 1]);
        assert(s.last().0 != c);
        assert(map_of(t) =~= map_of(s).insert(c, v));
    }
}

/// A map from characters to values with a well-formedness invariant that no
/// key appears twice. The view is the mathematical `Map`.
#[derive(Debug)]
pub struct CharMap<V> {
    entries: Vec<(char, V)>,
}

impl<V> View for CharMap<V> {
    type V = Map<char, V>;

    closed spec fn view(&self) -> Map<char, V> {
        map_of(self.entries@)
    }
}

impl<V> CharMap<V> {
    /// The keys in first-insertion order.
    pub closed spec fn keys(&self) -> Seq<char> {
        keys_of(self.entries@)
    }

    /// The entry values, aligned with `keys`.
    pub closed spec fn values(&self) -> Seq<V> {
        self.entries@.map_values(|e: (char, V)| e.1)
    }

    pub open spec fn wf(&self) -> bool {
        self.keys().no_duplicates()
    }

    pub proof fn lemma_view(&self)
        requires
            self.wf(),
        ensures
            self@.dom() == self.keys().to_set(),
            self@.dom().finite(),
            self@.dom().len() == self.keys().len(),
            self.values().len() == self.keys().len(),
            forall|i: int|
                0 <= i < self.keys().len() ==> self@.contains_key(#[trigger] self.keys()[i])
                    && self@[self.keys()[i]] == self.values()[i],
        decreases self.keys().len(),
    {
        broadcast use vstd::seq_lib::seq_to_set_is_finite;

        lemma_map_of_dom(self.entries@);
        self.keys().unique_seq_to_set();
        assert forall|i: int| 0 <= i < self.keys().len() implies self@.contains_key(
            #[trigger] self.keys()[i],
        ) && self@[self.keys()[i]] == self.values()[i] by {
            lemma_map_of_index(self.entries@, i);
        }
    }

    pub fn new() -> (r: CharMap<V>)
        ensures
            r.wf(),
            r@ == Map::<char, V>::empty(),
            r.keys() == Seq::<char>::empty(),
            r.values() == Seq::<V>::empty(),
    {
        let r = CharMap { entries: Vec::new() };
        proof {
            assert(r.keys() =~= Seq::<char>::empty());
            assert(r.values() =~= Seq::<V>::empty());
        }
        r
    }

    pub fn num_entries(&self) -> (r: usize)
        ensures
            r == self.keys().len(),
            r == self.values().len(),
            self.wf() ==> r == self@.dom().len(),
    {
        proof {
            if self.wf() {
                self.lemma_view();
            }
            assert(self.keys().len() == self.entries@.len());
            assert(self.values().len() == self.entries@.len());
        }
        self.entries.len()
    }

    pub fn key_at(&self, i: usize) -> (r: char)
        requires
            i < self.keys().len(),
        ensures
            r == self.keys()[i as int],
            self.wf() ==> self@.contains_key(r) && self@[r] == self.values()[i as int],
    {
        proof {
            if self.wf() {
                self.lemma_view();
            }
        }
        self.entries[i].0
    }

    pub fn value_at(&self, i: usize) -> (r: &V)
        requires
            i < self.keys().len(),
        ensures
            r == self.values()[i as int],
            self.wf() ==> self@.contains_key(self.keys()[i as int]) && self@[self.keys()[i as int]]
                == *r,
    {
        proof {
            if self.wf() {
                self.lemma_view();
            }
        }
        &self.entries[i].1
    }

    /// Replace the value stored at position `i`, leaving the key unchanged.
    pub fn set_value_at(&mut self, i: usize, v: V)
        requires
            old(self).wf(),
            i < old(self).keys().len(),
        ensures
            final(self).wf(),
            final(self).keys() == old(self).keys(),
            final(self).values() == old(self).values().update(i as int, v),
            final(self)@ == old(self)@.insert(old(self).keys()[i as int], v),
    {
        proof {
            lemma_map_of_update(self.entries@, i as int, v);
        }
        let c = self.entries[i].0;
        self.entries[i] = (c, v);
        proof {
            assert(final(self).keys() =~= old(self).keys());
            assert(final(self).values() =~= old(self).values().update(i as int, v));
        }
    }

    /// The position of `c` in the insertion order, if present.
    pub fn index_of(&self, c: char) -> (r: Option<usize>)
        requires
            self.wf(),
        ensures
            match r {
                Some(i) => i < self.keys().len() && self.keys()[i as int] == c
                    && self@.contains_key(c) && self@[c] == self.values()[i as int],
                None => !self@.contains_key(c),
            },
    {
        proof {
            self.lemma_view();
        }
        let n = self.entries.len();
        for i in 0..n
            invariant
                self.wf(),
                n == self.entries@.len(),
                forall|j: int| 0 <= j < i ==> self.keys()[j] != c,
        {
            if self.entries[i].0 == c {
                proof {
                    self.lemma_view();
                    assert(self.keys()[i as int] == c);
                }
                return Some(i);
            }
            proof {
                assert(self.keys()[i as int] == self.entries@[i as int].0);
            }
        }
        proof {
            self.lemma_view();
            assert(!self.keys().to_set().contains(c));
        }
        None
    }

    pub fn get(&self, c: char) -> (r: Option<&V>)
        requires
            self.wf(),
        ensures
            match r {
                Some(v) => self@.contains_key(c) && *v == self@[c],
                None => !self@.contains_key(c),
            },
    {
        proof {
            self.lemma_view();
        }
        let n = self.entries.len();
        for i in 0..n
            invariant
                self.wf(),
                n == self.entries@.len(),
                forall|j: int| 0 <= j < i ==> self.keys()[j] != c,
        {
            if self.entries[i].0 == c {
                proof {
                    self.lemma_view();
                    assert(self.keys()[i as int] == c);
                }
                return Some(&self.entries[i].1);
            }
            proof {
                assert(self.keys()[i as int] == self.entries@[i as int].0);
            }
        }
        proof {
            self.lemma_view();
            assert(!self.keys().to_set().contains(c));
        }
        None
    }

    /// Insert or replace the value for `c`; a new key is appended at the end
    /// of the insertion order.
    pub fn insert(&mut self, c: char, v: V)
        requires
            old(self).wf(),
        ensures
            final(self).wf(),
            final(self)@ == old(self)@.insert(c, v),
            old(self)@.contains_key(c) ==> final(self).keys() == old(self).keys(),
            !old(self)@.contains_key(c) ==> final(self).keys() == old(self).keys().push(c)
                && final(self).values() == old(self).values().push(v),
            old(self)@.contains_key(c) ==> exists|i: int|
                0 <= i < old(self).keys().len() && old(self).keys()[i] == c && final(self).values()
                    == old(self).values().update(i, v),
            old(self)@.contains_key(c) ==> exists|i: int|
                0 <= i < old(self).values().len() && final(self).values() == old(
                    self,
                ).values().update(i, v),
    {
        proof {
            self.lemma_view();
        }
        let n = self.entries.len();
        for i in 0..n
            invariant
                self.wf(),
                self == old(self),
                n == self.entries@.len(),
                forall|j: int| 0 <= j < i ==> self.keys()[j] != c,
        {
            if self.entries[i].0 == c {
                proof {
                    lemma_map_of_update(self.entries@, i as int, v);
                    assert(self.keys()[i as int] == c);
                    lemma_map_of_dom(self.entries@);
                }
                self.entries[i] = (c, v);
                proof {
                    assert(final(self).keys() =~= old(self).keys());
                    assert(final(self).values() =~= old(self).values().update(i as int, v));
                }
                return ;
            }
            proof {
                assert(self.keys()[i as int] == self.entries@[i as int].0);
            }
        }
        proof {
            assert(!self.keys().to_set().contains(c));
            lemma_map_of_dom(self.entries@);
        }
        self.entries.push((c, v));
        proof {
            assert(final(self).keys() =~= old(self).keys().push(c));
            assert(final(self).values() =~= old(self).values().push(v));
            assert(final(self).entries@.drop_last() =~= old(self).entries@);
        }
    }
}

} // verus!
