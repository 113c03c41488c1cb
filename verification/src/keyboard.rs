//! Keyboard layouts and their fixed unlock orders.
//!
//! Each layout fixes the order in which letters are introduced; the
//! progression state only ever asks for the first letter of that order that
//! is not yet unlocked.

use vstd::prelude::*;
use crate::charset::CharSet;

verus! {

#[derive(Clone, Copy, Debug, PartialEq, Eq, Structural)]
pub enum Layout {
    Colemak,
    ColemakDH,
    ColemakDHOrtholinear,
    ColemakOrtholinear,
    Dvorak,
    DvorakOrtholinear,
    Qwerty,
    QwertyOrtholinear,
    Workman,
    WorkmanOrtholinear,
}

impl Default for Layout {
    fn default() -> (r: Self)
        ensures
            r == Layout::Qwerty,
    {
        Layout::Qwerty
    }
}

/// The order in which letters are unlocked for each layout.
pub open spec fn spec_letter_order(l: Layout) -> Seq<char> {
    match l {
        Layout::Colemak | Layout::ColemakOrtholinear => seq![
            'n', 't', 'e', 's', 'i', 'r', 'o', 'a', 'l', 'p', 'u', 'f', 'y', 'w', 'm', 'v',
            'c', 'h', 'd', 'j', 'g', 'k', 'b', 'x', 'q', 'z',
        ],
        Layout::ColemakDH | Layout::ColemakDHOrtholinear => seq![
            'n', 't', 'e', 's', 'i', 'r', 'o', 'a', 'l', 'p', 'u', 'f', 'y', 'w', 'h', 'd',
            'c', 'm', 'g', 'j', 'b', 'k', 'v', 'x', 'q', 'z',
        ],
        Layout::Dvorak | Layout::DvorakOrtholinear => seq![
            'h', 'u', 't', 'e', 'n', 'o', 'g', 'p', 's', 'a', 'c', 'd', 'i', 'r', 'l', 'm',
            'k', 'f', 'y', 'w', 'j', 'b', 'v', 'q', 'x', 'z',
        ],
        Layout::Qwerty | Layout::QwertyOrtholinear => seq![
            'a', 's', 'd', 'f', 'e', 'j', 'k', 'i', 'l', 'u', 'r', 'o', 'w', 'm', 'v', 'c',
            'h', 'g', 'y', 't', 'n', 'b', 'p', 'x', 'q', 'z',
        ],
        Layout::Workman | Layout::WorkmanOrtholinear => seq![
            'n', 't', 'e', 'h', 'o', 's', 'i', 'a', 'f', 'w', 'u', 'r', 'p', 'd', 'l', 'c',
            'm', 'y', 'g', 'j', 'b', 'k', 'v', 'x', 'q', 'z',
        ],
    }
}

/// The first letter of `order` that is not in `have`; `None` when `have`
/// covers the whole order.
pub open spec fn spec_next_char(order: Seq<char>, have: Set<char>) -> Option<char>
    decreases order.len(),
{
    if order.len() == 0 {
        None
    } else if !have.contains(order[0]) {
        Some(order[0])
    } else {
        spec_next_char(order.drop_first(), have)
    }
}

/// What the choice of the next letter guarantees: a found letter is a not-yet-
/// held letter of the order, and nothing is found only when every letter of
/// the order is already held.
pub proof fn lemma_next_char_props(order: Seq<char>, have: Set<char>)
    ensures
        match spec_next_char(order, have) {
            Some(c) => order.contains(c) && !have.contains(c),
            None => forall|i: int| 0 <= i < order.len() ==> have.contains(#[trigger] order[i]),
        },
    decreases order.len(),
{
    if order.len() > 0 && have.contains(order[0]) {
        lemma_next_char_props(order.drop_first(), have);
        match spec_next_char(order.drop_first(), have) {
            Some(c) => {
                assert(order.drop_first().contains(c));
                let i = choose|i: int| 0 <= i < order.drop_first().len() && order.drop_first()[i] == c;
                assert(order[i + 1] == c);
            },
            None => {
                assert forall|i: int| 0 <= i < order.len() implies have.contains(
                    #[trigger] order[i],
                ) by {
                    if i > 0 {
                        assert(order.drop_first()[i - 1] == order[i]);
                    }
                }
            },
        }
    }
}

/// Every layout's unlock order names each letter once.
pub proof fn lemma_letter_order_distinct(l: Layout)
    ensures
        spec_letter_order(l).no_duplicates(),
{
    assert(spec_letter_order(l).no_duplicates());
}

impl Layout {
    /// Every layout, in presentation order.
    pub fn all() -> (r: Vec<Layout>)
        ensures
            r@ == seq![
                Layout::Qwerty,
                Layout::Dvorak,
                Layout::Colemak,
                Layout::ColemakDH,
                Layout::Workman,
                Layout::QwertyOrtholinear,
                Layout::DvorakOrtholinear,
                Layout::ColemakOrtholinear,
                Layout::ColemakDHOrtholinear,
                Layout::WorkmanOrtholinear,
            ],
    {
        let v = vec![
            Layout::Qwerty,
            Layout::Dvorak,
            Layout::Colemak,
            Layout::ColemakDH,
            Layout::Workman,
            Layout::QwertyOrtholinear,
            Layout::DvorakOrtholinear,
            Layout::ColemakOrtholinear,
            Layout::ColemakDHOrtholinear,
            Layout::WorkmanOrtholinear,
        ];
        proof {
            assert(v@ =~= seq![
                Layout::Qwerty,
                Layout::Dvorak,
                Layout::Colemak,
                Layout::ColemakDH,
                Layout::Workman,
                Layout::QwertyOrtholinear,
                Layout::DvorakOrtholinear,
                Layout::ColemakOrtholinear,
                Layout::ColemakDHOrtholinear,
                Layout::WorkmanOrtholinear,
            ]);
        }
        v
    }

    /// The order in which letters are unlocked for this layout.
    pub fn letter_order(&self) -> (r: Vec<char>)
        ensures
            r@ == spec_letter_order(*self),
    {
        let v: Vec<char> = match self {
            Layout::Colemak | Layout::ColemakOrtholinear => vec![
                'n', 't', 'e', 's', 'i', 'r', 'o', 'a', 'l', 'p', 'u', 'f', 'y', 'w', 'm', 'v',
                'c', 'h', 'd', 'j', 'g', 'k', 'b', 'x', 'q', 'z',
            ],
            Layout::ColemakDH | Layout::ColemakDHOrtholinear => vec![
                'n', 't', 'e', 's', 'i', 'r', 'o', 'a', 'l', 'p', 'u', 'f', 'y', 'w', 'h', 'd',
                'c', 'm', 'g', 'j', 'b', 'k', 'v', 'x', 'q', 'z',
            ],
            Layout::Dvorak | Layout::DvorakOrtholinear => vec![
                'h', 'u', 't', 'e', 'n', 'o', 'g', 'p', 's', 'a', 'c', 'd', 'i', 'r', 'l', 'm',
                'k', 'f', 'y', 'w', 'j', 'b', 'v', 'q', 'x', 'z',
            ],
            Layout::Qwerty | Layout::QwertyOrtholinear => vec![
                'a', 's', 'd', 'f', 'e', 'j', 'k', 'i', 'l', 'u', 'r', 'o', 'w', 'm', 'v', 'c',
                'h', 'g', 'y', 't', 'n', 'b', 'p', 'x', 'q', 'z',
            ],
            Layout::Workman | Layout::WorkmanOrtholinear => vec![
                'n', 't', 'e', 'h', 'o', 's', 'i', 'a', 'f', 'w', 'u', 'r', 'p', 'd', 'l', 'c',
                'm', 'y', 'g', 'j', 'b', 'k', 'v', 'x', 'q', 'z',
            ],
        };
        proof {
            assert(v@ =~= spec_letter_order(*self));
        }
        v
    }

    /// The seed characters a fresh profile starts from: the first six letters
    /// of the unlock order.
    pub fn initial_chars(&self) -> (r: Vec<char>)
        ensures
            r@ == spec_letter_order(*self).take(6),
    {
        let mut v = self.letter_order();
        v.truncate(6);
        proof {
            assert(v@ =~= spec_letter_order(*self).take(6));
        }
        v
    }

    /// The next letter to unlock: the first letter of this layout's order
    /// that is not yet in `char_set`.
    pub fn next_char(&self, char_set: &CharSet) -> (r: Option<char>)
        ensures
            r == spec_next_char(spec_letter_order(*self), char_set@),
    {
        let ghost full = spec_letter_order(*self);
        let order = self.letter_order();
        let n = order.len();
        proof {
            assert(full.skip(0) =~= full);
        }
        for i in 0..n
            invariant
                n == order@.len(),
                order@ == full,
                full == spec_letter_order(*self),
                spec_next_char(full.skip(i as int), char_set@) == spec_next_char(full, char_set@),
        {
            proof {
                assert(full.skip(i as int)[0] == full[i as int]);
            }
            if !char_set.contains(order[i]) {
                proof {
                    assert(spec_next_char(full.skip(i as int), char_set@) == Some(
                        full[i as int],
                    ));
                }
                return Some(order[i]);
            }
            proof {
                assert(full.skip(i as int).drop_first() =~= full.skip(i + 1));
            }
        }
        proof {
            assert(full.skip(n as int) =~= Seq::<char>::empty());
        }
        None
    }
}

} // verus!
