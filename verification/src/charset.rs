//! The fixed character classes that class tokens of a pattern refer to.

use vstd::prelude::*;

verus! {

/// A fixed, immutable, ordered character class. Generation picks one
/// character from the class, uniformly over the list below.
#[derive(Clone, Copy, Debug, PartialEq, Eq, Structural)]
pub enum CharsetPattern {
    Consonant,
    Vowel,
    Digit,
}

impl CharsetPattern {
    /// The characters of the class, as a mathematical sequence.
    pub open spec fn spec_charset(self) -> Seq<char> {
        match self {
            CharsetPattern::Consonant => seq![
                'b', 'c', 'd', 'f', 'g', 'h', 'j', 'k', 'l', 'm', 'n', 'r', 's', 't', 'p', 'q',
                'v', 'w', 'x', 'y', 'z',
            ],
            CharsetPattern::Vowel => seq!['a', 'e', 'i', 'o', 'u'],
            CharsetPattern::Digit => seq!['0', '1', '2', '3', '4', '5', '6', '7', '8', '9'],
        }
    }

    /// The characters of the class, in their fixed order. Never empty.
    pub fn charset(&self) -> (r: Vec<char>)
        ensures
            r@ == self.spec_charset(),
            r@.len() > 0,
    {
        let r: Vec<char> = match self {
            CharsetPattern::Consonant => vec![
                'b', 'c', 'd', 'f', 'g', 'h', 'j', 'k', 'l', 'm', 'n', 'r', 's', 't', 'p', 'q',
                'v', 'w', 'x', 'y', 'z',
            ],
            CharsetPattern::Vowel => vec!['a', 'e', 'i', 'o', 'u'],
            CharsetPattern::Digit => vec!['0', '1', '2', '3', '4', '5', '6', '7', '8', '9'],
        };
        proof {
            assert(r@ =~= self.spec_charset());
        }
        r
    }
}

} // verus!
