//! The text to be indexed.
use vstd::prelude::*;
use crate::character::Character;
use crate::util::{floor_log2, log2_usize};

verus! {

/// A text structure used as the target for pattern searching in the index.
///
/// Not only does it contain the text, but also the maximum character value in
/// the text. This is used to determine the number of bits needed to store the
/// characters in the text.
pub struct Text<C: Character> {
    text: Vec<C>,
    max_character: C,
}

impl<C: Character> Text<C> {
    /// The characters of the text.
    pub closed spec fn chars(self) -> Seq<C> {
        self.text@
    }

    /// The codes of the characters of the text.
    pub open spec fn codes(self) -> Seq<u64> {
        self.chars().map_values(|c: C| c.code())
    }

    /// The code of the largest character the text may hold.
    pub open spec fn max_code(self) -> u64 {
        self.max_char().code()
    }

    /// The largest character the text may hold.
    pub closed spec fn max_char(self) -> C {
        self.max_character
    }

    /// No character of the text is above the largest character.
    pub open spec fn bounded(self) -> bool {
        forall|i: int| 0 <= i < self.codes().len() ==> #[trigger] self.codes()[i] <= self.max_code()
    }

    /// Create a new text structure with the given text.
    ///
    /// The maximum character value is set to the maximum value of the
    /// character type.
    pub fn new(text: Vec<C>) -> (r: Self)
        ensures
            r.chars() == text@,
            r.max_code() == C::max_code(),
            r.bounded(),
    {
        let max_character = C::max_value();
        let r = Text { text, max_character };
        proof {
            assert forall|i: int| 0 <= i < r.codes().len() implies #[trigger] r.codes()[i] <= r.max_code() by {
                C::lemma_code(r.text[i]);
            }
        }
        r
    }

    /// Create a new text structure with the given text and the largest character value.
    ///
    /// This is used when the maximum character value is known in advance.
    pub fn with_max_character(text: Vec<C>, max_character: C) -> (r: Self)
        ensures
            r.chars() == text@,
            r.max_char() == max_character,
    {
        Text { text, max_character }
    }

    /// Get the text as a slice.
    pub fn text(&self) -> (r: &[C])
        ensures
            r@ == self.chars(),
    {
        self.text.as_slice()
    }

    /// Return the maximum character value in the text.
    pub fn max_character(&self) -> (r: C)
        ensures
            r == self.max_char(),
    {
        self.max_character
    }

    /// The codes of the characters.
    pub fn to_codes(&self) -> (r: Vec<u64>)
        ensures
            r@ == self.codes(),
    {
        let mut r: Vec<u64> = Vec::with_capacity(self.text.len());
        let mut i: usize = 0;
        while i < self.text.len()
            invariant
                i <= self.text.len(),
                r.len() == i,
                forall|k: int| 0 <= k < i ==> #[trigger] r[k] == self.text[k].code(),
            decreases self.text.len() - i,
        {
            r.push(self.text[i].into_u64());
            i = i + 1;
        }
        assert(r@ =~= self.codes());
        r
    }

    /// The number of bits needed for the largest character.
    pub(crate) fn max_bits(&self) -> (r: usize)
        requires
            1 <= self.max_code() <= usize::MAX,
        ensures
            r == floor_log2(self.max_code() as nat) + 1,
            1 <= r <= 64,
    {
        let m = self.max_character.into_usize();
        log2_usize(m) + 1
    }
}

} // verus!
