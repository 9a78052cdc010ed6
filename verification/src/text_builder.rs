//! Building a text out of pieces separated by zeros.
use vstd::prelude::*;
use crate::character::Character;

verus! {

/// A text builder lets you construct a text from multiple parts.
/// Internally each part is separated by the 0 character.
pub struct TextBuilder<C: Character> {
    id_counter: usize,
    text: Vec<C>,
    pieces: Ghost<Seq<Seq<C>>>,
}

/// A unique id identifying a text added to a builder.
#[derive(Clone, Copy, Debug, PartialEq, Eq, Structural, PartialOrd, Ord, Hash)]
pub struct TextId(usize);

impl TextId {
    /// The number of the text: texts are numbered from 0 in the order they were added.
    pub closed spec fn index(self) -> usize {
        self.0
    }

    /// The number of the text.
    pub fn value(&self) -> (r: usize)
        ensures
            r == self.index(),
    {
        self.0
    }
}

/// The concatenation of `pieces`, each followed by a zero character.
pub open spec fn joined<C: Character>(pieces: Seq<Seq<C>>) -> Seq<C>
    decreases pieces.len(),
{
    if pieces.len() == 0 {
        Seq::empty()
    } else {
        joined(pieces.drop_last()) + pieces.last() + seq![C::from_code(0)]
    }
}

/// The total length of `pieces`.
pub open spec fn total_len<C>(pieces: Seq<Seq<C>>) -> nat
    decreases pieces.len(),
{
    if pieces.len() == 0 {
        0
    } else {
        total_len(pieces.drop_last()) + pieces.last().len()
    }
}

/// The text built from any number of texts is each of them in turn, each
/// followed by a zero: as long as they are together, plus one per text.
pub proof fn law_joined_len<C: Character>(pieces: Seq<Seq<C>>)
    ensures
        joined(pieces).len() == total_len(pieces) + pieces.len(),
    decreases pieces.len(),
{
    if pieces.len() > 0 {
        law_joined_len(pieces.drop_last());
    }
}

impl<C: Character> TextBuilder<C> {
    /// The builder holds the texts added, each followed by a zero, and
    /// counts them.
    pub closed spec fn wf(&self) -> bool {
        &&& self.text@ == joined(self.pieces@)
        &&& self.id_counter == self.pieces@.len()
    }

    /// The texts added so far, in order.
    pub closed spec fn pieces(&self) -> Seq<Seq<C>> {
        self.pieces@
    }

    /// The number of texts added so far.
    pub closed spec fn count(&self) -> nat {
        self.id_counter as nat
    }

    /// The text built so far.
    pub closed spec fn contents(&self) -> Seq<C> {
        self.text@
    }

    /// Create a new empty text builder.
    pub fn new() -> (r: TextBuilder<C>)
        ensures
            r.wf(),
            r.count() == 0,
            r.pieces() == Seq::<Seq<C>>::empty(),
            r.contents() == Seq::<C>::empty(),
    {
        TextBuilder { id_counter: 0, text: Vec::new(), pieces: Ghost(Seq::empty()) }
    }

    /// Add a text to the builder.
    ///
    /// Returns a unique id for this text.
    pub fn add_text(&mut self, text: &[C]) -> (r: TextId)
        requires
            old(self).wf(),
            old(self).count() < usize::MAX,
        ensures
            final(self).wf(),
            r.index() == old(self).count(),
            final(self).count() == old(self).count() + 1,
            final(self).pieces() == old(self).pieces().push(text@),
            final(self).contents() == old(self).contents() + text@ + seq![C::from_code(0)],
    {
        let id = TextId(self.id_counter);
        self.id_counter = self.id_counter + 1;
        let mut i: usize = 0;
        let ghost start = self.text@;
        let ghost count = self.id_counter;
        let ghost pieces = self.pieces@;
        while i < text.len()
            invariant
                i <= text.len(),
                self.id_counter == count,
                self.pieces@ == pieces,
                self.text@ == start + text@.take(i as int),
            decreases text.len() - i,
        {
            self.text.push(text[i]);
            assert(text@.take(i + 1) =~= text@.take(i as int).push(text@[i as int]));
            i = i + 1;
        }
        assert(text@.take(text.len() as int) =~= text@);
        self.text.push(C::from_u64(0));
        proof {
            self.pieces@ = pieces.push(text@);
            assert(self.pieces@.drop_last() =~= pieces);
            assert(self.pieces@.last() == text@);
            assert(joined(self.pieces@) == joined(pieces) + text@ + seq![C::from_code(0)]);
            assert(self.text@ =~= joined(self.pieces@));
        }
        id
    }

    /// Finish the build and return the text: every text added, in order,
    /// each followed by a zero.
    pub fn build(self) -> (r: Vec<C>)
        requires
            self.wf(),
        ensures
            r@ == self.contents(),
            r@ == joined(self.pieces()),
    {
        self.text
    }
}

} // verus!
