//! What a font of a document offers.
use vstd::prelude::*;

verus! {

/// The font of a collection that holds a single font.
#[derive(Debug, Default, PartialEq, Eq, Clone, Copy, Hash, Structural)]
pub struct SingleFont(pub usize);

/// A subset of a font, by its number.
#[derive(Debug, PartialEq, Eq, Clone, Copy, Hash, Structural)]
pub struct SubsetRef(pub usize);

impl SubsetRef {
    /// The number of the subset.
    pub fn font_id(&self) -> (r: usize)
        ensures
            r == self.0,
    {
        self.0
    }
}

/// A font that text can be set in.
pub trait Font {
    /// The font's state is consistent.
    spec fn inv(&self) -> bool;

    /// The name of the font.
    fn base_name(&self) -> &str;

    /// The kerning between two characters, if any.
    fn kerning(&self, lhs: char, rhs: char) -> Option<i32>;

    /// Appends as much of `text` as one subset of the font can encode, as a PDF string, to
    /// `buf`; gives the subset and how many bytes of `text` were encoded.
    fn encode_into(&mut self, text: &str, buf: &mut Vec<u8>) -> (r: (SubsetRef, usize))
        requires
            old(self).inv(),
        ensures
            final(self).inv(),
    ;
}

} // verus!
