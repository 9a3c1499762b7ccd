//! The style that text is set in.
use vstd::prelude::*;

verus! {

/// The style of a text: the font it is set in, by the font's name.
#[derive(Debug)]
pub struct Style {
    pub font: String,
}

impl Style {
    /// Two styles are the same where their fonts have the same name.
    pub fn same_as(&self, other: &Style) -> (r: bool)
        ensures
            r == (self.font@ == other.font@),
    {
        self.font == other.font
    }
}

} // verus!
