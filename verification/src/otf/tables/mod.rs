//! The font tables.
pub mod cmap;
pub mod glyf;
pub mod head;
pub mod hhea;
pub mod hmtx;
pub mod loca;
pub mod maxp;
pub mod name;
pub mod offset;
pub mod os2;
pub mod post;

use vstd::prelude::*;

verus! {

/// A glyph of a font, together with the code points that map to it.
#[derive(Debug, PartialEq, Clone)]
pub struct Glyph {
    pub index: u16,
    pub code_points: Vec<u32>,
}

impl Glyph {
    /// A glyph without code points.
    pub fn new(index: u16) -> (g: Self)
        ensures
            g.index == index,
            g.code_points@.len() == 0,
    {
        Glyph { index, code_points: Vec::new() }
    }
}

} // verus!
