use vstd::prelude::*;

verus! {

/// The number of hues of the generated palette.
pub const GEN_PALE_DIVISION: usize = 10;

/// The colours of the generated palette: ten hues, then black and white.
#[derive(Clone, Copy, Debug, PartialEq, Eq, Structural)]
pub enum GenPale {
    Color0,
    Color1,
    Color2,
    Color3,
    Color4,
    Color5,
    Color6,
    Color7,
    Color8,
    Color9,
    Black,
    White,
}

impl GenPale {
    /// The position of the colour in the palette.
    pub open spec fn spec_index(&self) -> int {
        match *self {
            GenPale::Color0 => 0,
            GenPale::Color1 => 1,
            GenPale::Color2 => 2,
            GenPale::Color3 => 3,
            GenPale::Color4 => 4,
            GenPale::Color5 => 5,
            GenPale::Color6 => 6,
            GenPale::Color7 => 7,
            GenPale::Color8 => 8,
            GenPale::Color9 => 9,
            GenPale::Black => 10,
            GenPale::White => 11,
        }
    }

    pub fn index(&self) -> (r: usize)
        ensures
            r == self.spec_index(),
    {
        match *self {
            GenPale::Color0 => 0,
            GenPale::Color1 => 1,
            GenPale::Color2 => 2,
            GenPale::Color3 => 3,
            GenPale::Color4 => 4,
            GenPale::Color5 => 5,
            GenPale::Color6 => 6,
            GenPale::Color7 => 7,
            GenPale::Color8 => 8,
            GenPale::Color9 => 9,
            GenPale::Black => 10,
            GenPale::White => 11,
        }
    }

    /// Every colour of the palette, in palette order.
    pub fn colors() -> (r: Vec<GenPale>)
        ensures
            r@.len() == GEN_PALE_DIVISION + 2,
            forall|i: int| 0 <= i < r@.len() ==> (#[trigger] r@[i]).spec_index() == i,
    {
        vec![
            GenPale::Color0,
            GenPale::Color1,
            GenPale::Color2,
            GenPale::Color3,
            GenPale::Color4,
            GenPale::Color5,
            GenPale::Color6,
            GenPale::Color7,
            GenPale::Color8,
            GenPale::Color9,
            GenPale::Black,
            GenPale::White,
        ]
    }
}

} // verus!
