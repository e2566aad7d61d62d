//! Colours of the leaves.

use vstd::prelude::*;

verus! {

/// A colour with eight bits for each of red, green, blue and opacity.
#[derive(Clone, Copy, Debug, PartialEq, Eq, Structural)]
pub struct Color {
    pub r: u8,
    pub g: u8,
    pub b: u8,
    pub a: u8,
}

impl Color {
    /// The colour with the given channels.
    pub fn new(r: u8, g: u8, b: u8, a: u8) -> (color: Color)
        ensures
            color == (Color { r, g, b, a }),
    {
        Color { r, g, b, a }
    }

    /// Opaque black.
    pub fn black() -> (color: Color)
        ensures
            color == (Color { r: 0, g: 0, b: 0, a: 255 }),
    {
        Color { r: 0, g: 0, b: 0, a: 255 }
    }

    /// Opaque red.
    pub fn red() -> (color: Color)
        ensures
            color == (Color { r: 255, g: 0, b: 0, a: 255 }),
    {
        Color { r: 255, g: 0, b: 0, a: 255 }
    }

    /// Opaque green.
    pub fn green() -> (color: Color)
        ensures
            color == (Color { r: 0, g: 255, b: 0, a: 255 }),
    {
        Color { r: 0, g: 255, b: 0, a: 255 }
    }

    /// Opaque blue.
    pub fn blue() -> (color: Color)
        ensures
            color == (Color { r: 0, g: 0, b: 255, a: 255 }),
    {
        Color { r: 0, g: 0, b: 255, a: 255 }
    }
}

/// The colour that leaf `leaf` takes from a palette of four: the colours
/// repeat with the last digit of the leaf's path.
pub open spec fn leaf_color(palette: Seq<Color>, leaf: int) -> Color {
    palette[leaf % 4]
}

/// One colour for each corner.
#[derive(Clone, Copy, Debug, PartialEq, Eq)]
pub struct Palette {
    pub colors: [Color; 4],
}

impl Palette {
    /// The palette of the given four colours, in the order of the corners.
    pub fn new(first: Color, second: Color, third: Color, fourth: Color) -> (palette: Palette)
        ensures
            palette.colors@ == seq![first, second, third, fourth],
    {
        let palette = Palette { colors: [first, second, third, fourth] };
        assert(palette.colors@ =~= seq![first, second, third, fourth]);
        palette
    }

    /// Black, red, green and blue.
    pub fn classic() -> (palette: Palette)
        ensures
            palette.colors@ == seq![
                Color { r: 0, g: 0, b: 0, a: 255 },
                Color { r: 255, g: 0, b: 0, a: 255 },
                Color { r: 0, g: 255, b: 0, a: 255 },
                Color { r: 0, g: 0, b: 255, a: 255 },
            ],
    {
        Palette::new(Color::black(), Color::red(), Color::green(), Color::blue())
    }

    /// The colour of leaf `leaf`.
    pub fn color_of(&self, leaf: usize) -> (color: Color)
        ensures
            color == leaf_color(self.colors@, leaf as int),
    {
        self.colors[leaf % 4]
    }
}

} // verus!
