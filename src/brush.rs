use vstd::prelude::*;
use crate::color::Color;

verus! {

/// The shape of the brush tip.
#[derive(Clone, Copy, Debug, PartialEq, Eq, Structural)]
pub enum BrushTip {
    Contour,
}

/// Drawing parameters: tip, radius in pixels and color. A stroke keeps its own
/// copy, so later edits of the current brush leave finished strokes alone.
#[derive(Clone, Copy, Debug, PartialEq, Eq, Structural)]
pub struct Brush {
    pub tip: BrushTip,
    pub size: u32,
    pub color: Color<u8>,
}

/// The default brush: a black contour of radius 2.
pub open spec fn default_brush() -> Brush {
    Brush { tip: BrushTip::Contour, size: 2, color: Color { r: 0, g: 0, b: 0, a: 255 } }
}

impl Brush {
    /// A black contour brush of radius 2.
    pub fn new() -> (b: Brush)
        ensures
            b == default_brush(),
    {
        Brush { tip: BrushTip::Contour, size: 2, color: Color::new(0, 0, 0, 255) }
    }

    pub fn get_color(&self) -> (c: Color<u8>)
        ensures
            c == self.color,
    {
        self.color
    }
}

/// What a stamp of brush `b` writes: its color, at full opacity.
pub open spec fn stamp_color(b: Brush) -> Color<u8> {
    Color { r: b.color.r, g: b.color.g, b: b.color.b, a: 255 }
}

} // verus!
