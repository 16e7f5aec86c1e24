use vstd::prelude::*;

verus! {

/// Four channels of one numeric type: bytes for stored pixels.
#[derive(Clone, Copy, Debug, PartialEq, Eq, Structural)]
pub struct Color<T> {
    pub r: T,
    pub g: T,
    pub b: T,
    pub a: T,
}

impl<T> Color<T> {
    pub fn new(r: T, g: T, b: T, a: T) -> (c: Color<T>)
        ensures
            c == (Color { r, g, b, a }),
    {
        Color { r, g, b, a }
    }
}

/// Fully transparent black, the value of a blank pixel.
pub open spec fn clear_color() -> Color<u8> {
    Color { r: 0, g: 0, b: 0, a: 0 }
}


/// Mutable access to the four channels of one stored pixel.
pub struct ColorRefMut<'a, T: 'static> {
    pub r: &'a mut T,
    pub g: &'a mut T,
    pub b: &'a mut T,
    pub a: &'a mut T,
}

} // verus!
