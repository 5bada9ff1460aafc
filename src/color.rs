use vstd::prelude::*;

verus! {

/// An RGBA color with 8 bits per channel, carried by bodies for drawing.
#[derive(Clone, Copy, Debug, PartialEq, Eq)]
pub struct Color {
    pub r: u8,
    pub g: u8,
    pub b: u8,
    pub a: u8,
}

/// The palette of spawned bodies: 0 red, 1 green, 2 blue, anything else
/// orange.
pub open spec fn palette(k: int) -> Color {
    if k == 0 {
        Color { r: 230, g: 41, b: 55, a: 255 }
    } else if k == 1 {
        Color { r: 0, g: 228, b: 48, a: 255 }
    } else if k == 2 {
        Color { r: 0, g: 121, b: 241, a: 255 }
    } else {
        Color { r: 255, g: 161, b: 0, a: 255 }
    }
}

/// The color of a spawned body from a choice `k`.
pub fn palette_color(k: i32) -> (c: Color)
    ensures
        c == palette(k as int),
{
    match k {
        0 => Color { r: 230, g: 41, b: 55, a: 255 },
        1 => Color { r: 0, g: 228, b: 48, a: 255 },
        2 => Color { r: 0, g: 121, b: 241, a: 255 },
        _ => Color { r: 255, g: 161, b: 0, a: 255 },
    }
}

} // verus!
