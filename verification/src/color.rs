//! Colours for the status LED, kept as plain byte triples; the LED driver
//! in the runtime converts them into whatever its hardware wants.

use vstd::prelude::*;

verus! {

/// A red-green-blue triple.
#[derive(Debug, Clone, Copy, PartialEq, Eq, Structural)]
pub struct Rgb {
    pub r: u8,
    pub g: u8,
    pub b: u8,
}

/// The named colours the terminal's feedback uses.
#[derive(Debug, Clone, Copy, PartialEq, Eq, Structural)]
pub enum NamedColor {
    Red,
    Green,
    Blue,
    White,
    Off,
    Yellow,
    Cyan,
    Magenta,
}

/// The triple each named colour stands for.
pub open spec fn named_rgb(c: NamedColor) -> Rgb {
    match c {
        NamedColor::Red => Rgb { r: 150, g: 0, b: 0 },
        NamedColor::Green => Rgb { r: 0, g: 150, b: 0 },
        NamedColor::Blue => Rgb { r: 0, g: 0, b: 150 },
        NamedColor::White => Rgb { r: 255, g: 255, b: 255 },
        NamedColor::Off => Rgb { r: 0, g: 0, b: 0 },
        NamedColor::Yellow => Rgb { r: 255, g: 255, b: 0 },
        NamedColor::Cyan => Rgb { r: 0, g: 255, b: 255 },
        NamedColor::Magenta => Rgb { r: 255, g: 0, b: 255 },
    }
}

impl NamedColor {
    /// The red-green-blue rendering of the colour.
    pub fn rgb(&self) -> (c: Rgb)
        ensures
            c == named_rgb(*self),
    {
        match self {
            NamedColor::Red => Rgb { r: 150, g: 0, b: 0 },
            NamedColor::Green => Rgb { r: 0, g: 150, b: 0 },
            NamedColor::Blue => Rgb { r: 0, g: 0, b: 150 },
            NamedColor::White => Rgb { r: 255, g: 255, b: 255 },
            NamedColor::Off => Rgb { r: 0, g: 0, b: 0 },
            NamedColor::Yellow => Rgb { r: 255, g: 255, b: 0 },
            NamedColor::Cyan => Rgb { r: 0, g: 255, b: 255 },
            NamedColor::Magenta => Rgb { r: 255, g: 0, b: 255 },
        }
    }
}

/// The terminal's resting states, as shown on the status LED.
#[derive(Debug, Clone, Copy, PartialEq, Eq, Structural)]
pub enum CurrentStatus {
    /// Ready to accept reads.
    Ready,
    /// The guest hotspot is up.
    Hotspot,
}

impl CurrentStatus {
    /// The colour shown while resting in this status.
    pub fn color(&self) -> (c: Rgb)
        ensures
            *self is Ready ==> c == (Rgb { r: 0, g: 50, b: 0 }),
            *self is Hotspot ==> c == (Rgb { r: 0, g: 0, b: 50 }),
    {
        match self {
            CurrentStatus::Ready => Rgb { r: 0, g: 50, b: 0 },
            CurrentStatus::Hotspot => Rgb { r: 0, g: 0, b: 50 },
        }
    }
}

} // verus!
