//! Pixels, and the four colours that carry a meaning on an atlas.

use vstd::prelude::*;

verus! {

/// An RGBA pixel with 8-bit channels.
#[derive(Clone, Copy, Debug, PartialEq, Eq, Structural)]
pub struct Color {
    pub r: u8,
    pub g: u8,
    pub b: u8,
    pub a: u8,
}

impl Color {
    /// The background sentinel: exactly opaque magenta.
    pub open spec fn spec_is_magenta(&self) -> bool {
        self.r == 255 && self.g == 0 && self.b == 255 && self.a == 255
    }

    /// Fully transparent: alpha is zero, whatever the colour channels hold.
    pub open spec fn spec_is_alpha(&self) -> bool {
        self.a == 0
    }

    /// Pure black in the colour channels; alpha is not looked at.
    pub open spec fn spec_is_black(&self) -> bool {
        self.r == 0 && self.g == 0 && self.b == 0
    }

    /// Pure white in the colour channels; alpha is not looked at.
    pub open spec fn spec_is_white(&self) -> bool {
        self.r == 255 && self.g == 255 && self.b == 255
    }

    pub fn new(r: u8, g: u8, b: u8, a: u8) -> (c: Color)
        ensures
            c.r == r,
            c.g == g,
            c.b == b,
            c.a == a,
    {
        Color { r, g, b, a }
    }

    #[verifier::when_used_as_spec(spec_is_magenta)]
    pub fn is_magenta(&self) -> (out: bool)
        ensures
            out == self.spec_is_magenta(),
    {
        self.r == 255 && self.g == 0 && self.b == 255 && self.a == 255
    }

    #[verifier::when_used_as_spec(spec_is_alpha)]
    pub fn is_alpha(&self) -> (out: bool)
        ensures
            out == self.spec_is_alpha(),
    {
        self.a == 0
    }

    #[verifier::when_used_as_spec(spec_is_black)]
    pub fn is_black(&self) -> (out: bool)
        ensures
            out == self.spec_is_black(),
    {
        self.r == 0 && self.g == 0 && self.b == 0
    }

    #[verifier::when_used_as_spec(spec_is_white)]
    pub fn is_white(&self) -> (out: bool)
        ensures
            out == self.spec_is_white(),
    {
        self.r == 255 && self.g == 255 && self.b == 255
    }
}

} // verus!
