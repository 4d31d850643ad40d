//! The colours that the drawing commands carry.
use vstd::prelude::*;

verus! {

/// An opaque RGB colour, as written `#rrggbb` in CSS.
#[derive(Clone, Copy, PartialEq, Eq, Structural, Debug)]
pub struct Color {
    pub r: u8,
    pub g: u8,
    pub b: u8,
}

} // verus!
