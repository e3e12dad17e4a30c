//! Pixel sorting: a glitch effect that splits each image column into runs,
//! separated by an exclusion rule, and sorts each run by a visual metric.

use vstd::prelude::*;

pub mod config;
pub mod exclude;
pub mod grid;
pub mod ratio;
pub mod sort;

verus! {

/// One pixel: an ordered triple of 8-bit channel intensities.
#[derive(Clone, Copy, PartialEq, Eq, Structural, Debug)]
pub struct Pixel {
    pub r: u8,
    pub g: u8,
    pub b: u8,
}

impl Pixel {
    pub fn new(r: u8, g: u8, b: u8) -> (p: Pixel)
        ensures
            p.r == r,
            p.g == g,
            p.b == b,
    {
        Pixel { r, g, b }
    }
}

} // verus!
