//! Derives a sixteen-slot terminal color scheme from the weighted colors of
//! an image, guided by a sixteen-color template.
//!
//! Colors are triples of 8-bit channels. Everything between them is
//! computed on integers: hue, saturation and lightness as exact fractions,
//! L*a*b* coordinates and color differences with six decimal places. Each
//! result is therefore an exact function of its arguments.

use vstd::prelude::*;

pub mod fixed;
pub mod trig;
pub mod lab;
pub mod ciede;
pub mod hsl;
pub mod roundtrip;
pub mod color;
pub mod quantize;
pub mod histogram;
pub mod config;
pub mod args;
pub mod conflict;
pub mod gray;
pub mod fallback;
pub mod data;
pub mod yaml;

verus! {

/// An RGB color: red, green and blue.
pub type Rgb = (u8, u8, u8);

} // verus!
