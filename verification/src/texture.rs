//! Textures as plain values: pixel data and the way it is to be sampled.

use vstd::prelude::*;

pub mod texture2d;

pub use texture2d::Texture2D;

verus! {

/// How a texture is sampled between its pixels.
#[derive(Clone, Copy, Debug, PartialEq, Eq, Structural)]
pub enum Interpolation {
    /// The value of the nearest pixel.
    Nearest,
    /// A linear blend of the neighbouring pixels.
    Linear,
}

/// How a texture is sampled outside the coordinate range from 0 to 1.
#[derive(Clone, Copy, Debug, PartialEq, Eq, Structural)]
pub enum Wrapping {
    /// The texture repeats.
    Repeat,
    /// The texture repeats, every other copy mirrored.
    MirroredRepeat,
    /// The pixels on the edge go on outwards.
    ClampToEdge,
}

/// The pixels of a texture, row by row, eight bits to the channel.
#[derive(Clone, Debug, PartialEq, Eq)]
pub enum TextureData {
    /// One channel: red.
    RU8(Vec<u8>),
    /// Two channels: red and green.
    RgU8(Vec<[u8; 2]>),
    /// Three channels: red, green and blue.
    RgbU8(Vec<[u8; 3]>),
    /// Four channels: red, green, blue and alpha.
    RgbaU8(Vec<[u8; 4]>),
}

} // verus!
