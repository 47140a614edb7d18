//! A two-dimensional texture held in main memory.

use vstd::prelude::*;
use crate::texture::{Interpolation, TextureData, Wrapping};

verus! {

/// A two-dimensional texture held in main memory.
#[derive(Clone, Debug, PartialEq)]
pub struct Texture2D {
    /// The name of the texture.
    pub name: String,
    /// The pixels of the image.
    pub data: TextureData,
    /// The width of the image.
    pub width: u32,
    /// The height of the image.
    pub height: u32,
    /// How the pixels are interpolated when the texture is far away.
    pub min_filter: Interpolation,
    /// How the pixels are interpolated when the texture is close.
    pub mag_filter: Interpolation,
    /// Whether mipmaps are made for the texture, and how the two closest of
    /// them are interpolated.
    pub mip_map_filter: Option<Interpolation>,
    /// The largest number of mipmaps that may be made for the texture.
    pub mip_map_limit: Option<u32>,
    /// How the texture is sampled outside the range from 0 to 1 of the first
    /// texture coordinate.
    pub wrap_s: Wrapping,
    /// How the texture is sampled outside the range from 0 to 1 of the second
    /// texture coordinate.
    pub wrap_t: Wrapping,
    /// The level of anisotropic filtering.
    pub anisotropic_filter: Option<u32>,
}

impl Texture2D {
    /// Whether this is the default texture: one transparent black pixel named
    /// `default`, linearly filtered, with mipmaps, repeating both ways.
    pub open spec fn is_default(&self) -> bool {
        &&& self.name@ == "default"@
        &&& self.data matches TextureData::RgbaU8(pixels) && pixels@.len() == 1 && pixels@[0]@
            == seq![0u8, 0u8, 0u8, 0u8]
        &&& self.width == 1
        &&& self.height == 1
        &&& self.min_filter == Interpolation::Linear
        &&& self.mag_filter == Interpolation::Linear
        &&& self.mip_map_filter == Some(Interpolation::Linear)
        &&& self.mip_map_limit == None::<u32>
        &&& self.wrap_s == Wrapping::Repeat
        &&& self.wrap_t == Wrapping::Repeat
        &&& self.anisotropic_filter == None::<u32>
    }
}

impl Default for Texture2D {
    fn default() -> (r: Self)
        ensures
            r.is_default(),
    {
        let mut pixels: Vec<[u8; 4]> = Vec::new();
        pixels.push([0, 0, 0, 0]);
        proof {
            assert(pixels@[0]@ =~= seq![0u8, 0u8, 0u8, 0u8]);
        }
        Self {
            name: "default".to_owned(),
            data: TextureData::RgbaU8(pixels),
            width: 1,
            height: 1,
            min_filter: Interpolation::Linear,
            mag_filter: Interpolation::Linear,
            mip_map_filter: Some(Interpolation::Linear),
            mip_map_limit: None,
            wrap_s: Wrapping::Repeat,
            wrap_t: Wrapping::Repeat,
            anisotropic_filter: None,
        }
    }
}

} // verus!
