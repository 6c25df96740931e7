//! The byte layout of the two textures, and the images that carry them to
//! the renderer.
//!
//! A texture holds one binary32 number per channel, little-endian, cell
//! after cell in row-major order.

use bevy::asset::RenderAssetUsages;
use bevy::image::{Image, ImageSampler};
use bevy::render::render_resource::{Extent3d, TextureDimension, TextureFormat};
use vstd::prelude::*;

verus! {

/// The four bytes of a pattern, lowest first.
pub open spec fn le_bytes(bits: u32) -> Seq<u8> {
    seq![
        (bits % 0x100) as u8,
        (bits / 0x100 % 0x100) as u8,
        (bits / 0x1_0000 % 0x100) as u8,
        (bits / 0x100_0000) as u8,
    ]
}

/// The pattern that four bytes spell, lowest first.
pub open spec fn from_le_bytes(bytes: Seq<u8>) -> u32
    recommends
        bytes.len() == 4,
{
    (bytes[0] + bytes[1] * 0x100 + bytes[2] * 0x1_0000 + bytes[3] * 0x100_0000) as u32
}

/// Reading back the bytes of a pattern gives the pattern.
pub proof fn lemma_le_bytes_round_trip(bits: u32)
    ensures
        le_bytes(bits).len() == 4,
        from_le_bytes(le_bytes(bits)) == bits,
{
}

/// Appends the four bytes of a pattern.
pub fn push_le_bytes(out: &mut Vec<u8>, bits: u32)
    ensures
        final(out)@ == old(out)@ + le_bytes(bits),
{
    out.push((bits % 0x100) as u8);
    out.push((bits / 0x100 % 0x100) as u8);
    out.push((bits / 0x1_0000 % 0x100) as u8);
    out.push((bits / 0x100_0000) as u8);
    assert(out@ == old(out)@ + le_bytes(bits));
}

/// The `Image` of bevy. Nothing inside it is seen here; what the library
/// says of an image, it says through the four names below.
#[verifier::external_type_specification]
#[verifier::external_body]
pub struct ExImage(bevy::image::Image);

/// The pixel data that an image holds.
pub uninterp spec fn image_data(image: Image) -> Seq<u8>;

/// Width and height of an image, in pixels.
pub uninterp spec fn image_size(image: Image) -> (u32, u32);

/// The number of binary32 channels in each pixel of an image.
pub uninterp spec fn image_channels(image: Image) -> nat;

/// Whether an image is read by taking the nearest pixel, with no blending
/// between neighbours.
pub uninterp spec fn image_nearest(image: Image) -> bool;

/// `Image::new` of bevy, for a flat image in the format `R32Float`, one
/// binary32 channel, that every use may read. The image comes back with the
/// given size and holds the given bytes as its pixel data. In a debug build
/// bevy stops unless there are four bytes for every pixel.
#[verifier::external_body]
pub(crate) fn single_channel_image(width: u32, height: u32, data: Vec<u8>) -> (image: Image)
    requires
        width * height <= u32::MAX,
        data.len() == width * height * 4,
    ensures
        image_data(image) == data@,
        image_size(image) == (width, height),
        image_channels(image) == 1,
{
    Image::new(
        Extent3d { width, height, depth_or_array_layers: 1 },
        TextureDimension::D2,
        data,
        TextureFormat::R32Float,
        RenderAssetUsages::all(),
    )
}

/// `Image::new` of bevy, for a flat image in the format `Rg32Float`, two
/// binary32 channels, that every use may read. The image comes back with the
/// given size and holds the given bytes as its pixel data. In a debug build
/// bevy stops unless there are eight bytes for every pixel.
#[verifier::external_body]
pub(crate) fn two_channel_image(width: u32, height: u32, data: Vec<u8>) -> (image: Image)
    requires
        width * height <= u32::MAX,
        data.len() == width * height * 8,
    ensures
        image_data(image) == data@,
        image_size(image) == (width, height),
        image_channels(image) == 2,
{
    Image::new(
        Extent3d { width, height, depth_or_array_layers: 1 },
        TextureDimension::D2,
        data,
        TextureFormat::Rg32Float,
        RenderAssetUsages::all(),
    )
}

/// Gives an image the sampler `ImageSampler::nearest` of bevy, whose filters
/// all take the nearest pixel. Size, format and pixel data stay as they are.
#[verifier::external_body]
pub(crate) fn sampled_nearest(image: Image) -> (sampled: Image)
    ensures
        image_nearest(sampled),
        image_data(sampled) == image_data(image),
        image_size(sampled) == image_size(image),
        image_channels(sampled) == image_channels(image),
{
    let mut sampled = image;
    sampled.sampler = ImageSampler::nearest();
    sampled
}

} // verus!
