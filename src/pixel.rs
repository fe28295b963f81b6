//! Pixels, images, the colour hash and modulo-256 channel arithmetic.
use vstd::prelude::*;

verus! {

/// Number of channels stored per pixel on the wire.
#[derive(Clone, Copy, Debug, PartialEq, Eq, Structural)]
pub enum Channels {
    Rgb,
    Rgba,
}

/// Colour-space tag of the header; metadata only.
#[derive(Clone, Copy, Debug, PartialEq, Eq, Structural)]
pub enum ColorSpace {
    LinearAlpha,
    AllLinear,
}

/// One pixel: red, green, blue, alpha.
#[derive(Clone, Copy, Debug, PartialEq, Eq, Structural)]
pub struct Pixel(pub u8, pub u8, pub u8, pub u8);

/// A decoding failure, with the byte offset at which decoding became impossible.
#[derive(Clone, Copy, Debug, PartialEq, Eq, Structural)]
pub struct DecodeError {
    pub loc: usize,
}

/// A row-major image with its header metadata.
#[derive(Clone, Debug, PartialEq, Eq)]
pub struct Image {
    pixels: Vec<Pixel>,
    width: u32,
    height: u32,
    channels: Channels,
    colorspace: ColorSpace,
}

/// What an `Image` is, as a mathematical value.
pub ghost struct ImageView {
    pub pixels: Seq<Pixel>,
    pub width: u32,
    pub height: u32,
    pub channels: Channels,
    pub colorspace: ColorSpace,
}

impl View for Image {
    type V = ImageView;

    closed spec fn view(&self) -> ImageView {
        ImageView {
            pixels: self.pixels@,
            width: self.width,
            height: self.height,
            channels: self.channels,
            colorspace: self.colorspace,
        }
    }
}

impl Image {
    pub fn new(
        pixels: Vec<Pixel>,
        width: u32,
        height: u32,
        channels: Channels,
        colorspace: ColorSpace,
    ) -> (r: Image)
        ensures
            (r@ == ImageView { pixels: pixels@, width, height, channels, colorspace }),
    {
        Image { pixels, width, height, channels, colorspace }
    }

    pub fn pixels(&self) -> (r: &Vec<Pixel>)
        ensures
            r@ == self@.pixels,
    {
        &self.pixels
    }

    pub fn width(&self) -> (r: u32)
        ensures
            r == self@.width,
    {
        self.width
    }

    pub fn height(&self) -> (r: u32)
        ensures
            r == self@.height,
    {
        self.height
    }

    pub fn channels(&self) -> (r: Channels)
        ensures
            r == self@.channels,
    {
        self.channels
    }

    pub fn colorspace(&self) -> (r: ColorSpace)
        ensures
            r == self@.colorspace,
    {
        self.colorspace
    }
}

/// The cache slot of a pixel: `(3r + 5g + 7b + 11a) mod 64`.
pub open spec fn hash_of(p: Pixel) -> int {
    (3 * p.0 + 5 * p.1 + 7 * p.2 + 11 * p.3) % 64
}

/// `a + b` modulo 256.
pub open spec fn wadd_spec(a: u8, b: u8) -> u8 {
    ((a + b) % 256) as u8
}

/// `a - b` modulo 256.
pub open spec fn wsub_spec(a: u8, b: u8) -> u8 {
    ((a - b + 256) % 256) as u8
}

pub fn hash(c: Pixel) -> (r: usize)
    ensures
        r == hash_of(c),
        r < 64,
{
    (c.0 as usize * 3 + c.1 as usize * 5 + c.2 as usize * 7 + c.3 as usize * 11) % 64
}

pub fn wadd(a: u8, b: u8) -> (r: u8)
    ensures
        r == wadd_spec(a, b),
{
    a.wrapping_add(b)
}

pub fn wsub(a: u8, b: u8) -> (r: u8)
    ensures
        r == wsub_spec(a, b),
{
    a.wrapping_sub(b)
}

} // verus!
