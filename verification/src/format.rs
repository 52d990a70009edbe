//! Core data model of the QOI byte format: pixels, headers, errors,
//! the pixel-cache hash, and the spec-level byte layout shared by the
//! encoder and the decoder.

use vstd::prelude::*;

verus! {

/// Number of channels carried per pixel: three (no alpha) or four.
#[derive(Clone, Copy, PartialEq, Eq, Structural, Debug)]
pub enum Channels {
    RGB,
    RGBA,
}

/// Opaque colorspace tag carried in the header; it has no effect on
/// pixel transcoding.  On disk, `Linear` is byte 0 and `SRGB` is byte 1,
/// on both the encode and the decode side.
#[derive(Clone, Copy, PartialEq, Eq, Structural, Debug)]
pub enum Colorspace {
    Linear,
    SRGB,
}

/// The fixed-layout stream metadata: dimensions, channel count, colorspace.
#[derive(Clone, Copy, PartialEq, Eq, Structural, Debug)]
pub struct QoiHeader {
    pub width: u32,
    pub height: u32,
    pub channels: Channels,
    pub colorspace: Colorspace,
}

/// One pixel, always held as a full (r, g, b, a) quadruple.  For
/// three-channel images the alpha component is fixed at 255.
#[derive(Clone, Copy, PartialEq, Eq, Structural, Debug)]
pub struct QoiPixel {
    pub r: u8,
    pub g: u8,
    pub b: u8,
    pub a: u8,
}

/// Why a decode call failed.
#[derive(Clone, Copy, PartialEq, Eq, Structural, Debug)]
pub enum QoiError {
    /// The header's channel-count byte is neither 3 nor 4.
    InvalidChannelCount,
    /// The header's colorspace byte is neither 0 nor 1.
    InvalidColorspace,
    /// The input ends before the header, the footer, or a chunk's
    /// promised bytes are all present.
    TruncatedStream,
}

impl QoiHeader {
    pub fn new(width: u32, height: u32, channels: Channels, colorspace: Colorspace) -> (h: Self)
        ensures
            h == (QoiHeader { width, height, channels, colorspace }),
    {
        Self { width, height, channels, colorspace }
    }
}

impl QoiPixel {
    pub fn new(r: u8, g: u8, b: u8, a: u8) -> (p: Self)
        ensures
            p == (QoiPixel { r, g, b, a }),
    {
        Self { r, g, b, a }
    }
}

/// The number of bytes one pixel occupies in a raw buffer.
pub open spec fn channel_count(c: Channels) -> int {
    match c {
        Channels::RGB => 3,
        Channels::RGBA => 4,
    }
}

/// The on-disk byte for the header's channel field.
pub open spec fn channels_byte(c: Channels) -> u8 {
    match c {
        Channels::RGB => 3u8,
        Channels::RGBA => 4u8,
    }
}

/// The on-disk byte for the header's colorspace field.
pub open spec fn colorspace_byte(c: Colorspace) -> u8 {
    match c {
        Colorspace::Linear => 0u8,
        Colorspace::SRGB => 1u8,
    }
}

/// The cache slot addressed by a pixel: (3r + 5g + 7b + 11a) mod 64.
pub open spec fn hash_of(p: QoiPixel) -> int {
    (3 * p.r + 5 * p.g + 7 * p.b + 11 * p.a) % 64
}

/// Computes the cache slot of a pixel: (3r + 5g + 7b + 11a) mod 64.
pub fn qoi_color_hash(pixel: QoiPixel) -> (h: u8)
    ensures
        h as int == hash_of(pixel),
        h < 64,
{
    ((3 * (pixel.r as u16) + 5 * (pixel.g as u16) + 7 * (pixel.b as u16) + 11 * (pixel.a as u16))
        % 64) as u8
}

/// The pixel every cache slot starts out holding.
pub open spec fn zero_pixel() -> QoiPixel {
    QoiPixel { r: 0, g: 0, b: 0, a: 0 }
}

/// The 64-slot cache at the start of every encode and every decode.
pub open spec fn init_cache() -> Seq<QoiPixel> {
    Seq::new(64, |i: int| zero_pixel())
}

/// The previous-pixel value at the start of every encode and every decode.
pub open spec fn init_prev() -> QoiPixel {
    QoiPixel { r: 0, g: 0, b: 0, a: 255 }
}

/// Wrapped difference of two channel values: (a - b) mod 256.
pub open spec fn byte_sub(a: int, b: int) -> int {
    if a - b < 0 {
        a - b + 256
    } else {
        a - b
    }
}

/// A channel value moved by a (possibly negative) delta, mod 256.
pub open spec fn byte_add(a: int, d: int) -> int {
    if a + d < 0 {
        a + d + 256
    } else if a + d >= 256 {
        a + d - 256
    } else {
        a + d
    }
}

/// Big-endian byte decomposition of a 32-bit value.
pub open spec fn be_bytes_of_u32(x: u32) -> Seq<u8> {
    seq![
        (x / 0x1000000) as u8,
        ((x / 0x10000) % 0x100) as u8,
        ((x / 0x100) % 0x100) as u8,
        (x % 0x100) as u8,
    ]
}

/// The 32-bit value held by four big-endian bytes.
pub open spec fn u32_of_be(b0: u8, b1: u8, b2: u8, b3: u8) -> int {
    0x1000000 * b0 + 0x10000 * b1 + 0x100 * b2 + b3
}

/// The fixed 14-byte prologue: magic "qoif", width, height, channels,
/// colorspace.
pub open spec fn header_bytes(h: QoiHeader) -> Seq<u8> {
    seq![113u8, 111u8, 105u8, 102u8] + be_bytes_of_u32(h.width) + be_bytes_of_u32(h.height)
        + seq![channels_byte(h.channels), colorspace_byte(h.colorspace)]
}

/// The fixed 8-byte end marker: seven zero bytes, then a one.
pub open spec fn footer_bytes() -> Seq<u8> {
    seq![0u8, 0u8, 0u8, 0u8, 0u8, 0u8, 0u8, 1u8]
}

/// The pixel starting at position `ch * i` of a raw buffer; alpha is 255
/// when the buffer carries three channels per pixel.
pub open spec fn pixel_at(bytes: Seq<u8>, ch: int, i: int) -> QoiPixel {
    QoiPixel {
        r: bytes[ch * i],
        g: bytes[ch * i + 1],
        b: bytes[ch * i + 2],
        a: if ch == 4 {
            bytes[ch * i + 3]
        } else {
            255u8
        },
    }
}

/// A raw row-major buffer read as a sequence of pixels.
pub open spec fn pixels_of_bytes(bytes: Seq<u8>, ch: int) -> Seq<QoiPixel> {
    Seq::new((bytes.len() as int / ch) as nat, |i: int| pixel_at(bytes, ch, i))
}

/// The raw bytes of one pixel, 3 or 4 of them per the channel count.
pub open spec fn pixel_bytes(p: QoiPixel, ch: int) -> Seq<u8> {
    if ch == 4 {
        seq![p.r, p.g, p.b, p.a]
    } else {
        seq![p.r, p.g, p.b]
    }
}

/// A sequence of pixels written back out as a raw row-major buffer.
pub open spec fn bytes_of_pixels(ps: Seq<QoiPixel>, ch: int) -> Seq<u8>
    decreases ps.len(),
{
    if ps.len() == 0 {
        Seq::empty()
    } else {
        pixel_bytes(ps[0], ch) + bytes_of_pixels(ps.drop_first(), ch)
    }
}

} // verus!
