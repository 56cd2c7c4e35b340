//! The pixel type and its flat byte encoding.

use vstd::prelude::*;

verus! {

/// One RGBA pixel: four 8-bit channels, unpremultiplied.
#[derive(Clone, Copy, Debug, PartialEq, Eq, Structural)]
pub struct Rgba {
    /// Red channel.
    pub r: u8,
    /// Green channel.
    pub g: u8,
    /// Blue channel.
    pub b: u8,
    /// Alpha channel.
    pub a: u8,
}

impl Rgba {
    /// Build a pixel from its four channels.
    pub fn new(r: u8, g: u8, b: u8, a: u8) -> (c: Rgba)
        ensures
            c == (Rgba { r, g, b, a }),
    {
        Rgba { r, g, b, a }
    }
}

/// The `j`-th byte (0 to 3) of one pixel: `r`, `g`, `b`, `a` in order.
pub open spec fn channel(p: Rgba, j: int) -> u8 {
    if j == 0 {
        p.r
    } else if j == 1 {
        p.g
    } else if j == 2 {
        p.b
    } else {
        p.a
    }
}

/// The flat byte encoding of a pixel sequence: four bytes per pixel,
/// in `r`, `g`, `b`, `a` order, with the sequence order preserved.
pub open spec fn bytes_of(pixels: Seq<Rgba>) -> Seq<u8> {
    Seq::new(4 * pixels.len(), |i: int| channel(pixels[i / 4], i % 4))
}

/// The pixel sequence read back from a flat byte sequence, four bytes
/// per pixel; trailing bytes beyond a multiple of four are ignored.
pub open spec fn pixels_of(bytes: Seq<u8>) -> Seq<Rgba> {
    Seq::new(
        bytes.len() / 4,
        |i: int|
            Rgba {
                r: bytes[4 * i],
                g: bytes[4 * i + 1],
                b: bytes[4 * i + 2],
                a: bytes[4 * i + 3],
            },
    )
}

/// Decoding the byte encoding of any pixel sequence yields the sequence
/// back unchanged: the encoding loses nothing to byte order or padding.
pub proof fn lemma_bytes_round_trip(pixels: Seq<Rgba>)
    ensures
        pixels_of(bytes_of(pixels)) == pixels,
{
    let bs = bytes_of(pixels);
    assert forall|i: int| 0 <= i < pixels.len() implies pixels_of(bs)[i] == pixels[i] by {
        assert((4 * i) / 4 == i && (4 * i) % 4 == 0);
        assert((4 * i + 1) / 4 == i && (4 * i + 1) % 4 == 1);
        assert((4 * i + 2) / 4 == i && (4 * i + 2) % 4 == 2);
        assert((4 * i + 3) / 4 == i && (4 * i + 3) % 4 == 3);
    }
    assert(pixels_of(bs) =~= pixels);
}

} // verus!
