use vstd::prelude::*;

verus! {

/// A pixel: three 8-bit channel samples.  The engine's canonical storage
/// order is blue, green, red (index 0 is blue, index 2 is red); every
/// operation applies this one convention.
pub type Pixel = [u8; 3];

/// The largest buffer length (in pixels or coefficients) any operation
/// accepts.  The bound keeps every accumulation in the engine inside
/// 128-bit arithmetic.
pub const MAX_PIXELS: usize = 67108864;

/// A packed 24-bit color `(R << 16) | (G << 8) | B`, the engine's canonical
/// output representation, written here in arithmetic form.
pub open spec fn pack_spec(r: u8, g: u8, b: u8) -> u32 {
    ((r as int) * 0x10000 + (g as int) * 0x100 + (b as int)) as u32
}

/// The red channel of a packed color.
pub open spec fn red_of(c: u32) -> u8 {
    ((c as int / 0x10000) % 0x100) as u8
}

/// The green channel of a packed color.
pub open spec fn green_of(c: u32) -> u8 {
    ((c as int / 0x100) % 0x100) as u8
}

/// The blue channel of a packed color.
pub open spec fn blue_of(c: u32) -> u8 {
    (c as int % 0x100) as u8
}

/// The luminance of a pixel: the mean of its three channels, rounded to the
/// nearest integer (the exact thirds round down, as `x/3` is never half).
pub open spec fn luminance_spec(p: Pixel) -> u8 {
    (((p[0] as int) + (p[1] as int) + (p[2] as int) + 1) / 3) as u8
}

/// Packs three channel samples into a packed color integer.
pub fn get_color_integer_from_rgb(r: u8, g: u8, b: u8) -> (c: u32)
    ensures
        c == pack_spec(r, g, b),
{
    (r as u32) * 0x10000 + (g as u32) * 0x100 + (b as u32)
}

/// Packs one gray sample into a packed color with three equal channels.
pub fn get_color_integer_from_gray(gray: u8) -> (c: u32)
    ensures
        c == pack_spec(gray, gray, gray),
{
    (gray as u32) * 0x10000 + (gray as u32) * 0x100 + (gray as u32)
}

/// Unpacks a packed color into its red, green and blue channels, in that
/// order.
pub fn get_rgb_from_color_integer(color: u32) -> (p: [u8; 3])
    ensures
        p[0] == red_of(color),
        p[1] == green_of(color),
        p[2] == blue_of(color),
{
    [((color / 0x10000) % 0x100) as u8, ((color / 0x100) % 0x100) as u8, (color % 0x100) as u8]
}

/// Computes the rounded mean luminance of a pixel.
pub fn luminance(p: &Pixel) -> (l: u8)
    ensures
        l == luminance_spec(*p),
{
    ((p[0] as u32 + p[1] as u32 + p[2] as u32 + 1) / 3) as u8
}

/// Packing then unpacking recovers every channel exactly: the packed color
/// is a lossless encoding of the pixel.
pub proof fn lemma_pack_unpack(r: u8, g: u8, b: u8)
    ensures
        red_of(pack_spec(r, g, b)) == r,
        green_of(pack_spec(r, g, b)) == g,
        blue_of(pack_spec(r, g, b)) == b,
{
    let c = pack_spec(r, g, b) as int;
    vstd::arithmetic::div_mod::lemma_fundamental_div_mod_converse(
        c,
        0x10000,
        r as int,
        (g as int) * 0x100 + (b as int),
    );
    vstd::arithmetic::div_mod::lemma_fundamental_div_mod_converse(
        c,
        0x100,
        (r as int) * 0x100 + (g as int),
        b as int,
    );
    vstd::arithmetic::div_mod::lemma_fundamental_div_mod_converse(
        c / 0x100,
        0x100,
        r as int,
        g as int,
    );
}

} // verus!
