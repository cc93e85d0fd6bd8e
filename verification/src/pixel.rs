//! RGBA8 pixels, the keys the sorts order them by, and the conversion between a
//! byte buffer and the pixels it holds.

use vstd::prelude::*;

verus! {

/// One RGBA8 pixel.
#[derive(Clone, Copy, Debug, PartialEq, Eq, Structural)]
pub struct Rgba {
    pub r: u8,
    pub g: u8,
    pub b: u8,
    pub a: u8,
}

/// The signed value of the opaque ARGB word `0xFFRRGGBB` (Processing's `color`).
pub open spec fn color_int(c: Rgba) -> int {
    c.r * 65536 + c.g * 256 + c.b - 16777216
}

/// The largest of the three colour channels.
pub open spec fn max_channel(c: Rgba) -> int {
    if c.r >= c.g && c.r >= c.b {
        c.r as int
    } else if c.g >= c.b {
        c.g as int
    } else {
        c.b as int
    }
}

/// Perceived luminance on 0..=255 (ITU-R BT.601 weights, truncated).
pub open spec fn luma(c: Rgba) -> int {
    (c.r * 299 + c.g * 587 + c.b * 114) / 1000
}

/// Processing's colour integer of an opaque pixel: the ARGB word with alpha 255,
/// read as a signed 32-bit number.
pub fn processing_color_int(c: Rgba) -> (v: i32)
    ensures
        v == color_int(c),
{
    (c.r as i32) * 65536 + (c.g as i32) * 256 + (c.b as i32) - 16777216
}

/// The brightness of a pixel: its largest colour channel.
pub fn brightness(c: Rgba) -> (v: u8)
    ensures
        v == max_channel(c),
{
    if c.r >= c.g && c.r >= c.b {
        c.r
    } else if c.g >= c.b {
        c.g
    } else {
        c.b
    }
}

/// The luminance key that the portal sort orders pixels by.
pub fn color_sort_key(c: Rgba) -> (v: u32)
    ensures
        v == luma(c),
{
    ((c.r as u32) * 299 + (c.g as u32) * 587 + (c.b as u32) * 114) / 1000
}

/// The pixel that starts at byte `4 * i` of an RGBA8 buffer.
pub open spec fn pixel_at(buf: Seq<u8>, i: int) -> Rgba {
    Rgba { r: buf[4 * i], g: buf[4 * i + 1], b: buf[4 * i + 2], a: buf[4 * i + 3] }
}

/// The first `n` pixels of an RGBA8 buffer.
pub open spec fn pixels_of(buf: Seq<u8>, n: int) -> Seq<Rgba> {
    Seq::new(n as nat, |i: int| pixel_at(buf, i))
}

/// Channel `k` (0 = red .. 3 = alpha) of a pixel.
pub open spec fn channel(c: Rgba, k: int) -> u8 {
    if k == 0 {
        c.r
    } else if k == 1 {
        c.g
    } else if k == 2 {
        c.b
    } else {
        c.a
    }
}

/// The RGBA8 bytes of a run of pixels.
pub open spec fn bytes_of(px: Seq<Rgba>) -> Seq<u8> {
    Seq::new(4 * px.len(), |i: int| channel(px[i / 4], i % 4))
}

/// Reads the first `n` pixels of an RGBA8 buffer.
pub fn read_pixels(buf: &[u8], n: usize) -> (px: Vec<Rgba>)
    requires
        4 * n <= buf@.len(),
    ensures
        px@ == pixels_of(buf@, n as int),
{
    let mut px: Vec<Rgba> = Vec::with_capacity(n);
    let len = buf.len();
    let mut i: usize = 0;
    while i < n
        invariant
            i <= n,
            len == buf@.len(),
            4 * n <= buf@.len(),
            px@ == pixels_of(buf@, i as int),
        decreases n - i,
    {
        let base = 4 * i;
        px.push(Rgba { r: buf[base], g: buf[base + 1], b: buf[base + 2], a: buf[base + 3] });
        i += 1;
        assert(px@ =~= pixels_of(buf@, i as int));
    }
    px
}

/// Writes a run of pixels over the front of an RGBA8 buffer; the bytes after
/// them are kept.
pub fn write_pixels(buf: &mut [u8], px: &Vec<Rgba>)
    requires
        4 * px@.len() <= old(buf)@.len(),
    ensures
        final(buf)@ == bytes_of(px@) + old(buf)@.skip(4 * px@.len() as int),
{
    let n = px.len();
    let ghost start = buf@;
    let len = buf.len();
    let mut i: usize = 0;
    while i < n
        invariant
            i <= n,
            len == start.len(),
            n == px@.len(),
            4 * n <= start.len(),
            buf@.len() == start.len(),
            forall|j: int| 0 <= j < 4 * i ==> #[trigger] buf@[j] == channel(px@[j / 4], j % 4),
            forall|j: int| 4 * i <= j < buf@.len() ==> #[trigger] buf@[j] == start[j],
        decreases n - i,
    {
        let c = px[i];
        let base = 4 * i;
        buf[base] = c.r;
        buf[base + 1] = c.g;
        buf[base + 2] = c.b;
        buf[base + 3] = c.a;
        i += 1;
    }
    assert(buf@ =~= bytes_of(px@) + start.skip(4 * n as int));
}

/// Reading back the pixels just written gives them again.
pub proof fn lemma_pixels_of_bytes(px: Seq<Rgba>, tail: Seq<u8>)
    ensures
        pixels_of(bytes_of(px) + tail, px.len() as int) == px,
        (bytes_of(px) + tail).len() == 4 * px.len() + tail.len(),
{
    let buf = bytes_of(px) + tail;
    assert forall|i: int| 0 <= i < px.len() implies #[trigger] pixels_of(buf, px.len() as int)[i] == px[i] by {
        assert(buf[4 * i] == channel(px[(4 * i) / 4], (4 * i) % 4));
        assert(buf[4 * i + 1] == channel(px[(4 * i + 1) / 4], (4 * i + 1) % 4));
        assert(buf[4 * i + 2] == channel(px[(4 * i + 2) / 4], (4 * i + 2) % 4));
        assert(buf[4 * i + 3] == channel(px[(4 * i + 3) / 4], (4 * i + 3) % 4));
    }
    assert(pixels_of(buf, px.len() as int) =~= px);
}

} // verus!
