//! Pixels and the wraparound byte arithmetic of the format.
use vstd::prelude::*;

verus! {

/// Tag of the one-byte run opcode (`11xxxxxx`, low bits: length minus one).
pub const QOI_OP_RUN: u8 = 0xc0;

/// Tag of the one-byte cache-index opcode (`00xxxxxx`, low bits: the slot).
pub const QOI_OP_INDEX: u8 = 0x00;

/// Tag of the four-byte opcode that carries red, green and blue.
pub const QOI_OP_RGB: u8 = 0xfe;

/// Tag of the five-byte opcode that carries all four channels.
pub const QOI_OP_RGBA: u8 = 0xff;

/// Longest run that one run opcode holds.
pub const MAX_RUN: u8 = 62;

/// Tag of the one-byte small-difference opcode (`01xxxxxx`).
pub const QOI_OP_DIFF: u8 = 0x40;

/// Tag of the two-byte luma-difference opcode (`10xxxxxx`).
pub const QOI_OP_LUMA: u8 = 0x80;

/// Added to each colour delta of a small difference so that it fits in two bits.
pub const DIFF_BIAS: u8 = 2;

/// Added to the green delta of a luma difference so that it fits in six bits.
pub const LUMA_GREEN_BIAS: u8 = 32;

/// Added to the red and blue deltas (relative to green) of a luma difference.
pub const LUMA_BIAS: u8 = 8;

/// `x + y` modulo 256.
pub open spec fn wrap_add(x: u8, y: u8) -> u8 {
    ((x + y) % 256) as u8
}

/// `x - y` modulo 256.
pub open spec fn wrap_sub(x: u8, y: u8) -> u8 {
    ((x - y) % 256) as u8
}

/// std's wrapping operations on bytes are addition and subtraction modulo 256.
pub proof fn lemma_wrapping(x: u8, y: u8)
    ensures
        x.wrapping_add(y) == wrap_add(x, y),
        x.wrapping_sub(y) == wrap_sub(x, y),
{
}

/// One pixel: red, green, blue and alpha channels of one byte each.
#[derive(Clone, Copy, PartialEq, Eq, Structural, Debug)]
pub struct Pixel {
    pub r: u8,
    pub g: u8,
    pub b: u8,
    pub a: u8,
}

/// The pixel with all four channels zero.
pub open spec fn zero_pixel() -> Pixel {
    Pixel { r: 0, g: 0, b: 0, a: 0 }
}

/// The pixel that both directions start from: opaque black.
pub open spec fn start_pixel() -> Pixel {
    Pixel { r: 0, g: 0, b: 0, a: 255 }
}

/// Channel-wise difference modulo 256.
pub open spec fn pixel_sub(p: Pixel, q: Pixel) -> Pixel {
    Pixel { r: wrap_sub(p.r, q.r), g: wrap_sub(p.g, q.g), b: wrap_sub(p.b, q.b), a: wrap_sub(p.a, q.a) }
}

/// Channel-wise sum modulo 256.
pub open spec fn pixel_add(p: Pixel, q: Pixel) -> Pixel {
    Pixel { r: wrap_add(p.r, q.r), g: wrap_add(p.g, q.g), b: wrap_add(p.b, q.b), a: wrap_add(p.a, q.a) }
}

/// The small-difference opcode for the delta `d` (current minus previous
/// pixel): each colour delta in -2..=1 and alpha unchanged. The biased deltas
/// fill two bits each under the tag.
pub open spec fn diff_op(d: Pixel) -> Option<u8> {
    let r = wrap_add(d.r, 2);
    let g = wrap_add(d.g, 2);
    let b = wrap_add(d.b, 2);
    if r < 4 && g < 4 && b < 4 && d.a == 0 {
        Some((64 + r * 16 + g * 4 + b) as u8)
    } else {
        None
    }
}

/// The luma-difference opcode for the delta `d`: green delta in -32..=31, red
/// and blue deltas within -8..=7 of the green one, alpha unchanged. The first
/// byte holds the biased green delta under the tag, the second the biased
/// red and blue deltas in its high and low nibble.
pub open spec fn luma_op(d: Pixel) -> Option<(u8, u8)> {
    let g = wrap_add(d.g, 32);
    let r = wrap_sub(wrap_add(d.r, 8), d.g);
    let b = wrap_sub(wrap_add(d.b, 8), d.g);
    if g < 64 && r < 16 && b < 16 && d.a == 0 {
        Some(((128 + g) as u8, (r * 16 + b) as u8))
    } else {
        None
    }
}

/// The colour fields of a small-difference opcode whose low six bits are
/// `data`, alpha zero.
pub open spec fn diff_fields(data: u8) -> Pixel {
    Pixel { r: ((data / 16) % 4) as u8, g: ((data / 4) % 4) as u8, b: (data % 4) as u8, a: 0 }
}

/// The pixel that a small-difference opcode with low six bits `data` makes
/// of the previous pixel `p`.
pub open spec fn apply_diff(p: Pixel, data: u8) -> Pixel {
    Pixel {
        r: wrap_add(wrap_sub(p.r, 2), diff_fields(data).r),
        g: wrap_add(wrap_sub(p.g, 2), diff_fields(data).g),
        b: wrap_add(wrap_sub(p.b, 2), diff_fields(data).b),
        a: p.a,
    }
}

/// The pixel that a luma-difference opcode makes of the previous pixel `p`:
/// `green` is the low six bits of its first byte, `rb` its second byte.
pub open spec fn apply_luma(p: Pixel, green: u8, rb: u8) -> Pixel {
    let dg = wrap_sub(green, 32);
    let dg_8 = wrap_sub(dg, 8);
    Pixel {
        r: wrap_add(wrap_add(p.r, dg_8), (rb / 16) as u8),
        g: wrap_add(p.g, dg),
        b: wrap_add(wrap_add(p.b, dg_8), (rb % 16) as u8),
        a: p.a,
    }
}

/// The pixel whose channels start at `start` in `data`: three bytes, with
/// alpha zero, or four.
pub open spec fn pixel_at(data: Seq<u8>, start: int, has_alpha: bool) -> Pixel {
    Pixel {
        r: data[start],
        g: data[start + 1],
        b: data[start + 2],
        a: if has_alpha {
            data[start + 3]
        } else {
            0
        },
    }
}

/// The bytes of one pixel in an output buffer: all four channels, or the
/// three colour channels.
pub open spec fn pixel_bytes(p: Pixel, has_alpha: bool) -> Seq<u8> {
    if has_alpha {
        seq![p.r, p.g, p.b, p.a]
    } else {
        seq![p.r, p.g, p.b]
    }
}

impl std::ops::Sub for Pixel {
    type Output = Pixel;

    fn sub(self, rhs: Pixel) -> (r: Pixel)
        ensures
            r == pixel_sub(self, rhs),
    {
        Pixel {
            r: self.r.wrapping_sub(rhs.r),
            g: self.g.wrapping_sub(rhs.g),
            b: self.b.wrapping_sub(rhs.b),
            a: self.a.wrapping_sub(rhs.a),
        }
    }
}

impl vstd::std_specs::ops::SubSpecImpl for Pixel {
    open spec fn obeys_sub_spec() -> bool {
        true
    }

    open spec fn sub_req(self, rhs: Pixel) -> bool {
        true
    }

    open spec fn sub_spec(self, rhs: Pixel) -> Pixel {
        pixel_sub(self, rhs)
    }
}

impl std::ops::Add for Pixel {
    type Output = Pixel;

    fn add(self, rhs: Pixel) -> (r: Pixel)
        ensures
            r == pixel_add(self, rhs),
    {
        Pixel {
            r: self.r.wrapping_add(rhs.r),
            g: self.g.wrapping_add(rhs.g),
            b: self.b.wrapping_add(rhs.b),
            a: self.a.wrapping_add(rhs.a),
        }
    }
}

impl vstd::std_specs::ops::AddSpecImpl for Pixel {
    open spec fn obeys_add_spec() -> bool {
        true
    }

    open spec fn add_req(self, rhs: Pixel) -> bool {
        true
    }

    open spec fn add_spec(self, rhs: Pixel) -> Pixel {
        pixel_add(self, rhs)
    }
}

impl std::ops::Add<u8> for Pixel {
    type Output = Pixel;

    /// Adds `rhs` to each colour channel modulo 256; alpha stays.
    fn add(self, rhs: u8) -> (r: Pixel)
        ensures
            r == pixel_add(self, Pixel { r: rhs, g: rhs, b: rhs, a: 0 }),
    {
        Pixel {
            r: self.r.wrapping_add(rhs),
            g: self.g.wrapping_add(rhs),
            b: self.b.wrapping_add(rhs),
            a: self.a,
        }
    }
}

impl vstd::std_specs::ops::AddSpecImpl<u8> for Pixel {
    open spec fn obeys_add_spec() -> bool {
        true
    }

    open spec fn add_req(self, rhs: u8) -> bool {
        true
    }

    open spec fn add_spec(self, rhs: u8) -> Pixel {
        pixel_add(self, Pixel { r: rhs, g: rhs, b: rhs, a: 0 })
    }
}

impl Default for Pixel {
    /// Opaque black, the pixel before the first one of an image.
    fn default() -> (r: Pixel)
        ensures
            r == start_pixel(),
    {
        Pixel { r: 0, g: 0, b: 0, a: 255 }
    }
}

impl Pixel {
    /// Appends all four channels to `vec`.
    pub fn copy_to_vec(&self, vec: &mut Vec<u8>)
        ensures
            final(vec)@ == old(vec)@ + pixel_bytes(*self, true),
    {
        vec.push(self.r);
        vec.push(self.g);
        vec.push(self.b);
        vec.push(self.a);
    }

    /// Appends the three colour channels to `vec`.
    pub fn copy_rgb_to_vec(&self, vec: &mut Vec<u8>)
        ensures
            final(vec)@ == old(vec)@ + pixel_bytes(*self, false),
    {
        vec.push(self.r);
        vec.push(self.g);
        vec.push(self.b);
    }

    /// Reads the pixel at byte offset `start` of `data`: three bytes with
    /// alpha zero, or four with `has_alpha`.
    pub fn read_at(data: &[u8], start: usize, has_alpha: bool) -> (r: Pixel)
        requires
            start + (if has_alpha { 4int } else { 3int }) <= data@.len(),
        ensures
            r == pixel_at(data@, start as int, has_alpha),
    {
        Pixel {
            r: data[start],
            g: data[start + 1],
            b: data[start + 2],
            a: if has_alpha {
                data[start + 3]
            } else {
                0
            },
        }
    }

    /// The pixel that a small-difference opcode with low six bits `data`
    /// makes of this one.
    pub fn decode_diff(self, data: u8) -> (r: Pixel)
        ensures
            r == apply_diff(self, data),
    {
        self - Pixel { r: DIFF_BIAS, g: DIFF_BIAS, b: DIFF_BIAS, a: 0 } + Pixel::from_diff(data)
    }

    /// The pixel that a luma-difference opcode makes of this one: `data_1`
    /// is the low six bits of its first byte, `data_2` its second byte.
    pub fn decode_luma_diff(self, data_1: u8, data_2: u8) -> (r: Pixel)
        ensures
            r == apply_luma(self, data_1, data_2),
    {
        let dg = data_1.wrapping_sub(LUMA_GREEN_BIAS);
        let dg_8 = dg.wrapping_sub(LUMA_BIAS);
        let r = self.r.wrapping_add(dg_8);
        let b = self.b.wrapping_add(dg_8);
        let hi = data_2 / 16;
        let lo = data_2 % 16;
        proof {
            lemma_wrapping(data_1, LUMA_GREEN_BIAS);
            lemma_wrapping(dg, LUMA_BIAS);
            lemma_wrapping(self.r, dg_8);
            lemma_wrapping(self.b, dg_8);
            lemma_wrapping(self.g, dg);
            lemma_wrapping(r, hi);
            lemma_wrapping(b, lo);
        }
        Pixel { r: r.wrapping_add(hi), g: self.g.wrapping_add(dg), b: b.wrapping_add(lo), a: self.a }
    }

    /// The two bytes of a luma-difference opcode for this delta, if one fits.
    pub fn luma_diff_offset(&self) -> (r: Option<(u8, u8)>)
        ensures
            r == luma_op(*self),
    {
        let t = *self + Pixel { r: LUMA_BIAS, g: LUMA_GREEN_BIAS, b: LUMA_BIAS, a: 0 };
        let dr = t.r.wrapping_sub(self.g);
        let db = t.b.wrapping_sub(self.g);
        proof {
            lemma_wrapping(t.r, self.g);
            lemma_wrapping(t.b, self.g);
        }
        if t.g < 64 && dr < 16 && db < 16 && self.a == 0 {
            Some((QOI_OP_LUMA + t.g, dr * 16 + db))
        } else {
            None
        }
    }

    /// The byte of a small-difference opcode for this delta, if one fits.
    pub fn diff_offset(&self) -> (r: Option<u8>)
        ensures
            r == diff_op(*self),
    {
        let t = *self + Pixel { r: DIFF_BIAS, g: DIFF_BIAS, b: DIFF_BIAS, a: 0 };
        if t.r < 4 && t.g < 4 && t.b < 4 && self.a == 0 {
            Some(QOI_OP_DIFF + t.r * 16 + t.g * 4 + t.b)
        } else {
            None
        }
    }

    /// The three two-bit colour fields of a small-difference opcode.
    pub fn from_diff(data: u8) -> (r: Pixel)
        ensures
            r == diff_fields(data),
    {
        Pixel { r: (data / 16) % 4, g: (data / 4) % 4, b: data % 4, a: 0 }
    }

    /// The pixel with all four channels zero.
    pub fn zero() -> (r: Pixel)
        ensures
            r == zero_pixel(),
    {
        Pixel { r: 0, g: 0, b: 0, a: 0 }
    }

    /// This pixel with its colour channels replaced.
    pub fn update_rgb(&self, unwrap_1: u8, unwrap_2: u8, unwrap_3: u8) -> (r: Pixel)
        ensures
            r == (Pixel { r: unwrap_1, g: unwrap_2, b: unwrap_3, a: self.a }),
    {
        Pixel { r: unwrap_1, g: unwrap_2, b: unwrap_3, a: self.a }
    }

    /// This pixel with all four channels replaced.
    pub fn update_rgba(&self, unwrap_1: u8, unwrap_2: u8, unwrap_3: u8, unwrap_4: u8) -> (r: Pixel)
        ensures
            r == (Pixel { r: unwrap_1, g: unwrap_2, b: unwrap_3, a: unwrap_4 }),
    {
        Pixel { r: unwrap_1, g: unwrap_2, b: unwrap_3, a: unwrap_4 }
    }
}

} // verus!
