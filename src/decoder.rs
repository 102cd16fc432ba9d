//! The decoder: a header, an opcode stream and a footer back to raw pixels.
use crate::header::{
    DecodeError, QOI_FOOTER_SIZE, QOI_HEADER_SIZE, header_fields, try_decode_header,
};
use crate::pixel::{
    Pixel, apply_diff, apply_luma, pixel_bytes, start_pixel, QOI_OP_DIFF, QOI_OP_LUMA, QOI_OP_RGB,
    QOI_OP_RGBA, QOI_OP_RUN,
};
use crate::runner::{Runner, cache_put, empty_cache};
use vstd::prelude::*;

verus! {

/// What the decoder carries from one opcode to the next: the last pixel and
/// the cache.
pub struct DecodeState {
    pub prev: Pixel,
    pub cache: Seq<Pixel>,
}

/// The state before the first opcode.
pub open spec fn start_decode_state() -> DecodeState {
    DecodeState { prev: start_pixel(), cache: empty_cache() }
}

/// The number of bytes of the opcode whose first byte is `tag`.
pub open spec fn op_size(tag: u8) -> int {
    if tag == 0xfe {
        4
    } else if tag == 0xff {
        5
    } else if 0x80 <= tag < 0xc0 {
        2
    } else {
        1
    }
}

/// The state after pixel `p` is established by an opcode other than a run
/// or a cache index: `p` becomes the last pixel and is stored in the cache.
pub open spec fn established(st: DecodeState, p: Pixel) -> DecodeState {
    DecodeState { prev: p, cache: cache_put(st.cache, p) }
}

/// The opcode at `pos` of `body`, all of whose bytes are there: the next
/// state and the pixels it gives.
#[verifier::opaque]
pub open spec fn decode_op(body: Seq<u8>, pos: int, st: DecodeState) -> (DecodeState, Seq<Pixel>) {
    let tag = body[pos];
    if tag == 0xfe {
        let p = Pixel { r: body[pos + 1], g: body[pos + 2], b: body[pos + 3], a: st.prev.a };
        (established(st, p), seq![p])
    } else if tag == 0xff {
        let p = Pixel { r: body[pos + 1], g: body[pos + 2], b: body[pos + 3], a: body[pos + 4] };
        (established(st, p), seq![p])
    } else if tag >= 0xc0 {
        (st, Seq::new((tag - 0xc0 + 1) as nat, |i: int| st.prev))
    } else if tag >= 0x80 {
        let p = apply_luma(st.prev, (tag - 0x80) as u8, body[pos + 1]);
        (established(st, p), seq![p])
    } else if tag >= 0x40 {
        let p = apply_diff(st.prev, (tag - 0x40) as u8);
        (established(st, p), seq![p])
    } else {
        let p = st.cache[tag as int];
        (DecodeState { prev: p, cache: st.cache }, seq![p])
    }
}

/// The pixels of the opcodes of `body` from `pos` on. The walk stops at the
/// end, or before an opcode whose bytes run past the end.
pub open spec fn decode_from(body: Seq<u8>, pos: int, st: DecodeState) -> Seq<Pixel>
    decreases body.len() - pos,
{
    if 0 <= pos < body.len() && pos + op_size(body[pos]) <= body.len() {
        let next = decode_op(body, pos, st);
        next.1 + decode_from(body, pos + op_size(body[pos]), next.0)
    } else {
        Seq::empty()
    }
}

/// The bytes of `ps` in an output buffer, pixel after pixel.
pub open spec fn pixels_bytes(ps: Seq<Pixel>, has_alpha: bool) -> Seq<u8>
    decreases ps.len(),
{
    if ps.len() == 0 {
        Seq::empty()
    } else {
        pixels_bytes(ps.drop_last(), has_alpha) + pixel_bytes(ps.last(), has_alpha)
    }
}

/// The opcode region of a stream: what lies between header and footer.
pub open spec fn opcode_region(data: Seq<u8>) -> Seq<u8> {
    data.subrange(14, data.len() - 8)
}

/// What decoding `data` gives: the pixel bytes, width, height, alpha flag
/// and colour-space flag; an error for a stream shorter than header and
/// footer, or without the magic tag.
pub open spec fn decoded(data: Seq<u8>) -> Result<(Seq<u8>, u32, u32, bool, bool), DecodeError> {
    if data.len() < 22 {
        Err(DecodeError::TruncatedInput)
    } else {
        match header_fields(data) {
            Err(e) => Err(e),
            Ok(h) => Ok(
                (
                    pixels_bytes(decode_from(opcode_region(data), 0, start_decode_state()), h.2),
                    h.0,
                    h.1,
                    h.2,
                    h.3,
                ),
            ),
        }
    }
}

/// One pixel more in an output buffer is its bytes appended.
pub proof fn lemma_pixels_bytes_push(ps: Seq<Pixel>, p: Pixel, has_alpha: bool)
    ensures
        pixels_bytes(ps.push(p), has_alpha) == pixels_bytes(ps, has_alpha) + pixel_bytes(p, has_alpha),
{
    assert(ps.push(p).drop_last() =~= ps);
}

/// Reads the opcode at `pos` of `data`, whose bytes all lie before `end`:
/// updates the last pixel and the cache, and returns how many times the new
/// last pixel is to be written.
fn read_op(
    data: &[u8],
    pos: usize,
    end: usize,
    runner: &mut Runner,
    previous_pixel: &mut Pixel,
) -> (count: u8)
    requires
        14 <= pos < end <= data@.len(),
        pos + op_size(data@[pos as int]) <= end,
        old(runner).slots().len() == 64,
    ensures
        decode_op(
            data@.subrange(14, end as int),
            pos - 14,
            (DecodeState { prev: *old(previous_pixel), cache: old(runner).slots() }),
        ) == (
            (DecodeState { prev: *final(previous_pixel), cache: final(runner).slots() }),
            Seq::new(count as nat, |i: int| *final(previous_pixel)),
        ),
        1 <= count <= 62,
        final(runner).slots().len() == 64,
{
    reveal(decode_op);
    let ghost body = data@.subrange(14, end as int);
    let ghost st = DecodeState { prev: *previous_pixel, cache: runner.slots() };
    let tag = data[pos];
    assert(body[pos - 14] == tag);
    if tag == QOI_OP_RGB {
        assert(body[pos - 13] == data@[pos + 1] && body[pos - 12] == data@[pos + 2] && body[pos - 11] == data@[pos + 3]);
        *previous_pixel = previous_pixel.update_rgb(data[pos + 1], data[pos + 2], data[pos + 3]);
        runner.update(*previous_pixel);
        assert(seq![*previous_pixel] =~= Seq::new(1, |i: int| *previous_pixel));
        1
    } else if tag == QOI_OP_RGBA {
        assert(body[pos - 13] == data@[pos + 1] && body[pos - 12] == data@[pos + 2] && body[pos - 11] == data@[pos + 3] && body[pos - 10] == data@[pos + 4]);
        *previous_pixel = previous_pixel.update_rgba(
            data[pos + 1],
            data[pos + 2],
            data[pos + 3],
            data[pos + 4],
        );
        runner.update(*previous_pixel);
        assert(seq![*previous_pixel] =~= Seq::new(1, |i: int| *previous_pixel));
        1
    } else if tag >= QOI_OP_RUN {
        tag - QOI_OP_RUN + 1
    } else if tag >= QOI_OP_LUMA {
        assert(body[pos - 13] == data@[pos + 1]);
        *previous_pixel = previous_pixel.decode_luma_diff(tag - QOI_OP_LUMA, data[pos + 1]);
        runner.update(*previous_pixel);
        assert(seq![*previous_pixel] =~= Seq::new(1, |i: int| *previous_pixel));
        1
    } else if tag >= QOI_OP_DIFF {
        *previous_pixel = previous_pixel.decode_diff(tag - QOI_OP_DIFF);
        runner.update(*previous_pixel);
        assert(seq![*previous_pixel] =~= Seq::new(1, |i: int| *previous_pixel));
        1
    } else {
        *previous_pixel = runner.memory[tag as usize];
        assert(seq![*previous_pixel] =~= Seq::new(1, |i: int| *previous_pixel));
        1
    }
}

/// Decodes a stream: the pixel bytes (4 per pixel with alpha, else 3), the
/// width, the height, whether pixels have alpha and whether the colour space
/// is sRGB. Fails on a stream shorter than header and footer, or without
/// the magic tag; any other stream gives pixels.
pub fn decode(data: &[u8]) -> (r: Result<(Vec<u8>, u32, u32, bool, bool), DecodeError>)
    ensures
        match r {
            Ok(v) => decoded(data@) == Ok::<(Seq<u8>, u32, u32, bool, bool), DecodeError>(
                (v.0@, v.1, v.2, v.3, v.4),
            ),
            Err(e) => decoded(data@) == Err::<(Seq<u8>, u32, u32, bool, bool), DecodeError>(e),
        },
{
    if data.len() < QOI_HEADER_SIZE + QOI_FOOTER_SIZE {
        return Err(DecodeError::TruncatedInput);
    }
    let (width, height, channels, colorspace) = match try_decode_header(data) {
        Ok(h) => h,
        Err(e) => {
            return Err(e);
        },
    };
    let end = data.len() - QOI_FOOTER_SIZE;
    let ghost body = opcode_region(data@);
    let ghost all = decode_from(body, 0, start_decode_state());
    let ghost emitted: Seq<Pixel> = Seq::empty();
    let bytes_per_pixel: usize = if channels {
        4
    } else {
        3
    };
    let capacity: usize = match (width as usize).checked_mul(height as usize) {
        Some(n) => match n.checked_mul(bytes_per_pixel) {
            Some(c) => c,
            None => 0,
        },
        None => 0,
    };
    let mut out: Vec<u8> = Vec::with_capacity(capacity);
    let mut runner = Runner::new();
    let mut previous_pixel = Pixel::default();
    let mut pos: usize = QOI_HEADER_SIZE;
    while pos < end
        invariant
            14 <= pos <= end,
            end == data@.len() - 8,
            body == data@.subrange(14, end as int),
            runner.slots().len() == 64,
            all == emitted + decode_from(
                body,
                pos - 14,
                (DecodeState { prev: previous_pixel, cache: runner.slots() }),
            ),
            out@ == pixels_bytes(emitted, channels),
        ensures
            all == emitted,
            out@ == pixels_bytes(emitted, channels),
        decreases end - pos,
    {
        let tag = data[pos];
        let size: usize = if tag == QOI_OP_RGB {
            4
        } else if tag == QOI_OP_RGBA {
            5
        } else if QOI_OP_LUMA <= tag && tag < QOI_OP_RUN {
            2
        } else {
            1
        };
        assert(body[pos - 14] == tag);
        if size > end - pos {
            assert(emitted =~= emitted + Seq::<Pixel>::empty());
            break;
        }
        let ghost st = DecodeState { prev: previous_pixel, cache: runner.slots() };
        let count = read_op(data, pos, end, &mut runner, &mut previous_pixel);
        let ghost run = Seq::new(count as nat, |i: int| previous_pixel);
        let mut k: u8 = 0;
        while k < count
            invariant
                k <= count,
                out@ == pixels_bytes(emitted + Seq::new(k as nat, |i: int| previous_pixel), channels),
            decreases count - k,
        {
            proof {
                lemma_pixels_bytes_push(
                    emitted + Seq::new(k as nat, |i: int| previous_pixel),
                    previous_pixel,
                    channels,
                );
                assert((emitted + Seq::new(k as nat, |i: int| previous_pixel)).push(previous_pixel)
                    =~= emitted + Seq::new((k + 1) as nat, |i: int| previous_pixel));
            }
            if channels {
                previous_pixel.copy_to_vec(&mut out);
            } else {
                previous_pixel.copy_rgb_to_vec(&mut out);
            }
            k += 1;
        }
        proof {
            assert(emitted + Seq::new(count as nat, |i: int| previous_pixel) == emitted + run);
            assert(decode_from(body, pos - 14, st) == run + decode_from(
                body,
                pos + size - 14,
                (DecodeState { prev: previous_pixel, cache: runner.slots() }),
            ));
            assert(all =~= (emitted + run) + decode_from(
                body,
                pos + size - 14,
                (DecodeState { prev: previous_pixel, cache: runner.slots() }),
            ));
            emitted = emitted + run;
        }
        pos = pos + size;
    }
    Ok((out, width, height, channels, colorspace))
}

} // verus!
