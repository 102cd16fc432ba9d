//! The encoder: raw pixels to a header, an opcode stream and a footer.
use crate::header::{encode_header, footer, header_bytes};
use crate::pixel::{
    Pixel, diff_op, luma_op, pixel_at, pixel_sub, start_pixel, MAX_RUN, QOI_OP_INDEX, QOI_OP_RGB,
    QOI_OP_RGBA, QOI_OP_RUN,
};
use crate::runner::{Runner, cache_put, empty_cache, hash_of};
use vstd::prelude::*;

verus! {

/// What the encoder carries from one pixel to the next: the last pixel that
/// was not part of a run, the length of the run not yet written, the cache.
pub struct EncodeState {
    pub prev: Pixel,
    pub run: nat,
    pub cache: Seq<Pixel>,
}

/// The state before the first pixel.
pub open spec fn start_encode_state() -> EncodeState {
    EncodeState { prev: start_pixel(), run: 0, cache: empty_cache() }
}

/// Bytes per pixel in a raw buffer.
pub open spec fn pixel_size(has_alpha: bool) -> nat {
    if has_alpha {
        4
    } else {
        3
    }
}

/// The pixels of a raw buffer, in order.
pub open spec fn pixels_of(data: Seq<u8>, has_alpha: bool) -> Seq<Pixel> {
    Seq::new(
        (data.len() / pixel_size(has_alpha)) as nat,
        |i: int| pixel_at(data, i * pixel_size(has_alpha), has_alpha),
    )
}

/// The run opcode for a run of `n` pixels (1 to 62).
pub open spec fn run_op(n: nat) -> u8 {
    (0xc0 + n - 1) as u8
}

/// The opcode for pixel `px` when it is neither a repeat of the previous
/// pixel nor in the cache; `d` is its delta from the previous pixel. A small
/// difference comes first, then a luma difference, then the literal colour,
/// with alpha only where alpha changed.
pub open spec fn literal_op(d: Pixel, px: Pixel) -> Seq<u8> {
    match diff_op(d) {
        Some(b) => seq![b],
        None => match luma_op(d) {
            Some(t) => seq![t.0, t.1],
            None => if d.a == 0 {
                seq![0xfe, px.r, px.g, px.b]
            } else {
                seq![0xff, px.r, px.g, px.b, px.a]
            },
        },
    }
}

/// The run opcode that the state still owes, if any.
pub open spec fn pending_run(st: EncodeState) -> Seq<u8> {
    if st.run != 0 {
        seq![run_op(st.run)]
    } else {
        Seq::empty()
    }
}

/// One pixel through the encoder: the next state and the bytes written.
/// A repeat of the previous pixel extends the run, which is written when it
/// reaches 62 or the image ends. Any other pixel first writes a pending run,
/// then its cache slot on a hit, else its literal opcode.
#[verifier::opaque]
pub open spec fn encode_step(st: EncodeState, px: Pixel, last: bool) -> (EncodeState, Seq<u8>) {
    if px == st.prev {
        let run = st.run + 1;
        if run == 62 || last {
            (EncodeState { prev: st.prev, run: 0, cache: st.cache }, seq![run_op(run)])
        } else {
            (EncodeState { prev: st.prev, run: run, cache: st.cache }, Seq::empty())
        }
    } else {
        let flush = pending_run(st);
        if st.cache[hash_of(px)] == px {
            (EncodeState { prev: px, run: 0, cache: st.cache }, flush.push(hash_of(px) as u8))
        } else {
            (
                EncodeState { prev: px, run: 0, cache: cache_put(st.cache, px) },
                flush + literal_op(pixel_sub(px, st.prev), px),
            )
        }
    }
}

/// The state and the opcode bytes after the first `k` pixels of `ps`.
pub open spec fn encode_prefix(ps: Seq<Pixel>, k: nat) -> (EncodeState, Seq<u8>)
    decreases k,
{
    if k == 0 {
        (start_encode_state(), Seq::empty())
    } else {
        let prior = encode_prefix(ps, (k - 1) as nat);
        let next = encode_step(prior.0, ps[k - 1], k == ps.len());
        (next.0, prior.1 + next.1)
    }
}

/// The opcode bytes of all of `ps`.
pub open spec fn encode_pixels(ps: Seq<Pixel>) -> Seq<u8> {
    encode_prefix(ps, ps.len()).1
}

/// The whole stream for the raw buffer `data`.
pub open spec fn encoded(data: Seq<u8>, width: usize, height: usize, has_alpha: bool, s_rgb: bool) -> Seq<u8> {
    header_bytes(width as u32, height as u32, has_alpha, s_rgb) + encode_pixels(
        pixels_of(data, has_alpha),
    ) + footer()
}

/// Appends the footer.
pub fn finalize(vec: Vec<u8>) -> (r: Vec<u8>)
    ensures
        r@ == vec@ + footer(),
{
    let mut out = vec;
    let mut k: usize = 0;
    while k < 7
        invariant
            k <= 7,
            out@ == vec@ + Seq::new(k as nat, |i: int| 0u8),
        decreases 7 - k,
    {
        out.push(0);
        k += 1;
        assert(out@ =~= vec@ + Seq::new(k as nat, |i: int| 0u8));
    }
    out.push(1);
    assert(out@ =~= vec@ + footer());
    out
}

/// A new output buffer that holds the header.
pub fn initialize(width: usize, height: usize, has_alpha: bool, s_rgb: bool) -> (r: Vec<u8>)
    requires
        width * height <= usize::MAX,
    ensures
        r@ == header_bytes(width as u32, height as u32, has_alpha, s_rgb),
{
    let mut init: Vec<u8> = Vec::with_capacity(width * height);
    let header = encode_header(width, height, has_alpha, s_rgb);
    let mut k: usize = 0;
    while k < 14
        invariant
            k <= 14,
            header@.len() == 14,
            init@ == header@.subrange(0, k as int),
        decreases 14 - k,
    {
        init.push(header[k]);
        k += 1;
        assert(init@ =~= header@.subrange(0, k as int));
    }
    assert(header@.subrange(0, 14) =~= header@);
    init
}

/// Appends the literal opcode of `pixel`, whose delta from the previous
/// pixel is `raw_diff`.
fn push_literal(out: &mut Vec<u8>, raw_diff: Pixel, pixel: Pixel)
    ensures
        final(out)@ == old(out)@ + literal_op(raw_diff, pixel),
{
    if let Some(diff) = raw_diff.diff_offset() {
        out.push(diff);
    } else if let Some(luma_diff) = raw_diff.luma_diff_offset() {
        out.push(luma_diff.0);
        out.push(luma_diff.1);
    } else if raw_diff.a == 0 {
        out.push(QOI_OP_RGB);
        out.push(pixel.r);
        out.push(pixel.g);
        out.push(pixel.b);
    } else {
        out.push(QOI_OP_RGBA);
        out.push(pixel.r);
        out.push(pixel.g);
        out.push(pixel.b);
        out.push(pixel.a);
    }
    assert(final(out)@ =~= old(out)@ + literal_op(raw_diff, pixel));
}

/// The state that the encoder's variables hold.
pub open spec fn state_of(prev: Pixel, run: u8, runner: Runner) -> EncodeState {
    EncodeState { prev, run: run as nat, cache: runner.slots() }
}

/// Runs one pixel through the encoder, appending what it writes to `out`;
/// `last` tells whether it ends the image.
fn encode_pixel(
    out: &mut Vec<u8>,
    runner: &mut Runner,
    previous_pixel: &mut Pixel,
    run_length: &mut u8,
    pixel: Pixel,
    last: bool,
)
    requires
        *old(run_length) < MAX_RUN,
        old(runner).slots().len() == 64,
    ensures
        encode_step(state_of(*old(previous_pixel), *old(run_length), *old(runner)), pixel, last).0
            == state_of(*final(previous_pixel), *final(run_length), *final(runner)),
        final(out)@ == old(out)@ + encode_step(
            state_of(*old(previous_pixel), *old(run_length), *old(runner)),
            pixel,
            last,
        ).1,
        *final(run_length) < MAX_RUN,
        final(runner).slots().len() == 64,
{
    reveal(encode_step);
    let ghost st = state_of(*previous_pixel, *run_length, *runner);
    if pixel == *previous_pixel {
        *run_length = *run_length + 1;
        if *run_length == MAX_RUN || last {
            out.push(QOI_OP_RUN + (*run_length - 1));
            *run_length = 0;
        }
        assert(final(out)@ =~= old(out)@ + encode_step(st, pixel, last).1);
    } else {
        if *run_length != 0 {
            out.push(QOI_OP_RUN + (*run_length - 1));
            *run_length = 0;
        }
        match runner.match_or_update(&pixel) {
            Some(ix) => {
                out.push(QOI_OP_INDEX + ix);
            },
            None => {
                let raw_diff = pixel - *previous_pixel;
                push_literal(out, raw_diff, pixel);
            },
        }
        *previous_pixel = pixel;
        assert(final(out)@ =~= old(out)@ + encode_step(st, pixel, last).1);
    }
}

/// Encodes `width * height` pixels of 3 bytes (RGB) or 4 (`has_alpha`,
/// RGBA) from `data`. Never fails.
pub fn encode(data: &[u8], width: usize, height: usize, has_alpha: bool, s_rgb: bool) -> (r: Result<
    Vec<u8>,
    String,
>)
    requires
        data@.len() == width * height * pixel_size(has_alpha),
    ensures
        r matches Ok(v) && v@ == encoded(data@, width, height, has_alpha, s_rgb),
{
    let chunksize: usize = if has_alpha {
        4
    } else {
        3
    };
    let ghost ps = pixels_of(data@, has_alpha);
    let len = data.len();
    let n_pixels: usize = len / chunksize;
    assert(n_pixels == width * height) by (nonlinear_arith)
        requires
            data@.len() == width * height * chunksize,
            n_pixels == data@.len() / (chunksize as nat),
            chunksize == 3 || chunksize == 4,
    ;
    let mut previous_pixel = Pixel::default();
    let mut run_length: u8 = 0;
    let mut runner = Runner::new();
    let mut out = initialize(width, height, has_alpha, s_rgb);
    let mut i: usize = 0;
    assert(out@ =~= header_bytes(width as u32, height as u32, has_alpha, s_rgb) + encode_prefix(
        ps,
        0,
    ).1);
    while i < n_pixels
        invariant
            chunksize == pixel_size(has_alpha),
            n_pixels == ps.len(),
            n_pixels * chunksize <= data@.len(),
            len == data@.len(),
            ps == pixels_of(data@, has_alpha),
            i <= n_pixels,
            run_length < MAX_RUN,
            encode_prefix(ps, i as nat).0 == state_of(previous_pixel, run_length, runner),
            runner.slots().len() == 64,
            out@ == header_bytes(width as u32, height as u32, has_alpha, s_rgb) + encode_prefix(
                ps,
                i as nat,
            ).1,
        decreases n_pixels - i,
    {
        assert(i * chunksize + chunksize <= data@.len()) by (nonlinear_arith)
            requires
                i < n_pixels,
                n_pixels * chunksize <= data@.len(),
        ;
        let pixel = Pixel::read_at(data, i * chunksize, has_alpha);
        assert(pixel == ps[i as int]);
        let ghost prior = encode_prefix(ps, i as nat);
        assert(encode_prefix(ps, (i + 1) as nat) == (
            encode_step(prior.0, ps[i as int], i + 1 == ps.len()).0,
            prior.1 + encode_step(prior.0, ps[i as int], i + 1 == ps.len()).1,
        ));
        encode_pixel(
            &mut out,
            &mut runner,
            &mut previous_pixel,
            &mut run_length,
            pixel,
            i == n_pixels - 1,
        );
        assert(out@ =~= header_bytes(width as u32, height as u32, has_alpha, s_rgb) + encode_prefix(
            ps,
            (i + 1) as nat,
        ).1);
        i += 1;
    }
    Ok(finalize(out))
}

} // verus!
