//! What holds of the encoder and the decoder together.
use crate::decoder::{
    DecodeState, decode_from, decode_op, decoded, established, op_size, opcode_region,
    pixels_bytes, start_decode_state,
};
use crate::encoder::{
    EncodeState, encode_pixels, encode_prefix, encode_step, encoded, literal_op, pending_run,
    pixel_size, pixels_of, run_op, start_encode_state,
};
use crate::header::{DecodeError, footer, header_bytes, header_fields, lemma_header_round_trip};
use crate::pixel::{
    Pixel, apply_diff, apply_luma, diff_fields, diff_op, luma_op, pixel_at, pixel_bytes, pixel_sub,
    wrap_add, wrap_sub,
};
use crate::runner::hash_of;
use vstd::prelude::*;

verus! {

/// A small difference undone: back from the previous channel value `p` to `c`.
proof fn lemma_diff_channel(p: u8, c: u8)
    ensures
        wrap_add(wrap_sub(p, 2), wrap_add(wrap_sub(c, p), 2)) == c,
{
}

/// A luma difference undone on the red or blue channel: `dg` is the green
/// delta, `p` the previous value, `c` the current one.
proof fn lemma_luma_channel(p: u8, c: u8, dg: u8)
    by (bit_vector)
    ensures
        wrap_add(
            wrap_add(p, wrap_sub(wrap_sub(wrap_add(dg, 32), 32), 8)),
            wrap_sub(wrap_add(wrap_sub(c, p), 8), dg),
        ) == c,
{
}

/// A luma difference undone on the green channel.
proof fn lemma_luma_green(p: u8, c: u8)
    ensures
        wrap_add(p, wrap_sub(wrap_add(wrap_sub(c, p), 32), 32)) == c,
{
}

/// The three two-bit fields of a small difference read back.
proof fn lemma_diff_fields(r: u8, g: u8, b: u8)
    requires
        r < 4,
        g < 4,
        b < 4,
    ensures
        diff_fields((r * 16 + g * 4 + b) as u8) == (Pixel { r, g, b, a: 0 }),
{
    let x = r * 16 + g * 4 + b;
    assert(x / 16 == r);
    assert((x / 4) % 4 == g);
    assert(x % 4 == b);
}

/// A run opcode repeats the last pixel and changes nothing.
proof fn lemma_run_op_decodes(s: Seq<u8>, pos: int, st: DecodeState, n: nat)
    requires
        1 <= n <= 62,
        0 <= pos < s.len(),
        s[pos] == run_op(n),
    ensures
        op_size(s[pos]) == 1,
        decode_op(s, pos, st) == (st, Seq::new(n, |i: int| st.prev)),
{
    reveal(decode_op);
    assert(Seq::new((s[pos] - 0xc0 + 1) as nat, |i: int| st.prev) =~= Seq::new(n, |i: int| st.prev));
}

/// A cache-index opcode gives the pixel in that slot and leaves the cache.
proof fn lemma_index_op_decodes(s: Seq<u8>, pos: int, st: DecodeState, px: Pixel)
    requires
        0 <= pos < s.len(),
        s[pos] == hash_of(px) as u8,
        st.cache[hash_of(px)] == px,
    ensures
        op_size(s[pos]) == 1,
        decode_op(s, pos, st) == (DecodeState { prev: px, cache: st.cache }, seq![px]),
{
    reveal(decode_op);
}

/// What the decoder makes of a small-difference opcode.
proof fn lemma_decode_diff_branch(s: Seq<u8>, pos: int, st: DecodeState)
    requires
        0 <= pos < s.len(),
        0x40 <= s[pos] < 0x80,
    ensures
        op_size(s[pos]) == 1,
        decode_op(s, pos, st) == (
            established(st, apply_diff(st.prev, (s[pos] - 0x40) as u8)),
            seq![apply_diff(st.prev, (s[pos] - 0x40) as u8)],
        ),
{
    reveal(decode_op);
}

/// A small-difference opcode written for `px` gives `px` back.
#[verifier::spinoff_prover]
proof fn lemma_diff_op_decodes(s: Seq<u8>, pos: int, st: DecodeState, px: Pixel)
    requires
        0 <= pos < s.len(),
        diff_op(pixel_sub(px, st.prev)) == Some(s[pos]),
    ensures
        op_size(s[pos]) == 1,
        decode_op(s, pos, st) == (established(st, px), seq![px]),
{
    let p = st.prev;
    let d = pixel_sub(px, p);
    let r = wrap_add(d.r, 2);
    let g = wrap_add(d.g, 2);
    let b = wrap_add(d.b, 2);
    assert(r < 4 && g < 4 && b < 4 && d.a == 0);
    let data = (s[pos] - 0x40) as u8;
    assert(data == (r * 16 + g * 4 + b) as u8);
    lemma_diff_fields(r, g, b);
    lemma_diff_channel(p.r, px.r);
    lemma_diff_channel(p.g, px.g);
    lemma_diff_channel(p.b, px.b);
    assert(px.a == p.a);
    assert(apply_diff(p, data) == px);
    lemma_decode_diff_branch(s, pos, st);
}

/// What the decoder makes of a luma-difference opcode.
proof fn lemma_decode_luma_branch(s: Seq<u8>, pos: int, st: DecodeState)
    requires
        0 <= pos,
        pos + 1 < s.len(),
        0x80 <= s[pos] < 0xc0,
    ensures
        op_size(s[pos]) == 2,
        decode_op(s, pos, st) == (
            established(st, apply_luma(st.prev, (s[pos] - 0x80) as u8, s[pos + 1])),
            seq![apply_luma(st.prev, (s[pos] - 0x80) as u8, s[pos + 1])],
        ),
{
    reveal(decode_op);
}

/// A luma-difference opcode written for `px` gives `px` back.
#[verifier::spinoff_prover]
proof fn lemma_luma_op_decodes(s: Seq<u8>, pos: int, st: DecodeState, px: Pixel)
    requires
        0 <= pos,
        pos + 1 < s.len(),
        luma_op(pixel_sub(px, st.prev)) == Some((s[pos], s[pos + 1])),
    ensures
        op_size(s[pos]) == 2,
        decode_op(s, pos, st) == (established(st, px), seq![px]),
{
    let p = st.prev;
    let d = pixel_sub(px, p);
    let g = wrap_add(d.g, 32);
    let r = wrap_sub(wrap_add(d.r, 8), d.g);
    let b = wrap_sub(wrap_add(d.b, 8), d.g);
    assert(g < 64 && r < 16 && b < 16 && d.a == 0);
    assert((s[pos] - 0x80) as u8 == g);
    assert(s[pos + 1] / 16 == r);
    assert(s[pos + 1] % 16 == b);
    lemma_luma_green(p.g, px.g);
    lemma_luma_channel(p.r, px.r, d.g);
    lemma_luma_channel(p.b, px.b, d.g);
    assert(px.a == p.a);
    assert(apply_luma(p, (s[pos] - 0x80) as u8, s[pos + 1]) == px);
    lemma_decode_luma_branch(s, pos, st);
}

/// The opcode that the encoder writes for a pixel that it takes from
/// neither a run nor the cache gives that pixel back and stores it.
proof fn lemma_literal_op_decodes(s: Seq<u8>, pos: int, st: DecodeState, px: Pixel)
    requires
        0 <= pos,
        pos + literal_op(pixel_sub(px, st.prev), px).len() <= s.len(),
        s.subrange(pos, pos + literal_op(pixel_sub(px, st.prev), px).len()) == literal_op(
            pixel_sub(px, st.prev),
            px,
        ),
    ensures
        op_size(s[pos]) == literal_op(pixel_sub(px, st.prev), px).len(),
        decode_op(s, pos, st) == (established(st, px), seq![px]),
{
    let p = st.prev;
    let d = pixel_sub(px, p);
    let q = literal_op(d, px);
    let w = s.subrange(pos, pos + q.len());
    assert(s[pos] == w[0]);
    if diff_op(d) is Some {
        lemma_diff_op_decodes(s, pos, st, px);
    } else if luma_op(d) is Some {
        assert(s[pos + 1] == w[1]);
        lemma_luma_op_decodes(s, pos, st, px);
    } else {
        reveal(decode_op);
        assert(s[pos + 1] == w[1]);
        assert(s[pos + 2] == w[2]);
        assert(s[pos + 3] == w[3]);
        if d.a == 0 {
            assert(px.a == p.a);
        } else {
            assert(s[pos + 4] == w[4]);
        }
    }
}

/// The decoder's view of an encoder state: the same last pixel and cache.
pub open spec fn decoder_view(st: EncodeState) -> DecodeState {
    DecodeState { prev: st.prev, cache: st.cache }
}

/// The pixels that the decoder gets from the bytes of one encoder step:
/// nothing while a run grows, the whole run when it is written, else the
/// pending run and then the new pixel.
pub open spec fn handed_over(st: EncodeState, px: Pixel, last: bool) -> Seq<Pixel> {
    if px == st.prev {
        if st.run + 1 == 62 || last {
            Seq::new(st.run + 1, |i: int| st.prev)
        } else {
            Seq::empty()
        }
    } else {
        Seq::new(st.run, |i: int| st.prev).push(px)
    }
}

/// The bytes of one encoder step that follows a pending run and a pixel
/// other than the last one, as the decoder reads them at `here` of `s`.
proof fn lemma_new_pixel_decodes(st: EncodeState, px: Pixel, last: bool, s: Seq<u8>, here: int)
    requires
        px != st.prev,
        st.run < 62,
        0 <= here,
        here + encode_step(st, px, last).1.len() <= s.len(),
        s.subrange(here, here + encode_step(st, px, last).1.len()) == encode_step(st, px, last).1,
    ensures
        decode_from(s, here, decoder_view(st)) == handed_over(st, px, last) + decode_from(
            s,
            here + encode_step(st, px, last).1.len(),
            decoder_view(encode_step(st, px, last).0),
        ),
{
    reveal(encode_step);
    let next = encode_step(st, px, last);
    let more = next.1;
    let w = s.subrange(here, here + more.len());
    let flush = pending_run(st);
    let at = here + flush.len();
    let runs = Seq::new(st.run, |i: int| st.prev);
    if st.run != 0 {
        assert(s[here] == w[0]);
        lemma_run_op_decodes(s, here, decoder_view(st), st.run);
        assert(decode_from(s, here, decoder_view(st)) == runs + decode_from(
            s,
            at,
            decoder_view(st),
        ));
    } else {
        assert(runs =~= Seq::<Pixel>::empty());
        assert(decode_from(s, here, decoder_view(st)) =~= runs + decode_from(
            s,
            at,
            decoder_view(st),
        ));
    }
    if st.cache[hash_of(px)] == px {
        assert(more == flush.push(hash_of(px) as u8));
        assert(s[at] == w[flush.len() as int]);
        lemma_index_op_decodes(s, at, decoder_view(st), px);
    } else {
        let q = literal_op(pixel_sub(px, st.prev), px);
        assert(more == flush + q);
        assert(s.subrange(at, at + q.len()) =~= w.subrange(flush.len() as int, more.len() as int));
        assert(w.subrange(flush.len() as int, more.len() as int) =~= q);
        lemma_literal_op_decodes(s, at, decoder_view(st), px);
    }
    assert(decode_from(s, at, decoder_view(st)) == seq![px] + decode_from(
        s,
        at + op_size(s[at]),
        decoder_view(next.0),
    ));
    assert(runs + (seq![px] + decode_from(s, at + op_size(s[at]), decoder_view(next.0))) =~= runs.push(px)
        + decode_from(s, at + op_size(s[at]), decoder_view(next.0)));
}

/// The bytes of one encoder step, as the decoder reads them at `here` of
/// `s`; and what the step does to the pending run.
proof fn lemma_step_decodes(st: EncodeState, px: Pixel, last: bool, s: Seq<u8>, here: int)
    requires
        st.run < 62,
        st.cache.len() == 64,
        0 <= here,
        here + encode_step(st, px, last).1.len() <= s.len(),
        s.subrange(here, here + encode_step(st, px, last).1.len()) == encode_step(st, px, last).1,
    ensures
        encode_step(st, px, last).0.run < 62,
        encode_step(st, px, last).0.cache.len() == 64,
        last ==> encode_step(st, px, last).0.run == 0,
        handed_over(st, px, last) + Seq::new(
            encode_step(st, px, last).0.run,
            |i: int| encode_step(st, px, last).0.prev,
        ) == Seq::new(st.run, |i: int| st.prev).push(px),
        decode_from(s, here, decoder_view(st)) == handed_over(st, px, last) + decode_from(
            s,
            here + encode_step(st, px, last).1.len(),
            decoder_view(encode_step(st, px, last).0),
        ),
{
    reveal(encode_step);
    let next = encode_step(st, px, last);
    let more = next.1;
    let pend = Seq::new(next.0.run, |i: int| next.0.prev);
    if px == st.prev {
        if st.run + 1 == 62 || last {
            assert(s[here] == s.subrange(here, here + more.len())[0]);
            lemma_run_op_decodes(s, here, decoder_view(st), st.run + 1);
            assert(handed_over(st, px, last) + pend =~= Seq::new(st.run, |i: int| st.prev).push(px));
        } else {
            assert(more =~= Seq::<u8>::empty());
            assert(decode_from(s, here, decoder_view(st)) =~= handed_over(st, px, last)
                + decode_from(s, here, decoder_view(next.0)));
            assert(handed_over(st, px, last) + pend =~= Seq::new(st.run, |i: int| st.prev).push(px));
        }
    } else {
        lemma_new_pixel_decodes(st, px, last, s, here);
        assert(handed_over(st, px, last) + pend =~= Seq::new(st.run, |i: int| st.prev).push(px));
    }
}

/// What holds after the first `k` pixels of `ps` have gone through the
/// encoder, whatever bytes `tail` follow its output: the pending run repeats
/// the last pixel and is empty at the end of the image, and the decoder,
/// walking the output, has given every pixel but the pending run and stands
/// where the encoder stands.
proof fn lemma_encode_prefix_decodes(ps: Seq<Pixel>, k: nat, tail: Seq<u8>)
    requires
        k <= ps.len(),
    ensures
        encode_prefix(ps, k).0.run <= k,
        encode_prefix(ps, k).0.run < 62,
        encode_prefix(ps, k).0.cache.len() == 64,
        ps.subrange(k - encode_prefix(ps, k).0.run, k as int) == Seq::new(
            encode_prefix(ps, k).0.run,
            |i: int| encode_prefix(ps, k).0.prev,
        ),
        k == ps.len() ==> encode_prefix(ps, k).0.run == 0,
        decode_from(encode_prefix(ps, k).1 + tail, 0, start_decode_state()) == ps.subrange(
            0,
            k - encode_prefix(ps, k).0.run,
        ) + decode_from(
            encode_prefix(ps, k).1 + tail,
            encode_prefix(ps, k).1.len() as int,
            decoder_view(encode_prefix(ps, k).0),
        ),
    decreases k,
{
    if k == 0 {
        assert(encode_prefix(ps, 0).1 + tail =~= tail);
        assert(ps.subrange(0, 0) =~= Seq::new(0, |i: int| start_encode_state().prev));
        assert(ps.subrange(0, 0) + decode_from(tail, 0, start_decode_state()) =~= decode_from(
            tail,
            0,
            start_decode_state(),
        ));
    } else {
        let k1 = (k - 1) as nat;
        let prior = encode_prefix(ps, k1);
        let st = prior.0;
        let out = prior.1;
        let px = ps[k1 as int];
        let last = k == ps.len();
        let next = encode_step(st, px, last);
        let st2 = next.0;
        let more = next.1;
        assert(encode_prefix(ps, k) == (st2, out + more));
        lemma_encode_prefix_decodes(ps, k1, more + tail);
        let s = (out + more) + tail;
        assert(out + (more + tail) =~= s);
        let here = out.len() as int;
        assert(s.subrange(here, here + more.len()) =~= more);
        lemma_step_decodes(st, px, last, s, here);
        let done = ps.subrange(0, k1 - st.run);
        let given = handed_over(st, px, last);
        let pend = Seq::new(st2.run, |i: int| st2.prev);
        assert(ps.subrange(k1 - st.run, k as int) =~= ps.subrange(k1 - st.run, k1 as int).push(px));
        assert(ps.subrange(0, k as int) =~= done + ps.subrange(k1 - st.run, k as int));
        assert(ps.subrange(0, k as int) =~= (done + given) + pend);
        assert(ps.subrange(0, k - st2.run) =~= done + given);
        assert(ps.subrange(k - st2.run, k as int) =~= pend);
        assert(decode_from(s, 0, start_decode_state()) =~= (done + given) + decode_from(
            s,
            here + more.len(),
            decoder_view(st2),
        ));
    }
}

/// The first `m` pixels of a raw buffer, written out again, are the
/// buffer's first `m` pixels' worth of bytes.
proof fn lemma_pixels_bytes_of(data: Seq<u8>, has_alpha: bool, m: nat)
    requires
        m * pixel_size(has_alpha) <= data.len(),
    ensures
        m <= pixels_of(data, has_alpha).len(),
        pixels_bytes(pixels_of(data, has_alpha).subrange(0, m as int), has_alpha) == data.subrange(
            0,
            (m * pixel_size(has_alpha)) as int,
        ),
    decreases m,
{
    let sz = pixel_size(has_alpha) as int;
    let ps = pixels_of(data, has_alpha);
    assert(m <= (data.len() as int) / sz) by (nonlinear_arith)
        requires
            m * sz <= data.len(),
            sz == 3 || sz == 4,
    ;
    if m == 0 {
        assert(ps.subrange(0, 0) =~= Seq::<Pixel>::empty());
        assert(data.subrange(0, 0) =~= Seq::<u8>::empty());
    } else {
        let m1 = (m - 1) as nat;
        assert(m1 * sz + sz == m * sz) by (nonlinear_arith)
            requires
                m1 == m - 1,
        ;
        lemma_pixels_bytes_of(data, has_alpha, m1);
        let front = ps.subrange(0, m as int);
        assert(front.drop_last() =~= ps.subrange(0, m1 as int));
        assert(front.last() == pixel_at(data, m1 * sz, has_alpha));
        assert(pixel_bytes(front.last(), has_alpha) =~= data.subrange(m1 * sz, m * sz));
        assert(data.subrange(0, m1 * sz) + data.subrange(m1 * sz, m * sz) =~= data.subrange(
            0,
            m * sz,
        ));
    }
}

/// Decoding the encoding of a raw buffer of `width * height` pixels gives
/// back the same bytes, the same dimensions and the same two flags.
pub proof fn lemma_round_trip(
    data: Seq<u8>,
    width: usize,
    height: usize,
    has_alpha: bool,
    s_rgb: bool,
)
    requires
        data.len() == width * height * pixel_size(has_alpha),
        width <= u32::MAX,
        height <= u32::MAX,
    ensures
        decoded(encoded(data, width, height, has_alpha, s_rgb)) == Ok::<
            (Seq<u8>, u32, u32, bool, bool),
            DecodeError,
        >((data, width as u32, height as u32, has_alpha, s_rgb)),
{
    let sz = pixel_size(has_alpha) as int;
    let ps = pixels_of(data, has_alpha);
    let n = width * height;
    assert((data.len() as int) / sz == n) by (nonlinear_arith)
        requires
            data.len() == n * sz,
            sz == 3 || sz == 4,
    ;
    let h = header_bytes(width as u32, height as u32, has_alpha, s_rgb);
    let o = encode_pixels(ps);
    let e = encoded(data, width, height, has_alpha, s_rgb);
    assert(e == h + o + footer());
    lemma_header_round_trip(width as u32, height as u32, has_alpha, s_rgb);
    assert(forall|i: int| 0 <= i < 14 ==> e[i] == h[i]);
    assert(e.subrange(0, 4) =~= h.subrange(0, 4));
    assert(header_fields(e) == header_fields(h));
    lemma_encode_prefix_decodes(ps, ps.len(), Seq::empty());
    assert(o + Seq::<u8>::empty() =~= o);
    assert(opcode_region(e) =~= o);
    assert(ps.subrange(0, ps.len() as int) =~= ps);
    assert(decode_from(o, 0, start_decode_state()) =~= ps);
    lemma_pixels_bytes_of(data, has_alpha, ps.len());
    assert(data.subrange(0, ps.len() * sz) =~= data);
}

/// Encoding what decoding an encoding gave, with the dimensions and flags
/// that it gave, writes the same stream again.
pub proof fn lemma_reencode(data: Seq<u8>, width: usize, height: usize, has_alpha: bool, s_rgb: bool)
    requires
        data.len() == width * height * pixel_size(has_alpha),
        width <= u32::MAX,
        height <= u32::MAX,
    ensures
        decoded(encoded(data, width, height, has_alpha, s_rgb)) matches Ok(v) && encoded(
            v.0,
            v.1 as usize,
            v.2 as usize,
            v.3,
            v.4,
        ) == encoded(data, width, height, has_alpha, s_rgb),
{
    lemma_round_trip(data, width, height, has_alpha, s_rgb);
}

/// A pixel whose colour channels each differ from the previous pixel's by
/// -2 to +1 (modulo 256), with alpha unchanged, and which is not in the
/// cache, takes the one-byte small-difference opcode, after any pending
/// run.
pub proof fn lemma_small_change_takes_diff(st: EncodeState, px: Pixel, last: bool)
    requires
        px != st.prev,
        st.cache[hash_of(px)] != px,
        wrap_add(wrap_sub(px.r, st.prev.r), 2) < 4,
        wrap_add(wrap_sub(px.g, st.prev.g), 2) < 4,
        wrap_add(wrap_sub(px.b, st.prev.b), 2) < 4,
        px.a == st.prev.a,
    ensures
        diff_op(pixel_sub(px, st.prev)) matches Some(b) && 0x40 <= b < 0x80 && encode_step(
            st,
            px,
            last,
        ).1 == pending_run(st).push(b),
{
    reveal(encode_step);
    let d = pixel_sub(px, st.prev);
    assert(diff_op(d) is Some);
    assert(literal_op(d, px) == seq![diff_op(d)->Some_0]);
    assert(pending_run(st) + seq![diff_op(d)->Some_0] =~= pending_run(st).push(diff_op(d)->Some_0));
}

/// A pixel whose alpha differs from the previous pixel's, and which is not
/// in the cache, takes the five-byte opcode with all four channels, after
/// any pending run.
pub proof fn lemma_alpha_change_takes_rgba(st: EncodeState, px: Pixel, last: bool)
    requires
        px.a != st.prev.a,
        st.cache[hash_of(px)] != px,
    ensures
        encode_step(st, px, last).1 == pending_run(st) + seq![0xffu8, px.r, px.g, px.b, px.a],
{
    reveal(encode_step);
    let d = pixel_sub(px, st.prev);
    assert(d.a != 0);
}

/// A pixel that comes back after one other pixel of another cache slot,
/// where neither repeats the pixel before it, takes the one-byte
/// cache-index opcode of its slot.
pub proof fn lemma_return_takes_index(
    st: EncodeState,
    first: Pixel,
    other: Pixel,
    l1: bool,
    l2: bool,
    l3: bool,
)
    requires
        st.cache.len() == 64,
        first != st.prev,
        other != first,
        hash_of(other) != hash_of(first),
    ensures
        ({
            let s1 = encode_step(st, first, l1).0;
            let s2 = encode_step(s1, other, l2).0;
            encode_step(s2, first, l3).1 == seq![hash_of(first) as u8]
        }),
{
    reveal(encode_step);
    let s1 = encode_step(st, first, l1).0;
    let s2 = encode_step(s1, other, l2).0;
    assert(s1.cache[hash_of(first)] == first);
    assert(s2.cache[hash_of(first)] == first);
    assert(pending_run(s2) =~= Seq::<u8>::empty());
    assert(pending_run(s2).push(hash_of(first) as u8) =~= seq![hash_of(first) as u8]);
}

} // verus!
