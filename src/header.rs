//! The fixed 14-byte header and the 8-byte footer of a stream.
use vstd::prelude::*;

verus! {

/// Length of the header.
pub const QOI_HEADER_SIZE: usize = 14;

/// Length of the footer.
pub const QOI_FOOTER_SIZE: usize = 8;

/// Why a byte stream could not be decoded.
#[derive(Clone, Copy, PartialEq, Eq, Structural, Debug)]
pub enum DecodeError {
    /// The stream is shorter than a header and a footer.
    TruncatedInput,
    /// The stream does not start with the magic tag.
    MissingMagic,
}

/// The magic tag that starts every stream: ASCII `qoif`.
pub open spec fn magic() -> Seq<u8> {
    seq![0x71, 0x6f, 0x69, 0x66]
}

/// The footer that ends every stream: seven zero bytes, then a one.
pub open spec fn footer() -> Seq<u8> {
    seq![0, 0, 0, 0, 0, 0, 0, 1]
}

/// `x` as four bytes, most significant first.
pub open spec fn be_bytes(x: u32) -> Seq<u8> {
    seq![
        (x / 0x1000000) as u8,
        ((x / 0x10000) % 0x100) as u8,
        ((x / 0x100) % 0x100) as u8,
        (x % 0x100) as u8,
    ]
}

/// The number that the four bytes of `data` from `at` on give, most
/// significant first.
pub open spec fn be_value(data: Seq<u8>, at: int) -> u32 {
    (data[at] * 0x1000000 + data[at + 1] * 0x10000 + data[at + 2] * 0x100 + data[at + 3]) as u32
}

/// The channel byte: 4 with alpha, 3 without.
pub open spec fn channels_byte(has_alpha: bool) -> u8 {
    if has_alpha {
        4
    } else {
        3
    }
}

/// The header of an image of `width` by `height` pixels.
pub open spec fn header_bytes(width: u32, height: u32, has_alpha: bool, s_rgb: bool) -> Seq<u8> {
    magic() + be_bytes(width) + be_bytes(height) + seq![
        channels_byte(has_alpha),
        if s_rgb {
            1u8
        } else {
            0u8
        },
    ]
}

/// What the first 14 bytes of `data` say: width, height, whether pixels
/// have alpha (channel byte 4), whether the colour space is sRGB (nonzero
/// byte); an error when the magic tag is not there.
pub open spec fn header_fields(data: Seq<u8>) -> Result<(u32, u32, bool, bool), DecodeError> {
    if data.subrange(0, 4) == magic() {
        Ok((be_value(data, 4), be_value(data, 8), data[12] == 4, data[13] != 0))
    } else {
        Err(DecodeError::MissingMagic)
    }
}

/// The header for an image of `width` by `height` pixels; each dimension is
/// written as a 32-bit number, so it is taken modulo 2^32.
pub fn encode_header(width: usize, height: usize, has_alpha: bool, s_rgb: bool) -> (r: [u8; 14])
    ensures
        r@ == header_bytes(width as u32, height as u32, has_alpha, s_rgb),
{
    #[verifier::truncate]
    let w = width as u32;
    #[verifier::truncate]
    let h = height as u32;
    let channels: u8 = if has_alpha {
        4
    } else {
        3
    };
    let colorspace: u8 = if s_rgb {
        1
    } else {
        0
    };
    let header: [u8; 14] = [
        0x71,
        0x6f,
        0x69,
        0x66,
        (w / 0x1000000) as u8,
        ((w / 0x10000) % 0x100) as u8,
        ((w / 0x100) % 0x100) as u8,
        (w % 0x100) as u8,
        (h / 0x1000000) as u8,
        ((h / 0x10000) % 0x100) as u8,
        ((h / 0x100) % 0x100) as u8,
        (h % 0x100) as u8,
        channels,
        colorspace,
    ];
    assert(header@ =~= header_bytes(w, h, has_alpha, s_rgb));
    header
}

/// Reads the header at the start of `data`.
pub fn try_decode_header(data: &[u8]) -> (r: Result<(u32, u32, bool, bool), DecodeError>)
    requires
        data@.len() >= 14,
    ensures
        r == header_fields(data@),
{
    if !(data[0] == 0x71 && data[1] == 0x6f && data[2] == 0x69 && data[3] == 0x66) {
        assert(data@.subrange(0, 4)[0] != magic()[0] || data@.subrange(0, 4)[1] != magic()[1]
            || data@.subrange(0, 4)[2] != magic()[2] || data@.subrange(0, 4)[3] != magic()[3]);
        return Err(DecodeError::MissingMagic);
    }
    assert(data@.subrange(0, 4) =~= magic());
    let width = (data[4] as u32) * 0x1000000 + (data[5] as u32) * 0x10000 + (data[6] as u32)
        * 0x100 + (data[7] as u32);
    let height = (data[8] as u32) * 0x1000000 + (data[9] as u32) * 0x10000 + (data[10] as u32)
        * 0x100 + (data[11] as u32);
    let channels = data[12] == 4;
    let colorspace = data[13] != 0;
    Ok((width, height, channels, colorspace))
}

/// Reading a written header gives back what was written.
pub proof fn lemma_header_round_trip(width: u32, height: u32, has_alpha: bool, s_rgb: bool)
    ensures
        header_bytes(width, height, has_alpha, s_rgb).len() == 14,
        header_fields(header_bytes(width, height, has_alpha, s_rgb)) == Ok::<
            (u32, u32, bool, bool),
            DecodeError,
        >((width, height, has_alpha, s_rgb)),
{
    let h = header_bytes(width, height, has_alpha, s_rgb);
    assert(h.subrange(0, 4) =~= magic());
    lemma_be_round_trip(width);
    lemma_be_round_trip(height);
    assert(be_value(h, 4) == be_value(be_bytes(width), 0));
    assert(be_value(h, 8) == be_value(be_bytes(height), 0));
}

/// Four big-endian bytes read back as the number they were written from.
pub proof fn lemma_be_round_trip(x: u32)
    ensures
        be_value(be_bytes(x), 0) == x,
{
    let b = be_bytes(x);
    assert(((x / 0x1000000) as u8) * 0x1000000 + (((x / 0x10000) % 0x100) as u8) * 0x10000 + (((x
        / 0x100) % 0x100) as u8) * 0x100 + ((x % 0x100) as u8) == x) by (bit_vector);
}

} // verus!
