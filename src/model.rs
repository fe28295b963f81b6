//! The wire format as mathematical functions: what the encoder emits for a
//! pixel sequence, and what the decoder reconstructs from a byte sequence.
use vstd::prelude::*;

use crate::cache::{cache_put, empty_cache};
use crate::pixel::{hash_of, wadd_spec, wsub_spec, Channels, ColorSpace, ImageView, Pixel};

verus! {

/// The previous pixel at stream start.
pub open spec fn start_pixel() -> Pixel {
    Pixel(0, 0, 0, 255)
}

/// The four magic bytes `"qoif"`.
pub open spec fn magic() -> Seq<u8> {
    seq![0x71u8, 0x6fu8, 0x69u8, 0x66u8]
}

/// The end-of-stream sentinel: seven zero bytes and a one.
pub open spec fn footer() -> Seq<u8> {
    seq![0u8, 0u8, 0u8, 0u8, 0u8, 0u8, 0u8, 1u8]
}

/// A 32-bit value as four big-endian bytes.
pub open spec fn be_bytes(w: u32) -> Seq<u8> {
    seq![
        (w / 0x100_0000) as u8,
        ((w / 0x1_0000) % 256) as u8,
        ((w / 0x100) % 256) as u8,
        (w % 256) as u8,
    ]
}

/// The 32-bit value of the four big-endian bytes at `at`.
pub open spec fn be_value(b: Seq<u8>, at: int) -> u32 {
    (b[at] * 0x100_0000 + b[at + 1] * 0x1_0000 + b[at + 2] * 0x100 + b[at + 3]) as u32
}

pub open spec fn channels_code(c: Channels) -> u8 {
    match c {
        Channels::Rgb => 3,
        Channels::Rgba => 4,
    }
}

pub open spec fn colorspace_code(c: ColorSpace) -> u8 {
    match c {
        ColorSpace::LinearAlpha => 0,
        ColorSpace::AllLinear => 1,
    }
}

/// The 14-byte header of an image.
pub open spec fn header_bytes(img: ImageView) -> Seq<u8> {
    magic() + be_bytes(img.width) + be_bytes(img.height) + seq![
        channels_code(img.channels),
        colorspace_code(img.colorspace),
    ]
}

/// A pixel as the encoder sees it: alpha is 255 in a three-channel image.
pub open spec fn resolve(p: Pixel, c: Channels) -> Pixel {
    match c {
        Channels::Rgb => Pixel(p.0, p.1, p.2, 255),
        Channels::Rgba => p,
    }
}

pub open spec fn resolve_all(px: Seq<Pixel>, c: Channels) -> Seq<Pixel> {
    px.map_values(|p: Pixel| resolve(p, c))
}

/// Number of pixels from `i` on that equal `prev`, at most `cap`.
pub open spec fn run_length(px: Seq<Pixel>, i: int, prev: Pixel, cap: nat) -> nat
    decreases cap,
{
    if cap == 0 || i < 0 || i >= px.len() || px[i] != prev {
        0
    } else {
        1 + run_length(px, i + 1, prev, (cap - 1) as nat)
    }
}

/// The longest run a single RUN op can carry.
pub open spec fn max_run() -> nat {
    62
}

/// The one-byte DIFF op for `curr` after `prev`, when each channel delta lies in -2..1.
pub open spec fn diff_code(prev: Pixel, curr: Pixel) -> Option<u8> {
    let dr = wadd_spec(wsub_spec(curr.0, prev.0), 2);
    let dg = wadd_spec(wsub_spec(curr.1, prev.1), 2);
    let db = wadd_spec(wsub_spec(curr.2, prev.2), 2);
    if dr <= 3 && dg <= 3 && db <= 3 {
        Some((0x40 + 16 * dr + 4 * dg + db) as u8)
    } else {
        None
    }
}

/// The two-byte LUMA op for `curr` after `prev`, when the green delta lies in
/// -32..31 and the red and blue deltas relative to it in -8..7.
pub open spec fn luma_code(prev: Pixel, curr: Pixel) -> Option<(u8, u8)> {
    let dg = wsub_spec(curr.1, prev.1);
    let dr = wadd_spec(wsub_spec(wsub_spec(curr.0, prev.0), dg), 8);
    let db = wadd_spec(wsub_spec(wsub_spec(curr.2, prev.2), dg), 8);
    let g = wadd_spec(dg, 32);
    if g <= 63 && dr <= 15 && db <= 15 {
        Some(((0x80 + g) as u8, (16 * dr + db) as u8))
    } else {
        None
    }
}

/// The pixel that a DIFF op with six-bit payload `d` yields after `prev`.
pub open spec fn diff_pixel(prev: Pixel, d: u8) -> Pixel {
    Pixel(
        wsub_spec(wadd_spec(prev.0, d / 16), 2),
        wsub_spec(wadd_spec(prev.1, (d / 4) % 4), 2),
        wsub_spec(wadd_spec(prev.2, d % 4), 2),
        prev.3,
    )
}

/// The pixel that a LUMA op with six-bit payload `d` and second byte `b` yields after `prev`.
pub open spec fn luma_pixel(prev: Pixel, d: u8, b: u8) -> Pixel {
    let dg = wsub_spec(d, 32);
    let dr = wadd_spec(wsub_spec(b / 16, 8), dg);
    let db = wadd_spec(wsub_spec(b % 16, 8), dg);
    Pixel(wadd_spec(prev.0, dr), wadd_spec(prev.1, dg), wadd_spec(prev.2, db), prev.3)
}

/// The op the encoder emits at pixel `i`, and how many pixels it covers.
pub open spec fn enc_op(px: Seq<Pixel>, i: int, prev: Pixel, cache: Seq<Pixel>) -> (Seq<u8>, nat) {
    let p = px[i];
    let h = hash_of(p);
    if cache[h] == p {
        (seq![h as u8], 1)
    } else if p.3 == prev.3 {
        let n = run_length(px, i, prev, max_run());
        if n > 0 {
            (seq![(0xc0 + n - 1) as u8], n)
        } else if diff_code(prev, p) is Some {
            (seq![diff_code(prev, p)->0], 1)
        } else if luma_code(prev, p) is Some {
            let (b0, b1) = luma_code(prev, p)->0;
            (seq![b0, b1], 1)
        } else {
            (seq![0xfeu8, p.0, p.1, p.2], 1)
        }
    } else {
        (seq![0xffu8, p.0, p.1, p.2, p.3], 1)
    }
}

/// `acc` followed by the ops for pixels `i..`, starting from the given state.
/// (Every op covers between one pixel and the pixels left; see `lemma_run_cap`.)
#[verifier::opaque]
pub open spec fn enc_from(
    px: Seq<Pixel>,
    i: int,
    prev: Pixel,
    cache: Seq<Pixel>,
    acc: Seq<u8>,
) -> Seq<u8>
    decreases px.len() - i,
{
    if 0 <= i < px.len() {
        let (b, n) = enc_op(px, i, prev, cache);
        if 0 < n <= px.len() - i {
            enc_from(px, i + n, px[i], cache_put(cache, px[i]), acc + b)
        } else {
            acc
        }
    } else {
        acc
    }
}

/// The full byte stream of an image: header, ops, footer.
pub open spec fn encoded(img: ImageView) -> Seq<u8> {
    enc_from(
        resolve_all(img.pixels, img.channels),
        0,
        start_pixel(),
        empty_cache(),
        header_bytes(img),
    ) + footer()
}

/// Whether an op starts at `pos` and all of its bytes are there: five for
/// the RGBA literal, four for the RGB literal, two for LUMA, one otherwise.
pub open spec fn op_fits(b: Seq<u8>, pos: int) -> bool {
    &&& 0 <= pos < b.len()
    &&& b[pos] == 0xff ==> b.len() - pos >= 5
    &&& b[pos] == 0xfe ==> b.len() - pos >= 4
    &&& 0x80 <= b[pos] < 0xc0 ==> b.len() - pos >= 2
}

/// The op that starts at `pos`: bytes consumed, pixels produced, last pixel.
pub open spec fn dec_op(b: Seq<u8>, pos: int, prev: Pixel, cache: Seq<Pixel>) -> (
    nat,
    Seq<Pixel>,
    Pixel,
) {
    let t = b[pos];
    if t == 0xff {
        let p = Pixel(b[pos + 1], b[pos + 2], b[pos + 3], b[pos + 4]);
        (5, seq![p], p)
    } else if t == 0xfe {
        let p = Pixel(b[pos + 1], b[pos + 2], b[pos + 3], prev.3);
        (4, seq![p], p)
    } else if t < 0x40 {
        (1, seq![cache[t as int]], cache[t as int])
    } else if t < 0x80 {
        (1, seq![diff_pixel(prev, (t % 64) as u8)], diff_pixel(prev, (t % 64) as u8))
    } else if t < 0xc0 {
        let p = luma_pixel(prev, (t % 64) as u8, b[pos + 1]);
        (2, seq![p], p)
    } else {
        (1, Seq::new((t % 64 + 1) as nat, |k: int| prev), prev)
    }
}

/// Decoding the ops from `pos` on, after the pixels `acc`: the pixels, or
/// the offset at which decoding failed. The loop runs while more than the
/// footer's eight bytes remain, so no op reads past the end.
#[verifier::opaque]
pub open spec fn dec_from(
    b: Seq<u8>,
    pos: int,
    prev: Pixel,
    cache: Seq<Pixel>,
    acc: Seq<Pixel>,
) -> Result<Seq<Pixel>, int>
    decreases b.len() - pos,
{
    if 0 <= pos && pos + 8 < b.len() {
        let (n, out, last) = dec_op(b, pos, prev, cache);
        if 0 < n <= b.len() - pos {
            dec_from(b, pos + n, last, cache_put(cache, last), acc + out)
        } else {
            Err(pos)
        }
    } else if 0 <= pos && b.subrange(pos, b.len() as int) == footer() {
        Ok(acc)
    } else {
        Err(pos)
    }
}

pub open spec fn channels_of(c: u8) -> Channels {
    if c == 3 {
        Channels::Rgb
    } else {
        Channels::Rgba
    }
}

pub open spec fn colorspace_of(c: u8) -> ColorSpace {
    if c == 0 {
        ColorSpace::LinearAlpha
    } else {
        ColorSpace::AllLinear
    }
}

/// What decoding `b` gives: the image, or the offset of the failure.
pub open spec fn decoded(b: Seq<u8>) -> Result<ImageView, int> {
    if b.len() < 4 || b.subrange(0, 4) != magic() {
        Err(0)
    } else if b.len() <= 14 {
        Err(b.len() - 1)
    } else if b[12] != 3 && b[12] != 4 {
        Err(12)
    } else if b[13] != 0 && b[13] != 1 {
        Err(13)
    } else {
        match dec_from(b, 14, start_pixel(), empty_cache(), seq![]) {
            Ok(px) => Ok(
                ImageView {
                    pixels: px,
                    width: be_value(b, 4),
                    height: be_value(b, 8),
                    channels: channels_of(b[12]),
                    colorspace: colorspace_of(b[13]),
                },
            ),
            Err(e) => Err(e),
        }
    }
}

} // verus!

verus! {

/// A run never exceeds its cap nor the pixels that are left, and every
/// pixel in it equals `prev`.
pub proof fn lemma_run_length(px: Seq<Pixel>, i: int, prev: Pixel, cap: nat)
    requires
        0 <= i,
    ensures
        run_length(px, i, prev, cap) <= cap,
        i + run_length(px, i, prev, cap) <= px.len() || run_length(px, i, prev, cap) == 0,
        forall|k: int| 0 <= k < run_length(px, i, prev, cap) ==> #[trigger] px[i + k] == prev,
    decreases cap,
{
    if cap == 0 || i >= px.len() || px[i] != prev {
    } else {
        lemma_run_length(px, i + 1, prev, (cap - 1) as nat);
        assert forall|k: int| 0 <= k < run_length(px, i, prev, cap) implies #[trigger] px[i + k] == prev by {
            if k > 0 {
                assert(px[(i + 1) + (k - 1)] == prev);
            }
        }
    }
}

} // verus!

verus! {

/// A decoding failure lies between the starting offset and the end of the bytes.
pub proof fn lemma_dec_error_offset(
    b: Seq<u8>,
    pos: int,
    prev: Pixel,
    cache: Seq<Pixel>,
    acc: Seq<Pixel>,
)
    requires
        0 <= pos <= b.len(),
    ensures
        dec_from(b, pos, prev, cache, acc) is Err ==> pos <= dec_from(
            b,
            pos,
            prev,
            cache,
            acc,
        )->Err_0 <= b.len(),
    decreases b.len() - pos,
{
    reveal(dec_from);
    if pos + 8 < b.len() {
        let (n, out, last) = dec_op(b, pos, prev, cache);
        if 0 < n <= b.len() - pos {
            lemma_dec_error_offset(b, pos + n, last, cache_put(cache, last), acc + out);
        }
    }
}

} // verus!

verus! {

/// The last pixel of `s` whose hash is `h`, or the all-zero pixel if there is none.
pub open spec fn last_with_hash(s: Seq<Pixel>, h: int) -> Pixel
    decreases s.len(),
{
    if s.len() == 0 {
        Pixel(0, 0, 0, 0)
    } else if hash_of(s.last()) == h {
        s.last()
    } else {
        last_with_hash(s.drop_last(), h)
    }
}

/// The cache once the pixels `s` have been processed: each slot holds the
/// last of them with that hash.
pub open spec fn cache_of(s: Seq<Pixel>) -> Seq<Pixel> {
    Seq::new(64, |h: int| last_with_hash(s, h))
}

/// The previous pixel once the pixels `s` have been processed.
pub open spec fn prev_of(s: Seq<Pixel>) -> Pixel {
    if s.len() == 0 {
        start_pixel()
    } else {
        s.last()
    }
}

} // verus!
