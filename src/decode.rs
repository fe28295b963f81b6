//! The decoder: header checks, then op dispatch until the footer.
use vstd::prelude::*;

use crate::cache::{empty_cache, ColorCache};
use crate::model::{
    be_value, channels_of, lemma_dec_error_offset, colorspace_of, dec_from, dec_op, decoded, diff_pixel, footer,
    luma_pixel, magic, op_fits, start_pixel,
};
use crate::pixel::{wadd, wsub, Channels, ColorSpace, DecodeError, Image, Pixel};

verus! {

/// Decodes a byte stream into an image, or reports the offset at which it
/// became impossible.
pub fn decode(encoded: &[u8]) -> (r: Result<Image, DecodeError>)
    ensures
        r is Ok ==> decoded(encoded@) == Ok::<_, int>(r->Ok_0@),
        r is Err ==> decoded(encoded@) == Err::<crate::pixel::ImageView, _>(r->Err_0.loc as int),
{
    if encoded.len() < 4 || encoded[0] != 0x71 || encoded[1] != 0x6f || encoded[2] != 0x69
        || encoded[3] != 0x66 {
        assert(encoded@.len() >= 4 ==> encoded@.subrange(0, 4) != magic()) by {
            if encoded@.len() >= 4 && encoded@.subrange(0, 4) == magic() {
                assert(encoded@[0] == encoded@.subrange(0, 4)[0]);
                assert(encoded@[1] == encoded@.subrange(0, 4)[1]);
                assert(encoded@[2] == encoded@.subrange(0, 4)[2]);
                assert(encoded@[3] == encoded@.subrange(0, 4)[3]);
            }
        }
        return Err(DecodeError { loc: 0 });
    }
    assert(encoded@.subrange(0, 4) =~= magic());
    if encoded.len() <= 14 {
        return Err(DecodeError { loc: encoded.len() - 1 });
    }
    let channels = match encoded[12] {
        3 => Channels::Rgb,
        4 => Channels::Rgba,
        _ => return Err(DecodeError { loc: 12 }),
    };
    let colorspace = match encoded[13] {
        0 => ColorSpace::LinearAlpha,
        1 => ColorSpace::AllLinear,
        _ => return Err(DecodeError { loc: 13 }),
    };
    let width = read_be(encoded, 4);
    let height = read_be(encoded, 8);
    let mut pixels: Vec<Pixel> = Vec::new();
    proof {
        assert(pixels@ =~= seq![]);
        lemma_dec_error_offset(encoded@, 14, start_pixel(), empty_cache(), pixels@);
    }
    match decode_pixels(encoded, &mut pixels) {
        Ok(()) => Ok(Image::new(pixels, width, height, channels, colorspace)),
        Err(e) => Err(e),
    }
}

/// The big-endian 32-bit value of the four bytes at `at`.
fn read_be(b: &[u8], at: usize) -> (r: u32)
    requires
        at + 4 <= b@.len(),
    ensures
        r == be_value(b@, at as int),
{
    (b[at] as u32) * 0x100_0000 + (b[at + 1] as u32) * 0x1_0000 + (b[at + 2] as u32) * 0x100
        + (b[at + 3] as u32)
}

/// Whether the bytes from `pos` on are exactly the footer.
fn is_footer(b: &[u8], pos: usize) -> (r: bool)
    requires
        pos <= b@.len(),
    ensures
        r == (b@.subrange(pos as int, b@.len() as int) == footer()),
{
    let ghost rest = b@.subrange(pos as int, b@.len() as int);
    if b.len() - pos != 8 {
        assert(rest.len() != footer().len());
        return false;
    }
    let r = b[pos] == 0 && b[pos + 1] == 0 && b[pos + 2] == 0 && b[pos + 3] == 0 && b[pos + 4] == 0
        && b[pos + 5] == 0 && b[pos + 6] == 0 && b[pos + 7] == 1;
    if r {
        assert(rest =~= footer());
    } else {
        assert(rest != footer()) by {
            if rest == footer() {
                assert(rest[0] == b@[pos as int]);
                assert(rest[1] == b@[pos + 1]);
                assert(rest[2] == b@[pos + 2]);
                assert(rest[3] == b@[pos + 3]);
                assert(rest[4] == b@[pos + 4]);
                assert(rest[5] == b@[pos + 5]);
                assert(rest[6] == b@[pos + 6]);
                assert(rest[7] == b@[pos + 7]);
            }
        }
    }
    r
}

/// Decodes the op stream that follows the header, appending to `res`.
fn decode_pixels(encoded: &[u8], res: &mut Vec<Pixel>) -> (r: Result<(), DecodeError>)
    requires
        14 <= encoded@.len(),
    ensures
        ({
            let d = dec_from(encoded@, 14, start_pixel(), empty_cache(), old(res)@);
            &&& d is Ok ==> r is Ok && final(res)@ == d->Ok_0
            &&& d is Err ==> r == Err::<(), _>(DecodeError { loc: d->Err_0 as usize })
        }),
{
    let mut loc: usize = 14;
    let mut prev = Pixel(0, 0, 0, 255);
    let mut arr = ColorCache::new();
    while encoded.len() - loc > 8
        invariant
            14 <= loc <= encoded@.len(),
            arr@.len() == 64,
            dec_from(encoded@, 14, start_pixel(), empty_cache(), old(res)@) == dec_from(
                encoded@,
                loc as int,
                prev,
                arr@,
                res@,
            ),
        decreases encoded@.len() - loc,
    {
        reveal(dec_from);
        let (s, last) = match decode_pixel(&arr, prev, encoded, loc, res) {
            Some(x) => x,
            None => return Err(DecodeError { loc }),
        };
        loc = loc + s;
        arr.put(last);
        prev = last;
    }
    proof {
        lemma_dec_error_offset(encoded@, loc as int, prev, arr@, res@);
    }
    reveal(dec_from);
    if is_footer(encoded, loc) {
        Ok(())
    } else {
        Err(DecodeError { loc })
    }
}

/// Decodes the op at `pos`, appending its pixels to `v`; returns the bytes
/// it took and the last pixel it produced. Fails, leaving `v` as it was,
/// when the op runs past the end of the bytes.
fn decode_pixel(arr: &ColorCache, prev: Pixel, i: &[u8], pos: usize, v: &mut Vec<Pixel>) -> (r:
    Option<(usize, Pixel)>)
    requires
        pos <= i@.len(),
        arr@.len() == 64,
    ensures
        r is None <==> !op_fits(i@, pos as int),
        r is None ==> final(v)@ == old(v)@,
        r is Some ==> ({
            let (n, out, last) = dec_op(i@, pos as int, prev, arr@);
            &&& r == Some((n as usize, last))
            &&& final(v)@ == old(v)@ + out
            &&& 0 < n <= 5
            &&& pos + n <= i@.len()
        }),
{
    if pos >= i.len() {
        return None;
    }
    let t = i[pos];
    let left = i.len() - pos;
    if t == 255 {
        if left < 5 {
            return None;
        }
        let res = Pixel(i[pos + 1], i[pos + 2], i[pos + 3], i[pos + 4]);
        v.push(res);
        assert(final(v)@ =~= old(v)@ + seq![res]);
        Some((5, res))
    } else if t == 254 {
        if left < 4 {
            return None;
        }
        let res = Pixel(i[pos + 1], i[pos + 2], i[pos + 3], prev.3);
        v.push(res);
        assert(final(v)@ =~= old(v)@ + seq![res]);
        Some((4, res))
    } else {
        match t / 64 {
            0 => {
                let res = decode_idx(arr, t);
                v.push(res);
                assert(final(v)@ =~= old(v)@ + seq![res]);
                Some((1, res))
            },
            1 => {
                let res = decode_diff(prev, t);
                v.push(res);
                assert(final(v)@ =~= old(v)@ + seq![res]);
                Some((1, res))
            },
            2 => {
                if left < 2 {
                    return None;
                }
                let res = decode_luma(prev, t, i[pos + 1]);
                v.push(res);
                assert(final(v)@ =~= old(v)@ + seq![res]);
                Some((2, res))
            },
            _ => {
                decode_run(prev, t, v);
                Some((1, prev))
            },
        }
    }
}

/// INDEX: the pixel in cache slot `b mod 64`.
fn decode_idx(arr: &ColorCache, b: u8) -> (r: Pixel)
    requires
        arr@.len() == 64,
    ensures
        r == arr@[(b % 64) as int],
{
    arr.get((b % 64) as usize)
}

/// DIFF: `prev` with the three two-bit deltas of `b` applied.
fn decode_diff(prev: Pixel, b: u8) -> (r: Pixel)
    ensures
        r == diff_pixel(prev, b % 64),
{
    let d = b % 64;
    Pixel(
        wsub(wadd(prev.0, d / 16), 2),
        wsub(wadd(prev.1, (d / 4) % 4), 2),
        wsub(wadd(prev.2, d % 4), 2),
        prev.3,
    )
}

/// LUMA: `prev` with the green delta of `b0` and the red and blue deltas of `b1`.
fn decode_luma(prev: Pixel, b0: u8, b1: u8) -> (r: Pixel)
    ensures
        r == luma_pixel(prev, b0 % 64, b1),
{
    let dg = wsub(b0 % 64, 32);
    let dr = wsub(b1 / 16, 8);
    let db = wsub(b1 % 16, 8);

    let dr = wadd(dr, dg);
    let db = wadd(db, dg);

    Pixel(wadd(prev.0, dr), wadd(prev.1, dg), wadd(prev.2, db), prev.3)
}

/// RUN: appends `b mod 64 + 1` copies of `prev`.
fn decode_run(prev: Pixel, b: u8, v: &mut Vec<Pixel>)
    ensures
        final(v)@ == old(v)@ + Seq::new((b % 64 + 1) as nat, |k: int| prev),
{
    let n: u8 = b % 64 + 1;
    let mut k: u8 = 0;
    while k < n
        invariant
            k <= n,
            n == b % 64 + 1,
            v@ == old(v)@ + Seq::new(k as nat, |j: int| prev),
        decreases n - k,
    {
        v.push(prev);
        k = k + 1;
        assert(v@ =~= old(v)@ + Seq::new(k as nat, |j: int| prev));
    }
}

} // verus!
