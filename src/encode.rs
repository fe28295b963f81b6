//! The encoder: header, then for each pixel the shortest legal op, then the footer.
use vstd::prelude::*;

use crate::cache::{cache_put, empty_cache, ColorCache};
use crate::model::{
    be_bytes, diff_code, enc_from, enc_op, encoded, footer, header_bytes, lemma_run_length, luma_code,
    max_run, resolve, resolve_all, run_length, start_pixel,
};
use crate::pixel::{hash, hash_of, wadd, wsub, Channels, ColorSpace, Image, Pixel};

verus! {

/// Encodes `img` as header, op stream and footer.
pub fn encode(img: &Image) -> (r: Vec<u8>)
    ensures
        r@ == encoded(img@),
{
    let mut res: Vec<u8> = Vec::new();
    header(img, &mut res);
    encode_pixels(img.pixels().as_slice(), img.channels(), &mut res);
    let mut k: usize = 0;
    let ghost ops = res@;
    while k < 7
        invariant
            k <= 7,
            res@ == ops + Seq::new(k as nat, |j: int| 0u8),
        decreases 7 - k,
    {
        res.push(0);
        k = k + 1;
        assert(res@ =~= ops + Seq::new(k as nat, |j: int| 0u8));
    }
    res.push(1);
    assert(res@ =~= ops + footer());
    res
}

/// Appends the 14-byte header of `pic`.
fn header(pic: &Image, res: &mut Vec<u8>)
    ensures
        final(res)@ == old(res)@ + header_bytes(pic@),
{
    res.push(0x71);
    res.push(0x6f);
    res.push(0x69);
    res.push(0x66);
    push_be(pic.width(), res);
    push_be(pic.height(), res);
    res.push(
        match pic.channels() {
            Channels::Rgb => 3,
            Channels::Rgba => 4,
        },
    );
    res.push(
        match pic.colorspace() {
            ColorSpace::LinearAlpha => 0,
            ColorSpace::AllLinear => 1,
        },
    );
    assert(final(res)@ =~= old(res)@ + header_bytes(pic@));
}

/// Appends the four big-endian bytes of `w`.
fn push_be(w: u32, res: &mut Vec<u8>)
    ensures
        final(res)@ == old(res)@ + be_bytes(w),
{
    res.push((w / 0x100_0000) as u8);
    res.push(((w / 0x1_0000) % 256) as u8);
    res.push(((w / 0x100) % 256) as u8);
    res.push((w % 256) as u8);
    assert(final(res)@ =~= old(res)@ + be_bytes(w));
}

/// A pixel with alpha fixed at 255 when the image has three channels.
fn resolve_pixel(p: Pixel, channels: Channels) -> (r: Pixel)
    ensures
        r == resolve(p, channels),
{
    match channels {
        Channels::Rgb => Pixel(p.0, p.1, p.2, 255),
        Channels::Rgba => p,
    }
}

/// Appends the op stream for `px` (alpha resolved by `channels`).
pub fn encode_pixels(px: &[Pixel], channels: Channels, v: &mut Vec<u8>)
    ensures
        final(v)@ == enc_from(
            resolve_all(px@, channels),
            0,
            start_pixel(),
            empty_cache(),
            old(v)@,
        ),
{
    let ghost rpx = resolve_all(px@, channels);
    let mut prev = Pixel(0, 0, 0, 255);
    let mut arr = ColorCache::new();
    let mut i: usize = 0;
    while i < px.len()
        invariant
            i <= px.len(),
            rpx == resolve_all(px@, channels),
            rpx.len() == px@.len(),
            arr@.len() == 64,
            enc_from(rpx, 0, start_pixel(), empty_cache(), old(v)@) == enc_from(
                rpx,
                i as int,
                prev,
                arr@,
                v@,
            ),
        decreases px.len() - i,
    {
        let curr = resolve_pixel(px[i], channels);
        let ghost before = v@;
        let ghost op = enc_op(rpx, i as int, prev, arr@);
        let n: usize;
        if let Some(b) = index(&arr, curr) {
            v.push(b);
            n = 1;
        } else if curr.3 == prev.3 {
            if let Some((len, b)) = rle(prev, px, i, channels) {
                v.push(b);
                n = len;
            } else if let Some(b) = diff(prev, curr) {
                v.push(b);
                n = 1;
            } else if let Some((b0, b1)) = luma(prev, curr) {
                v.push(b0);
                v.push(b1);
                n = 1;
            } else {
                full(curr, false, v);
                n = 1;
            }
        } else {
            full(curr, true, v);
            n = 1;
        }
        assert(v@ =~= before + op.0);
        reveal(enc_from);
        assert(n == op.1);
        arr.put(curr);
        prev = curr;
        i = i + n;
    }
    reveal(enc_from);
}

/// The RUN op for the pixels from `i` on that repeat `prev`, at most 62 of them.
fn rle(prev: Pixel, px: &[Pixel], i: usize, channels: Channels) -> (r: Option<(usize, u8)>)
    requires
        i <= px.len(),
    ensures
        ({
            let n = run_length(resolve_all(px@, channels), i as int, prev, max_run());
            &&& n > 0 ==> r == Some((n as usize, (0xc0 + n - 1) as u8))
            &&& n == 0 ==> r is None
            &&& i + n <= px.len()
        }),
{
    let ghost rpx = resolve_all(px@, channels);
    let mut len: usize = 0;
    while len < 62 && i + len < px.len() && resolve_pixel(px[i + len], channels) == prev
        invariant
            len <= 62,
            i + len <= px.len(),
            rpx == resolve_all(px@, channels),
            run_length(rpx, i as int, prev, max_run()) == len + run_length(
                rpx,
                i + len,
                prev,
                (62 - len) as nat,
            ),
        decreases 62 - len,
    {
        len = len + 1;
    }
    proof {
        lemma_run_length(rpx, i as int, prev, max_run());
    }
    if len > 0 {
        Some((len, 0xc0 + (len as u8 - 1)))
    } else {
        None
    }
}

/// The INDEX op for `curr`, when its cache slot holds it.
fn index(arr: &ColorCache, curr: Pixel) -> (r: Option<u8>)
    requires
        arr@.len() == 64,
    ensures
        arr@[hash_of(curr)] == curr ==> r == Some(hash_of(curr) as u8),
        arr@[hash_of(curr)] != curr ==> r is None,
{
    let h = hash(curr);
    if arr.get(h) == curr {
        Some(h as u8)
    } else {
        None
    }
}

/// The DIFF op for `curr` after `prev`, when each channel delta lies in -2..1.
fn diff(prev: Pixel, curr: Pixel) -> (r: Option<u8>)
    ensures
        r == diff_code(prev, curr),
{
    let dr = wadd(wsub(curr.0, prev.0), 2);
    let dg = wadd(wsub(curr.1, prev.1), 2);
    let db = wadd(wsub(curr.2, prev.2), 2);
    if dr > 3 || dg > 3 || db > 3 {
        return None;
    }
    Some(0x40 + dr * 16 + dg * 4 + db)
}

/// The LUMA op for `curr` after `prev`, when its deltas fit.
fn luma(prev: Pixel, curr: Pixel) -> (r: Option<(u8, u8)>)
    ensures
        r == luma_code(prev, curr),
{
    let dg = wsub(curr.1, prev.1);
    let dr = wsub(wsub(curr.0, prev.0), dg);
    let db = wsub(wsub(curr.2, prev.2), dg);

    let dg = wadd(dg, 32);
    let dr = wadd(dr, 8);
    let db = wadd(db, 8);

    if dg > 63 || dr > 15 || db > 15 {
        return None;
    }
    Some((0x80 + dg, dr * 16 + db))
}

/// Appends a literal: RGBA when `with_alpha`, else RGB.
fn full(p: Pixel, with_alpha: bool, v: &mut Vec<u8>)
    ensures
        with_alpha ==> final(v)@ == old(v)@ + seq![0xffu8, p.0, p.1, p.2, p.3],
        !with_alpha ==> final(v)@ == old(v)@ + seq![0xfeu8, p.0, p.1, p.2],
{
    v.push(if with_alpha { 0xff } else { 0xfe });
    v.push(p.0);
    v.push(p.1);
    v.push(p.2);
    if with_alpha {
        v.push(p.3);
    }
    assert(with_alpha ==> final(v)@ =~= old(v)@ + seq![0xffu8, p.0, p.1, p.2, p.3]);
    assert(!with_alpha ==> final(v)@ =~= old(v)@ + seq![0xfeu8, p.0, p.1, p.2]);
}

} // verus!
