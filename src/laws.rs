//! What holds of the codec as a whole: the round trip, header rejection,
//! the cache after each pixel, and the encoder's choice among ops.
use vstd::prelude::*;

use crate::cache::{cache_put, empty_cache};
use crate::model::{
    be_bytes, be_value, cache_of, last_with_hash, prev_of, channels_code, channels_of, colorspace_code, colorspace_of, dec_from, dec_op, decoded, diff_code, diff_pixel, enc_from, enc_op,
    encoded, footer, header_bytes, lemma_run_length, luma_code, luma_pixel, magic, max_run,
    resolve_all, run_length, start_pixel,
};
use crate::pixel::{hash_of, wadd_spec, wsub_spec, Channels, ImageView, Pixel};

verus! {

proof fn lemma_diff_channel(q: u8, c: u8)
    by (bit_vector)
    requires
        wadd_spec(wsub_spec(c, q), 2) <= 3,
    ensures
        wsub_spec(wadd_spec(q, wadd_spec(wsub_spec(c, q), 2)), 2) == c,
{
}

proof fn lemma_diff_byte(dr: u8, dg: u8, db: u8)
    by (bit_vector)
    requires
        dr <= 3,
        dg <= 3,
        db <= 3,
    ensures
        ({
            let e = (0x40 + 16 * dr + 4 * dg + db) as u8;
            &&& 0x40 <= e < 0x80
            &&& (e % 64) / 16 == dr
            &&& ((e % 64) / 4) % 4 == dg
            &&& (e % 64) % 4 == db
        }),
{
}

proof fn lemma_luma_green(q: u8, c: u8)
    by (bit_vector)
    requires
        wadd_spec(wsub_spec(c, q), 32) <= 63,
    ensures
        wsub_spec(wadd_spec(wsub_spec(c, q), 32), 32) == wsub_spec(c, q),
        wadd_spec(q, wsub_spec(c, q)) == c,
{
}

proof fn lemma_luma_channel(q: u8, c: u8, dg: u8)
    by (bit_vector)
    requires
        wadd_spec(wsub_spec(wsub_spec(c, q), dg), 8) <= 15,
    ensures
        wadd_spec(q, wadd_spec(wsub_spec(wadd_spec(wsub_spec(wsub_spec(c, q), dg), 8), 8), dg))
            == c,
{
}

proof fn lemma_luma_bytes(g: u8, dr: u8, db: u8)
    by (bit_vector)
    requires
        g <= 63,
        dr <= 15,
        db <= 15,
    ensures
        ({
            let e0 = (0x80 + g) as u8;
            let e1 = (16 * dr + db) as u8;
            &&& 0x80 <= e0 < 0xc0
            &&& e0 % 64 == g
            &&& e1 / 16 == dr
            &&& e1 % 16 == db
        }),
{
}

proof fn lemma_be_round_trip(w: u32)
    ensures
        be_value(be_bytes(w), 0) == w,
{
    let b = be_bytes(w);
    assert(b[0] * 0x100_0000 + b[1] * 0x1_0000 + b[2] * 0x100 + b[3] == w) by (nonlinear_arith)
        requires
            b[0] == (w / 0x100_0000) as u8,
            b[1] == ((w / 0x1_0000) % 256) as u8,
            b[2] == ((w / 0x100) % 256) as u8,
            b[3] == (w % 256) as u8,
    ;
}

/// The ops encoded so far stay a prefix of the encoder's output.
proof fn lemma_enc_prefix(px: Seq<Pixel>, i: int, prev: Pixel, cache: Seq<Pixel>, acc: Seq<u8>)
    ensures
        enc_from(px, i, prev, cache, acc).len() >= acc.len(),
        enc_from(px, i, prev, cache, acc).subrange(0, acc.len() as int) == acc,
    decreases px.len() - i,
{
    reveal(enc_from);
    if 0 <= i < px.len() {
        let (b, n) = enc_op(px, i, prev, cache);
        if 0 < n <= px.len() - i {
            lemma_enc_prefix(px, i + n, px[i], cache_put(cache, px[i]), acc + b);
            let r = enc_from(px, i + n, px[i], cache_put(cache, px[i]), acc + b);
            assert(r.subrange(0, acc.len() as int) =~= (acc + b).subrange(0, acc.len() as int));
            assert((acc + b).subrange(0, acc.len() as int) =~= acc);
        }
    } else {
        assert(acc.subrange(0, acc.len() as int) =~= acc);
    }
}

/// Decoding the op the encoder emits for pixel `i`, found at `pos` in `b`,
/// gives back the pixels it covers, and the last of them is pixel `i`.
proof fn lemma_step(
    px: Seq<Pixel>,
    i: int,
    prev: Pixel,
    cache: Seq<Pixel>,
    b: Seq<u8>,
    pos: int,
)
    requires
        0 <= i < px.len(),
        cache.len() == 64,
        0 <= pos,
        pos + enc_op(px, i, prev, cache).0.len() + 8 <= b.len(),
        b.subrange(pos, pos + enc_op(px, i, prev, cache).0.len()) == enc_op(px, i, prev, cache).0,
    ensures
        ({
            let (sb, n) = enc_op(px, i, prev, cache);
            &&& 0 < n <= px.len() - i
            &&& 1 <= sb.len() <= 5
            &&& dec_op(b, pos, prev, cache) == (sb.len(), px.subrange(i, i + n), px[i])
        }),
{
    let (sb, n) = enc_op(px, i, prev, cache);
    let p = px[i];
    let h = hash_of(p);
    assert(forall|k: int| 0 <= k < sb.len() ==> b[pos + k] == #[trigger] sb[k]) by {
        assert forall|k: int| 0 <= k < sb.len() implies b[pos + k] == #[trigger] sb[k] by {
            assert(b.subrange(pos, pos + sb.len())[k] == b[pos + k]);
        }
    }
    assert(b[pos] == sb[0]);
    if cache[h] == p {
        assert(px.subrange(i, i + 1) =~= seq![p]);
    } else if p.3 == prev.3 {
        let r = run_length(px, i, prev, max_run());
        lemma_run_length(px, i, prev, max_run());
        if r > 0 {
            assert(px[i + 0] == prev);
            assert(sb[0] == (0xc0 + r - 1) as u8);
            assert(0xc0 <= sb[0] <= 0xfd);
            assert((sb[0] % 64) + 1 == r);
            let run = Seq::new(((sb[0] % 64) + 1) as nat, |k: int| prev);
            assert(run.len() == r);
            assert forall|k: int| 0 <= k < r implies #[trigger] px.subrange(i, i + r)[k] == run[k] by {
                assert(px[i + k] == prev);
            }
            assert(px.subrange(i, i + r) =~= run);
        } else if diff_code(prev, p) is Some {
            let dr = wadd_spec(wsub_spec(p.0, prev.0), 2);
            let dg = wadd_spec(wsub_spec(p.1, prev.1), 2);
            let db = wadd_spec(wsub_spec(p.2, prev.2), 2);
            lemma_diff_byte(dr, dg, db);
            lemma_diff_channel(prev.0, p.0);
            lemma_diff_channel(prev.1, p.1);
            lemma_diff_channel(prev.2, p.2);
            assert(diff_pixel(prev, (sb[0] % 64) as u8) == p);
            assert(px.subrange(i, i + 1) =~= seq![p]);
        } else if luma_code(prev, p) is Some {
            let dg = wsub_spec(p.1, prev.1);
            let dr = wadd_spec(wsub_spec(wsub_spec(p.0, prev.0), dg), 8);
            let db = wadd_spec(wsub_spec(wsub_spec(p.2, prev.2), dg), 8);
            let g = wadd_spec(dg, 32);
            lemma_luma_bytes(g, dr, db);
            lemma_luma_green(prev.1, p.1);
            lemma_luma_channel(prev.0, p.0, dg);
            lemma_luma_channel(prev.2, p.2, dg);
            assert(b[pos + 1] == sb[1]);
            assert(luma_pixel(prev, (sb[0] % 64) as u8, sb[1]) == p);
            assert(px.subrange(i, i + 1) =~= seq![p]);
        } else {
            assert(b[pos + 1] == sb[1]);
            assert(b[pos + 2] == sb[2]);
            assert(b[pos + 3] == sb[3]);
            assert(px.subrange(i, i + 1) =~= seq![p]);
        }
    } else {
        assert(b[pos + 1] == sb[1]);
        assert(b[pos + 2] == sb[2]);
        assert(b[pos + 3] == sb[3]);
        assert(b[pos + 4] == sb[4]);
        assert(px.subrange(i, i + 1) =~= seq![p]);
    }
}

} // verus!

verus! {

/// Decoding what the encoder emits from pixel `i` on, followed by the
/// footer, yields exactly the pixels from `i` on.
proof fn lemma_ops_round_trip(
    px: Seq<Pixel>,
    i: int,
    prev: Pixel,
    cache: Seq<Pixel>,
    acc: Seq<u8>,
    out: Seq<Pixel>,
)
    requires
        0 <= i <= px.len(),
        cache.len() == 64,
    ensures
        dec_from(enc_from(px, i, prev, cache, acc) + footer(), acc.len() as int, prev, cache, out)
            == Ok::<_, int>(out + px.subrange(i, px.len() as int)),
    decreases px.len() - i,
{
    let b = enc_from(px, i, prev, cache, acc) + footer();
    if i == px.len() {
        assert(enc_from(px, i, prev, cache, acc) == acc) by {
            reveal(enc_from);
        }
        assert(b.subrange(acc.len() as int, b.len() as int) =~= footer());
        assert(dec_from(b, acc.len() as int, prev, cache, out) == Ok::<_, int>(out)) by {
            reveal(dec_from);
        }
        assert(out + px.subrange(i, px.len() as int) =~= out);
    } else {
        let (sb, n) = enc_op(px, i, prev, cache);
        let p = px[i];
        let next = cache_put(cache, p);
        lemma_run_length(px, i, prev, max_run());
        lemma_enc_prefix(px, i + n, p, next, acc + sb);
        let rest = enc_from(px, i + n, p, next, acc + sb);
        assert(enc_from(px, i, prev, cache, acc) == rest) by {
            reveal(enc_from);
        }
        assert(b.subrange(acc.len() as int, (acc.len() + sb.len()) as int) =~= sb) by {
            assert(rest.subrange(0, (acc + sb).len() as int) == acc + sb);
            assert forall|k: int| 0 <= k < sb.len() implies #[trigger] b.subrange(
                acc.len() as int,
                (acc.len() + sb.len()) as int,
            )[k] == sb[k] by {
                assert(rest.subrange(0, (acc + sb).len() as int)[acc.len() + k] == rest[acc.len()
                    + k]);
            }
        }
        lemma_step(px, i, prev, cache, b, acc.len() as int);
        lemma_ops_round_trip(px, i + n, p, next, acc + sb, out + px.subrange(i, i + n));
        assert(dec_from(b, acc.len() as int, prev, cache, out) == dec_from(
            b,
            (acc + sb).len() as int,
            p,
            next,
            out + px.subrange(i, i + n),
        )) by {
            reveal(dec_from);
        }
        assert(out + px.subrange(i, i + n) + px.subrange(i + n, px.len() as int) =~= out
            + px.subrange(i, px.len() as int));
    }
}

/// Decoding an encoded image gives back the image: its pixels and every
/// header field. A three-channel image carries alpha 255 in every pixel.
pub proof fn lemma_round_trip(img: ImageView)
    requires
        img.channels == Channels::Rgb ==> forall|k: int|
            0 <= k < img.pixels.len() ==> (#[trigger] img.pixels[k]).3 == 255,
    ensures
        decoded(encoded(img)) == Ok::<_, int>(img),
{
    let px = resolve_all(img.pixels, img.channels);
    assert(px =~= img.pixels);
    let h = header_bytes(img);
    assert(h.len() == 14);
    let ops = enc_from(px, 0, start_pixel(), empty_cache(), h);
    let e = ops + footer();
    assert(e == encoded(img));
    lemma_enc_prefix(px, 0, start_pixel(), empty_cache(), h);
    lemma_ops_round_trip(px, 0, start_pixel(), empty_cache(), h, seq![]);
    assert(seq![] + px.subrange(0, px.len() as int) =~= img.pixels);
    assert(dec_from(e, 14, start_pixel(), empty_cache(), seq![]) == Ok::<_, int>(img.pixels));
    assert forall|k: int| 0 <= k < 14 implies #[trigger] e[k] == h[k] by {
        assert(ops.subrange(0, 14)[k] == ops[k]);
    }
    lemma_header_parsed(img, e);
}

/// A byte stream that starts with the header of `img` carries its fields.
proof fn lemma_header_parsed(img: ImageView, e: Seq<u8>)
    requires
        e.len() > 14,
        forall|k: int| 0 <= k < 14 ==> #[trigger] e[k] == header_bytes(img)[k],
    ensures
        e.subrange(0, 4) == magic(),
        be_value(e, 4) == img.width,
        be_value(e, 8) == img.height,
        e[12] == 3 || e[12] == 4,
        e[13] == 0 || e[13] == 1,
        channels_of(e[12]) == img.channels,
        colorspace_of(e[13]) == img.colorspace,
{
    let h = header_bytes(img);
    assert(e[0] == h[0] && e[1] == h[1] && e[2] == h[2] && e[3] == h[3]);
    assert(e.subrange(0, 4) =~= magic());
    lemma_be_round_trip(img.width);
    lemma_be_round_trip(img.height);
    assert(e[4] == h[4] && e[5] == h[5] && e[6] == h[6] && e[7] == h[7]);
    assert(e[8] == h[8] && e[9] == h[9] && e[10] == h[10] && e[11] == h[11]);
    assert(e[12] == h[12] && e[13] == h[13]);
    assert(be_value(e, 4) == be_value(be_bytes(img.width), 0));
    assert(be_value(e, 8) == be_value(be_bytes(img.height), 0));
}

/// The header checks, in order: magic, length, channel byte, colour-space byte.
pub proof fn lemma_header_rejection(b: Seq<u8>)
    ensures
        b.len() < 4 || b.subrange(0, 4) != magic() ==> decoded(b) == Err::<ImageView, int>(0),
        b.len() >= 4 && b.subrange(0, 4) == magic() && b.len() <= 14 ==> decoded(b) == Err::<
            ImageView,
            int,
        >(b.len() - 1),
        b.len() > 14 && b.subrange(0, 4) == magic() && b[12] != 3 && b[12] != 4 ==> decoded(b)
            == Err::<ImageView, int>(12),
        b.len() > 14 && b.subrange(0, 4) == magic() && (b[12] == 3 || b[12] == 4) && b[13] != 0
            && b[13] != 1 ==> decoded(b) == Err::<ImageView, int>(13),
{
}

/// After any op, encoder and decoder alike hold the last pixel in its slot.
pub proof fn lemma_cache_holds_last(
    px: Seq<Pixel>,
    i: int,
    b: Seq<u8>,
    pos: int,
    prev: Pixel,
    cache: Seq<Pixel>,
)
    requires
        cache.len() == 64,
        0 <= i < px.len(),
        0 <= pos,
        pos + 8 < b.len(),
    ensures
        cache_put(cache, px[i])[hash_of(px[i])] == px[i],
        ({
            let (n, out, last) = dec_op(b, pos, prev, cache);
            &&& out.len() > 0
            &&& out.last() == last
            &&& cache_put(cache, last)[hash_of(last)] == last
        }),
{
}

/// A pixel found in its cache slot is encoded as INDEX, whatever else could encode it.
pub proof fn lemma_index_first(px: Seq<Pixel>, i: int, prev: Pixel, cache: Seq<Pixel>)
    requires
        cache.len() == 64,
        0 <= i < px.len(),
        cache[hash_of(px[i])] == px[i],
    ensures
        enc_op(px, i, prev, cache) == (seq![hash_of(px[i]) as u8], 1nat),
{
}

/// A pixel whose alpha differs from the previous pixel's, and which misses
/// the cache, is encoded as the five-byte RGBA literal.
pub proof fn lemma_alpha_change_literal(px: Seq<Pixel>, i: int, prev: Pixel, cache: Seq<Pixel>)
    requires
        cache.len() == 64,
        0 <= i < px.len(),
        cache[hash_of(px[i])] != px[i],
        px[i].3 != prev.3,
    ensures
        enc_op(px, i, prev, cache) == (
            seq![0xffu8, px[i].0, px[i].1, px[i].2, px[i].3],
            1nat,
        ),
{
}

} // verus!

verus! {

/// Every op covers at least one pixel and at most 62, and a RUN byte never
/// reaches the two literal tags.
pub proof fn lemma_run_cap(px: Seq<Pixel>, i: int, prev: Pixel, cache: Seq<Pixel>)
    requires
        cache.len() == 64,
        0 <= i < px.len(),
    ensures
        1 <= enc_op(px, i, prev, cache).1 <= max_run(),
        enc_op(px, i, prev, cache).1 > 1 ==> 0xc0 <= enc_op(px, i, prev, cache).0[0] <= 0xfd,
{
    lemma_run_length(px, i, prev, max_run());
}

} // verus!

verus! {

proof fn lemma_cache_of_push(s: Seq<Pixel>, p: Pixel)
    ensures
        cache_of(s.push(p)) == cache_put(cache_of(s), p),
{
    assert(s.push(p).drop_last() =~= s);
    assert(cache_of(s.push(p)) =~= cache_put(cache_of(s), p));
}

proof fn lemma_cache_of_repeat(s: Seq<Pixel>, p: Pixel, k: nat)
    requires
        k >= 1,
    ensures
        cache_of(s + Seq::new(k, |j: int| p)) == cache_put(cache_of(s), p),
        prev_of(s + Seq::new(k, |j: int| p)) == p,
    decreases k,
{
    let t = s + Seq::new(k, |j: int| p);
    if k == 1 {
        assert(t =~= s.push(p));
        lemma_cache_of_push(s, p);
    } else {
        let u = s + Seq::new((k - 1) as nat, |j: int| p);
        lemma_cache_of_repeat(s, p, (k - 1) as nat);
        assert(t =~= u.push(p));
        lemma_cache_of_push(u, p);
        assert(cache_put(cache_put(cache_of(s), p), p) =~= cache_put(cache_of(s), p));
    }
}

/// Before any pixel, the derived state is the stream-start state.
pub proof fn lemma_start_state()
    ensures
        prev_of(seq![]) == start_pixel(),
        cache_of(seq![]) == empty_cache(),
{
    assert(cache_of(seq![]) =~= empty_cache());
}

/// The decoder's state is a function of the pixels it has produced: if
/// before an op its previous pixel is the last of `acc` and its cache holds
/// in each slot the last pixel of `acc` with that hash, the same holds of
/// `acc` followed by the op's pixels afterwards. An INDEX op yields the last
/// earlier pixel with that hash (zero if none), whichever op produced it.
/// Decoding from such a state goes on from such a state.
pub proof fn lemma_decoder_state(b: Seq<u8>, pos: int, acc: Seq<Pixel>)
    requires
        0 <= pos,
        pos + 8 < b.len(),
    ensures
        ({
            let (n, out, last) = dec_op(b, pos, prev_of(acc), cache_of(acc));
            &&& last == prev_of(acc + out)
            &&& cache_put(cache_of(acc), last) == cache_of(acc + out)
            &&& b[pos] < 0x40 ==> out == seq![last_with_hash(acc, b[pos] as int)]
            &&& dec_from(b, pos, prev_of(acc), cache_of(acc), acc) == dec_from(
                b,
                pos + n,
                prev_of(acc + out),
                cache_of(acc + out),
                acc + out,
            )
        }),
{
    let (n, out, last) = dec_op(b, pos, prev_of(acc), cache_of(acc));
    reveal(dec_from);
    let t = b[pos];
    if t != 0xff && t != 0xfe && t >= 0xc0 {
        lemma_cache_of_repeat(acc, prev_of(acc), (t % 64 + 1) as nat);
    } else {
        assert(acc + out =~= acc.push(last));
        lemma_cache_of_push(acc, last);
    }
}

/// The encoder's state is a function of the pixels it has encoded, and
/// over the whole stream: a pixel equal to the last earlier pixel with its
/// hash is encoded as INDEX; a pixel that misses it and changes alpha is
/// encoded as the RGBA literal; a run never exceeds 62 pixels nor reaches
/// the literal tags. Encoding from such a state goes on from such a state.
pub proof fn lemma_encoder_state(px: Seq<Pixel>, i: int, acc: Seq<u8>)
    requires
        0 <= i < px.len(),
    ensures
        ({
            let seen = px.subrange(0, i);
            let p = px[i];
            let (sb, n) = enc_op(px, i, prev_of(seen), cache_of(seen));
            &&& 1 <= n <= max_run()
            &&& i + n <= px.len()
            &&& p == prev_of(px.subrange(0, i + n))
            &&& cache_put(cache_of(seen), p) == cache_of(px.subrange(0, i + n))
            &&& last_with_hash(seen, hash_of(p)) == p ==> sb == seq![hash_of(p) as u8]
            &&& last_with_hash(seen, hash_of(p)) != p && p.3 != prev_of(seen).3 ==> sb == seq![
                0xffu8,
                p.0,
                p.1,
                p.2,
                p.3,
            ]
            &&& n > 1 ==> 0xc0 <= sb[0] <= 0xfd
            &&& enc_from(px, i, prev_of(seen), cache_of(seen), acc) == enc_from(
                px,
                i + n,
                prev_of(px.subrange(0, i + n)),
                cache_of(px.subrange(0, i + n)),
                acc + sb,
            )
        }),
{
    reveal(enc_from);
    let seen = px.subrange(0, i);
    let p = px[i];
    let prev = prev_of(seen);
    let (sb, n) = enc_op(px, i, prev, cache_of(seen));
    lemma_run_length(px, i, prev, max_run());
    lemma_run_cap(px, i, prev, cache_of(seen));
    let r = run_length(px, i, prev, max_run());
    if cache_of(seen)[hash_of(p)] != p && p.3 == prev.3 && r > 0 {
        assert(px[i + 0] == prev);
        let run = Seq::new(r, |j: int| prev);
        assert forall|k: int| 0 <= k < i + r implies #[trigger] px.subrange(0, i + r)[k] == (seen
            + run)[k] by {
            if k >= i {
                assert(px[i + (k - i)] == prev);
            }
        }
        assert(px.subrange(0, i + r) =~= seen + run);
        lemma_cache_of_repeat(seen, prev, r);
    } else {
        assert(px.subrange(0, i + 1) =~= seen.push(p));
        lemma_cache_of_push(seen, p);
    }
}

} // verus!
