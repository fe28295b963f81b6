use qoi::decode::decode;
use qoi::encode::encode;
use qoi::{Channels, ColorSpace, DecodeError, Image, Pixel};

const SAMPLE: &[u8] = b"A lossless image codec keeps a running previous pixel and a \
small colour cache, and picks for every pixel the shortest op that reproduces it. \
Runs of repeated pixels, small deltas and cache hits all shrink the stream, while \
literals carry whatever is left. 0123456789 !\"#$%&'()*+,-./:;<=>?@[]^_`{|}~";

fn header(width: u32, height: u32, channels: u8, colorspace: u8) -> Vec<u8> {
    let mut v = b"qoif".to_vec();
    v.extend(width.to_be_bytes());
    v.extend(height.to_be_bytes());
    v.push(channels);
    v.push(colorspace);
    v
}

const FOOTER: [u8; 8] = [0, 0, 0, 0, 0, 0, 0, 1];

fn stream(head: Vec<u8>, ops: &[u8]) -> Vec<u8> {
    let mut v = head;
    v.extend_from_slice(ops);
    v.extend(FOOTER);
    v
}

fn rgba(pixels: Vec<Pixel>) -> Image {
    let n = pixels.len() as u32;
    Image::new(pixels, n, 1, Channels::Rgba, ColorSpace::LinearAlpha)
}

#[test]
fn it_works() {
    let inp = SAMPLE;

    let img = Image::new(
        inp.chunks_exact(3).map(|i| Pixel(i[0], i[1], i[2], 255)).collect(),
        3,
        inp.len() as u32 / 9,
        Channels::Rgb,
        ColorSpace::AllLinear,
    );
    let out = encode(&img);
    let dec = decode(&out).unwrap();

    assert_eq!(img.pixels(), dec.pixels());
}

#[test]
fn round_trip_keeps_header_fields() {
    let pixels = vec![Pixel(1, 2, 3, 4), Pixel(200, 100, 50, 4), Pixel(200, 100, 50, 9)];
    let img = Image::new(pixels, 3, 1, Channels::Rgba, ColorSpace::AllLinear);
    let dec = decode(&encode(&img)).unwrap();
    assert_eq!(dec, img);
    assert_eq!(dec.width(), 3);
    assert_eq!(dec.height(), 1);
    assert_eq!(dec.channels(), Channels::Rgba);
    assert_eq!(dec.colorspace(), ColorSpace::AllLinear);
}

#[test]
fn round_trip_large_dimensions() {
    let img = Image::new(vec![], 0x01020304, 0xfffefdfc, Channels::Rgb, ColorSpace::LinearAlpha);
    let out = encode(&img);
    assert_eq!(out, stream(header(0x01020304, 0xfffefdfc, 3, 0), &[]));
    assert_eq!(decode(&out).unwrap(), img);
}

#[test]
fn empty_image_is_header_and_footer() {
    let img = Image::new(vec![], 0, 0, Channels::Rgba, ColorSpace::AllLinear);
    assert_eq!(encode(&img), stream(header(0, 0, 4, 1), &[]));
}

#[test]
fn bad_magic_fails_at_zero() {
    let mut b = stream(header(1, 1, 3, 0), &[0x35]);
    b[0] = b'x';
    assert_eq!(decode(&b), Err(DecodeError { loc: 0 }));
}

#[test]
fn input_shorter_than_magic_fails_at_zero() {
    assert_eq!(decode(&[]), Err(DecodeError { loc: 0 }));
    assert_eq!(decode(b"qo"), Err(DecodeError { loc: 0 }));
}

#[test]
fn short_header_fails_at_last_byte() {
    let b = header(1, 1, 3, 0);
    assert_eq!(decode(&b), Err(DecodeError { loc: 13 }));
    assert_eq!(decode(&b[..10]), Err(DecodeError { loc: 9 }));
    assert_eq!(decode(b"qoif"), Err(DecodeError { loc: 3 }));
}

#[test]
fn bad_channel_byte_fails_at_twelve() {
    let b = stream(header(1, 1, 5, 0), &[0x35]);
    assert_eq!(decode(&b), Err(DecodeError { loc: 12 }));
}

#[test]
fn bad_colorspace_byte_fails_at_thirteen() {
    let b = stream(header(1, 1, 3, 2), &[0x35]);
    assert_eq!(decode(&b), Err(DecodeError { loc: 13 }));
}

#[test]
fn missing_footer_fails_at_current_offset() {
    let mut b = header(1, 1, 4, 0);
    b.extend([0x35, 0, 0, 0, 0, 0, 0, 0, 2]);
    assert_eq!(decode(&b), Err(DecodeError { loc: 15 }));
}

#[test]
fn literal_running_into_footer_fails() {
    let b = stream(header(1, 1, 4, 0), &[0xff, 1, 2]);
    assert_eq!(decode(&b), Err(DecodeError { loc: 19 }));
}

#[test]
fn cache_holds_each_processed_pixel() {
    let a = Pixel(100, 50, 200, 255);
    let b = Pixel(7, 8, 9, 255);
    let img = rgba(vec![a, b, a, b]);
    let out = encode(&img);
    let ops = &out[14..out.len() - 8];
    assert_eq!(ops, &[0xfe, 100, 50, 200, 0xfe, 7, 8, 9, 19, 49]);
    assert_eq!(decode(&out).unwrap().pixels(), img.pixels());
}

#[test]
fn decoded_index_reads_cache_after_luma() {
    let b = stream(header(2, 1, 3, 0), &[0xaa, 0x88, 0x0b]);
    let dec = decode(&b).unwrap();
    assert_eq!(dec.pixels(), &vec![Pixel(10, 10, 10, 255), Pixel(10, 10, 10, 255)]);
}

#[test]
fn run_is_capped_at_sixty_two() {
    let img = rgba(vec![Pixel(0, 0, 0, 255); 70]);
    let out = encode(&img);
    let ops = &out[14..out.len() - 8];
    assert_eq!(ops, &[0xfd, 0x35, 0x35, 0x35, 0x35, 0x35, 0x35, 0x35, 0x35]);
    let dec = decode(&out).unwrap();
    assert_eq!(dec.pixels().len(), 70);
    assert_eq!(dec.pixels(), img.pixels());
}

#[test]
fn repeated_pixel_after_first_uses_index() {
    let img = rgba(vec![Pixel(10, 20, 30, 255); 70]);
    let out = encode(&img);
    let ops = &out[14..out.len() - 8];
    let mut want = vec![0xfe, 10, 20, 30];
    want.extend(vec![0x09; 69]);
    assert_eq!(ops, &want[..]);
    assert_eq!(decode(&out).unwrap().pixels(), img.pixels());
}

#[test]
fn decoded_run_repeats_previous_pixel() {
    let b = stream(header(70, 1, 4, 0), &[0xfd, 0xc7]);
    let dec = decode(&b).unwrap();
    assert_eq!(dec.pixels(), &vec![Pixel(0, 0, 0, 255); 70]);
}

#[test]
fn index_wins_over_diff() {
    let p = Pixel(1, 1, 1, 255);
    let q = Pixel(2, 2, 2, 255);
    let img = rgba(vec![p, q, p]);
    let out = encode(&img);
    assert_eq!(&out[14..out.len() - 8], &[0x7f, 0x7f, 0x04]);
    assert_eq!(decode(&out).unwrap().pixels(), img.pixels());
}

#[test]
fn alpha_change_forces_rgba_literal() {
    let img = rgba(vec![Pixel(0, 0, 0, 254)]);
    let out = encode(&img);
    assert_eq!(&out[14..out.len() - 8], &[0xff, 0, 0, 0, 254]);
    assert_eq!(decode(&out).unwrap().pixels(), img.pixels());
}

#[test]
fn two_equal_rgb_pixels_example() {
    let img = Image::new(
        vec![Pixel(10, 10, 10, 255), Pixel(10, 10, 10, 255)],
        1,
        2,
        Channels::Rgb,
        ColorSpace::LinearAlpha,
    );
    let out = encode(&img);
    assert_eq!(out, stream(header(1, 2, 3, 0), &[0xaa, 0x88, 0x0b]));
    let dec = decode(&out).unwrap();
    assert_eq!(dec, img);
}

#[test]
fn diff_wraps_around() {
    let img = rgba(vec![Pixel(255, 255, 255, 255)]);
    let out = encode(&img);
    assert_eq!(&out[14..out.len() - 8], &[0x55]);
    assert_eq!(decode(&out).unwrap().pixels(), img.pixels());
}

#[test]
fn rgb_image_resolves_alpha() {
    let img = Image::new(
        vec![Pixel(1, 2, 3, 9), Pixel(1, 2, 3, 7)],
        2,
        1,
        Channels::Rgb,
        ColorSpace::LinearAlpha,
    );
    let out = encode(&img);
    assert_eq!(&out[14..out.len() - 8], &[0xa2, 0x79, 0x17]);
    let dec = decode(&out).unwrap();
    assert_eq!(dec.pixels(), &vec![Pixel(1, 2, 3, 255), Pixel(1, 2, 3, 255)]);
}

#[test]
fn rgb_literal_keeps_previous_alpha() {
    let b = stream(header(2, 1, 4, 0), &[0xff, 1, 2, 3, 40, 0xfe, 9, 8, 7]);
    let dec = decode(&b).unwrap();
    assert_eq!(dec.pixels(), &vec![Pixel(1, 2, 3, 40), Pixel(9, 8, 7, 40)]);
}

#[test]
fn hash_and_wrapping_primitives() {
    assert_eq!(qoi::pixel::hash(Pixel(0, 0, 0, 255)), 53);
    assert_eq!(qoi::pixel::hash(Pixel(10, 10, 10, 255)), 11);
    assert_eq!(qoi::pixel::wadd(250, 10), 4);
    assert_eq!(qoi::pixel::wsub(3, 10), 249);
}
