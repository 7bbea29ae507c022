use dwt_stegano::codec::blocking_extract_one;
use dwt_stegano::color::RGBColor;
use dwt_stegano::image::PPMImage;
use dwt_stegano::matching::matching;
use dwt_stegano::stegano::block_differences_computation;
use dwt_stegano::transform::DWTImage;
use dwt_stegano::StegoError;

fn rgb(r: i32, g: i32, b: i32) -> RGBColor {
    RGBColor::new(r, g, b)
}

fn gray(v: i32) -> RGBColor {
    rgb(v, v, v)
}

fn image_from(width: usize, height: usize, f: impl Fn(usize, usize) -> RGBColor) -> PPMImage {
    let mut data = Vec::new();
    for y in 0..height {
        for x in 0..width {
            data.push(f(y, x));
        }
    }
    PPMImage { img_type: String::from("P6"), width, height, max_val: 255, data }
}

fn uniform_image(width: usize, height: usize, v: i32) -> PPMImage {
    image_from(width, height, |_, _| gray(v))
}

#[test]
fn transform_round_trip_even_dims() {
    let img = image_from(4, 4, |y, x| rgb((y * 4 + x) as i32, (y * 7) as i32, -(x as i32)));
    let d = DWTImage::from_ppm(&img);
    assert_eq!(d.orig_width, 4);
    assert_eq!(d.orig_height, 4);
    let back = d.inverse_dwt();
    assert_eq!(back.width, 4);
    assert_eq!(back.height, 4);
    assert_eq!(back.data, img.data);
}

#[test]
fn transform_round_trip_larger() {
    let img = image_from(8, 6, |y, x| rgb((3 * y + 5 * x) as i32, 255 - (y as i32), (x * x) as i32));
    let back = DWTImage::from_ppm(&img).inverse_dwt();
    assert_eq!(back.data, img.data);
}

#[test]
fn forward_transform_concrete_values() {
    // Rows 0/1: (1 3 / 5 7): low row 0 = 4, high row 0 = -2,
    // low row 1 = 12, high row 1 = -2.
    let img = image_from(2, 2, |y, x| gray((1 + 2 * (y * 2 + x)) as i32));
    let d = DWTImage::from_ppm(&img);
    assert_eq!(d.ll, vec![gray(16)]);
    assert_eq!(d.lh, vec![gray(-8)]);
    assert_eq!(d.hl, vec![gray(-4)]);
    assert_eq!(d.hh, vec![gray(0)]);
}

#[test]
fn hide_message_capacity_error() {
    // A 4x4 cover offers three detail blocks; an 8x8 secret has four
    // approximation blocks and must be rejected, not embedded.
    let cover = uniform_image(4, 4, 0);
    let secret = uniform_image(8, 8, 1);
    let r = DWTImage::hide_image(&cover, &secret);
    assert_eq!(r.err(), Some(StegoError::CapacityExceeded { needed: 4, available: 3 }));
}

#[test]
fn hide_message_odd_dimensions_error() {
    let cover = uniform_image(3, 3, 0);
    let secret = uniform_image(2, 2, 1);
    let r = DWTImage::hide_image(&cover, &secret);
    assert_eq!(r.err(), Some(StegoError::IncompatibleDimensions));
    let cover2 = uniform_image(4, 4, 0);
    let secret2 = uniform_image(2, 3, 1);
    let r2 = DWTImage::hide_image(&cover2, &secret2);
    assert_eq!(r2.err(), Some(StegoError::IncompatibleDimensions));
}

#[test]
fn embed_zero_cover_small_secret() {
    // An 8x8 all-zero cover and a 4x4 uniform secret of value (10,10,10):
    // one secret approximation block, one key entry into a detail band,
    // and only the pixel region of that band's affected block moves away
    // from zero.
    let cover = uniform_image(8, 8, 0);
    let secret = uniform_image(4, 4, 10);
    let (wm, key1, key2, sw, sh) = DWTImage::hide_image(&cover, &secret).unwrap();
    assert_eq!(key1, vec![0]);
    assert_eq!(key2, vec![(0, 0)]);
    assert_eq!(sw, 4);
    assert_eq!(sh, 4);
    assert_eq!(wm.width, 8);
    assert_eq!(wm.height, 8);
    // The replaced block covers the top-left 2x2 window of the LH grid,
    // i.e. the top-left 4x4 pixel region; everything else stays zero.
    let mut expected = vec![gray(0); 64];
    for y in 0..4 {
        let v = if y % 2 == 0 { 10 } else { -10 };
        for x in 0..4 {
            expected[y * 8 + x] = gray(v);
        }
    }
    assert_eq!(wm.data, expected);
}

#[test]
fn embed_tiny_secret_has_no_whole_block() {
    // A 2x2 secret has a 1x1 approximation grid with no whole 2x2
    // window: nothing is embedded, the key is empty, and the
    // watermarked image is the cover reproduced exactly.
    let cover = uniform_image(4, 4, 0);
    let secret = uniform_image(2, 2, 10);
    let (wm, key1, key2, sw, sh) = DWTImage::hide_image(&cover, &secret).unwrap();
    assert_eq!(key1, Vec::<usize>::new());
    assert_eq!(key2, Vec::<(usize, usize)>::new());
    assert_eq!((sw, sh), (2, 2));
    assert_eq!(wm.data, vec![gray(0); 16]);
    let out = DWTImage::extract_message_from_image(&wm, &key1, &key2, sw, sh).unwrap();
    assert_eq!(out.data, vec![gray(0); 4]);
}

#[test]
fn embed_extract_round_trip_small() {
    let cover = uniform_image(8, 8, 0);
    let secret = uniform_image(4, 4, 10);
    let (wm, key1, key2, sw, sh) = DWTImage::hide_image(&cover, &secret).unwrap();
    // The difference block survives the pixel domain bit-exactly here:
    // re-transforming the watermarked image shows it in the LH band.
    let wd = DWTImage::from_ppm(&wm);
    let mut lh = vec![gray(0); 16];
    lh[0] = gray(40);
    lh[1] = gray(40);
    lh[4] = gray(40);
    lh[5] = gray(40);
    assert_eq!(wd.lh, lh);
    assert_eq!(wd.ll, vec![gray(0); 16]);
    let out = DWTImage::extract_message_from_image(&wm, &key1, &key2, sw, sh).unwrap();
    assert_eq!(out.width, 4);
    assert_eq!(out.height, 4);
    // The recovered approximation is the matched cover block (all zero),
    // the recovered detail the stored difference: inverting them yields
    // the difference block's own reconstruction.
    let expected = vec![
        gray(10), gray(10), gray(10), gray(10),
        gray(-10), gray(-10), gray(-10), gray(-10),
        gray(10), gray(10), gray(10), gray(10),
        gray(-10), gray(-10), gray(-10), gray(-10),
    ];
    assert_eq!(out.data, expected);
}

#[test]
fn embed_extract_round_trip_structured() {
    // An 8x8 graded cover and a 4x4 uniform secret.  The secret block is
    // closest to the cover's first approximation block; the difference
    // lands in the HL band, whose blocks are all equal, so slot 0 wins.
    let cover = image_from(8, 8, |y, x| gray((y * 8 + x) as i32));
    let secret = uniform_image(4, 4, 12);
    let (wm, key1, key2, sw, sh) = DWTImage::hide_image(&cover, &secret).unwrap();
    assert_eq!(key1, vec![0]);
    assert_eq!(key2, vec![(1, 0)]);
    let out = DWTImage::extract_message_from_image(&wm, &key1, &key2, sw, sh).unwrap();
    assert_eq!(out.width, 4);
    assert_eq!(out.height, 4);
    let expected = vec![
        gray(12), gray(-3), gray(12), gray(1),
        gray(12), gray(-3), gray(12), gray(1),
        gray(12), gray(29), gray(12), gray(33),
        gray(12), gray(29), gray(12), gray(33),
    ];
    assert_eq!(out.data, expected);
}

#[test]
fn identical_cover_and_secret_match_in_place() {
    // Cover and secret of identical content with pairwise distinct
    // approximation blocks: every secret block matches the cover block
    // at its own index, and every difference block is exactly zero.
    let img = image_from(8, 8, |y, x| gray((y * 8 + x) as i32));
    let d = DWTImage::from_ppm(&img);
    let blocks = blocking_extract_one(&d.ll, d.orig_width, d.orig_height);
    assert_eq!(blocks.len(), 4);
    let key1 = matching(&blocks, &blocks);
    assert_eq!(key1, vec![0, 1, 2, 3]);
    let diffs = block_differences_computation(&blocks, &blocks, &key1);
    for diff in diffs.iter() {
        assert_eq!(*diff, dwt_stegano::block::zero_block());
    }
    // The same holds through the full embedding entry point.  All four
    // zero difference blocks are closest to the all-zero diagonal band,
    // and each finds slot 0 again: the key may name one slot repeatedly.
    let (_, key1_full, key2_full, _, _) = DWTImage::hide_image(&img, &img).unwrap();
    assert_eq!(key1_full, vec![0, 1, 2, 3]);
    assert_eq!(key2_full, vec![(2, 0); 4]);
}

#[test]
fn embed_extract_with_odd_band_grids() {
    // A 6x6 cover has 3x3 coefficient grids: each band holds exactly one
    // whole 2x2 window, and the trailing odd row and column count for
    // nothing — neither as capacity nor as candidates.
    let cover = uniform_image(6, 6, 0);
    let secret = uniform_image(4, 4, 10);
    let (wm, key1, key2, sw, sh) = DWTImage::hide_image(&cover, &secret).unwrap();
    assert_eq!(key1, vec![0]);
    assert_eq!(key2, vec![(0, 0)]);
    // The affected window covers the top-left 4x4 pixel region; the
    // pixels of the dropped trailing cells stay zero.
    let mut expected = vec![gray(0); 36];
    for y in 0..4 {
        let v = if y % 2 == 0 { 10 } else { -10 };
        for x in 0..4 {
            expected[y * 6 + x] = gray(v);
        }
    }
    assert_eq!(wm.data, expected);
    let out = DWTImage::extract_message_from_image(&wm, &key1, &key2, sw, sh).unwrap();
    let recovered = vec![
        gray(10), gray(10), gray(10), gray(10),
        gray(-10), gray(-10), gray(-10), gray(-10),
        gray(10), gray(10), gray(10), gray(10),
        gray(-10), gray(-10), gray(-10), gray(-10),
    ];
    assert_eq!(out.data, recovered);
    // The dropped cells are not capacity: three whole detail windows in
    // all, so a four-block secret is rejected.
    let big = uniform_image(8, 8, 1);
    let r = DWTImage::hide_image(&cover, &big);
    assert_eq!(r.err(), Some(StegoError::CapacityExceeded { needed: 4, available: 3 }));
}

#[test]
fn extract_rejects_bad_keys() {
    let wm = uniform_image(4, 4, 0);
    // Index past the watermarked decomposition.
    let r = DWTImage::extract_message_from_image(&wm, &vec![5], &vec![(0, 0)], 2, 2);
    assert_eq!(r.err(), Some(StegoError::InvalidKey));
    // Band tag out of range.
    let r2 = DWTImage::extract_message_from_image(&wm, &vec![0], &vec![(3, 0)], 2, 2);
    assert_eq!(r2.err(), Some(StegoError::InvalidKey));
    // Key sequences of different lengths.
    let r3 = DWTImage::extract_message_from_image(&wm, &vec![0, 0], &vec![(0, 0)], 2, 2);
    assert_eq!(r3.err(), Some(StegoError::InvalidKey));
    // More keys than the reconstruction buffers can hold.
    let r4 = DWTImage::extract_message_from_image(&wm, &vec![0, 0], &vec![(0, 0), (0, 0)], 2, 2);
    assert_eq!(r4.err(), Some(StegoError::InvalidKey));
    // Odd target dimensions.
    let r5 = DWTImage::extract_message_from_image(&wm, &vec![0], &vec![(0, 0)], 3, 2);
    assert_eq!(r5.err(), Some(StegoError::IncompatibleDimensions));
}

#[test]
fn extract_empty_keys_gives_zero_image() {
    let wm = uniform_image(4, 4, 7);
    let out = DWTImage::extract_message_from_image(&wm, &Vec::new(), &Vec::new(), 4, 4)
        .unwrap();
    assert_eq!(out.width, 4);
    assert_eq!(out.height, 4);
    assert_eq!(out.data, vec![gray(0); 16]);
}
