use ray_tracing::scalar::Scalar;
use ray_tracing::texture::{sentinel, texel_index, Bitmap, ImageTexture, TextureError};
use std::io::Cursor;

fn numbered(width: u32, height: u32) -> Vec<u8> {
    (0..4 * width * height).map(|i| i as u8).collect()
}

fn png_of(width: u32, height: u32, data: Vec<u8>) -> Vec<u8> {
    let picture = image::RgbaImage::from_raw(width, height, data).unwrap();
    let mut bytes = Vec::new();
    picture
        .write_to(&mut Cursor::new(&mut bytes), image::ImageOutputFormat::Png)
        .unwrap();
    bytes
}

#[test]
fn bitmap_needs_four_bytes_for_each_pixel() {
    assert!(Bitmap::from_raw(2, 3, vec![0; 24]).is_some());
    assert!(Bitmap::from_raw(2, 3, vec![0; 23]).is_none());
    assert!(Bitmap::from_raw(2, 3, vec![0; 25]).is_none());
    assert!(Bitmap::from_raw(0, 0, vec![]).is_some());
    assert!(Bitmap::from_raw(0, 7, vec![]).is_some());
    assert!(Bitmap::from_raw(0, 7, vec![1]).is_none());
    assert!(Bitmap::from_raw(u32::MAX, u32::MAX, vec![0; 4]).is_none());
}

#[test]
fn bitmap_reports_its_size() {
    let bitmap = Bitmap::from_raw(2, 3, numbered(2, 3)).unwrap();
    assert_eq!(bitmap.dimensions(), (2, 3));
}

#[test]
fn pixels_are_stored_row_by_row() {
    let bitmap = Bitmap::from_raw(2, 3, numbered(2, 3)).unwrap();
    assert_eq!(bitmap.get_pixel(0, 0), [0, 1, 2, 3]);
    assert_eq!(bitmap.get_pixel(1, 0), [4, 5, 6, 7]);
    assert_eq!(bitmap.get_pixel(0, 1), [8, 9, 10, 11]);
    assert_eq!(bitmap.get_pixel(1, 2), [20, 21, 22, 23]);
}

#[test]
fn flip_reverses_the_rows() {
    let flipped = Bitmap::from_raw(2, 3, numbered(2, 3)).unwrap().flip_vertical();
    assert_eq!(flipped.dimensions(), (2, 3));
    assert_eq!(flipped.get_pixel(0, 0), [16, 17, 18, 19]);
    assert_eq!(flipped.get_pixel(1, 0), [20, 21, 22, 23]);
    assert_eq!(flipped.get_pixel(0, 1), [8, 9, 10, 11]);
    assert_eq!(flipped.get_pixel(1, 1), [12, 13, 14, 15]);
    assert_eq!(flipped.get_pixel(0, 2), [0, 1, 2, 3]);
    assert_eq!(flipped.get_pixel(1, 2), [4, 5, 6, 7]);
}

#[test]
fn flipping_twice_gives_the_image_back() {
    let (width, height) = (5u32, 4u32);
    let twice = Bitmap::from_raw(width, height, numbered(width, height))
        .unwrap()
        .flip_vertical()
        .flip_vertical();
    let once = Bitmap::from_raw(width, height, numbered(width, height)).unwrap();
    for y in 0..height {
        for x in 0..width {
            assert_eq!(twice.get_pixel(x, y), once.get_pixel(x, y));
        }
    }
}

#[test]
fn flip_of_an_image_without_pixels() {
    let flipped = Bitmap::from_raw(0, 3, vec![]).unwrap().flip_vertical();
    assert_eq!(flipped.dimensions(), (0, 3));
    let flipped = Bitmap::from_raw(3, 0, vec![]).unwrap().flip_vertical();
    assert_eq!(flipped.dimensions(), (3, 0));
}

#[test]
fn flip_of_a_single_row_changes_nothing() {
    let flipped = Bitmap::from_raw(3, 1, numbered(3, 1)).unwrap().flip_vertical();
    assert_eq!(flipped.get_pixel(0, 0), [0, 1, 2, 3]);
    assert_eq!(flipped.get_pixel(2, 0), [8, 9, 10, 11]);
}

#[test]
fn decoded_image_is_turned_upside_down() {
    let bytes = png_of(2, 3, numbered(2, 3));
    let bitmap = ImageTexture::from_bytes(&bytes).unwrap();
    assert_eq!(bitmap.dimensions(), (2, 3));
    assert_eq!(bitmap.get_pixel(0, 0), [16, 17, 18, 19]);
    assert_eq!(bitmap.get_pixel(1, 0), [20, 21, 22, 23]);
    assert_eq!(bitmap.get_pixel(0, 1), [8, 9, 10, 11]);
    assert_eq!(bitmap.get_pixel(0, 2), [0, 1, 2, 3]);
    assert_eq!(bitmap.get_pixel(1, 2), [4, 5, 6, 7]);
}

#[test]
fn decoded_image_without_alpha_is_opaque() {
    let picture = image::RgbImage::from_raw(1, 2, vec![10, 20, 30, 40, 50, 60]).unwrap();
    let mut bytes = Vec::new();
    picture
        .write_to(&mut Cursor::new(&mut bytes), image::ImageOutputFormat::Png)
        .unwrap();
    let bitmap = ImageTexture::from_bytes(&bytes).unwrap();
    assert_eq!(bitmap.dimensions(), (1, 2));
    assert_eq!(bitmap.get_pixel(0, 0), [40, 50, 60, 255]);
    assert_eq!(bitmap.get_pixel(0, 1), [10, 20, 30, 255]);
}

#[test]
fn bytes_that_are_no_image_are_refused() {
    assert_eq!(ImageTexture::from_bytes(&[]).unwrap_err(), TextureError::Undecodable);
    assert_eq!(
        ImageTexture::from_bytes(b"not an image at all").unwrap_err(),
        TextureError::Undecodable
    );
    let mut cut = png_of(2, 2, numbered(2, 2));
    cut.truncate(20);
    assert_eq!(ImageTexture::from_bytes(&cut).unwrap_err(), TextureError::Undecodable);
}

#[test]
fn texture_without_an_image_has_no_texels() {
    assert_eq!(ImageTexture::new(None).texel(0, 0), [0, 255, 255]);
    assert_eq!(ImageTexture::new(Some(vec![1, 2, 3])).texel(0, 0), [0, 255, 255]);
    assert_eq!(ImageTexture::from_bitmap(None).texel(5, 5), [0, 255, 255]);
}

#[test]
fn texture_of_an_image_without_pixels_has_no_texels() {
    let texture = ImageTexture::from_bitmap(Bitmap::from_raw(0, 4, vec![]));
    assert_eq!(texture.texel(0, 0), [0, 255, 255]);
    assert_eq!(texture.size(), (0, 0));
    let texture = ImageTexture::from_bitmap(Bitmap::from_raw(4, 0, vec![]));
    assert_eq!(texture.texel(0, 0), [0, 255, 255]);
    assert_eq!(texture.size(), (0, 0));
}

#[test]
fn texel_drops_the_alpha() {
    let texture = ImageTexture::from_bitmap(Bitmap::from_raw(2, 2, numbered(2, 2)));
    assert_eq!(texture.texel(0, 0), [0, 1, 2]);
    assert_eq!(texture.texel(1, 0), [4, 5, 6]);
    assert_eq!(texture.texel(0, 1), [8, 9, 10]);
    assert_eq!(texture.texel(1, 1), [12, 13, 14]);
}

#[test]
fn texel_clamps_to_the_last_row_and_column() {
    let texture = ImageTexture::from_bitmap(Bitmap::from_raw(2, 2, numbered(2, 2)));
    assert_eq!(texture.texel(2, 0), [4, 5, 6]);
    assert_eq!(texture.texel(0, 2), [8, 9, 10]);
    assert_eq!(texture.texel(2, 2), [12, 13, 14]);
    assert_eq!(texture.texel(u32::MAX, u32::MAX), [12, 13, 14]);
}

#[test]
fn texture_from_loaded_bytes() {
    let texture = ImageTexture::new(Some(png_of(1, 2, vec![1, 2, 3, 4, 5, 6, 7, 8])));
    // Row 0 of the texture is the bottom row of the picture.
    assert_eq!(texture.texel(0, 0), [5, 6, 7]);
    assert_eq!(texture.texel(0, 1), [1, 2, 3]);
}

#[test]
fn texture_reports_the_size_of_its_image() {
    let texture = ImageTexture::from_bitmap(Bitmap::from_raw(5, 3, vec![0; 60]));
    assert_eq!(texture.size(), (5, 3));
    assert_eq!(ImageTexture::from_bitmap(None).size(), (0, 0));
    assert_eq!(ImageTexture::new(None).size(), (0, 0));
}

fn scalar(number: f32) -> Scalar {
    Scalar::from_bits(number.to_bits())
}

/// What arithmetic in single precision makes of a coordinate.
fn texel_by_arithmetic(coordinate: f32, size: u32) -> u32 {
    ((coordinate.clamp(0., 1.) * size as f32) as u32).min(size - 1)
}

#[test]
fn texels_of_some_coordinates() {
    assert_eq!(texel_index(scalar(0.), 4), 0);
    assert_eq!(texel_index(scalar(0.24), 4), 0);
    assert_eq!(texel_index(scalar(0.25), 4), 1);
    assert_eq!(texel_index(scalar(0.5), 4), 2);
    assert_eq!(texel_index(scalar(0.75), 4), 3);
    assert_eq!(texel_index(scalar(0.999_999_9), 4), 3);
    assert_eq!(texel_index(scalar(1.), 4), 3);
    assert_eq!(texel_index(scalar(0.5), 1), 0);
    assert_eq!(texel_index(scalar(0.5), 1023), 511);
    // 0.5 * 2^32, the size rounded to the encoding
    assert_eq!(texel_index(scalar(0.5), u32::MAX), 1 << 31);
    assert_eq!(texel_index(scalar(0.999_999_94), u32::MAX), 4_294_967_040);
}

#[test]
fn texel_product_is_rounded_as_single_precision_does() {
    // 0.41 is held as 0.4099999964..., and times 100 that rounds to 41.
    assert_eq!(texel_index(scalar(0.41), 100), 41);
    assert_eq!(texel_index(scalar(0.409_999_97), 100), 40);
    // The largest coordinate below one, times 3, stays below 3.
    assert_eq!(texel_index(scalar(0.999_999_94), 3), 2);
}

#[test]
fn texels_of_coordinates_outside_the_unit_interval() {
    assert_eq!(texel_index(scalar(-0.), 8), 0);
    assert_eq!(texel_index(scalar(-0.5), 8), 0);
    assert_eq!(texel_index(scalar(f32::NEG_INFINITY), 8), 0);
    assert_eq!(texel_index(scalar(1.5), 8), 7);
    assert_eq!(texel_index(scalar(f32::MAX), 8), 7);
    assert_eq!(texel_index(scalar(f32::INFINITY), 8), 7);
    assert_eq!(texel_index(scalar(f32::NAN), 8), 0);
    assert_eq!(texel_index(scalar(1.0e-45), 8), 0);
    assert_eq!(texel_index(scalar(1.0e-45), u32::MAX), 0);
    assert_eq!(texel_index(scalar(f32::MIN_POSITIVE), u32::MAX), 0);
}

#[test]
fn last_texel_of_a_size_that_the_encoding_rounds_down() {
    // 2^26 + 2 texels are 2^26 in single precision: the coordinate one
    // falls on texel 2^26, not on the last.
    let size = (1 << 26) + 2;
    assert_eq!(texel_index(scalar(1.), size), 1 << 26);
    assert_eq!(texel_index(scalar(1.), size), texel_by_arithmetic(1., size));
}

#[test]
fn texels_agree_with_single_precision() {
    let sizes = [
        1u32,
        2,
        3,
        7,
        100,
        256,
        1000,
        4096,
        65_535,
        1_000_000,
        16_777_215,
        16_777_216,
        16_777_217,
        (1 << 26) + 2,
        u32::MAX - 1,
        u32::MAX,
    ];
    for size in sizes {
        for step in 0..=2_000u32 {
            let coordinate = step as f32 / 2_000.;
            assert_eq!(
                texel_index(scalar(coordinate), size),
                texel_by_arithmetic(coordinate, size),
                "{coordinate} of {size}"
            );
        }
        for _ in 0..3_000 {
            let coordinate = f32::from_bits(rand::random::<u32>());
            assert_eq!(
                texel_index(scalar(coordinate), size),
                texel_by_arithmetic(coordinate, size),
                "{coordinate} of {size}"
            );
            let within = f32::from_bits(rand::random::<u32>() % 0x3f80_0001);
            assert_eq!(
                texel_index(scalar(within), size),
                texel_by_arithmetic(within, size),
                "{within} of {size}"
            );
        }
    }
}

#[test]
fn value_looks_up_the_texel_under_the_coordinates() {
    let texture = ImageTexture::from_bitmap(Bitmap::from_raw(2, 2, numbered(2, 2)));
    assert_eq!(texture.value(scalar(0.), scalar(0.)), [0, 1, 2]);
    assert_eq!(texture.value(scalar(0.49), scalar(0.49)), [0, 1, 2]);
    assert_eq!(texture.value(scalar(0.5), scalar(0.)), [4, 5, 6]);
    assert_eq!(texture.value(scalar(0.), scalar(0.5)), [8, 9, 10]);
    assert_eq!(texture.value(scalar(1.), scalar(1.)), [12, 13, 14]);
    assert_eq!(texture.value(scalar(7.), scalar(-7.)), [4, 5, 6]);
    assert_eq!(texture.value(scalar(f32::NAN), scalar(0.75)), [8, 9, 10]);
}

#[test]
fn value_of_a_texture_without_texels() {
    assert_eq!(ImageTexture::new(None).value(scalar(0.5), scalar(0.5)), [0, 255, 255]);
    let empty = ImageTexture::from_bitmap(Bitmap::from_raw(0, 3, vec![]));
    assert_eq!(empty.value(scalar(0.5), scalar(0.5)), [0, 255, 255]);
}

#[test]
fn value_counts_rows_from_the_bottom_of_the_picture() {
    let texture = ImageTexture::new(Some(png_of(1, 2, vec![1, 2, 3, 4, 5, 6, 7, 8])));
    assert_eq!(texture.value(scalar(0.5), scalar(0.25)), [5, 6, 7]);
    assert_eq!(texture.value(scalar(0.5), scalar(0.75)), [1, 2, 3]);
}

#[test]
fn sentinel_is_cyan() {
    assert_eq!(sentinel(), [0, 255, 255]);
}

#[test]
fn texture_of_a_failed_asset_is_cyan_everywhere() {
    let missing = ImageTexture::new(None);
    let broken = ImageTexture::new(Some(b"no image".to_vec()));
    for texture in [missing, broken] {
        for u in [-3., 0., 0.3, 1., 9., f32::NAN] {
            for v in [-3., 0., 0.7, 1., 9., f32::INFINITY] {
                assert_eq!(texture.value(scalar(u), scalar(v)), [0, 255, 255]);
            }
        }
        assert_eq!(texture.texel(0, 0), [0, 255, 255]);
        assert_eq!(texture.texel(u32::MAX, 7), [0, 255, 255]);
    }
}

#[test]
fn decoded_pixels_are_turned_upside_down() {
    let bitmap = ImageTexture::from_decoded(2, 3, numbered(2, 3)).unwrap();
    assert_eq!(bitmap.dimensions(), (2, 3));
    assert_eq!(bitmap.get_pixel(0, 0), [16, 17, 18, 19]);
    assert_eq!(bitmap.get_pixel(1, 0), [20, 21, 22, 23]);
    assert_eq!(bitmap.get_pixel(0, 1), [8, 9, 10, 11]);
    assert_eq!(bitmap.get_pixel(1, 2), [4, 5, 6, 7]);
}

#[test]
fn decoded_pixels_of_the_wrong_number_are_refused() {
    assert_eq!(
        ImageTexture::from_decoded(2, 3, vec![0; 23]).unwrap_err(),
        TextureError::Misshapen
    );
    assert_eq!(
        ImageTexture::from_decoded(2, 3, vec![0; 25]).unwrap_err(),
        TextureError::Misshapen
    );
    assert_eq!(
        ImageTexture::from_decoded(0, 0, vec![1]).unwrap_err(),
        TextureError::Misshapen
    );
    assert!(ImageTexture::from_decoded(0, 5, vec![]).is_ok());
}
