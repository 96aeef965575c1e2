//! Image textures: a decoded bitmap and the lookup of its texels.
//!
//! Decoding is the work of the `image` crate. What comes back is held as
//! plain bytes, four to a pixel, rows from the top; flipping the image and
//! looking up a texel are done here.

use crate::rounding::{
    lemma_rounded_at_most_doubles, lemma_rounded_scales, round24, round_size, rounded_size,
};
use crate::scalar::{lemma_magnitudes_increase, shift_down, Scalar, INFINITY_BITS};
use vstd::arithmetic::div_mod::{lemma_fundamental_div_mod, lemma_fundamental_div_mod_converse};
use vstd::arithmetic::power2::{
    lemma2_to64, lemma_pow2_adds, lemma_pow2_pos, lemma_pow2_strictly_increases, pow2,
};
use vstd::prelude::*;

verus! {

/// The error type of the `image` crate. Nothing is known of a value of it.
#[verifier::external_type_specification]
#[verifier::external_body]
pub struct ExImageError(image::ImageError);

/// Decodes an image with `image::load_from_memory`, converts it with
/// `DynamicImage::to_rgba8`, and takes the result apart with
/// `ImageBuffer::dimensions` and `ImageBuffer::into_raw`.
///
/// What is decoded may differ from one machine to the next, so the contract
/// claims only what holds of every outcome: the buffer of a converted image
/// holds exactly four bytes for each pixel.
#[verifier::external_body]
fn decode_rgba8(bytes: &[u8]) -> (decoded: Result<(u32, u32, Vec<u8>), image::ImageError>)
    ensures
        decoded matches Ok((width, height, data)) ==> data@.len() == 4 * (width * height),
{
    match image::load_from_memory(bytes) {
        Ok(picture) => {
            let rgba = picture.to_rgba8();
            let (width, height) = rgba.dimensions();
            Ok((width, height, rgba.into_raw()))
        },
        Err(error) => Err(error),
    }
}

/// Why a texture could not be made.
#[derive(Clone, Copy, Debug, PartialEq, Eq, Structural)]
pub enum TextureError {
    /// The bytes are no image that the decoder accepts.
    Undecodable,
    /// The pixels are not four bytes for each pixel of the size.
    Misshapen,
}

/// The colour of a texture without an image: cyan.
pub open spec fn sentinel_colour() -> Seq<u8> {
    seq![0u8, 255u8, 255u8]
}

/// Returns the colour of a texture without an image.
pub fn sentinel() -> (rgb: [u8; 3])
    ensures
        rgb@ == sentinel_colour(),
{
    let rgb: [u8; 3] = [0, 255, 255];
    assert(rgb@ =~= sentinel_colour());
    rgb
}

/// An image of eight-bit RGBA pixels, rows stored from the top.
#[derive(Debug)]
pub struct Bitmap {
    width: u32,
    height: u32,
    data: Vec<u8>,
}

/// The mathematical model of a [`Bitmap`].
pub struct BitmapView {
    pub width: int,
    pub height: int,
    pub data: Seq<u8>,
}

impl BitmapView {
    /// Channel `c` of the pixel in column `x` of row `y`.
    pub open spec fn channel(self, x: int, y: int, c: int) -> u8 {
        self.data[4 * (y * self.width + x) + c]
    }

    /// Whether the data hold four bytes for each pixel.
    pub open spec fn well_formed(self) -> bool {
        &&& 0 <= self.width
        &&& 0 <= self.height
        &&& self.data.len() == 4 * (self.width * self.height)
    }

    /// Whether `self` is `other` with its rows in reverse order.
    pub open spec fn is_flip_of(self, other: BitmapView) -> bool {
        &&& self.width == other.width
        &&& self.height == other.height
        &&& forall|x: int, y: int, c: int|
            0 <= x < self.width && 0 <= y < self.height && 0 <= c < 4 ==> #[trigger] self.channel(
                x,
                y,
                c,
            ) == other.channel(x, self.height - 1 - y, c)
    }
}

impl View for Bitmap {
    type V = BitmapView;

    closed spec fn view(&self) -> BitmapView {
        BitmapView { width: self.width as int, height: self.height as int, data: self.data@ }
    }
}

/// The bytes of pixel `(x, y)` lie inside the data of a well-formed image.
pub proof fn lemma_texel_in_data(width: int, height: int, x: int, y: int)
    requires
        0 <= x < width,
        0 <= y < height,
    ensures
        0 <= y * width,
        0 <= 4 * (y * width + x),
        4 * (y * width + x) + 4 <= 4 * (width * height),
{
    assert(0 <= y * width) by (nonlinear_arith)
        requires
            0 <= y,
            0 <= width,
    ;
    assert(y * width + width <= height * width) by (nonlinear_arith)
        requires
            y + 1 <= height,
            0 <= width,
    ;
    assert(height * width == width * height) by (nonlinear_arith);
}

/// Turning an image upside down twice gives the image back.
pub proof fn lemma_flip_twice(image: BitmapView, once: BitmapView, twice: BitmapView)
    requires
        image.well_formed(),
        once.well_formed(),
        twice.well_formed(),
        once.is_flip_of(image),
        twice.is_flip_of(once),
    ensures
        twice == image,
{
    let w = image.width;
    let h = image.height;
    assert forall|i: int| 0 <= i < image.data.len() implies twice.data[i] == image.data[i] by {
        let c = i % 4;
        let p = i / 4;
        assert(w > 0 && h > 0) by (nonlinear_arith)
            requires
                0 < 4 * (w * h),
                0 <= w,
                0 <= h,
        ;
        let y = p / w;
        let x = p % w;
        assert(p == y * w + x && 0 <= x < w && 0 <= y) by (nonlinear_arith)
            requires
                w > 0,
                p >= 0,
                y == p / w,
                x == p % w,
        ;
        assert(y < h) by (nonlinear_arith)
            requires
                p == y * w + x,
                0 <= x,
                p < w * h,
                w > 0,
        ;
        assert(twice.channel(x, y, c) == once.channel(x, h - 1 - y, c));
        assert(once.channel(x, h - 1 - y, c) == image.channel(x, h - 1 - (h - 1 - y), c));
    }
    assert(twice.data =~= image.data);
}

impl Bitmap {
    #[verifier::type_invariant]
    spec fn data_fit(self) -> bool {
        self.data@.len() == 4 * (self.width * self.height)
    }

    /// An image of the given size over the given bytes, or nothing where the
    /// bytes are not four for each pixel.
    pub fn from_raw(width: u32, height: u32, data: Vec<u8>) -> (bitmap: Option<Self>)
        ensures
            bitmap is Some <==> data@.len() == 4 * (width * height),
            bitmap matches Some(b) ==> b@ == (BitmapView {
                width: width as int,
                height: height as int,
                data: data@,
            }) && b@.well_formed(),
    {
        assert(0 <= width * height <= 0xffff_ffff * 0xffff_ffff) by (nonlinear_arith)
            requires
                0 <= width <= 0xffff_ffff,
                0 <= height <= 0xffff_ffff,
        ;
        let pixels: u64 = (width as u64) * (height as u64);
        let length: usize = data.len();
        if pixels <= (u64::MAX / 4) && (length as u64) == 4 * pixels {
            Some(Bitmap { width, height, data })
        } else {
            None
        }
    }

    /// The width and the height of the image.
    pub fn dimensions(&self) -> (size: (u32, u32))
        ensures
            size.0 == self@.width,
            size.1 == self@.height,
            self@.well_formed(),
    {
        proof {
            use_type_invariant(self);
        }
        (self.width, self.height)
    }

    /// The four channels of the pixel in column `x` of row `y`.
    pub fn get_pixel(&self, x: u32, y: u32) -> (pixel: [u8; 4])
        requires
            x < self@.width,
            y < self@.height,
        ensures
            forall|c: int| 0 <= c < 4 ==> pixel[c] == self@.channel(x as int, y as int, c),
    {
        proof {
            use_type_invariant(self);
            lemma_texel_in_data(self.width as int, self.height as int, x as int, y as int);
        }
        let length: usize = self.data.len();
        let start: usize = 4 * (y as usize * self.width as usize + x as usize);
        [self.data[start], self.data[start + 1], self.data[start + 2], self.data[start + 3]]
    }

    /// The image with its rows in reverse order: the top row becomes the
    /// bottom row.
    pub fn flip_vertical(self) -> (flipped: Self)
        ensures
            flipped@.is_flip_of(self@),
            flipped@.well_formed(),
    {
        proof {
            use_type_invariant(&self);
        }
        let width: u32 = self.width;
        let height: u32 = self.height;
        let ghost w = width as int;
        let ghost h = height as int;
        let ghost source = self.data@;
        let total: usize = self.data.len();
        if width == 0 || height == 0 {
            return self;
        }
        assert(w * h >= w && w * h >= h) by (nonlinear_arith)
            requires
                w >= 1,
                h >= 1,
        ;
        let stride: usize = 4 * (width as usize);
        let ghost s = stride as int;
        assert(h * s == 4 * (w * h)) by (nonlinear_arith)
            requires
                s == 4 * w,
        ;
        let mut data: Vec<u8> = Vec::new();
        let mut row: usize = 0;
        while row < height as usize
            invariant
                row <= h,
                height == h,
                s == 4 * w,
                stride == s,
                h * s == source.len(),
                source == self.data@,
                s >= 4,
                h >= 1,
                total == source.len(),
                data@.len() == row * s,
                forall|r: int, k: int|
                    0 <= r < row && 0 <= k < s ==> #[trigger] data@[r * s + k] == source[(h - 1
                        - r) * s + k],
            decreases h - row,
        {
            let from: usize = height as usize - 1 - row;
            proof {
                lemma_row_inside(from as int, h, s);
                lemma_row_inside(row as int, h, s);
            }
            let base: usize = from * stride;
            let ghost done = data@;
            let mut k: usize = 0;
            while k < stride
                invariant
                    k <= s,
                    stride == s,
                    row < h,
                    from == h - 1 - row,
                    base == from * s,
                    0 <= base,
                    total == source.len(),
                    base + s <= source.len(),
                    source == self.data@,
                    done.len() == row * s,
                    data@.len() == row * s + k,
                    forall|j: int| 0 <= j < done.len() ==> data@[j] == done[j],
                    forall|j: int|
                        done.len() <= j < done.len() + k ==> data@[j] == source[base + j
                            - done.len()],
                decreases s - k,
            {
                data.push(self.data[base + k]);
                k = k + 1;
            }
            proof {
                assert((row + 1) * s == row * s + s) by (nonlinear_arith);
                assert forall|r: int, j: int| 0 <= r < row + 1 && 0 <= j < s implies #[trigger] data@[r
                    * s + j] == source[(h - 1 - r) * s + j] by {
                    if r < row {
                        lemma_row_inside(r, row as int, s);
                        assert(done[r * s + j] == source[(h - 1 - r) * s + j]);
                    } else {
                        assert(data@[done.len() + j] == source[base + j]);
                    }
                }
            }
            row = row + 1;
        }
        let flipped = Bitmap { width, height, data };
        proof {
            assert forall|x: int, y: int, c: int|
                0 <= x < w && 0 <= y < h && 0 <= c < 4 implies #[trigger] flipped@.channel(x, y, c)
                == self@.channel(x, h - 1 - y, c) by {
                let j = 4 * x + c;
                assert(4 * (y * w + x) + c == y * s + j) by (nonlinear_arith)
                    requires
                        s == 4 * w,
                        j == 4 * x + c,
                ;
                assert(4 * ((h - 1 - y) * w + x) + c == (h - 1 - y) * s + j) by (nonlinear_arith)
                    requires
                        s == 4 * w,
                        j == 4 * x + c,
                ;
                assert(data@[y * s + j] == source[(h - 1 - y) * s + j]);
            }
        }
        flipped
    }
}

/// Row `r` of `rows` rows of `stride` bytes each lies inside the data.
proof fn lemma_row_inside(r: int, rows: int, stride: int)
    requires
        0 <= r < rows,
        0 <= stride,
    ensures
        0 <= r * stride,
        r * stride + stride <= rows * stride,
        rows * stride == stride * rows,
{
    assert(0 <= r * stride) by (nonlinear_arith)
        requires
            0 <= r,
            0 <= stride,
    ;
    assert(r * stride + stride <= rows * stride) by (nonlinear_arith)
        requires
            r + 1 <= rows,
            0 <= stride,
    ;
    assert(rows * stride == stride * rows) by (nonlinear_arith);
}

/// A texture that looks its colours up in an image, where there is one.
#[derive(Debug)]
pub struct ImageTexture {
    img: Option<Bitmap>,
}

impl View for ImageTexture {
    type V = Option<BitmapView>;

    closed spec fn view(&self) -> Option<BitmapView> {
        match self.img {
            Some(bitmap) => Some(bitmap@),
            None => None,
        }
    }
}

/// The texel coordinate for a scaled texture coordinate: the coordinate
/// itself, or the last texel where it lies beyond.
pub open spec fn clamped_texel(scaled: int, size: int) -> int {
    if scaled < size {
        scaled
    } else {
        size - 1
    }
}

/// Whether a point lies in an odd cell of a chequered texture: it does
/// where the product `sines` of the sines of its scaled coordinates is
/// below zero.
pub fn checker_is_odd(sines: Scalar) -> (odd: bool)
    ensures
        odd == sines.is_below(Scalar { bits: 0 }),
{
    sines.less_than(&Scalar { bits: 0 })
}

/// The texel that a texture coordinate falls on along an axis of `size`
/// texels, as arithmetic in binary32 finds it: the coordinate is clamped to
/// the unit interval and multiplied by the size, both the size and the
/// product being rounded to the encoding, and the integer part of the
/// product is the texel, or the last texel where that lies beyond. A pattern
/// that is no number falls on the first texel.
pub open spec fn texel_of(coordinate: Scalar, size: int) -> int {
    let span = round24(size);
    let scaled = if coordinate.is_nan() || coordinate.value() <= 0 {
        0
    } else if coordinate.value() >= pow2(149) {
        span
    } else {
        round24(coordinate.value() * span) / (pow2(149) as int)
    };
    if scaled < size - 1 {
        scaled
    } else {
        size - 1
    }
}

/// Finds the texel that a texture coordinate falls on.
pub fn texel_index(coordinate: Scalar, size: u32) -> (texel: u32)
    requires
        size > 0,
    ensures
        texel == texel_of(coordinate, size as int),
        texel < size,
{
    let bits: u32 = coordinate.bits;
    let ghost unit = pow2(149) as int;
    let span: u128 = round_size(size as u128);
    proof {
        lemma2_to64();
        lemma_pow2_pos(149);
        if coordinate.magnitude() > 0 && !coordinate.is_nan() {
            lemma_magnitudes_increase(0, coordinate.magnitude());
        }
    }
    if bits >= 0x8000_0000 || bits > INFINITY_BITS || bits == 0 {
        return 0;
    }
    let last: u32 = size - 1;
    let exponent: u32 = bits / 0x80_0000;
    let fraction: u32 = bits % 0x80_0000;
    let ghost value = coordinate.value();
    if exponent == 0 {
        proof {
            // Below 2^23 units of 2^-149: times the size, far below one.
            lemma_pow2_strictly_increases(57, 149);
            lemma_pow2_adds(25, 32);
            assert(pow2(57) == 0x200_0000_0000_0000) by (nonlinear_arith)
                requires
                    pow2(57) == pow2(25) * pow2(32),
                    pow2(25) == 0x200_0000,
                    pow2(32) == 0x1_0000_0000,
            ;
            assert(value == fraction);
            assert(0 <= value * span < 0x80_0000 * 0x2_0000_0000) by (nonlinear_arith)
                requires
                    0 <= value < 0x80_0000,
                    0 <= span <= 0x2_0000_0000,
            ;
            let product = (value * span) as nat;
            lemma_rounded_at_most_doubles(product);
            assert(round24(value * span) == rounded_size(product));
            assert(rounded_size(product) < unit);
            lemma_fundamental_div_mod_converse(
                rounded_size(product) as int,
                unit,
                0,
                rounded_size(product) as int,
            );
        }
        return 0;
    }
    let mantissa: u128 = 0x80_0000 + fraction as u128;
    let ghost scale = pow2((exponent - 1) as nat) as int;
    proof {
        lemma_pow2_pos((exponent - 1) as nat);
        assert(value == mantissa * scale);
        assert(value > 0) by (nonlinear_arith)
            requires
                value == mantissa * scale,
                mantissa > 0,
                scale > 0,
        ;
    }
    if exponent >= 127 {
        proof {
            // At least one: 2^23 * 2^126.
            lemma_pow2_adds(23, 126);
            if exponent > 127 {
                lemma_pow2_strictly_increases(126, (exponent - 1) as nat);
            }
            assert(0x80_0000 * pow2(126) <= mantissa * scale) by (nonlinear_arith)
                requires
                    0x80_0000 <= mantissa,
                    pow2(126) <= scale,
                    0 < pow2(126),
            ;
        }
        return if span < last as u128 {
            span as u32
        } else {
            last
        };
    }
    let shift: u32 = 150 - exponent;
    assert(mantissa * span < 0x100_0000 * 0x2_0000_0001) by (nonlinear_arith)
        requires
            0 <= mantissa < 0x100_0000,
            0 <= span <= 0x2_0000_0000,
    ;
    let product: u128 = mantissa * span;
    let rounded: u128 = round_size(product);
    let (whole, _) = shift_down(rounded as u64, shift);
    proof {
        let step = pow2(shift as nat) as int;
        let rest = rounded as int % step;
        lemma_pow2_pos(shift as nat);
        lemma_pow2_adds(shift as nat, (exponent - 1) as nat);
        assert(unit == step * scale);
        // Less than one: below 2^24 * 2^(exponent - 1), at most 2^149.
        lemma_pow2_adds(24, (exponent - 1) as nat);
        if exponent < 126 {
            lemma_pow2_strictly_increases((exponent + 23) as nat, 149);
        }
        assert(value < unit) by (nonlinear_arith)
            requires
                value == mantissa * scale,
                mantissa < 0x100_0000,
                0x100_0000 * scale <= unit,
                scale > 0,
        ;
        // The product of the numbers is the product of the mantissa and
        // the size, with the zeros of the exponent behind it.
        assert(value * span == product * scale) by (nonlinear_arith)
            requires
                value == mantissa * scale,
                product == mantissa * span,
        ;
        lemma_rounded_scales(product as nat, (exponent - 1) as nat);
        assert(round24(value * span) == rounded * scale);
        lemma_fundamental_div_mod(rounded as int, step);
        assert(0 <= rest < step);
        let left = rest * scale;
        assert(rounded * scale == whole * unit + left && 0 <= left < unit) by (nonlinear_arith)
            requires
                rounded == step * whole + rest,
                unit == step * scale,
                0 <= rest < step,
                scale > 0,
                left == rest * scale,
        ;
        lemma_fundamental_div_mod_converse(rounded * scale, unit, whole as int, left);
    }
    if whole < last as u64 {
        whole as u32
    } else {
        last
    }
}

impl ImageTexture {
    #[verifier::type_invariant]
    spec fn image_has_pixels(self) -> bool {
        self.img matches Some(bitmap) ==> bitmap.width > 0 && bitmap.height > 0
    }

    /// A texture over the image that `loaded` encodes. Where nothing was
    /// loaded, or what was loaded is no image with pixels, the texture has
    /// no image, and the one colour of the sentinel.
    pub fn new(loaded: Option<Vec<u8>>) -> (texture: Self)
        ensures
            loaded is None ==> texture@ is None,
            texture@ matches Some(view) ==> view.well_formed() && view.width > 0 && view.height
                > 0,
    {
        let img = match loaded {
            Some(bytes) => match Self::from_bytes(bytes.as_slice()) {
                Ok(bitmap) => Some(bitmap),
                Err(_) => None,
            },
            None => None,
        };
        Self::from_bitmap(img)
    }

    /// A texture over an image that is already decoded. An image without
    /// pixels counts as none.
    pub fn from_bitmap(img: Option<Bitmap>) -> (texture: Self)
        ensures
            texture@ == match img {
                Some(bitmap) => if bitmap@.width > 0 && bitmap@.height > 0 {
                    Some(bitmap@)
                } else {
                    None
                },
                None => None,
            },
            texture@ matches Some(view) ==> view.well_formed(),
    {
        match img {
            Some(bitmap) => {
                let (width, height) = bitmap.dimensions();
                if width > 0 && height > 0 {
                    ImageTexture { img: Some(bitmap) }
                } else {
                    ImageTexture { img: None }
                }
            },
            None => ImageTexture { img: None },
        }
    }

    /// The image of decoded pixels, turned upside down so that row 0 is its
    /// bottom row: `data` holds the pixels of an image of the given size,
    /// four bytes each, row by row from the top.
    pub fn from_decoded(width: u32, height: u32, data: Vec<u8>) -> (image: Result<
        Bitmap,
        TextureError,
    >)
        ensures
            image is Ok <==> data@.len() == 4 * (width * height),
            image matches Ok(bitmap) ==> bitmap@.well_formed() && bitmap@.is_flip_of(
                BitmapView { width: width as int, height: height as int, data: data@ },
            ),
            image matches Err(error) ==> error == TextureError::Misshapen,
    {
        match Bitmap::from_raw(width, height, data) {
            Some(upright) => Ok(upright.flip_vertical()),
            None => Err(TextureError::Misshapen),
        }
    }

    /// Decodes an image and turns it upside down, so that row 0 is its
    /// bottom row. Bytes that the decoder does not accept are refused.
    pub fn from_bytes(bytes: &[u8]) -> (decoded: Result<Bitmap, TextureError>)
        ensures
            match decoded {
                Ok(bitmap) => bitmap@.well_formed(),
                Err(error) => error == TextureError::Undecodable,
            },
    {
        match decode_rgba8(bytes) {
            Ok((width, height, data)) => {
                match Self::from_decoded(width, height, data) {
                    Ok(bitmap) => Ok(bitmap),
                    Err(_) => Err(TextureError::Undecodable),
                }
            },
            Err(_) => Err(TextureError::Undecodable),
        }
    }

    /// The width and the height of the image, both zero where the texture
    /// has none.
    pub fn size(&self) -> (size: (u32, u32))
        ensures
            match self@ {
                Some(view) => size.0 == view.width && size.1 == view.height && view.width > 0
                    && view.height > 0 && view.well_formed(),
                None => size == (0u32, 0u32),
            },
    {
        proof {
            use_type_invariant(self);
        }
        match &self.img {
            Some(bitmap) => bitmap.dimensions(),
            None => (0, 0),
        }
    }

    /// The red, green and blue of the texel that the texture coordinates
    /// `(u, v)` fall on, `v` counted from the bottom of the picture. A
    /// texture without an image has the colour of the sentinel everywhere.
    pub fn value(&self, u: Scalar, v: Scalar) -> (rgb: [u8; 3])
        ensures
            match self@ {
                Some(view) => forall|i: int|
                    0 <= i < 3 ==> rgb[i] == view.channel(
                        texel_of(u, view.width),
                        texel_of(v, view.height),
                        i,
                    ),
                None => rgb@ == sentinel_colour(),
            },
    {
        let (width, height) = self.size();
        if width == 0 || height == 0 {
            return sentinel();
        }
        let column: u32 = texel_index(u, width);
        let row: u32 = texel_index(v, height);
        self.texel(column, row)
    }

    /// The red, green and blue of the texel at the scaled coordinates
    /// `(column, row)`, each clamped to the last texel of its axis. A
    /// texture without an image has the colour of the sentinel everywhere.
    pub fn texel(&self, column: u32, row: u32) -> (rgb: [u8; 3])
        ensures
            match self@ {
                Some(view) => forall|i: int|
                    0 <= i < 3 ==> rgb[i] == view.channel(
                        clamped_texel(column as int, view.width),
                        clamped_texel(row as int, view.height),
                        i,
                    ),
                None => rgb@ == sentinel_colour(),
            },
    {
        proof {
            use_type_invariant(self);
        }
        match &self.img {
            Some(bitmap) => {
                let (width, height) = bitmap.dimensions();
                let x: u32 = if column < width {
                    column
                } else {
                    width - 1
                };
                let y: u32 = if row < height {
                    row
                } else {
                    height - 1
                };
                let pixel = bitmap.get_pixel(x, y);
                [pixel[0], pixel[1], pixel[2]]
            },
            None => sentinel(),
        }
    }
}

} // verus!
