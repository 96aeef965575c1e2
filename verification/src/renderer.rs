//! Render settings, the decisions of the integrator along a path, the bytes
//! of colour samples and the layout of the RGBA frame buffer.
//!
//! The frame is a byte array of four bytes per pixel, rows stored top to
//! bottom. The integrator addresses pixels by column `x` and scanline `y`,
//! scanlines counted from the bottom of the image.

use crate::gui::Gui;
use crate::material::ScatterType;
use crate::scalar::{lemma_magnitudes_increase, shift_down, Scalar, INFINITY_BITS};
use crate::scene::{same_text, scene_of_name, select_scene, SceneKind};
use vstd::arithmetic::div_mod::lemma_fundamental_div_mod;
use vstd::arithmetic::power2::{
    lemma2_to64, lemma_pow2_adds, lemma_pow2_pos, lemma_pow2_strictly_increases, pow2,
};
use vstd::prelude::*;

verus! {

/// The settings that are carried from one frame to the next.
#[derive(Debug)]
pub struct Renderer {
    pub width: u32,
    pub height: u32,
    scale: u32,
    actual_width: u32,
    actual_height: u32,
    pub multisample: usize,
    pub max_depth: usize,
    pub dirty: bool,
    label: String,
}

/// The mathematical model of a [`Renderer`].
pub struct RendererView {
    pub width: int,
    pub height: int,
    pub scale: int,
    pub actual_width: int,
    pub actual_height: int,
    pub multisample: int,
    pub max_depth: int,
    pub dirty: bool,
    pub label: Seq<char>,
}

impl View for Renderer {
    type V = RendererView;

    closed spec fn view(&self) -> RendererView {
        RendererView {
            width: self.width as int,
            height: self.height as int,
            scale: self.scale as int,
            actual_width: self.actual_width as int,
            actual_height: self.actual_height as int,
            multisample: self.multisample as int,
            max_depth: self.max_depth as int,
            dirty: self.dirty,
            label: self.label@,
        }
    }
}

/// The offset in the frame of the first byte of the pixel in column `x` of
/// scanline `y`, where scanline 0 is the bottom row of the image and row 0
/// of the frame is its top row.
pub open spec fn pixel_offset(width: int, height: int, x: int, y: int) -> int {
    4 * ((height - 1 - y) * width + x)
}

/// Whether `byte` is what a colour sample becomes in the frame: the nearest
/// integer to 256 times the square root of the sample, the upper one of two
/// that are equally near, and at most 255. A sample that is no positive
/// number becomes zero.
///
/// The value of a sample is the sample times `2^149`, so that 256 times the
/// root is at least `byte - 1/2` exactly where the value is at least
/// `(2 * byte - 1)^2 * 2^131`, and below `byte + 1/2` exactly where the value
/// is below `(2 * byte + 1)^2 * 2^131`.
pub open spec fn is_byte_of(byte: int, sample: Scalar) -> bool {
    if sample.is_nan() || sample.value() <= 0 {
        byte == 0
    } else {
        &&& 0 <= byte <= 255
        &&& byte > 0 ==> (2 * byte - 1) * (2 * byte - 1) * pow2(131) <= sample.value()
        &&& byte < 255 ==> sample.value() < (2 * byte + 1) * (2 * byte + 1) * pow2(131)
    }
}

/// Whether the four bytes of `frame` at pixel `(x, y)` hold the colour `rgb`
/// as bytes, followed by an opaque alpha.
pub open spec fn pixel_holds(
    frame: Seq<u8>,
    width: int,
    height: int,
    x: int,
    y: int,
    rgb: [Scalar; 3],
) -> bool {
    let o = pixel_offset(width, height, x, y);
    &&& is_byte_of(frame[o] as int, rgb[0])
    &&& is_byte_of(frame[o + 1] as int, rgb[1])
    &&& is_byte_of(frame[o + 2] as int, rgb[2])
    &&& frame[o + 3] == 255
}

/// Whether `clean` holds the samples `raw` as they enter an average: each
/// component of each sample sanitised, and nothing else.
pub open spec fn are_sanitised(clean: Seq<[Scalar; 3]>, raw: Seq<[Scalar; 3]>) -> bool {
    &&& clean.len() == raw.len()
    &&& forall|k: int, c: int|
        0 <= k < raw.len() && 0 <= c < 3 ==> (#[trigger] clean[k])[c] == (#[trigger] raw[k][c]).sanitised()
}

/// Whether `colour` is what `count` samples make of pixel `(x, y)`: sample
/// `k` of the pixel is one that `sample` may return for it, for each `k`
/// below `count`, and the colour is one that `mean` may return for the
/// list of these samples, each sanitised.
pub open spec fn pixel_sampled<
    S: Fn(u32, u32, usize) -> [Scalar; 3],
    M: Fn(Vec<[Scalar; 3]>) -> [Scalar; 3],
>(sample: S, mean: M, x: u32, y: u32, count: int, colour: [Scalar; 3]) -> bool {
    exists|raw: Seq<[Scalar; 3]>, clean: Vec<[Scalar; 3]>|
        #![trigger are_sanitised(clean@, raw)]
        {
            &&& raw.len() == count
            &&& forall|k: int|
                0 <= k < count ==> sample.ensures((x, y, k as usize), #[trigger] raw[k])
            &&& are_sanitised(clean@, raw)
            &&& mean.ensures((clean,), colour)
        }
}

/// Whether pixel `(x, y)` of `frame` holds, as bytes, a colour that `count`
/// samples make of it, followed by an opaque alpha.
pub open spec fn pixel_drawn<
    S: Fn(u32, u32, usize) -> [Scalar; 3],
    M: Fn(Vec<[Scalar; 3]>) -> [Scalar; 3],
>(
    sample: S,
    mean: M,
    count: int,
    frame: Seq<u8>,
    width: int,
    height: int,
    x: u32,
    y: u32,
) -> bool {
    exists|colour: [Scalar; 3]|
        #[trigger] pixel_sampled(sample, mean, x, y, count, colour) && pixel_holds(
            frame,
            width,
            height,
            x as int,
            y as int,
            colour,
        )
}

/// The sample of byte zero lies below one unit.
proof fn lemma_first_bytes()
    ensures
        (2 * 0 + 1) * (2 * 0 + 1) * pow2(131) == pow2(131),
{
    let unit = pow2(131) as int;
    assert((2 * 0 + 1) * (2 * 0 + 1) * unit == unit) by (nonlinear_arith);
}

/// A sample has one byte only.
pub proof fn lemma_byte_is_unique(first: int, second: int, sample: Scalar)
    requires
        is_byte_of(first, sample),
        is_byte_of(second, sample),
    ensures
        first == second,
{
    if !(sample.is_nan() || sample.value() <= 0) {
        if first < second {
            lemma_steps_grow(first, second);
        } else if second < first {
            lemma_steps_grow(second, first);
        }
    }
}

/// The step below a larger byte lies no lower than the step above a
/// smaller one.
proof fn lemma_steps_grow(smaller: int, larger: int)
    requires
        0 <= smaller < larger,
    ensures
        (2 * smaller + 1) * (2 * smaller + 1) * pow2(131) <= (2 * larger - 1) * (2 * larger - 1)
            * pow2(131),
{
    let unit = pow2(131) as int;
    lemma_pow2_pos(131);
    assert((2 * smaller + 1) * (2 * smaller + 1) * unit <= (2 * larger - 1) * (2 * larger - 1)
        * unit) by (nonlinear_arith)
        requires
            0 <= smaller,
            smaller + 1 <= larger,
            unit > 0,
    ;
}

/// Every pixel lies inside a frame of `4 * width * height` bytes.
pub proof fn lemma_pixel_in_frame(width: int, height: int, x: int, y: int)
    requires
        0 <= x < width,
        0 <= y < height,
    ensures
        0 <= pixel_offset(width, height, x, y),
        pixel_offset(width, height, x, y) + 4 <= 4 * (width * height),
        pixel_offset(width, height, x, y) % 4 == 0,
{
    let row = height - 1 - y;
    assert(0 <= row * width) by (nonlinear_arith)
        requires
            0 <= row,
            0 <= width,
    ;
    assert(row * width + width <= height * width) by (nonlinear_arith)
        requires
            row + 1 <= height,
            0 <= width,
    ;
    assert(height * width == width * height) by (nonlinear_arith);
}

/// Two different pixels occupy disjoint groups of four bytes, so workers that
/// fill different scanlines never write the same byte.
pub proof fn lemma_pixels_disjoint(width: int, height: int, x1: int, y1: int, x2: int, y2: int)
    requires
        0 <= x1 < width,
        0 <= x2 < width,
        0 <= y1 < height,
        0 <= y2 < height,
        x1 != x2 || y1 != y2,
    ensures
        pixel_offset(width, height, x1, y1) + 4 <= pixel_offset(width, height, x2, y2)
            || pixel_offset(width, height, x2, y2) + 4 <= pixel_offset(width, height, x1, y1),
        y1 < y2 ==> pixel_offset(width, height, x2, y2) < pixel_offset(width, height, x1, y1),
{
    let r1 = height - 1 - y1;
    let r2 = height - 1 - y2;
    if r1 < r2 {
        assert(r1 * width + width <= r2 * width) by (nonlinear_arith)
            requires
                r1 + 1 <= r2,
                0 <= width,
        ;
    } else if r2 < r1 {
        assert(r2 * width + width <= r1 * width) by (nonlinear_arith)
            requires
                r2 + 1 <= r1,
                0 <= width,
        ;
    }
}

/// What a ray met on its way through the world.
#[derive(Clone, Copy, Debug, PartialEq, Eq, Structural)]
pub enum Encounter {
    /// Nothing: the ray left the scene.
    Miss,
    /// A surface that scatters nothing, such as a lamp.
    Absorbed,
    /// A surface that scatters, and how.
    Scattered(ScatterType),
}

/// How the direction of the next ray of a path is chosen.
#[derive(Clone, Copy, Debug, PartialEq, Eq, Structural)]
pub enum Sampling {
    /// The material has fixed the ray.
    Material,
    /// From the cosine distribution about the surface normal alone.
    Cosine,
    /// From an even mixture of the cosine distribution and the lights.
    Mixture,
}

/// What the integrator does with a ray.
#[derive(Clone, Copy, Debug, PartialEq, Eq, Structural)]
pub enum Step {
    /// The path is spent: it carries no light.
    Black,
    /// The path ends in the background colour.
    Background,
    /// The path ends in what the surface emits.
    Emitted,
    /// The path goes on with one bounce less: the surface's emission plus the
    /// attenuated light along a ray chosen by `sampling`.
    Bounce { sampling: Sampling, depth: usize },
}

/// The step of the integrator for a ray with `depth` bounces left.
pub open spec fn step_of(depth: usize, encounter: Encounter, lights_empty: bool) -> Step {
    if depth == 0 {
        Step::Black
    } else {
        match encounter {
            Encounter::Miss => Step::Background,
            Encounter::Absorbed => Step::Emitted,
            Encounter::Scattered(ScatterType::Diffuse) => Step::Bounce {
                sampling: if lights_empty {
                    Sampling::Cosine
                } else {
                    Sampling::Mixture
                },
                depth: (depth - 1) as usize,
            },
            Encounter::Scattered(_) => Step::Bounce {
                sampling: Sampling::Material,
                depth: (depth - 1) as usize,
            },
        }
    }
}

/// Decides what becomes of a ray with `depth` bounces left that met
/// `encounter`, in a scene whose list of lights is empty or not.
pub fn ray_step(depth: usize, encounter: Encounter, lights_empty: bool) -> (step: Step)
    ensures
        step == step_of(depth, encounter, lights_empty),
        step matches Step::Bounce { depth: rest, .. } ==> rest < depth,
{
    if depth == 0 {
        return Step::Black;
    }
    match encounter {
        Encounter::Miss => Step::Background,
        Encounter::Absorbed => Step::Emitted,
        Encounter::Scattered(kind) => {
            let sampling = match kind {
                ScatterType::Diffuse => if lights_empty {
                    Sampling::Cosine
                } else {
                    Sampling::Mixture
                },
                ScatterType::Specular => Sampling::Material,
                ScatterType::ISO => Sampling::Material,
            };
            Step::Bounce { sampling, depth: depth - 1 }
        },
    }
}

/// A brighter sample has no darker byte.
pub proof fn lemma_bytes_grow(darker: int, brighter: int, dark: Scalar, bright: Scalar)
    requires
        is_byte_of(darker, dark),
        is_byte_of(brighter, bright),
        dark.is_at_most(bright),
    ensures
        darker <= brighter,
{
    if !(dark.value() <= 0) && brighter < darker {
        lemma_steps_grow(brighter, darker);
    }
}

impl Renderer {
    /// A renderer for a `width` by `height` image of the scene named `label`:
    /// unscaled, four samples per pixel, ten bounces, and due for a draw.
    pub fn new(width: u32, height: u32, label: &str) -> (renderer: Self)
        ensures
            renderer@ == (RendererView {
                width: width as int,
                height: height as int,
                scale: 1,
                actual_width: width as int,
                actual_height: height as int,
                multisample: 4,
                max_depth: 10,
                dirty: true,
                label: label@,
            }),
    {
        Renderer {
            width,
            height,
            scale: 1,
            actual_width: width,
            actual_height: height,
            multisample: 4,
            max_depth: 10,
            dirty: true,
            label: label.to_owned(),
        }
    }

    /// The byte of a colour sample: the nearest integer to 256 times its
    /// square root, and at most 255.
    pub fn float_to_rgb(sample: Scalar) -> (byte: u8)
        ensures
            is_byte_of(byte as int, sample),
    {
        let bits: u32 = sample.bits;
        proof {
            lemma2_to64();
            lemma_first_bytes();
            if sample.magnitude() > 0 && !sample.is_nan() {
                lemma_magnitudes_increase(0, sample.magnitude());
            }
        }
        if bits >= 0x8000_0000 || bits > INFINITY_BITS {
            return 0;
        }
        let exponent: u32 = bits / 0x80_0000;
        let fraction: u32 = bits % 0x80_0000;
        if exponent == 0 {
            proof {
                lemma_pow2_strictly_increases(23, 131);
                assert(sample.value() == fraction);
            }
            return 0;
        }
        let mantissa: u32 = 0x80_0000 + fraction;
        let ghost scale = pow2((exponent - 1) as nat) as int;
        let ghost unit = pow2(131) as int;
        proof {
            lemma_pow2_pos((exponent - 1) as nat);
            lemma_pow2_pos(131);
            assert(sample.value() == mantissa * scale);
        }
        if exponent >= 127 {
            proof {
                // The sample is at least one: 2^23 * 2^126 is 2^18 units.
                lemma_pow2_adds(18, 131);
                lemma_pow2_adds(23, 126);
                if exponent > 127 {
                    lemma_pow2_strictly_increases(126, (exponent - 1) as nat);
                }
                assert(0x80_0000 * pow2(126) <= mantissa * scale) by (nonlinear_arith)
                    requires
                        0x80_0000 <= mantissa,
                        pow2(126) <= scale,
                        0 < pow2(126),
                ;
                assert((2 * 255 - 1) * (2 * 255 - 1) * unit <= 0x4_0000 * unit) by (nonlinear_arith)
                    requires
                        unit > 0,
                ;
            }
            return 255;
        }
        let shift: u32 = 132 - exponent;
        if shift > 24 {
            proof {
                // The sample is less than one unit: 2^24 * 2^(exponent - 1).
                lemma_pow2_adds(24, (exponent - 1) as nat);
                lemma_pow2_strictly_increases((exponent + 23) as nat, 131);
                assert(mantissa * scale < 0x100_0000 * scale) by (nonlinear_arith)
                    requires
                        mantissa < 0x100_0000,
                        scale > 0,
                ;
                assert(0 < mantissa * scale) by (nonlinear_arith)
                    requires
                        mantissa > 0,
                        scale > 0,
                ;
            }
            return 0;
        }
        // The whole units of the sample: the mantissa without its last
        // `shift` bits.
        let (units, _) = shift_down(mantissa as u64, shift);
        let ghost step = pow2(shift as nat) as int;
        proof {
            lemma_pow2_pos(shift as nat);
            lemma_pow2_adds(shift as nat, (exponent - 1) as nat);
            assert(unit == step * scale);
            if shift > 6 {
                lemma_pow2_strictly_increases(6, shift as nat);
            }
            lemma_fundamental_div_mod(mantissa as int, step);
            assert(units < 0x4_0000) by (nonlinear_arith)
                requires
                    mantissa == step * units + (mantissa as int % step),
                    mantissa as int % step >= 0,
                    mantissa < 0x100_0000,
                    step >= 64,
                    units >= 0,
            ;
        }
        // The root of the units: twice 256 times the root of the sample,
        // without its fraction.
        let mut low: u64 = 0;
        let mut high: u64 = 512;
        while high - low > 1
            invariant
                low < high <= 512,
                low * low <= units < high * high,
            decreases high - low,
        {
            let middle: u64 = (low + high) / 2;
            assert(middle * middle <= 512 * 512) by (nonlinear_arith)
                requires
                    0 <= middle <= 512,
            ;
            if middle * middle <= units {
                low = middle;
            } else {
                high = middle;
            }
        }
        // Half of it, rounded up where it is odd.
        let nearest: u64 = (low + 1) / 2;
        let byte: u64 = if nearest > 255 {
            255
        } else {
            nearest
        };
        proof {
            let rest = mantissa as int % step;
            let value = sample.value();
            assert(0 <= rest < step);
            assert(value == (step * units + rest) * scale);
            assert(units * unit <= value < (units + 1) * unit) by (nonlinear_arith)
                requires
                    value == (step * units + rest) * scale,
                    unit == step * scale,
                    0 <= rest < step,
                    scale > 0,
            ;
            assert(0 < value) by (nonlinear_arith)
                requires
                    value == mantissa * scale,
                    mantissa > 0,
                    scale > 0,
            ;
            let below = 2 * byte - 1;
            let above = 2 * byte + 1;
            if byte > 0 {
                assert(below * below * unit <= units * unit) by (nonlinear_arith)
                    requires
                        0 <= below <= low,
                        low * low <= units,
                        unit > 0,
                ;
            }
            if byte < 255 {
                assert((units + 1) * unit <= above * above * unit) by (nonlinear_arith)
                    requires
                        low + 1 <= above,
                        units + 1 <= (low + 1) * (low + 1),
                        0 <= low,
                        unit > 0,
                ;
            }
        }
        byte as u8
    }

    /// The colour of pixel `(x, y)` from `count` samples: each sample is
    /// asked for in turn and sanitised, and the mean of the sanitised
    /// samples is the colour.
    ///
    /// `sample(x, y, k)` gives sample `k` of the pixel, and `mean` the mean
    /// of a list of samples.
    pub fn sample_pixel<
        S: Fn(u32, u32, usize) -> [Scalar; 3],
        M: Fn(Vec<[Scalar; 3]>) -> [Scalar; 3],
    >(count: usize, x: u32, y: u32, sample: &S, mean: &M) -> (colour: [Scalar; 3])
        requires
            forall|k: usize| k < count ==> sample.requires((x, y, k)),
            forall|list: Vec<[Scalar; 3]>| mean.requires((list,)),
        ensures
            pixel_sampled(*sample, *mean, x, y, count as int, colour),
    {
        let mut clean: Vec<[Scalar; 3]> = Vec::new();
        let ghost mut raw: Seq<[Scalar; 3]> = Seq::empty();
        let mut k: usize = 0;
        while k < count
            invariant
                k <= count,
                forall|k: usize| k < count ==> sample.requires((x, y, k)),
                raw.len() == k,
                forall|j: int| 0 <= j < k ==> sample.ensures((x, y, j as usize), #[trigger] raw[j]),
                are_sanitised(clean@, raw),
            decreases count - k,
        {
            let drawn: [Scalar; 3] = sample(x, y, k);
            let kept: [Scalar; 3] = [drawn[0].sanitise(), drawn[1].sanitise(), drawn[2].sanitise()];
            clean.push(kept);
            proof {
                raw = raw.push(drawn);
            }
            k = k + 1;
        }
        let ghost handed = clean;
        let colour = mean(clean);
        proof {
            assert(are_sanitised(handed@, raw));
            assert(mean.ensures((handed,), colour));
        }
        colour
    }

    /// Fills the frame, if a draw is due, and marks the renderer clean.
    ///
    /// For each pixel as many samples are taken as the renderer is set to,
    /// each is sanitised, and their mean becomes three bytes. `sample(x, y,
    /// k)` gives sample `k` of the pixel in column `x` of scanline `y`,
    /// counted from the bottom, and `mean` the mean of a list of samples.
    /// Scanlines are filled bottom first, each from left to right. A
    /// renderer that is not dirty leaves the frame as it is.
    pub fn draw<S: Fn(u32, u32, usize) -> [Scalar; 3], M: Fn(Vec<[Scalar; 3]>) -> [Scalar; 3]>(
        &mut self,
        frame: &mut [u8],
        sample: S,
        mean: M,
    )
        requires
            old(self)@.dirty ==> old(frame)@.len() / 4 == old(self)@.width * old(self)@.height,
            old(self)@.dirty ==> forall|x: u32, y: u32, k: usize|
                x < old(self)@.width && y < old(self)@.height && k < old(self)@.multisample
                    ==> sample.requires((x, y, k)),
            old(self)@.dirty ==> forall|list: Vec<[Scalar; 3]>| mean.requires((list,)),
        ensures
            final(self)@ == (RendererView { dirty: false, ..old(self)@ }),
            final(frame)@.len() == old(frame)@.len(),
            !old(self)@.dirty ==> final(frame)@ == old(frame)@,
            old(self)@.dirty ==> forall|x: u32, y: u32|
                x < old(self)@.width && y < old(self)@.height ==> #[trigger] pixel_drawn(
                    sample,
                    mean,
                    old(self)@.multisample,
                    final(frame)@,
                    old(self)@.width,
                    old(self)@.height,
                    x,
                    y,
                ),
            forall|i: int|
                4 * (old(self)@.width * old(self)@.height) <= i < old(frame)@.len()
                    ==> final(frame)@[i] == old(frame)@[i],
    {
        if !self.dirty {
            return ;
        }
        self.dirty = false;
        let width: u32 = self.width;
        let height: u32 = self.height;
        let count: usize = self.multisample;
        let ghost w = width as int;
        let ghost h = height as int;
        let ghost n = count as int;
        let ghost before = frame@;
        let total: usize = frame.len();
        let mut y: u32 = 0;
        while y < height
            invariant
                width == w,
                height == h,
                count == n,
                y <= height,
                frame@.len() == before.len(),
                before.len() == total,
                before.len() / 4 == w * h,
                forall|x: u32, y: u32, k: usize|
                    x < w && y < h && k < n ==> sample.requires((x, y, k)),
                forall|list: Vec<[Scalar; 3]>| mean.requires((list,)),
                forall|px: u32, py: u32|
                    px < w && py < y ==> #[trigger] pixel_drawn(
                        sample,
                        mean,
                        n,
                        frame@,
                        w,
                        h,
                        px,
                        py,
                    ),
                forall|i: int| 4 * (w * h) <= i < before.len() ==> frame@[i] == before[i],
            decreases height - y,
        {
            let mut x: u32 = 0;
            while x < width
                invariant
                    width == w,
                    height == h,
                    count == n,
                    y < height,
                    x <= width,
                    frame@.len() == before.len(),
                    before.len() == total,
                    before.len() / 4 == w * h,
                    forall|x: u32, y: u32, k: usize|
                        x < w && y < h && k < n ==> sample.requires((x, y, k)),
                    forall|list: Vec<[Scalar; 3]>| mean.requires((list,)),
                    forall|px: u32, py: u32|
                        px < w && (py < y || (py == y && px < x)) ==> #[trigger] pixel_drawn(
                            sample,
                            mean,
                            n,
                            frame@,
                            w,
                            h,
                            px,
                            py,
                        ),
                    forall|i: int| 4 * (w * h) <= i < before.len() ==> frame@[i] == before[i],
                decreases width - x,
            {
                let rgb: [Scalar; 3] = Self::sample_pixel(count, x, y, &sample, &mean);
                proof {
                    lemma_pixel_in_frame(w, h, x as int, y as int);
                }
                let row: usize = (height - 1 - y) as usize;
                assert(row * w + x == (h - 1 - y) * w + x);
                assert(0 <= row * w <= row * w + x) by (nonlinear_arith)
                    requires
                        0 <= row,
                        0 <= w,
                        0 <= x,
                ;
                let offset: usize = 4 * (row * (width as usize) + x as usize);
                let ghost prior = frame@;
                frame[offset] = Self::float_to_rgb(rgb[0]);
                frame[offset + 1] = Self::float_to_rgb(rgb[1]);
                frame[offset + 2] = Self::float_to_rgb(rgb[2]);
                frame[offset + 3] = 255;
                proof {
                    assert(pixel_holds(frame@, w, h, x as int, y as int, rgb));
                    assert forall|px: u32, py: u32|
                        px < w && (py < y || (py == y && px < x + 1)) implies #[trigger] pixel_drawn(
                        sample,
                        mean,
                        n,
                        frame@,
                        w,
                        h,
                        px,
                        py,
                    ) by {
                        if px == x && py == y {
                            assert(pixel_sampled(sample, mean, px, py, n, rgb));
                        } else {
                            assert(pixel_drawn(sample, mean, n, prior, w, h, px, py));
                            let c = choose|c: [Scalar; 3]|
                                #[trigger] pixel_sampled(sample, mean, px, py, n, c) && pixel_holds(
                                    prior,
                                    w,
                                    h,
                                    px as int,
                                    py as int,
                                    c,
                                );
                            lemma_pixel_in_frame(w, h, px as int, py as int);
                            lemma_pixels_disjoint(w, h, px as int, py as int, x as int, y as int);
                            assert(pixel_holds(frame@, w, h, px as int, py as int, c));
                        }
                    }
                }
                x = x + 1;
            }
            y = y + 1;
        }
    }

    /// Whether the scale is one by which a size can be divided.
    pub open spec fn wf(&self) -> bool {
        self@.scale > 0
    }

    /// Takes note of a window of `width` by `height` pixels: the image is
    /// the window scaled down, rounding down.
    pub fn resize(&mut self, width: u32, height: u32)
        requires
            old(self).wf(),
        ensures
            final(self)@ == (RendererView {
                actual_width: width as int,
                actual_height: height as int,
                width: width as int / old(self)@.scale,
                height: height as int / old(self)@.scale,
                ..old(self)@
            }),
            final(self).wf(),
    {
        self.actual_height = height;
        self.actual_width = width;
        self.width = width / self.scale;
        self.height = height / self.scale;
    }

    /// Sets the factor by which the image is smaller than the window. A new
    /// factor resizes the image; the old one changes nothing.
    pub fn update_scale(&mut self, scale: u32)
        requires
            scale > 0,
        ensures
            final(self).wf(),
            scale == old(self)@.scale ==> final(self)@ == old(self)@,
            scale != old(self)@.scale ==> final(self)@ == (RendererView {
                scale: scale as int,
                width: old(self)@.actual_width / (scale as int),
                height: old(self)@.actual_height / (scale as int),
                ..old(self)@
            }),
    {
        if scale != self.scale {
            self.scale = scale;
            let width: u32 = self.actual_width;
            let height: u32 = self.actual_height;
            self.resize(width, height);
        }
    }

    /// Takes over the settings of the control panel. Returns the scene to
    /// build where the panel names another scene than the one loaded, and
    /// nothing where it names the same.
    pub fn update_from_gui(&mut self, gui: &Gui) -> (reload: Option<SceneKind>)
        requires
            gui@.current.scale > 0,
        ensures
            final(self).wf(),
            final(self)@ == (RendererView {
                scale: gui@.current.scale as int,
                width: if gui@.current.scale == old(self)@.scale {
                    old(self)@.width
                } else {
                    old(self)@.actual_width / (gui@.current.scale as int)
                },
                height: if gui@.current.scale == old(self)@.scale {
                    old(self)@.height
                } else {
                    old(self)@.actual_height / (gui@.current.scale as int)
                },
                multisample: gui@.current.sample_count as int,
                max_depth: gui@.current.max_depth as int,
                label: gui@.current.scene.name(),
                ..old(self)@
            }),
            reload == if old(self)@.label == gui@.current.scene.name() {
                None
            } else {
                Some(scene_of_name(gui@.current.scene.name()))
            },
    {
        let settings = gui.settings();
        self.update_scale(settings.scale);
        self.multisample = settings.sample_count;
        self.max_depth = settings.max_depth;
        let scene: &'static str = settings.scene.to_str();
        if same_text(self.label.as_str(), scene) {
            None
        } else {
            self.label = scene.to_owned();
            Some(select_scene(scene))
        }
    }

    /// Sets the samples of each pixel and the bounces of each path.
    pub fn set_quality(&mut self, multisample: usize, max_depth: usize)
        ensures
            final(self)@ == (RendererView {
                multisample: multisample as int,
                max_depth: max_depth as int,
                ..old(self)@
            }),
    {
        self.multisample = multisample;
        self.max_depth = max_depth;
    }

    /// The width of the image in pixels.
    pub fn width(&self) -> (width: u32)
        ensures
            width == self@.width,
    {
        self.width
    }

    /// The height of the image in pixels.
    pub fn height(&self) -> (height: u32)
        ensures
            height == self@.height,
    {
        self.height
    }

    /// Whether a draw is due.
    pub fn is_dirty(&self) -> (dirty: bool)
        ensures
            dirty == self@.dirty,
    {
        self.dirty
    }

    /// The samples of each pixel.
    pub fn multisample(&self) -> (multisample: usize)
        ensures
            multisample == self@.multisample,
    {
        self.multisample
    }

    /// The bounces of each path.
    pub fn max_depth(&self) -> (max_depth: usize)
        ensures
            max_depth == self@.max_depth,
    {
        self.max_depth
    }

    /// The identifier of the scene that is loaded.
    pub fn label(&self) -> (label: &str)
        ensures
            label@ == self@.label,
    {
        self.label.as_str()
    }

    /// The factor by which the image is smaller than the window.
    pub fn scale(&self) -> (scale: u32)
        ensures
            scale == self@.scale,
    {
        self.scale
    }
}

} // verus!
