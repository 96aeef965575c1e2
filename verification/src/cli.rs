//! The settings of a render from the command line.

use crate::renderer::{Renderer, RendererView};
use vstd::prelude::*;

verus! {

/// The width of the nominal image, before it is scaled down.
pub const WIDTH: u32 = 1920;

/// The height of the nominal image, before it is scaled down.
pub const HEIGHT: u32 = 1080;

/// The bounces of a path where none are asked for.
pub const DEFAULT_MAX_DEPTH: usize = 50;

/// The samples of a pixel where none are asked for.
pub const DEFAULT_SAMPLE_COUNT: usize = 100;

/// The factor by which the image is scaled down where none is asked for.
pub const DEFAULT_DOWN_SCALE: u32 = 10;

/// The size of the image for a scale: the nominal size divided by the
/// scale, rounding down.
pub fn image_size(down_scale: u32) -> (size: (u32, u32))
    requires
        down_scale > 0,
    ensures
        size.0 == WIDTH as int / down_scale as int,
        size.1 == HEIGHT as int / down_scale as int,
        4 * (size.0 * size.1) <= 4 * (WIDTH * HEIGHT),
{
    let width: u32 = WIDTH / down_scale;
    let height: u32 = HEIGHT / down_scale;
    assert(width * height <= WIDTH * HEIGHT) by (nonlinear_arith)
        requires
            0 <= width <= WIDTH,
            0 <= height <= HEIGHT,
    ;
    (width, height)
}

/// The number of bytes of a frame of the given size: four for each pixel.
pub fn frame_len(width: u32, height: u32) -> (len: usize)
    requires
        4 * (width * height) <= usize::MAX,
    ensures
        len == 4 * (width * height),
{
    assert(0 <= width * height) by (nonlinear_arith)
        requires
            0 <= width,
            0 <= height,
    ;
    4 * ((width as usize) * (height as usize))
}

/// A renderer for an image of the nominal size scaled down, with the given
/// samples for each pixel and bounces for each path, due for a first draw of
/// the scene named `scene`.
pub fn configure(max_depth: usize, sample_count: usize, down_scale: u32, scene: &str) -> (renderer:
    Renderer)
    requires
        down_scale > 0,
    ensures
        renderer@ == (RendererView {
            width: WIDTH as int / down_scale as int,
            height: HEIGHT as int / down_scale as int,
            scale: 1,
            actual_width: WIDTH as int / down_scale as int,
            actual_height: HEIGHT as int / down_scale as int,
            multisample: sample_count as int,
            max_depth: max_depth as int,
            dirty: true,
            label: scene@,
        }),
{
    let (width, height) = image_size(down_scale);
    let mut renderer = Renderer::new(width, height, scene);
    renderer.set_quality(sample_count, max_depth);
    renderer
}

} // verus!
