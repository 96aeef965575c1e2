//! The verified core of an offline path tracer.
//!
//! A path tracer is mostly floating-point arithmetic, and none of that is
//! done here. What is here is everything around the arithmetic that can be
//! decided exactly:
//!
//! - numbers in binary32 encoding, held as bit patterns: comparing them,
//!   choosing between them, taking their integer parts and turning colour
//!   samples into bytes ([`scalar`], [`renderer`]);
//! - bounding boxes, the slab test on the parameters of a ray, and the
//!   bounding-volume hierarchy with its boxes ([`aabb`]);
//! - what primitives, materials and distributions decide by comparing
//!   ([`geo`], [`ray`], [`material`], [`onb`], [`pdf`]);
//! - the uniform random source and what is drawn from it, scaled as
//!   arithmetic in binary32 scales it ([`rand_gen`], [`rounding`]);
//! - the lattice of gradient noise ([`perlin`]) and the bitmap behind an
//!   image texture ([`texture`]);
//! - the decisions of the integrator along a path, the render settings and
//!   the layout of the frame buffer ([`renderer`], [`cli`], [`gui`]);
//! - the catalogue of scene names and viewpoints ([`scene`], [`camera`]).
//!
//! Each function states what it returns, and Verus proves that it does.

pub mod aabb;
pub mod camera;
pub mod cli;
pub mod geo;
pub mod gui;
pub mod material;
pub mod onb;
pub mod pdf;
pub mod perlin;
pub mod rand_gen;
pub mod ray;
pub mod renderer;
pub mod rounding;
pub mod scalar;
pub mod scene;
pub mod sequence;
pub mod texture;
pub mod types;
