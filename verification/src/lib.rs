//! A small recursive ray tracer.
//!
//! A scene of spheres under an open sky is rendered by following rays from
//! a camera: each ray is scattered at the surface it hits, by the rule of
//! that surface's material, until it leaves the scene or has bounced as
//! often as allowed. Each pixel is the mean of several such rays.
//!
//! Every number is a [`fixed::Fixed`], a fixed-point number with thirty-two
//! fractional bits whose operations round toward zero and saturate. That
//! makes every result a function of the inputs and the random draws alone,
//! the same on every machine, and lets the contracts state each result
//! exactly, over the integers.
//!
//! Whatever uses chance comes twice: as a function that takes the draws and
//! whose contract gives the result, and as a function that draws for itself
//! and whose contract says that the result is what some valid draws give.

pub mod accuracy;
pub mod camera;
pub mod color;
pub mod fixed;
pub mod hittable;
pub mod hittable_list;
pub mod material;
pub mod nearest;
pub mod ppm;
pub mod random;
pub mod ray;
pub mod render;
pub mod sphere;
pub mod surface;
pub mod trig;
pub mod trig_accuracy;
pub mod vec3;
