//! The decisions of a Monte-Carlo ray tracer.
//!
//! A renderer of this kind spends its time in floating-point arithmetic, and
//! none of that is done here. What is done here is everything that is
//! decided on the numbers once they are computed: which root of a ray and a
//! sphere counts as the hit, which sphere of a scene is hit first, which way
//! a surface faces, whether a material sends a ray on and in which
//! direction, when a light path stops and what it has gathered by then,
//! which pixels are handed to the worker threads and with which random
//! streams, where a finished pixel belongs in the picture, which level a
//! channel is written as, and what the written picture looks like byte for
//! byte.
//!
//! Numbers are carried by their bit patterns (see [`scalar`]), so that every
//! comparison is exact and is proved to agree with the order of the numbers
//! that the patterns denote. The caller supplies the arithmetic: the roots
//! of the quadratic, the candidate directions, the products of colours.

pub mod hittable;
pub mod integrator;
pub mod material;
pub mod ppm;
pub mod raster;
pub mod ray;
pub mod render;
pub mod scalar;
pub mod scene;
pub mod settings;
pub mod tone;
pub mod vec3;
