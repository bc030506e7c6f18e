//! A path tracer for scenes of spheres.
//!
//! For each pixel many rays leave the camera, each a little aside of the
//! others; a ray is followed from sphere to sphere, scattered by what the
//! spheres are made of, until it escapes to the sky, is absorbed, or has
//! bounced fifty times; the colours that come back are averaged and
//! written as a plain PPM image.
//!
//! Every number is an IEEE 754 binary32 number held by its bit pattern,
//! and every operation on it is proved to give the exact result rounded as
//! the format asks. So what each function returns is stated bit for bit,
//! and the same scene, camera and chance give the same image.
//!
//! The modules, from the ground up:
//!
//! - `binary32`, `rounding`, `arith`, `quotient`, `ops`: the numbers and
//!   their arithmetic; `accuracy`: how far a rounded result lies from the
//!   exact one.
//! - `vec3f`, `ray`, `mat`: vectors, rays and matrices; `orthogonal`,
//!   `perpendicular`, `unit_length`, `mirror`: what rounding leaves of the
//!   laws of vectors.
//! - `sphere`: where a ray meets a sphere, and which sphere it meets first;
//!   `away`: a ray that points away from a sphere misses it; `aimed`: a
//!   ray aimed at its centre meets it short of the centre by the radius.
//! - `sampling`: chance, drawn from a generator or spelt by given words.
//! - `scatter`, `trace`: materials, and the colour along a path.
//! - `camera`, `render`, `ppm`: from the camera to pixels to text;
//!   `pinhole`: the direction of a ray is affine in its place on the image;
//!   `channel`, `daylight`, `bright`: when what is written of a pixel
//!   is made of bytes, and when a colour is from black to white.

pub mod binary32;
pub mod rounding;
pub mod arith;
pub mod quotient;
pub mod ops;
pub mod accuracy;
pub mod vec3f;
pub mod ray;
pub mod mat;
pub mod orthogonal;
pub mod perpendicular;
pub mod unit_length;
pub mod mirror;
pub mod sphere;
pub mod away;
pub mod aimed;
pub mod sampling;
pub mod scatter;
pub mod trace;
pub mod camera;
pub mod pinhole;
pub mod render;
pub mod ppm;
pub mod channel;
pub mod bright;
pub mod daylight;
