//! Fractal interpolation functions: piecewise self-affine curves through a set
//! of sample points, with a per-segment contraction factor that controls the
//! roughness between samples. Scalars are fixed-point numbers (see [`fixed`]).
pub mod fixed;
pub mod interpolation;
