//! A filled disc drawn with nothing but straight strokes: a thin wedge that
//! reaches from the center to the rim is turned through a full circle, one
//! degree at a time, and the outline of each turned wedge is sampled once per
//! scanline and edge.
//!
//! All arithmetic is on integers. Sines and cosines of whole degrees come
//! from a table in fixed point (`trig`), and every division rounds to the
//! nearest integer, halves away from zero (`rounding`). The library computes
//! the points to join; putting strokes on a surface is left to the caller.

pub mod disc;
pub mod geometry;
pub mod player;
pub mod raster;
pub mod rotate;
pub mod rounding;
pub mod trig;
