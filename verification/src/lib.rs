//! Braille raster graphics for text terminals.
//!
//! Curves, Bezier paths and a rotating wireframe cube are drawn on a grid of
//! cells, and every block of two columns by four rows of that grid becomes one
//! braille character. All numbers are integers: a real quantity is held as a
//! count of millionths (see [`common::UNIT`]), here called a scalar.
//!
//! - [`common`]: scalars, points, cells and the grid
//! - [`samples`]: the samples of a curve and the vertical window they ask for
//! - [`graphing`]: the normalizer, the axes and the tick marks
//! - [`graph`]: a graph from its samples to its text
//! - [`braille`]: the encoder
//! - [`line`]: straight lines
//! - [`cube`]: the wireframe cube and its animation
//! - [`bezier_curve`]: quadratic and cubic Bezier curves
//! - [`string_maker`]: numbers as text, and the frames around pictures
//! - [`text`], [`variables`], [`repl`]: the lines of a session
//! - [`arith`]: division with rounding

pub mod arith;
pub mod bezier_curve;
pub mod braille;
pub mod common;
pub mod cube;
pub mod graph;
pub mod graphing;
pub mod line;
pub mod repl;
pub mod samples;
pub mod string_maker;
pub mod text;
pub mod variables;
