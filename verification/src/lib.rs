//! Pixel-level 2D drawing into an RGBA8 canvas, with movable sprites that save and restore
//! what they cover, and an encoder for the kitty terminal graphics protocol.
//!
//! Every drawing routine is specified against a mathematical model of the canvas
//! (`CanvasView`): a row-major grid of colors plus a grid of write-version tiles used to detect
//! stale sprite footprints.

pub mod geometry;
pub mod error;
pub mod ids;
pub mod grid;
pub mod canvas;
pub mod bitmap;
pub mod sprite;
pub mod shape;
pub mod line;
pub mod polygon;
pub mod draw;
pub mod text;
pub mod backend;
pub mod kitty;

pub use crate::backend::Backend;
pub use crate::bitmap::Bitmap;
pub use crate::canvas::Canvas;
pub use crate::error::Error;
pub use crate::geometry::{Color, Point, Rect};
pub use crate::kitty::KittyBackend;
pub use crate::shape::{Fill, Shape};
pub use crate::sprite::{Sprite, StaleFootprint};
pub use crate::text::{TextStyle, glyph};
