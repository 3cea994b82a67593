//! A 2D canvas core: content-addressed resource atlases, text layout with
//! cursor navigation, and shape geometry, all over integer subpixel units.
//!
//! Coordinates, sizes and font metrics are integer "unit" values (a caller
//! fixes the subpixel scale); angles are integer millidegrees; trigonometry
//! and texture coordinates use a binary fixed point with scale [`num::SCALE`].
use vstd::prelude::*;

pub mod atlas;
pub mod buffer;
pub mod camera;
pub mod color;
pub mod cursor;
pub mod num;
pub mod scene;
pub mod shape;
pub mod text;
pub mod vertex;

pub use atlas::Atlas;
pub use camera::Camera;
pub use color::Color;
pub use scene::{Area, Item, Shape};
pub use shape::ShapeType;
pub use text::{Align, Cursor, Font, Span, Text};

verus! {

} // verus!
