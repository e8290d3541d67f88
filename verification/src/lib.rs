//! Verified computational-geometry core for raster graphics: line and conic
//! rasterizers, scanline polygon fill, span-based seed fill, and line/polygon
//! clipping, all over exact integer pixel coordinates.

pub mod geom;
pub mod horizon;
pub mod clip_poly;
pub mod clip_rect;
pub mod clip_sh;
pub mod conics;
pub mod flood;
pub mod lines;
pub mod scanline;
pub mod windows;

use vstd::prelude::*;

verus! {

} // verus!
