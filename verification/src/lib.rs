//! Brush stroke engine for a tile-based pixel raster editor.
//!
//! The engine turns a sequence of discrete pointer positions into a
//! deduplicated, mode-filtered list of pixel coordinates, and offers an
//! integer line rasterizer, a circular footprint rasterizer, a corner
//! ("pixel perfect") filter, a brush mode set, the stroke state machine,
//! and symmetry / multi-frame expansion of stroke points.

pub mod filter;
pub mod geom;
pub mod paint;
pub mod raster;
pub mod stroke;

pub use geom::Align;
pub use geom::Point2;
pub use geom::Rgba8;
pub use geom::ViewCoords;
pub use geom::ViewExtent;
pub use stroke::Brush;
pub use stroke::BrushMode;
pub use stroke::BrushState;
