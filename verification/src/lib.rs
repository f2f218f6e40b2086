//! Raster analysis on binary images: bit-packed pixel storage, Boolean
//! algebra between images, morphological clean-up, connected components and
//! a clustered difference score, together with integer orientation tests.
//!
//! Every function states its behaviour over the mathematical [`Raster`] model
//! of an image and is proved against it.

pub mod packing;
pub mod storage;
pub mod words;
pub mod image;
pub mod algebra;
pub mod morphology;
pub mod connectivity;
pub mod components;
pub mod significance;
pub mod geometry;
pub mod text;

pub use geometry::{signed_area, try_signed_area, Point2, PointI32};
pub use image::{canvas_fits, BinaryImage, Raster};
pub use significance::{ClusterStat, Tally};
