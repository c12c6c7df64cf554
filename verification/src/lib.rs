//! Conversion of raster images to the sixteen colours of the Commodore 64
//! under its multicolor-mode display constraints.

pub mod block;
pub mod color;
pub mod dither;
pub mod matcher;
pub mod order;
pub mod pairing;
pub mod palette;
pub mod raster;
pub mod reduce;
pub mod stripe;
pub mod tile;
