//! Signal-strength heatmaps: a density field over a raster grid, built from
//! weighted point samples, rendered through a colour table and blended onto a
//! base image.
pub mod error;
pub mod field;
pub mod heatmap;
pub mod levels;
pub mod palette;
pub mod raster;
pub mod wifitools;
