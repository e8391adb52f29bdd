//! Multi-resolution cubemap tiling for the Pannellum panorama viewer.
//!
//! The verified core of the pipeline: the Base83 encoder that compresses the
//! list of missing tiles, the pyramid geometry (number of zoom levels, level
//! sizes, tile grid), the detection of background-only tiles, the assembly of
//! the missing-tile string and the `multiRes` section of the viewer
//! configuration.
pub mod b83;
pub mod config;

pub use config::{
    DownscalingMethod, InterpolationMode, MultiResConfig, OutputFormat, Projection,
    multires_config,
};
pub mod raster;
pub mod resize;

pub use raster::{RgbBuffer, is_region_empty};
pub mod geometry;
pub mod missing;
pub mod tiler;

pub use tiler::{FallbackItem, GeneratedTiles, TileItem, generate_pyramid};
pub mod layout;
