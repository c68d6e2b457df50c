
pub mod color;
pub mod line;
pub mod polygon;
pub mod raster;
pub mod sequencer;
