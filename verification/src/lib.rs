//! Decision, layout and drawing core of an analog FPV viewer.
pub mod decode_worker;
pub mod float;
pub mod glyphs;
pub mod raster;
pub mod rates;
pub mod input;
pub mod laws;
pub mod order;
pub mod axis;
pub mod band_scan;
pub mod bands;
pub mod clock;
pub mod paint;
pub mod panel;
pub mod plan;
pub mod reader;
pub mod scan;
pub mod scan_window;
pub mod session;
pub mod sigmf;
pub mod text;
pub mod viewer;
