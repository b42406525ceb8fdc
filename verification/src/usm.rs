//! USM video containers: demultiplexing the video and audio streams.

pub mod extractor;

pub use extractor::{extract_usm, UsmError};
