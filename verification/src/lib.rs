//! CRI Middleware container and codec library.
//!
//! Parsers, builders and bit-level codecs for the CRI formats:
//! - ACB/AWB: audio containers (AFS2 archives, @UTF tables)
//! - HCA: High Compression Audio (bitstream, ciphers, headers, key scoring)
//! - USM: video container (header walk, chunk demultiplexing, masking)
//!
//! Every function here works on bytes in memory; reading and writing files
//! is left to the caller.

pub mod acb;
pub mod decimal;
pub mod hca;
pub mod reader;
pub mod usm;

pub use acb::{AcbBuilder, AfsArchiveBuilder, BuilderError, TrackInput, UtfTableBuilder};
pub use hca::{HcaDecoderError, HcaEncoderConfig, HcaEncoderError, HcaInfo, KeyTest};
pub use usm::{extract_usm, UsmError};
