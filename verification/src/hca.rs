//! HCA (High Compression Audio): bitstream access, ciphers, checksums,
//! header building and key scoring.

pub mod bitreader;
pub mod cipher;
pub mod crc;
pub mod encoder;
pub mod hca_file;

pub use bitreader::{BitReader, BitWriter};
pub use encoder::{HcaEncoderConfig, HcaEncoderError};
pub use hca_file::{HcaDecoderError, HcaInfo, KeyTest};
