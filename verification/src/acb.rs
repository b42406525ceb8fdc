//! ACB/AWB audio containers: AFS2 archives and @UTF table building.

pub mod consts;
pub mod afs;

pub use afs::{AfsArchive, AfsError, AfsFileEntry};
pub mod utf;
pub mod strings;
pub mod table;
pub mod builder;
pub mod roundtrip;
pub mod track;
pub mod extractor;
pub mod tables;
pub mod layout;
pub mod resolve;

pub use builder::{AcbBuilder, AfsArchiveBuilder, BuilderError, TrackInput};
pub use table::{ColumnDef, UtfTableBuilder};
pub use utf::Value;
pub use track::{Track, TrackList};
