pub mod asar;
pub mod bytes;
pub mod errors;
pub mod foreign;
pub mod laws;
pub mod read;
pub mod recompress;
pub mod write;

pub use asar::{AsarFile, AsarHeader, Game, Metadata};
pub use errors::AsarError;
pub use read::AsarArchive;
pub use recompress::{compress, http_upload_headers, is_zip, ReadProgress};
pub use write::{frame_header, AsarPlan, PlannedEntry};
