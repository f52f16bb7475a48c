//! The backend of an image browser: listing the images of a directory and
//! reporting a move to the trash, both as functions of what the caller found
//! on the file system.

pub mod entry;
pub mod error;
pub mod extension;
pub mod listing;
pub mod order;
pub mod scan;
mod sorting;
pub mod trash;

pub use entry::ImageEntry;
pub use error::ErrorKind;
pub use listing::{get_images, list_images};
pub use scan::{DirectoryScan, ScannedEntry};
pub use trash::{trash_file, trash_image};
