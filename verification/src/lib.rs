//! A read-only reader for ISO 9660 disc images.
//!
//! An image is handed over as its bytes. [`block::BlockDevice`] reads whole
//! logical blocks out of it, [`directory::parse_directory`] decodes the
//! records of a directory extent, and [`volume::IsoFs`] resolves paths, lists
//! directories and reads files. [`model`] says what each of these gives as a
//! function of the image, and holds what follows from that.
//!
//! Extensions of the format (Joliet, Rock Ridge, El Torito, files of several
//! extents) are not read.

pub mod error;
pub mod layout;
pub mod text;
pub mod path;
pub mod directory;
pub mod block;
pub mod model;
pub mod volume;
