//! Decoding of torrent metadata descriptors.
//!
//! A descriptor arrives as a bencoded blob: byte strings, integers, lists and
//! dictionaries keyed by byte strings.  The [`Bvalue`] type holds such a value
//! tree in memory; [`Torrent::from_bencode`] validates it against the torrent
//! schema and produces a [`Torrent`], or the first violation it meets as a
//! [`TorrentFromBencodeError`].  [`Torrent::from_buffer`] runs the external
//! bencode parser first and decodes what it yields.

pub mod bvalue;
pub mod hash;
pub mod outside;
pub mod scan;
pub mod torrent;

pub use bvalue::Bvalue;
pub use bvalue::BvalueV;
pub use hash::InvalidHashLength;
pub use hash::Sha1Hash;
pub use torrent::FromBufferError;
pub use torrent::Torrent;
pub use torrent::TorrentDirTreeNode;
pub use torrent::TorrentFromBencodeError;
