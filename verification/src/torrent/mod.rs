//! Torrent descriptions: `.torrent` metainfo files and magnet links.

pub mod metainfo;
pub mod magnet;
