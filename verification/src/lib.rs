//! Restore library for content-addressed, deduplicated backup repositories.
//!
//! A repository is a directory of compressed archives: data archives
//! (`*-dblock.zip`) hold fixed-size content blocks named by the URL-safe
//! base64 of their SHA-256 digest, and list archives (`*-dlist.zip`) hold a
//! snapshot (`filelist.json`) plus a `manifest`. This crate locates blocks
//! through an indexed or probing block index, orders file entries by the
//! physical location of their first block, and reassembles and verifies each
//! file's bytes from one or two levels of block indirection.

pub mod blockhash;
pub mod database;
pub mod dfileentry;
pub mod dfiletype;
pub mod errors;
pub mod flags;
pub mod hexdisplay;
pub mod listing;
pub mod restoring;
pub mod sha256;
pub mod sorting;
pub mod stripbom;
pub mod ziparchive;
