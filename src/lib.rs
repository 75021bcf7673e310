//! Merging of two flux-level floppy images, track by track.
//!
//! `format` encodes and decodes the on-disk structures, `image` loads an
//! image, `sum` is the checksum, `merge` recombines two images and
//! `laws` states what holds of every merge.

pub mod bytes;
pub mod format;
pub mod image;
pub mod laws;
pub mod merge;
pub mod selection;
pub mod sum;
