//! Region-view and connected-component subsystem for binary page scans.
//!
//! The crate works on packed boolean pixel grids ([`image::Image`]): it can
//! trim blank margins, segment a page into content bands, and group
//! foreground pixels into connected objects, either by a scanline run-merge
//! pass or by 4-connected flood-fill growth.  PNG decoding and encoding,
//! colour thresholding and command-line handling are external collaborators:
//! the crate only consumes and produces boolean grids and pixel groups.

pub mod cutout;
pub mod decoder;
pub mod encoder;
pub mod image;
pub mod laws;
pub mod object;
pub mod ops;
