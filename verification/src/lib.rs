//! Decoding of NIfTI-1 volumes into dense RGBA voxel buffers.
//!
//! The crate reads the fixed 348-byte header of a single-file NIfTI-1 image
//! ([`header`]), extracts and calibrates the voxel samples that follow it
//! ([`voxel`]), and maps them through a colour lookup table ([`lut`]) into a
//! buffer laid out with x varying fastest ([`volume`]). [`dataset`] runs the
//! three steps on the bytes of a file.
//!
//! All multi-byte fields are read in little-endian byte order ([`wire`]).
//! Real-valued fields and samples are carried as IEEE 754 bit patterns
//! ([`ieee`]), and the arithmetic on them is done on the patterns
//! ([`arithmetic`], [`rounding`]): every result is the correctly rounded one,
//! the same on every machine.
use vstd::prelude::*;

pub mod arithmetic;
pub mod dataset;
pub mod header;
pub mod ieee;
pub mod lut;
pub mod rounding;
pub mod volume;
pub mod voxel;
pub mod wire;

verus! {

} // verus!
