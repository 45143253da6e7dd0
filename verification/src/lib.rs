//! Joins the initialization segment of a fragmented MP4 stream with one media
//! segment into a single file that plays on its own.
//!
//! The crate parses the box structure of both segments, rewrites the byte
//! offsets inside the fragment metadata that moving the fragment invalidates,
//! and emits the boxes in their new order. Everything is stated over byte
//! sequences: a source is modelled by the bytes it holds, a sink by the bytes
//! written to it so far.

use vstd::prelude::*;

pub mod atom;
pub mod combine;
pub mod field;
pub mod fixup;
pub mod lookup;
pub mod offset;
pub mod output;
pub mod segment;

verus! {

/// Tag of the file-type box.
pub const MAGIC_FTYP: u32 = 0x6674_7970;

/// Tag of the movie-metadata box.
pub const MAGIC_MOOV: u32 = 0x6d6f_6f76;

/// Tag of the movie-fragment box.
pub const MAGIC_MOOF: u32 = 0x6d6f_6f66;

/// Tag of the movie-fragment header box, which holds the sequence number.
pub const MAGIC_MFHD: u32 = 0x6d66_6864;

/// Tag of a track-fragment box.
pub const MAGIC_TRAF: u32 = 0x7472_6166;

/// Tag of the track-fragment header box.
pub const MAGIC_TFHD: u32 = 0x7466_6864;

/// Tag of the track-run box.
pub const MAGIC_TRUN: u32 = 0x7472_756e;

/// Tag of the media-data box.
pub const MAGIC_MDAT: u32 = 0x6d64_6174;

/// The four-byte tag made of `a`, `b`, `c`, `d`, first byte most significant.
pub open spec fn spec_magic(a: u8, b: u8, c: u8, d: u8) -> u32 {
    (a * 0x100_0000 + b * 0x1_0000 + c * 0x100 + d) as u32
}

/// Builds a box tag from its four characters.
#[verifier::when_used_as_spec(spec_magic)]
pub fn magic(a: u8, b: u8, c: u8, d: u8) -> (m: u32)
    ensures
        m == spec_magic(a, b, c, d),
        m == a * 0x100_0000 + b * 0x1_0000 + c * 0x100 + d,
{
    (a as u32) * 0x100_0000 + (b as u32) * 0x1_0000 + (c as u32) * 0x100 + (d as u32)
}

/// The tags of this crate are made of the characters of their names.
pub proof fn lemma_magic_names()
    ensures
        MAGIC_FTYP == spec_magic('f' as u8, 't' as u8, 'y' as u8, 'p' as u8),
        MAGIC_MOOV == spec_magic('m' as u8, 'o' as u8, 'o' as u8, 'v' as u8),
        MAGIC_MOOF == spec_magic('m' as u8, 'o' as u8, 'o' as u8, 'f' as u8),
        MAGIC_MFHD == spec_magic('m' as u8, 'f' as u8, 'h' as u8, 'd' as u8),
        MAGIC_TRAF == spec_magic('t' as u8, 'r' as u8, 'a' as u8, 'f' as u8),
        MAGIC_TFHD == spec_magic('t' as u8, 'f' as u8, 'h' as u8, 'd' as u8),
        MAGIC_TRUN == spec_magic('t' as u8, 'r' as u8, 'u' as u8, 'n' as u8),
        MAGIC_MDAT == spec_magic('m' as u8, 'd' as u8, 'a' as u8, 't' as u8),
{
}

/// Why combining failed.
#[derive(Debug, Clone, Copy, PartialEq, Eq, Structural)]
pub enum ErrorKind {
    /// The medium behind a source or a sink failed.
    Io,
    /// A box, or a field inside one, runs past the end of what holds it, or a
    /// box claims a size too small to hold its own header.
    UnexpectedEof,
    /// A box that must be present is not; `magic` is its tag.
    MissingAtom { magic: u32 },
}

/// An error of this crate, carrying its detail.
#[derive(Debug, Clone, Copy, PartialEq, Eq, Structural)]
pub struct Mp4CombineError<D>(pub D);

/// What every fallible operation of this crate returns on failure.
pub type CombineError = Mp4CombineError<ErrorKind>;

} // verus!
