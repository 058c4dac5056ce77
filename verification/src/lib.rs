//! An index of the executables that the packages of a distribution install,
//! built once from the package manager's file listing and then queried in
//! constant time straight from the bytes of the index file.
//!
//! - [`index`] reads a listing and writes the index file ([`update`] gives
//!   it the name under which the command line knows it);
//! - [`search`] looks a command up in the bytes of an index file;
//! - [`layout`] says how the file is laid out, [`intern`] holds its strings,
//!   [`phf`] finds the perfect hash of its commands, [`sort`] puts its
//!   records in order, and [`bytes`] holds what they share;
//! - [`round_trip`] proves that a search finds what the listing says.

use vstd::prelude::*;

pub mod bytes;
pub mod index;
pub mod intern;
pub mod layout;
pub mod phf;
pub mod round_trip;
pub mod search;
pub mod sort;
pub mod update;

verus! {

/// The sixteen bytes that open every index file: `fcnf format 003` and a
/// terminating zero byte.
pub const HEADER_VERSION: [u8; 16] = [
    0x66, 0x63, 0x6e, 0x66, 0x20, 0x66, 0x6f, 0x72, 0x6d, 0x61, 0x74, 0x20, 0x30, 0x30, 0x33, 0x00,
];

/// What stands at the start of an index file: the version tag, the byte
/// length of the record array and of the string arena, the key of the
/// perfect hash, and the byte length of its displacement table and of its
/// slot table.
#[derive(Debug, Clone, Copy, PartialEq)]
pub struct Header {
    pub version: [u8; 16],
    pub providers_len: u32,
    pub strings_len: u32,
    pub hash_key: u64,
    pub disps_len: u32,
    pub table_len: u32,
}

/// One executable of one package: the offsets, in the string arena, of the
/// repository, of the package name, of the directory with its closing
/// slash, and of the name of the executable.
#[derive(Debug, Clone, Copy, PartialEq, Eq, Structural)]
pub struct Provider {
    pub repo: u32,
    pub package_name: u32,
    pub dir: u32,
    pub bin: u32,
}

/// The four strings of one record.
pub struct Names {
    pub repo: Seq<u8>,
    pub package: Seq<u8>,
    pub dir: Seq<u8>,
    pub bin: Seq<u8>,
}

/// The four strings of one record, as slices of a listing or of an arena.
#[derive(Debug, Clone, Copy)]
pub struct Fields<'a> {
    pub repo: &'a [u8],
    pub package: &'a [u8],
    pub dir: &'a [u8],
    pub bin: &'a [u8],
}

impl<'a> View for Fields<'a> {
    type V = Names;

    open spec fn view(&self) -> Names {
        Names { repo: self.repo@, package: self.package@, dir: self.dir@, bin: self.bin@ }
    }
}

/// The half-open range `[start, end)`.
#[derive(Debug, Clone, Copy, PartialEq, Eq, Structural)]
pub struct Span {
    pub start: u32,
    pub end: u32,
}

/// What can go wrong while an index is built or read.
#[derive(Debug, Clone, Copy, PartialEq, Eq, Structural)]
pub enum Error {
    /// A line of the listing names an executable but lacks one of the
    /// fields before the path.
    MalformedInput,
    /// A section of the index would outgrow what a 32-bit offset or length
    /// can describe.
    OffsetOverflow,
    /// No candidate hash key gave a perfect hash for the command names.
    PhfFailure,
    /// The bytes do not start with the expected version tag.
    UnknownVersion,
    /// The sections that the header declares do not fit the bytes, or a
    /// record points outside its section.
    CorruptIndex,
    /// No newline follows the given offset in the string arena.
    UnterminatedString,
}

} // verus!
