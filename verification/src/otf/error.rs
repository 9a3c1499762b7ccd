//! Errors reported while reading or writing OpenType fonts.
use vstd::prelude::*;

verus! {

/// An error raised while unpacking or packing a font.
#[derive(Debug, Clone, PartialEq)]
pub enum FontError {
    /// The data ended before a value could be read completely.
    UnexpectedEof,
    /// A value could not be written completely into its destination.
    WriteZero,
    /// The sfnt version is neither TrueType nor CFF.
    UnknownSfntVersion(u32),
    /// The font holds CFF outlines, which are not read.
    CffNotSupported,
    /// The CMAP table does not contain any supported encoding record.
    NoSupportedCmap,
    /// The CMAP subtable format is not supported.
    UnsupportedCmapFormat(u16),
    /// The CMAP subtable length header is smaller than its header.
    InvalidCmapSubtableLength,
    /// A CMAP subtable that would be larger than `u16::MAX` bytes.
    CmapSubtableTooLarge,
    /// The MAXP table version is unknown.
    InvalidMaxpVersion(u32),
    /// The NAME table format is unknown.
    InvalidNameFormat(u16),
    /// The LOCA table offsets are not ascending.
    UnalignedLoca,
    /// A required table is missing; holds the table's tag.
    TableMissing([u8; 4]),
    /// More `h_metrics` than a `u16` can count.
    TooManyHMetrics,
    /// More left side bearings than a `u16` can count.
    TooManyLeftSideBearings,
    /// The KERN table version is not supported.
    UnsupportedKernVersion(u16),
    /// The KERN subtable version is not supported.
    UnsupportedKernSubtableVersion(u16),
    /// The KERN subtable format is not supported.
    UnsupportedKernFormat(u8),
    /// More KERN subtables than the table's counter can hold.
    TooManyKernSubtables,
    /// More KERN format 0 pairs than a `u16` can count.
    TooManyKernPairs,
    /// Tried to write more tables than the font writer was created for.
    TooManyTables(usize),
    /// The font writer did not receive as many tables as it was created for.
    MissingTables { expected: usize, written: usize },
}

} // verus!
