use vstd::prelude::*;

verus! {

/// Why a patch map table was rejected as structurally invalid.
#[derive(Clone, Copy, PartialEq, Eq, Structural, Debug)]
pub enum Malformation {
    /// The table's glyph count differs from the font's `maxp` glyph count.
    GlyphCountMismatch,
    /// `max_glyph_map_entry_index` exceeds `max_entry_index`.
    EntryIndexRange,
    /// The URI template is not valid UTF-8 text.
    UriTemplate,
    /// The patch encoding format number is not one of the known values.
    UnrecognizedEncoding,
}

/// Errors raised while reading a patch map table.
#[derive(Clone, Copy, PartialEq, Eq, Structural, Debug)]
pub enum ReadError {
    /// A field or array lies (partly) outside of the table data.
    OutOfBounds,
    /// The table uses a patch map format that this library does not read.
    UnsupportedFormat(u8),
    /// The table violates one of the structural rules of the format.
    MalformedData(Malformation),
}

/// Errors raised while applying a group of patches.
#[derive(Clone, Copy, PartialEq, Eq, Debug)]
pub enum PatchingError {
    /// The data of a patch that has to be applied has not been supplied.
    MissingPatches,
    /// There is nothing left to apply in the group.
    EmptyPatchList,
    /// A patch applier rejected the patch or the font.
    PatchApplicationFailed(&'static str),
}

} // verus!
