use vstd::prelude::*;

verus! {

/// The kinds of failure that reading a document can report.
#[derive(Debug, Clone, Copy, PartialEq, Eq, Structural)]
pub enum Error {
    /// The document's path could not be opened or read.
    FileOpen,
    /// The container is not a valid zip archive, or a member's compressed data is corrupt.
    ContainerFormat,
    /// A member with a fixed name is absent from the container.
    MemberNotFound,
    /// A timelapse segment's name carries no parseable ordering key.
    SegmentNameFormat,
    /// The metadata bytes are not a property list with a keyed-archive header.
    StructuralParse,
    /// The metadata's object graph cannot be resolved: a reference dangles,
    /// or an archived dictionary has more keys than values.
    GraphResolution,
}

} // verus!
