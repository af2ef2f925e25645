use vstd::prelude::*;

verus! {

/// Every way an operation of this library can fail.
#[derive(Debug, Clone, Copy, PartialEq, Eq, Structural)]
pub enum PackError {
    /// The signature, the type ordinal or the flags of a container are not valid.
    MalformedHeader,
    /// A declared size runs past the end of the buffer.
    TruncatedData,
    /// The index of a container cannot be read, or names an invalid or repeated path.
    IndexCorrupt,
    /// The operation would give two entries the same path.
    DuplicatePath,
    /// No entry matches the path given.
    NotFound,
    /// No table definition is known for the table and version asked for.
    SchemaUnavailable,
    /// A cell of a table cannot be read, or does not match its definition.
    RowDecodeError { row: usize, field: usize },
    /// A field type tag outside the closed set of known types.
    UnsupportedFieldType,
}

} // verus!
