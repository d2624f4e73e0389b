//! Link-time errors.

use vstd::prelude::*;

verus! {

/// What went wrong during a link.
#[derive(Clone, Copy, Debug, PartialEq, Eq, Structural)]
pub enum LinkErrorKind {
    /// The input is not an ELF64 little-endian file, or is truncated.
    NotElf,
    /// The input's machine type is not `EM_BPF`.
    NotBpf,
    /// A section's file range lies outside the input bytes.
    TruncatedSection,
    /// A symbol's table index is out of range.
    BadSymbolIndex,
    /// A section index is out of range.
    BadSectionIndex,
    /// A string-table index has no terminated string.
    BadStringIndex,
    /// A section that should carry bytes has none.
    MissingFileRange,
    /// A function symbol's value lies outside its section.
    FunctionOutOfRange,
    /// A relocation's type is not one of the two supported types.
    UnsupportedRelocType,
    /// A data relocation's symbol does not have local binding.
    NonLocalDataReloc,
    /// The data section a relocation refers to was not placed in the data
    /// image.
    MissingDataSection,
    /// A relocation does not land on an instruction of the form its type
    /// requires.
    BadRelocSite,
    /// Two objects define the same global symbol.
    MultipleDefinition,
    /// A pseudo-call's target is neither a known function nor a registered
    /// helper.
    UnresolvedPseudoCall,
    /// A section-relative call does not land on a function start.
    MissingLocalCallTarget,
    /// A rewritten call's displacement does not fit in 16 bits.
    CallTargetTooFar,
    /// The merged function table is too large to index.
    TooManyFunctions,
    /// An emitted image does not fit in memory or in the offset table.
    ImageTooLarge,
}

/// A fatal link error, carrying the object, function and byte offset it was
/// detected at, where those are known (empty name / zero offset otherwise).
#[derive(Clone, Debug)]
pub struct LinkError {
    pub kind: LinkErrorKind,
    pub object: Vec<u8>,
    pub function: Vec<u8>,
    pub offset: usize,
}

impl LinkError {
    /// An error with no context attached.
    pub fn new(kind: LinkErrorKind) -> (r: LinkError)
        ensures
            r.kind == kind,
    {
        LinkError { kind, object: Vec::new(), function: Vec::new(), offset: 0 }
    }

    /// An error naming the object and function it was detected in.
    pub fn in_function(kind: LinkErrorKind, object: &Vec<u8>, function: &Vec<u8>, offset: usize) -> (r:
        LinkError)
        ensures
            r.kind == kind,
    {
        LinkError { kind, object: object.clone(), function: function.clone(), offset }
    }
}

} // verus!
