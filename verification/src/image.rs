//! The emitted image envelope and the link-time descriptors of the target
//! machine and the host platform.

use vstd::prelude::*;

verus! {

/// Descriptor of the target machine: an opaque name and version, and the
/// helpers it exposes, each bound to a call index.
#[derive(Clone, Debug)]
pub struct TargetMachine {
    pub name: Vec<u8>,
    pub version: Vec<u8>,
    pub helpers: Vec<(Vec<u8>, i32)>,
}

impl TargetMachine {
    /// An empty descriptor: no name, no helpers.
    pub fn empty() -> (r: TargetMachine)
        ensures
            r.name@.len() == 0,
            r.version@.len() == 0,
            r.helpers@.len() == 0,
    {
        TargetMachine { name: Vec::new(), version: Vec::new(), helpers: Vec::new() }
    }
}

/// Descriptor of the host platform: where the data image is placed in the
/// device's data memory, and the helpers the platform exposes.
#[derive(Clone, Debug)]
pub struct HostPlatform {
    pub data_offset: u32,
    pub helpers: Vec<(Vec<u8>, i32)>,
}

impl HostPlatform {
    /// An empty descriptor: data at offset zero, no helpers.
    pub fn empty() -> (r: HostPlatform)
        ensures
            r.data_offset == 0,
            r.helpers@.len() == 0,
    {
        HostPlatform { data_offset: 0, helpers: Vec::new() }
    }
}

/// The function offset table: each surviving function's byte offset into the
/// emitted code image, keyed by its bare source name.
#[derive(Clone, Debug)]
pub struct OffsetTable {
    pub func_offsets: Vec<(Vec<u8>, i32)>,
}

impl OffsetTable {
    /// An empty table.
    pub fn empty() -> (r: OffsetTable)
        ensures
            r.func_offsets@.len() == 0,
    {
        OffsetTable { func_offsets: Vec::new() }
    }
}

/// The finished image: code and data bytes, the two descriptors the link was
/// configured with, and the offset table.
#[derive(Clone, Debug)]
pub struct Image {
    pub code: Vec<u8>,
    pub data: Vec<u8>,
    pub machine: TargetMachine,
    pub platform: HostPlatform,
    pub offset_table: OffsetTable,
}

} // verus!
