//! Chunks as a region file hands them out.

use crate::nbt::decode_document;
use crate::nbt::document_of;
use crate::nbt::NbtTree;
use crate::nbt::NbtValue;
use vstd::prelude::*;

verus! {

/// The lowest data version of the current schema.
pub const FIRST_CURRENT_VERSION: i32 = 2844;

/// The layout of a chunk document.
#[derive(Clone, Copy, Debug, PartialEq, Eq, Structural)]
pub enum Schema {
    /// The document carries a data version of the current schema.
    Current,
    /// The document carries an older data version, or none.
    Legacy,
}

/// The inflated document of one chunk, with its place in the region and in
/// the world.
#[derive(Clone, Debug, PartialEq, Eq)]
pub struct ChunkBlob {
    /// The NBT document.
    pub bytes: Vec<u8>,
    /// The column of the chunk's slot in its region.
    pub local_x: u8,
    /// The row of the chunk's slot in its region.
    pub local_z: u8,
    /// The chunk's column in the world.
    pub chunk_x: i64,
    /// The chunk's row in the world.
    pub chunk_z: i64,
    /// The schema found in the document; `None` where the bytes hold no
    /// document.
    pub schema: Option<Schema>,
}

/// The content of a chunk blob.
pub struct ChunkModel {
    pub bytes: Seq<u8>,
    pub local_x: u8,
    pub local_z: u8,
    pub chunk_x: i64,
    pub chunk_z: i64,
    pub schema: Option<Schema>,
}

impl View for ChunkBlob {
    type V = ChunkModel;

    open spec fn view(&self) -> ChunkModel {
        ChunkModel {
            bytes: self.bytes@,
            local_x: self.local_x,
            local_z: self.local_z,
            chunk_x: self.chunk_x,
            chunk_z: self.chunk_z,
            schema: self.schema,
        }
    }
}

impl ChunkModel {
    /// Whether the slot lies in the grid of a region and the place in the
    /// world is that of this slot in some region.
    pub open spec fn wf(self) -> bool {
        &&& self.local_x < 32
        &&& self.local_z < 32
        &&& (self.chunk_x - self.local_x) % 32 == 0
        &&& (self.chunk_z - self.local_z) % 32 == 0
    }
}

/// The schema of a document: current from the first current data version
/// on, legacy below it and where `DataVersion` is no `Int` entry.
pub open spec fn schema_of(doc: NbtTree) -> Schema {
    match doc.int_field("DataVersion"@) {
        Some(version) => if version >= FIRST_CURRENT_VERSION {
            Schema::Current
        } else {
            Schema::Legacy
        },
        None => Schema::Legacy,
    }
}

/// The schema of what `doc` holds, if it holds a document.
pub open spec fn detected_schema(doc: Option<NbtTree>) -> Option<Schema> {
    match doc {
        Some(tree) => Some(schema_of(tree)),
        None => None,
    }
}

/// Finds the schema of a document.
pub fn schema_of_document(doc: &NbtValue) -> (r: Schema)
    ensures
        r == schema_of(doc@),
{
    let version = match doc.get("DataVersion") {
        Some(v) => v.as_int(),
        None => None,
    };
    match version {
        Some(version) => if version >= FIRST_CURRENT_VERSION {
            Schema::Current
        } else {
            Schema::Legacy
        },
        None => Schema::Legacy,
    }
}

/// Finds the schema of the document in `bytes`; `None` where the bytes hold
/// no document: where they nest too deep or `fastnbt` decodes none from
/// them.
pub fn detect_schema(bytes: &[u8]) -> (r: Option<Schema>)
    ensures
        r == detected_schema(document_of(bytes@)),
{
    match decode_document(bytes) {
        Some(doc) => Some(schema_of_document(&doc)),
        None => None,
    }
}

} // verus!
