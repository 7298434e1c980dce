//! The byte layout of a region file.
//!
//! A region file starts with an 8 KiB header. Its first half holds one
//! four-byte location per chunk slot, in row-major order over a 32 x 32 grid:
//! a big-endian 24-bit sector offset and a sector count. At the named sector
//! stands the chunk: a big-endian 32-bit length, one byte that names the
//! compression scheme, and the compressed document.

use fastanvil::Region;
use std::io::Cursor;
use vstd::prelude::*;

verus! {

/// Bytes in one sector, the unit in which a region file allots room.
pub const SECTOR_BYTES: usize = 4096;

/// Bytes in the header of a region file.
pub const HEADER_BYTES: usize = 8192;

/// Chunk slots along one side of a region.
pub const REGION_SIDE: usize = 32;

/// Chunk slots in a region.
pub const SLOT_COUNT: usize = 1024;

/// Why a region file, or one chunk slot of it, was passed over.
#[derive(Clone, Copy, Debug, PartialEq, Eq, Structural)]
pub enum RegionError {
    /// The header is incomplete, or a location in it points into the header
    /// or allots no sector.
    MalformedHeader,
    /// The compression scheme is unknown or the payload does not inflate.
    CorruptPayload,
    /// The chunk's declared length is zero, exceeds its sectors, or runs past
    /// the end of the file.
    LengthMismatch,
    /// The file could not be read.
    Io,
    /// The file or chunk is in the legacy layout, and legacy data was not
    /// asked for.
    LegacyRejected,
}

/// The big-endian number in the three bytes at `at`.
pub open spec fn be24(bytes: Seq<u8>, at: int) -> int {
    bytes[at] as int * 65536 + bytes[at + 1] as int * 256 + bytes[at + 2] as int
}

/// The big-endian number in the four bytes at `at`.
pub open spec fn be32(bytes: Seq<u8>, at: int) -> int {
    bytes[at] as int * 16777216 + be24(bytes, at + 1)
}

/// The sector at which the header places the chunk of `slot`.
pub open spec fn slot_offset(region: Seq<u8>, slot: int) -> int {
    be24(region, 4 * slot)
}

/// The number of sectors that the header allots to the chunk of `slot`.
pub open spec fn slot_sectors(region: Seq<u8>, slot: int) -> int {
    region[4 * slot + 3] as int
}

/// Whether the header records a chunk in `slot`.
pub open spec fn slot_occupied(region: Seq<u8>, slot: int) -> bool {
    slot_offset(region, slot) != 0 || slot_sectors(region, slot) != 0
}

/// The byte at which the chunk of `slot` starts.
pub open spec fn chunk_start(region: Seq<u8>, slot: int) -> int {
    slot_offset(region, slot) * 4096
}

/// The length that the chunk of `slot` declares: its scheme byte and its
/// compressed document.
pub open spec fn declared_len(region: Seq<u8>, slot: int) -> int {
    be32(region, chunk_start(region, slot))
}

/// The byte that names the compression scheme of the chunk of `slot`.
pub open spec fn scheme_tag(region: Seq<u8>, slot: int) -> int {
    region[chunk_start(region, slot) + 4] as int
}

/// Whether `tag` names gzip, zlib or no compression.
pub open spec fn known_scheme(tag: int) -> bool {
    1 <= tag <= 3
}

/// What is wrong with the occupied `slot` of a region whose header is
/// complete, or `None` where its payload can be handed to the decompressor.
pub open spec fn slot_fault(region: Seq<u8>, slot: int) -> Option<RegionError> {
    let start = chunk_start(region, slot);
    let len = declared_len(region, slot);
    if slot_offset(region, slot) < 2 || slot_sectors(region, slot) == 0 {
        Some(RegionError::MalformedHeader)
    } else if start + 5 > region.len() {
        Some(RegionError::LengthMismatch)
    } else if len < 1 || 4 + len > slot_sectors(region, slot) * 4096 || start + 4 + len
        > region.len() {
        Some(RegionError::LengthMismatch)
    } else if !known_scheme(scheme_tag(region, slot)) {
        Some(RegionError::CorruptPayload)
    } else {
        None
    }
}

/// The document that `fastanvil` inflates from slot (`x`, `z`) of a region
/// file with these bytes, or `None` where it hands none out.
pub uninterp spec fn inflated_chunk(region: Seq<u8>, x: int, z: int) -> Option<Seq<u8>>;

/// The bytes that the chunk of `slot` holds behind its scheme byte.
pub open spec fn stored_payload(region: Seq<u8>, slot: int) -> Seq<u8> {
    region.subrange(
        chunk_start(region, slot) + 5,
        chunk_start(region, slot) + 4 + declared_len(region, slot),
    )
}

/// The tag of the scheme that stores a document as it is.
pub const SCHEME_NONE: u8 = 3;

/// What the header and the chunk's first five bytes say of a slot.
#[derive(Clone, Copy, Debug, PartialEq, Eq, Structural)]
pub enum SlotStatus {
    /// The header records no chunk.
    Empty,
    /// The chunk cannot be read, for this reason.
    Faulty(RegionError),
    /// The chunk lies within the file and names a known scheme.
    Sound,
}

/// The status of `slot` in a region file with these bytes. In a file too
/// short to hold the header every slot is faulty.
pub open spec fn slot_status_of(region: Seq<u8>, slot: int) -> SlotStatus {
    if region.len() < HEADER_BYTES {
        SlotStatus::Faulty(RegionError::MalformedHeader)
    } else if !slot_occupied(region, slot) {
        SlotStatus::Empty
    } else {
        match slot_fault(region, slot) {
            Some(e) => SlotStatus::Faulty(e),
            None => SlotStatus::Sound,
        }
    }
}

/// What a scan finds in `slot`: nothing, the inflated document, or the reason
/// why there is none.
pub open spec fn slot_payload(region: Seq<u8>, slot: int) -> Option<Result<Seq<u8>, RegionError>> {
    match slot_status_of(region, slot) {
        SlotStatus::Empty => None,
        SlotStatus::Faulty(e) => Some(Err(e)),
        SlotStatus::Sound => match inflated_chunk(region, slot % 32, slot / 32) {
            Some(doc) => Some(Ok(doc)),
            None => Some(Err(RegionError::CorruptPayload)),
        },
    }
}

/// The model of what `read_slot` returns.
pub open spec fn payload_view(r: Option<Result<Vec<u8>, RegionError>>) -> Option<
    Result<Seq<u8>, RegionError>,
> {
    match r {
        None => None,
        Some(Ok(doc)) => Some(Ok(doc@)),
        Some(Err(e)) => Some(Err(e)),
    }
}

/// Calls `fastanvil::Region::from_stream` on the bytes and then
/// `Region::read_chunk` for slot (`x`, `z`), and names what comes back. An
/// error of either call, and an absent chunk, come back as `None`.
///
/// `read_chunk` subtracts one from the declared length without a check, so a
/// length of zero is left out here, as are schemes other than gzip, zlib and
/// none. Where the scheme is none, `read_chunk` hands out the bytes behind
/// the scheme byte as they are.
#[verifier::external_body]
fn inflate_slot(region: &[u8], x: usize, z: usize) -> (r: Option<Vec<u8>>)
    requires
        x < 32,
        z < 32,
        region@.len() >= HEADER_BYTES,
        slot_occupied(region@, z * 32 + x),
        slot_fault(region@, z * 32 + x) is None,
    ensures
        r is Some <==> inflated_chunk(region@, x as int, z as int) is Some,
        r is Some ==> r.unwrap()@ == inflated_chunk(region@, x as int, z as int).unwrap(),
        scheme_tag(region@, z * 32 + x) == SCHEME_NONE ==> r is Some && r.unwrap()@
            == stored_payload(region@, z * 32 + x),
{
    match Region::from_stream(Cursor::new(region)) {
        Ok(mut opened) => match opened.read_chunk(x, z) {
            Ok(chunk) => chunk,
            Err(_) => None,
        },
        Err(_) => None,
    }
}

/// Reads the three-byte big-endian number at `at`.
fn read_be24(bytes: &[u8], at: usize) -> (r: usize)
    requires
        at + 3 <= bytes@.len(),
    ensures
        r == be24(bytes@, at as int),
        r < 16777216,
{
    let b0: usize = bytes[at] as usize;
    let b1: usize = bytes[at + 1] as usize;
    let b2: usize = bytes[at + 2] as usize;
    b0 * 65536 + b1 * 256 + b2
}

/// Reads the four-byte big-endian number at `at`.
fn read_be32(bytes: &[u8], at: usize) -> (r: u64)
    requires
        at + 4 <= bytes@.len(),
    ensures
        r == be32(bytes@, at as int),
        r < 4294967296,
{
    let b0: u64 = bytes[at] as u64;
    let rest: usize = read_be24(bytes, at + 1);
    b0 * 16777216 + rest as u64
}

/// Looks at the header entry of one chunk slot and at the first five bytes
/// of its chunk.
///
/// A slot whose entry is zero is empty. An entry that points into the header
/// or allots no sector makes a malformed header. A chunk that starts behind
/// the end of the file, declares no length, or declares more than its
/// sectors or the file hold is a length mismatch. A scheme other than gzip,
/// zlib or none makes a corrupt payload.
pub fn slot_status(region: &[u8], slot: usize) -> (r: SlotStatus)
    requires
        slot < SLOT_COUNT,
    ensures
        r == slot_status_of(region@, slot as int),
{
    let total: usize = region.len();
    if total < HEADER_BYTES {
        return SlotStatus::Faulty(RegionError::MalformedHeader);
    }
    let offset: usize = read_be24(region, 4 * slot);
    let sectors: usize = region[4 * slot + 3] as usize;
    if offset == 0 && sectors == 0 {
        return SlotStatus::Empty;
    }
    if offset < 2 || sectors == 0 {
        return SlotStatus::Faulty(RegionError::MalformedHeader);
    }
    let start: u64 = offset as u64 * 4096;
    if start + 5 > total as u64 {
        return SlotStatus::Faulty(RegionError::LengthMismatch);
    }
    let len: u64 = read_be32(region, start as usize);
    if len < 1 || 4 + len > sectors as u64 * 4096 || start + 4 + len > total as u64 {
        return SlotStatus::Faulty(RegionError::LengthMismatch);
    }
    let tag: u8 = region[start as usize + 4];
    if tag < 1 || tag > 3 {
        return SlotStatus::Faulty(RegionError::CorruptPayload);
    }
    SlotStatus::Sound
}

/// Reads one chunk slot of a region file.
///
/// Returns `None` for an empty slot, the reason for a faulty one, and for a
/// sound one the document that `fastanvil` inflates from it, or
/// `CorruptPayload` where it inflates none. A document that is stored as it
/// is comes back as it is.
pub fn read_slot(region: &[u8], slot: usize) -> (r: Option<Result<Vec<u8>, RegionError>>)
    requires
        slot < SLOT_COUNT,
    ensures
        payload_view(r) == slot_payload(region@, slot as int),
        slot_status_of(region@, slot as int) is Sound && scheme_tag(region@, slot as int)
            == SCHEME_NONE ==> payload_view(r) == Some(
            Ok::<Seq<u8>, RegionError>(stored_payload(region@, slot as int)),
        ),
{
    match slot_status(region, slot) {
        SlotStatus::Empty => None,
        SlotStatus::Faulty(e) => Some(Err(e)),
        SlotStatus::Sound => match inflate_slot(region, slot % 32, slot / 32) {
            Some(doc) => Some(Ok(doc)),
            None => Some(Err(RegionError::CorruptPayload)),
        },
    }
}

} // verus!
