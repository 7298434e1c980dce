//! The source of chunks: a scan over the region files of a world directory.
//!
//! The fetcher decides; its caller reads. The caller lists the directory and
//! hands the names to [`WorldFetcher::new`]. It then calls
//! [`WorldFetcher::next`] until that returns [`Fetch::Done`]. Where `next`
//! asks for a file, the caller reads it and hands its bytes, or the news
//! that it could not be read, to [`WorldFetcher::load`].

use crate::chunk::ChunkBlob;
use crate::chunk::ChunkModel;
use crate::chunk::detect_schema;
use crate::chunk::detected_schema;
use crate::chunk::Schema;
use crate::nbt::document_of;
use crate::region::HEADER_BYTES;
use crate::region::read_slot;
use crate::region::RegionError;
use crate::region::SLOT_COUNT;
use crate::region::slot_payload;
use crate::region_name::lemma_arranged;
use crate::region_name::listed;
use crate::region_name::ordered;
use crate::region_name::region_entries;
use crate::region_name::RegionCoords;
use crate::region_name::RegionEntry;
use crate::region_name::scan_order;
use vstd::prelude::*;

verus! {

/// Why no scan could start.
#[derive(Clone, Copy, Debug, PartialEq, Eq, Structural)]
pub enum OpenError {
    /// The path does not exist.
    NotFound,
    /// The path is no directory.
    NotADirectory,
    /// The directory may not be read.
    Unreadable,
}

/// What the caller found at the path of the world directory.
#[derive(Debug, PartialEq, Eq)]
pub enum DirListing {
    /// Nothing is there.
    NotFound,
    /// Something other than a directory is there.
    NotADirectory,
    /// The directory may not be read.
    Unreadable,
    /// The names of the directory's entries.
    Entries(Vec<String>),
}

/// A region file, or one chunk slot of it, that the scan passed over.
#[derive(Clone, Copy, Debug, PartialEq, Eq)]
pub struct Skipped {
    /// Why it was passed over.
    pub error: RegionError,
    /// The region.
    pub region: RegionCoords,
    /// The slot, in row-major order; `None` where the whole file was passed
    /// over.
    pub slot: Option<u16>,
}

/// What one call of [`WorldFetcher::next`] returns.
#[derive(Debug, PartialEq, Eq)]
pub enum Fetch {
    /// The next chunk.
    Chunk(ChunkBlob),
    /// A file or a slot was passed over; the scan goes on.
    Skipped(Skipped),
    /// The contents of this file are wanted: hand them to
    /// [`WorldFetcher::load`].
    Open(RegionEntry),
    /// No region file is left.
    Done,
}

/// The content of a [`Fetch`].
pub enum FetchModel {
    Chunk(ChunkModel),
    Skipped(Skipped),
    Open(RegionEntry),
    Done,
}

impl View for Fetch {
    type V = FetchModel;

    open spec fn view(&self) -> FetchModel {
        match self {
            Fetch::Chunk(blob) => FetchModel::Chunk(blob@),
            Fetch::Skipped(s) => FetchModel::Skipped(*s),
            Fetch::Open(e) => FetchModel::Open(*e),
            Fetch::Done => FetchModel::Done,
        }
    }
}

/// Where a scan stands between two calls.
pub enum PhaseModel {
    /// No region file is at hand.
    Idle,
    /// The contents of this file were asked for.
    Awaiting(RegionEntry),
    /// The file at hand could not be used; the next call says so.
    Broken(Skipped),
    /// The file at hand is scanned; `slot` is the next slot to look at.
    Scanning { coords: RegionCoords, bytes: Seq<u8>, slot: int },
}

/// The state of a scan.
pub struct FetcherModel {
    /// Whether legacy files and chunks are wanted.
    pub accept_old: bool,
    /// The region files not yet asked for, in the order of the scan.
    pub pending: Seq<RegionEntry>,
    pub phase: PhaseModel,
}

impl FetcherModel {
    /// Whether the files to come are in order and the file at hand holds a
    /// whole header.
    pub open spec fn wf(self) -> bool {
        &&& ordered(self.pending)
        &&& match self.phase {
            PhaseModel::Scanning { coords, bytes, slot } => bytes.len() >= HEADER_BYTES && 0 <= slot
                <= SLOT_COUNT,
            _ => true,
        }
    }
}

/// The state in which a scan of a directory with the entries `names`
/// starts: its region files in the order of the scan, none at hand.
pub open spec fn start(names: Seq<String>, accept_old: bool) -> FetcherModel {
    FetcherModel { accept_old, pending: scan_order(names), phase: PhaseModel::Idle }
}

/// The record that `slot` of a region was passed over.
pub open spec fn slot_skipped(error: RegionError, coords: RegionCoords, slot: int) -> FetchModel {
    FetchModel::Skipped(Skipped { error, region: coords, slot: Some(slot as u16) })
}

/// What the scan makes of a document with the schema `schema` that was
/// found in `slot`: a chunk with its place in the world, or, for a legacy
/// chunk where legacy data is not wanted, the record that the slot was
/// passed over.
pub open spec fn placed(
    coords: RegionCoords,
    slot: int,
    doc: Seq<u8>,
    schema: Option<Schema>,
    accept_old: bool,
) -> FetchModel {
    if schema == Some(Schema::Legacy) && !accept_old {
        slot_skipped(RegionError::LegacyRejected, coords, slot)
    } else {
        FetchModel::Chunk(
            ChunkModel {
                bytes: doc,
                local_x: (slot % 32) as u8,
                local_z: (slot / 32) as u8,
                chunk_x: (coords.x * 32 + slot % 32) as i64,
                chunk_z: (coords.z * 32 + slot / 32) as i64,
                schema,
            },
        )
    }
}

/// What the scan makes of the payload of an occupied slot: the chunk, placed
/// by the schema that is found in it, or the record that the slot was passed
/// over.
pub open spec fn item_of(
    coords: RegionCoords,
    slot: int,
    payload: Result<Seq<u8>, RegionError>,
    accept_old: bool,
) -> FetchModel {
    match payload {
        Err(error) => slot_skipped(error, coords, slot),
        Ok(doc) => placed(coords, slot, doc, detected_schema(document_of(doc)), accept_old),
    }
}

/// The first occupied slot at or after `slot`, with what the scan makes of
/// it; `None` where the rest of the region is empty.
pub open spec fn scan_from(coords: RegionCoords, region: Seq<u8>, slot: int, accept_old: bool) -> Option<
    (int, FetchModel),
>
    decreases SLOT_COUNT - slot,
{
    if slot < 0 || slot >= SLOT_COUNT {
        None
    } else {
        match slot_payload(region, slot) {
            Some(payload) => Some((slot, item_of(coords, slot, payload, accept_old))),
            None => scan_from(coords, region, slot + 1, accept_old),
        }
    }
}

/// The step of a scan that has no file at hand: it asks for the next file,
/// passes it over if it is a legacy file and legacy data is not wanted, or
/// ends.
pub open spec fn open_next(m: FetcherModel) -> (FetcherModel, FetchModel) {
    if m.pending.len() == 0 {
        (FetcherModel { phase: PhaseModel::Idle, ..m }, FetchModel::Done)
    } else {
        let entry = m.pending[0];
        let rest = m.pending.skip(1);
        if entry.coords.legacy && !m.accept_old {
            (
                FetcherModel { pending: rest, phase: PhaseModel::Idle, ..m },
                FetchModel::Skipped(
                    Skipped {
                        error: RegionError::LegacyRejected,
                        region: entry.coords,
                        slot: None,
                    },
                ),
            )
        } else {
            (
                FetcherModel { pending: rest, phase: PhaseModel::Awaiting(entry), ..m },
                FetchModel::Open(entry),
            )
        }
    }
}

/// One step of a scan: the state after it and what it returns.
pub open spec fn step(m: FetcherModel) -> (FetcherModel, FetchModel) {
    match m.phase {
        PhaseModel::Idle => open_next(m),
        PhaseModel::Awaiting(entry) => (m, FetchModel::Open(entry)),
        PhaseModel::Broken(skipped) => (
            FetcherModel { phase: PhaseModel::Idle, ..m },
            FetchModel::Skipped(skipped),
        ),
        PhaseModel::Scanning { coords, bytes, slot } => match scan_from(
            coords,
            bytes,
            slot,
            m.accept_old,
        ) {
            Some((at, item)) => (
                FetcherModel { phase: PhaseModel::Scanning { coords, bytes, slot: at + 1 }, ..m },
                item,
            ),
            None => open_next(m),
        },
    }
}

/// The state after the caller has handed over the contents of the file that
/// was asked for, or `None` for a file that could not be read. Where no file
/// was asked for, nothing changes.
pub open spec fn loaded(m: FetcherModel, contents: Option<Seq<u8>>) -> FetcherModel {
    match m.phase {
        PhaseModel::Awaiting(entry) => match contents {
            None => FetcherModel {
                phase: PhaseModel::Broken(
                    Skipped { error: RegionError::Io, region: entry.coords, slot: None },
                ),
                ..m
            },
            Some(bytes) => if bytes.len() < HEADER_BYTES {
                FetcherModel {
                    phase: PhaseModel::Broken(
                        Skipped {
                            error: RegionError::MalformedHeader,
                            region: entry.coords,
                            slot: None,
                        },
                    ),
                    ..m
                }
            } else {
                FetcherModel {
                    phase: PhaseModel::Scanning { coords: entry.coords, bytes, slot: 0 },
                    ..m
                }
            },
        },
        _ => m,
    }
}

/// A bound on the steps that a scan has left while no file is loaded: it
/// falls with every step that returns a chunk or passes something over, and
/// with every file that is loaded.
pub open spec fn effort(m: FetcherModel) -> nat {
    (m.pending.len() * 1028 + match m.phase {
        PhaseModel::Idle => 0int,
        PhaseModel::Awaiting(_) => 1027,
        PhaseModel::Broken(_) => 1026,
        PhaseModel::Scanning { coords, bytes, slot } => if 0 <= slot <= SLOT_COUNT {
            1025 - slot
        } else {
            1
        },
    }) as nat
}

/// The slot that a scan finds is not before the one it started at.
pub proof fn lemma_scan_from_bounds(
    coords: RegionCoords,
    region: Seq<u8>,
    slot: int,
    accept_old: bool,
)
    ensures
        match scan_from(coords, region, slot, accept_old) {
            Some((at, item)) => 0 <= slot <= at < SLOT_COUNT && slot_payload(region, at) is Some
                && item == item_of(coords, at, slot_payload(region, at).unwrap(), accept_old)
                && forall|k: int| slot <= k < at ==> slot_payload(region, k) is None,
            None => forall|k: int| 0 <= slot <= k < SLOT_COUNT ==> slot_payload(region, k) is None,
        },
    decreases SLOT_COUNT - slot,
{
    if 0 <= slot < SLOT_COUNT && slot_payload(region, slot) is None {
        lemma_scan_from_bounds(coords, region, slot + 1, accept_old);
    }
}

/// A step that returns a chunk or passes something over leaves less to do.
pub proof fn lemma_step_effort(m: FetcherModel)
    ensures
        step(m).1 is Chunk || step(m).1 is Skipped ==> effort(step(m).0) < effort(m),
        step(m).1 is Open ==> step(m).0.phase == PhaseModel::Awaiting(step(m).1->Open_0),
        step(m).1 is Done ==> step(m).0.phase is Idle && step(m).0.pending.len() == 0,
        m.wf() ==> step(m).0.wf(),
{
    match m.phase {
        PhaseModel::Scanning { coords, bytes, slot } => {
            lemma_scan_from_bounds(coords, bytes, slot, m.accept_old);
        },
        _ => {},
    }
    if m.wf() && m.pending.len() > 0 {
        let rest = m.pending.skip(1);
        assert forall|i: int, j: int| 0 <= i < j < rest.len() implies !crate::region_name::before(
            rest[j].coords,
            rest[i].coords,
        ) by {
            assert(rest[i] == m.pending[i + 1] && rest[j] == m.pending[j + 1]);
        }
    }
}

/// A chunk that a step returns lies in the grid of its region, and its
/// place in the world is that of its slot.
pub proof fn lemma_step_chunk(m: FetcherModel)
    requires
        step(m).1 is Chunk,
    ensures
        step(m).1->Chunk_0.wf(),
        m.phase is Scanning,
        step(m).1->Chunk_0.chunk_x == m.phase->Scanning_coords.x * 32 + step(m).1->Chunk_0.local_x,
        step(m).1->Chunk_0.chunk_z == m.phase->Scanning_coords.z * 32 + step(m).1->Chunk_0.local_z,
{
    match m.phase {
        PhaseModel::Scanning { coords, bytes, slot } => {
            lemma_scan_from_bounds(coords, bytes, slot, m.accept_old);
        },
        _ => {},
    }
}

/// Loading the file that was asked for leaves less to do.
pub proof fn lemma_loaded_effort(m: FetcherModel, contents: Option<Seq<u8>>)
    ensures
        m.phase is Awaiting ==> effort(loaded(m, contents)) < effort(m),
        m.wf() ==> loaded(m, contents).wf(),
{
}

/// The content of what the caller hands to [`WorldFetcher::load`].
pub open spec fn contents_view(contents: Option<Vec<u8>>) -> Option<Seq<u8>> {
    match contents {
        Some(bytes) => Some(bytes@),
        None => None,
    }
}

/// Places a document that was found in `slot` of the region at `coords`.
///
/// Returns the chunk with its place in the region and in the world, or, for
/// a legacy chunk where legacy data is not wanted, the record that the slot
/// was passed over with `LegacyRejected`.
pub fn place_chunk(
    coords: RegionCoords,
    slot: usize,
    doc: Vec<u8>,
    schema: Option<Schema>,
    accept_old: bool,
) -> (r: Fetch)
    requires
        slot < SLOT_COUNT,
    ensures
        r@ == placed(coords, slot as int, doc@, schema, accept_old),
        r@ is Chunk ==> r@->Chunk_0.wf(),
{
    let legacy = match schema {
        Some(Schema::Legacy) => true,
        _ => false,
    };
    if legacy && !accept_old {
        Fetch::Skipped(
            Skipped { error: RegionError::LegacyRejected, region: coords, slot: Some(slot as u16) },
        )
    } else {
        Fetch::Chunk(
            ChunkBlob {
                bytes: doc,
                local_x: (slot % 32) as u8,
                local_z: (slot / 32) as u8,
                chunk_x: coords.x as i64 * 32 + (slot % 32) as i64,
                chunk_z: coords.z as i64 * 32 + (slot / 32) as i64,
                schema,
            },
        )
    }
}

/// Makes a chunk, or the record of a slot passed over, of the payload of an
/// occupied slot. The schema of a document is found by decoding it.
pub fn make_item(
    coords: RegionCoords,
    slot: usize,
    payload: Result<Vec<u8>, RegionError>,
    accept_old: bool,
) -> (r: Fetch)
    requires
        slot < SLOT_COUNT,
    ensures
        r@ == item_of(
            coords,
            slot as int,
            match payload {
                Ok(doc) => Ok(doc@),
                Err(e) => Err(e),
            },
            accept_old,
        ),
        r@ is Chunk ==> r@->Chunk_0.wf(),
{
    match payload {
        Err(error) => Fetch::Skipped(Skipped { error, region: coords, slot: Some(slot as u16) }),
        Ok(doc) => {
            let schema = detect_schema(doc.as_slice());
            place_chunk(coords, slot, doc, schema, accept_old)
        },
    }
}

/// Where a scan stands, without the data that the stage needs.
#[derive(Clone, Copy, Debug, PartialEq, Eq)]
enum Stage {
    Idle,
    Awaiting,
    Broken(RegionError),
    Scanning,
}

/// A scan over the region files of a world directory, chunk by chunk.
pub struct WorldFetcher {
    accept_old: bool,
    /// The region files of the directory, in the order of the scan.
    regions: Vec<RegionEntry>,
    /// How many of them were asked for.
    taken: usize,
    stage: Stage,
    /// The contents of the file at hand, while it is scanned.
    bytes: Vec<u8>,
    /// The next slot of the file at hand.
    slot: usize,
}

impl View for WorldFetcher {
    type V = FetcherModel;

    closed spec fn view(&self) -> FetcherModel {
        FetcherModel {
            accept_old: self.accept_old,
            pending: self.regions@.skip(self.taken as int),
            phase: match self.stage {
                Stage::Idle => PhaseModel::Idle,
                Stage::Awaiting => PhaseModel::Awaiting(self.regions@[self.taken - 1]),
                Stage::Broken(error) => PhaseModel::Broken(
                    Skipped { error, region: self.regions@[self.taken - 1].coords, slot: None },
                ),
                Stage::Scanning => PhaseModel::Scanning {
                    coords: self.regions@[self.taken - 1].coords,
                    bytes: self.bytes@,
                    slot: self.slot as int,
                },
            },
        }
    }
}

impl WorldFetcher {
    /// The files are in order, those asked for are among them, a file is at
    /// hand unless the scan is idle, and a file that is scanned holds a
    /// header.
    #[verifier::type_invariant]
    spec fn inv(self) -> bool {
        &&& self.taken <= self.regions@.len()
        &&& ordered(self.regions@)
        &&& !(self.stage is Idle) ==> self.taken >= 1
        &&& self.stage is Scanning ==> self.bytes@.len() >= HEADER_BYTES && self.slot <= SLOT_COUNT
    }

    /// Starts a scan of a world directory.
    ///
    /// Fails where the caller found no directory that it may read.
    /// Otherwise the scan holds the region files among `names`, in order of
    /// their coordinates, and no file is at hand.
    pub fn new(listing: DirListing, accept_old: bool) -> (r: Result<WorldFetcher, OpenError>)
        ensures
            match listing {
                DirListing::NotFound => r == Err::<WorldFetcher, OpenError>(OpenError::NotFound),
                DirListing::NotADirectory => r == Err::<WorldFetcher, OpenError>(
                    OpenError::NotADirectory,
                ),
                DirListing::Unreadable => r == Err::<WorldFetcher, OpenError>(
                    OpenError::Unreadable,
                ),
                DirListing::Entries(names) => r is Ok && r.unwrap()@ == start(names@, accept_old),
            },
    {
        match listing {
            DirListing::NotFound => Err(OpenError::NotFound),
            DirListing::NotADirectory => Err(OpenError::NotADirectory),
            DirListing::Unreadable => Err(OpenError::Unreadable),
            DirListing::Entries(names) => {
                let regions = region_entries(&names);
                proof {
                    assert(regions@.skip(0) =~= regions@);
                    lemma_arranged(listed(names@));
                }
                Ok(
                    WorldFetcher {
                        accept_old,
                        regions,
                        taken: 0,
                        stage: Stage::Idle,
                        bytes: Vec::new(),
                        slot: 0,
                    },
                )
            },
        }
    }

    /// The invariant of the fetcher makes its state well formed.
    proof fn lemma_wf(self)
        requires
            self.inv(),
        ensures
            self@.wf(),
    {
        assert forall|i: int, j: int| 0 <= i < j < self@.pending.len() implies !crate::region_name::before(
            self@.pending[j].coords,
            self@.pending[i].coords,
        ) by {
            assert(self@.pending[i] == self.regions@[self.taken + i]);
            assert(self@.pending[j] == self.regions@[self.taken + j]);
        }
    }

    /// Whether legacy files and chunks are wanted.
    pub fn accept_old(&self) -> (r: bool)
        ensures
            r == self@.accept_old,
    {
        self.accept_old
    }

    /// The number of region files not yet asked for.
    pub fn files_left(&self) -> (r: usize)
        ensures
            r == self@.pending.len(),
    {
        proof {
            use_type_invariant(self);
        }
        self.regions.len() - self.taken
    }

    /// The file whose contents the scan waits for, if it waits for any.
    pub fn awaited(&self) -> (r: Option<&RegionEntry>)
        ensures
            match r {
                Some(entry) => self@.phase == PhaseModel::Awaiting(*entry),
                None => !(self@.phase is Awaiting),
            },
    {
        proof {
            use_type_invariant(self);
        }
        match self.stage {
            Stage::Awaiting => Some(&self.regions[self.taken - 1]),
            _ => None,
        }
    }

    /// Lets go of the file at hand and takes the next region file off the
    /// list.
    fn next_file(&mut self) -> (r: Option<RegionEntry>)
        ensures
            final(self)@.accept_old == old(self)@.accept_old,
            match r {
                Some(entry) => old(self)@.pending.len() > 0 && entry == old(self)@.pending[0]
                    && final(self)@.pending == old(self)@.pending.skip(1) && final(self)@.phase
                    == PhaseModel::Awaiting(entry),
                None => old(self)@.pending.len() == 0 && final(self)@.pending == old(
                    self,
                )@.pending && final(self)@.phase is Idle,
            },
    {
        proof {
            use_type_invariant(&*self);
        }
        if self.taken < self.regions.len() {
            let entry = self.regions[self.taken].clone();
            self.taken = self.taken + 1;
            self.stage = Stage::Awaiting;
            self.bytes = Vec::new();
            proof {
                assert(final(self)@.pending =~= old(self)@.pending.skip(1));
            }
            Some(entry)
        } else {
            self.stage = Stage::Idle;
            self.bytes = Vec::new();
            None
        }
    }

    /// The step of a scan that has no file at hand.
    fn open_next_file(&mut self) -> (r: Fetch)
        ensures
            (final(self)@, r@) == open_next(
                FetcherModel { phase: PhaseModel::Idle, ..old(self)@ },
            ),
    {
        match self.next_file() {
            None => Fetch::Done,
            Some(entry) => {
                proof {
                    use_type_invariant(&*self);
                }
                if entry.coords.legacy && !self.accept_old {
                    self.stage = Stage::Idle;
                    Fetch::Skipped(
                        Skipped {
                            error: RegionError::LegacyRejected,
                            region: entry.coords,
                            slot: None,
                        },
                    )
                } else {
                    Fetch::Open(entry)
                }
            },
        }
    }

    /// Takes one step of the scan.
    ///
    /// Returns the next chunk, the record of a file or slot that was passed
    /// over, the file whose contents are wanted next, or `Done` when no
    /// region file is left. After a slot or a file was passed over the scan
    /// goes on behind it.
    pub fn next(&mut self) -> (r: Fetch)
        ensures
            (final(self)@, r@) == step(old(self)@),
            old(self)@.wf(),
            final(self)@.wf(),
            r@ is Chunk ==> r@->Chunk_0.wf(),
    {
        proof {
            use_type_invariant(&*self);
            self.lemma_wf();
        }
        match self.stage {
            Stage::Idle => self.open_next_file(),
            Stage::Awaiting => Fetch::Open(self.regions[self.taken - 1].clone()),
            Stage::Broken(error) => {
                let skipped = Skipped {
                    error,
                    region: self.regions[self.taken - 1].coords,
                    slot: None,
                };
                self.stage = Stage::Idle;
                Fetch::Skipped(skipped)
            },
            Stage::Scanning => {
                let coords = self.regions[self.taken - 1].coords;
                let accept_old = self.accept_old;
                let ghost from = self.slot as int;
                let mut at: usize = self.slot;
                while at < SLOT_COUNT
                    invariant
                        from <= at <= SLOT_COUNT,
                        *self == *old(self),
                        self.stage is Scanning,
                        from == self.slot,
                        1 <= self.taken <= self.regions@.len(),
                        coords == self.regions@[self.taken - 1].coords,
                        accept_old == self.accept_old,
                        scan_from(coords, self.bytes@, at as int, accept_old) == scan_from(
                            coords,
                            self.bytes@,
                            from,
                            accept_old,
                        ),
                    decreases SLOT_COUNT - at,
                {
                    proof {
                        use_type_invariant(&*self);
                    }
                    match read_slot(self.bytes.as_slice(), at) {
                        Some(payload) => {
                            let item = make_item(coords, at, payload, accept_old);
                            self.slot = at + 1;
                            proof {
                                use_type_invariant(&*self);
                                self.lemma_wf();
                            }
                            return item;
                        },
                        None => {
                            at += 1;
                        },
                    }
                }
                self.open_next_file()
            },
        }
    }

    /// Takes the contents of the file that the scan asked for, or `None`
    /// for a file that could not be read. A file that cannot hold a header
    /// is passed over as malformed. Where the scan asked for no file,
    /// nothing changes.
    pub fn load(&mut self, contents: Option<Vec<u8>>)
        ensures
            final(self)@ == loaded(old(self)@, contents_view(contents)),
            old(self)@.wf(),
            final(self)@.wf(),
    {
        proof {
            use_type_invariant(&*self);
            self.lemma_wf();
        }
        match self.stage {
            Stage::Awaiting => match contents {
                None => {
                    self.stage = Stage::Broken(RegionError::Io);
                },
                Some(bytes) => {
                    if bytes.len() < HEADER_BYTES {
                        self.stage = Stage::Broken(RegionError::MalformedHeader);
                    } else {
                        self.bytes = bytes;
                        self.slot = 0;
                        self.stage = Stage::Scanning;
                    }
                },
            },
            _ => {},
        }
    }
}

} // verus!
