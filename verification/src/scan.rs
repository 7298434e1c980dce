//! What a scan yields as a whole, and that the pulls of a
//! [`TileEntityIterator`](crate::tile_entity_iterator::TileEntityIterator)
//! yield it piece by piece.

use crate::canonical::lemma_tile_entity_unique;
use crate::canonical::tile_shape;
use crate::canonical::TileShape;
use crate::chunk::Schema;
use crate::chunk::schema_of;
use crate::listing::lemma_scan_order_of_listing;
use crate::listing::same_entries;
use crate::nbt::document_of;
use crate::region::chunk_start;
use crate::region::declared_len;
use crate::region::HEADER_BYTES;
use crate::region::RegionError;
use crate::region::SLOT_COUNT;
use crate::region::slot_offset;
use crate::region::slot_payload;
use crate::region::slot_sectors;
use crate::region_name::alike;
use crate::region_name::lemma_arranged_alike;
use crate::region_name::lemma_listed_alike;
use crate::region_name::listed;
use crate::region_name::RegionCoords;
use crate::region_name::RegionEntry;
use crate::region_name::same_names;
use crate::region_name::scan_order;
use crate::tile_entity::DecodeError;
use crate::tile_entity::element_outcome;
use crate::tile_entity::extraction;
use crate::tile_entity::list_outcomes;
use crate::tile_entity::Placement;
use crate::tile_entity::TileEntity;
use crate::tile_entity::TileEntityModel;
use crate::tile_entity_iterator::IteratorModel;
use crate::tile_entity_iterator::lift;
use crate::tile_entity_iterator::pull;
use crate::tile_entity_iterator::Pull;
use crate::tile_entity_iterator::PullModel;
use crate::tile_entity_iterator::ScanError;
use crate::tile_entity_iterator::TileEntityIterator;
use crate::world_fetcher::contents_view;
use crate::world_fetcher::DirListing;
use crate::world_fetcher::effort;
use crate::world_fetcher::FetcherModel;
use crate::world_fetcher::FetchModel;
use crate::world_fetcher::item_of;
use crate::world_fetcher::lemma_loaded_effort;
use crate::world_fetcher::lemma_scan_from_bounds;
use crate::world_fetcher::lemma_step_effort;
use crate::world_fetcher::loaded;
use crate::world_fetcher::PhaseModel;
use crate::world_fetcher::scan_from;
use crate::world_fetcher::Skipped;
use crate::world_fetcher::start;
use crate::world_fetcher::step;
use crate::world_fetcher::WorldFetcher;
use vstd::prelude::*;

verus! {

/// The contents of the file of `entry`, where `files` holds the contents of
/// the files that can be read, by name.
pub open spec fn contents_of(files: Map<Seq<char>, Seq<u8>>, entry: RegionEntry) -> Option<
    Seq<u8>,
> {
    if files.contains_key(entry.name@) {
        Some(files[entry.name@])
    } else {
        None
    }
}

/// The items of a chunk as items of the scan.
pub open spec fn lifted(items: Seq<Result<TileEntityModel, DecodeError>>) -> Seq<
    Result<TileEntityModel, ScanError>,
> {
    Seq::new(items.len(), |i: int| lift(items[i]))
}

/// The record that a region file, or a slot of it, was passed over.
pub open spec fn passed_over(error: RegionError, region: RegionCoords, slot: Option<u16>) -> Seq<
    Result<TileEntityModel, ScanError>,
> {
    seq![Err(ScanError::Region(Skipped { error, region, slot }))]
}

/// What the scan yields for one thing that the source of chunks returns.
pub open spec fn fetched_items(fetched: FetchModel) -> Seq<Result<TileEntityModel, ScanError>> {
    match fetched {
        FetchModel::Chunk(blob) => match extraction(
            document_of(blob.bytes),
            blob.chunk_x,
            blob.chunk_z,
        ) {
            Ok(items) => lifted(items),
            Err(e) => seq![Err(ScanError::Decode(e))],
        },
        FetchModel::Skipped(skipped) => seq![Err(ScanError::Region(skipped))],
        _ => Seq::empty(),
    }
}

/// What the scan yields for one slot of a region.
pub open spec fn slot_items(coords: RegionCoords, region: Seq<u8>, slot: int, accept_old: bool) -> Seq<
    Result<TileEntityModel, ScanError>,
> {
    match slot_payload(region, slot) {
        Some(payload) => fetched_items(item_of(coords, slot, payload, accept_old)),
        None => Seq::empty(),
    }
}

/// What the scan yields for the slots of a region from `slot` on, in
/// row-major order.
pub open spec fn region_items(coords: RegionCoords, region: Seq<u8>, slot: int, accept_old: bool) -> Seq<
    Result<TileEntityModel, ScanError>,
>
    decreases SLOT_COUNT - slot,
{
    if slot < 0 || slot >= SLOT_COUNT {
        Seq::empty()
    } else {
        slot_items(coords, region, slot, accept_old) + region_items(
            coords,
            region,
            slot + 1,
            accept_old,
        )
    }
}

/// What the scan yields for a region file once its contents were asked for.
pub open spec fn loaded_items(coords: RegionCoords, contents: Option<Seq<u8>>, accept_old: bool) -> Seq<
    Result<TileEntityModel, ScanError>,
> {
    match contents {
        None => passed_over(RegionError::Io, coords, None),
        Some(bytes) => if bytes.len() < HEADER_BYTES {
            passed_over(RegionError::MalformedHeader, coords, None)
        } else {
            region_items(coords, bytes, 0, accept_old)
        },
    }
}

/// What the scan yields for a region file.
pub open spec fn file_items(entry: RegionEntry, contents: Option<Seq<u8>>, accept_old: bool) -> Seq<
    Result<TileEntityModel, ScanError>,
> {
    if entry.coords.legacy && !accept_old {
        passed_over(RegionError::LegacyRejected, entry.coords, None)
    } else {
        loaded_items(entry.coords, contents, accept_old)
    }
}

/// What the scan yields for the region files `pending`, one after the other.
pub open spec fn files_items(
    pending: Seq<RegionEntry>,
    files: Map<Seq<char>, Seq<u8>>,
    accept_old: bool,
) -> Seq<Result<TileEntityModel, ScanError>>
    decreases pending.len(),
{
    if pending.len() == 0 {
        Seq::empty()
    } else {
        file_items(pending[0], contents_of(files, pending[0]), accept_old) + files_items(
            pending.skip(1),
            files,
            accept_old,
        )
    }
}

/// What the scan still yields for the file at hand.
pub open spec fn phase_items(phase: PhaseModel, files: Map<Seq<char>, Seq<u8>>, accept_old: bool) -> Seq<
    Result<TileEntityModel, ScanError>,
> {
    match phase {
        PhaseModel::Idle => Seq::empty(),
        PhaseModel::Awaiting(entry) => loaded_items(
            entry.coords,
            contents_of(files, entry),
            accept_old,
        ),
        PhaseModel::Broken(skipped) => seq![Err(ScanError::Region(skipped))],
        PhaseModel::Scanning { coords, bytes, slot } => region_items(
            coords,
            bytes,
            slot,
            accept_old,
        ),
    }
}

/// What the source of chunks still gives rise to.
pub open spec fn fetcher_items(f: FetcherModel, files: Map<Seq<char>, Seq<u8>>) -> Seq<
    Result<TileEntityModel, ScanError>,
> {
    phase_items(f.phase, files, f.accept_old) + files_items(f.pending, files, f.accept_old)
}

/// What a scan in the state `m` still yields.
pub open spec fn remaining(m: IteratorModel, files: Map<Seq<char>, Seq<u8>>) -> Seq<
    Result<TileEntityModel, ScanError>,
> {
    lifted(m.queue) + fetcher_items(m.fetcher, files)
}

/// What the scan of a directory yields: for each region file, in order of
/// coordinates, for each occupied slot, in row-major order, the tile
/// entities of its chunk in the order of the document, with a record in the
/// place of everything that was passed over.
pub open spec fn scan_items(names: Seq<String>, files: Map<Seq<char>, Seq<u8>>, accept_old: bool) -> Seq<
    Result<TileEntityModel, ScanError>,
> {
    remaining(IteratorModel { fetcher: start(names, accept_old), queue: Seq::empty() }, files)
}

/// The state in which the caller leaves a scan that asked for the file of
/// `entry`, after handing over what `files` holds for it.
pub open spec fn answered(m: IteratorModel, files: Map<Seq<char>, Seq<u8>>, entry: RegionEntry) -> IteratorModel {
    IteratorModel { fetcher: loaded(m.fetcher, contents_of(files, entry)), queue: m.queue }
}

/// The slot that a scan of a region finds next yields the next items of the
/// region.
pub proof fn lemma_scan_items(coords: RegionCoords, region: Seq<u8>, slot: int, accept_old: bool)
    ensures
        match scan_from(coords, region, slot, accept_old) {
            Some((at, item)) => region_items(coords, region, slot, accept_old) == fetched_items(
                item,
            ) + region_items(coords, region, at + 1, accept_old),
            None => region_items(coords, region, slot, accept_old) == Seq::<
                Result<TileEntityModel, ScanError>,
            >::empty(),
        },
    decreases SLOT_COUNT - slot,
{
    if 0 <= slot < SLOT_COUNT {
        if slot_payload(region, slot) is None {
            lemma_scan_items(coords, region, slot + 1, accept_old);
            assert(slot_items(coords, region, slot, accept_old) + region_items(
                coords,
                region,
                slot + 1,
                accept_old,
            ) =~= region_items(coords, region, slot + 1, accept_old));
        }
    }
}

/// One step of the source of chunks accounts for the first of what is
/// left.
pub proof fn lemma_step_items(f: FetcherModel, files: Map<Seq<char>, Seq<u8>>)
    ensures
        match step(f).1 {
            FetchModel::Open(entry) => fetcher_items(f, files) == fetcher_items(
                loaded(step(f).0, contents_of(files, entry)),
                files,
            ),
            FetchModel::Done => fetcher_items(f, files) == Seq::<
                Result<TileEntityModel, ScanError>,
            >::empty(),
            fetched => fetcher_items(f, files) == fetched_items(fetched) + fetcher_items(
                step(f).0,
                files,
            ),
        },
{
    let rest = files_items(f.pending, files, f.accept_old);
    match f.phase {
        PhaseModel::Scanning { coords, bytes, slot } => {
            lemma_scan_items(coords, bytes, slot, f.accept_old);
            match scan_from(coords, bytes, slot, f.accept_old) {
                Some((at, item)) => {
                    lemma_scan_from_bounds(coords, bytes, slot, f.accept_old);
                    let later = region_items(coords, bytes, at + 1, f.accept_old);
                    assert((fetched_items(item) + later) + rest =~= fetched_items(item) + (later
                        + rest));
                },
                None => {
                    assert(fetcher_items(f, files) =~= rest);
                    lemma_open_items(f, files);
                },
            }
        },
        PhaseModel::Idle => {
            assert(fetcher_items(f, files) =~= rest);
            lemma_open_items(f, files);
        },
        PhaseModel::Awaiting(entry) => {
            lemma_loaded_items(f, files, entry);
        },
        PhaseModel::Broken(skipped) => {
            assert(fetcher_items(step(f).0, files) =~= rest);
        },
    }
}

/// Loading the file that was asked for leaves what is left as it was.
proof fn lemma_loaded_items(f: FetcherModel, files: Map<Seq<char>, Seq<u8>>, entry: RegionEntry)
    requires
        f.phase == PhaseModel::Awaiting(entry),
    ensures
        fetcher_items(f, files) == fetcher_items(loaded(f, contents_of(files, entry)), files),
{
}

/// The step of a scan with no file at hand accounts for the first of the
/// files that are left.
proof fn lemma_open_items(f: FetcherModel, files: Map<Seq<char>, Seq<u8>>)
    ensures
        ({
            let rest = files_items(f.pending, files, f.accept_old);
            let (after, fetched) = crate::world_fetcher::open_next(f);
            match fetched {
                FetchModel::Open(entry) => rest == fetcher_items(
                    loaded(after, contents_of(files, entry)),
                    files,
                ),
                FetchModel::Done => rest == Seq::<Result<TileEntityModel, ScanError>>::empty(),
                fetched => rest == fetched_items(fetched) + fetcher_items(after, files),
            }
        }),
{
    let (after, fetched) = crate::world_fetcher::open_next(f);
    if f.pending.len() > 0 {
        let later = files_items(f.pending.skip(1), files, f.accept_old);
        match fetched {
            FetchModel::Open(entry) => {
                lemma_loaded_items(after, files, entry);
            },
            _ => {
                assert(fetcher_items(after, files) =~= later);
            },
        }
    }
}

/// Each pull accounts for the first of what the scan still yields: an item
/// that is pulled is the next item, a file that is asked for leaves the
/// items as they were once it is handed over, and the scan is over when
/// nothing is left.
pub proof fn lemma_pull_items(m: IteratorModel, files: Map<Seq<char>, Seq<u8>>)
    ensures
        match pull(m).1 {
            PullModel::Item(item) => remaining(m, files) == seq![item] + remaining(
                pull(m).0,
                files,
            ),
            PullModel::Open(entry) => pull(m).0.fetcher.phase == PhaseModel::Awaiting(entry)
                && remaining(m, files) == remaining(answered(pull(m).0, files, entry), files),
            PullModel::Done => remaining(m, files) == Seq::<
                Result<TileEntityModel, ScanError>,
            >::empty(),
        },
    decreases effort(m.fetcher), m.queue.len(),
{
    let rest = fetcher_items(m.fetcher, files);
    if m.queue.len() > 0 {
        assert(lifted(m.queue) =~= seq![lift(m.queue[0])] + lifted(m.queue.skip(1)));
        assert((seq![lift(m.queue[0])] + lifted(m.queue.skip(1))) + rest =~= seq![
            lift(m.queue[0]),
        ] + (lifted(m.queue.skip(1)) + rest));
    } else {
        let (fetcher, fetched) = step(m.fetcher);
        let later = fetcher_items(fetcher, files);
        lemma_step_items(m.fetcher, files);
        lemma_step_effort(m.fetcher);
        assert(lifted(m.queue) =~= Seq::empty());
        assert(remaining(m, files) =~= rest);
        assert(lifted(Seq::empty()) + later =~= later);
        match fetched {
            FetchModel::Chunk(blob) => match extraction(
                document_of(blob.bytes),
                blob.chunk_x,
                blob.chunk_z,
            ) {
                Ok(items) => {
                    lemma_pull_items(IteratorModel { fetcher, queue: items }, files);
                },
                Err(e) => {},
            },
            FetchModel::Open(entry) => {
                let after = loaded(fetcher, contents_of(files, entry));
                assert(lifted(Seq::empty()) + fetcher_items(after, files) =~= fetcher_items(
                    after,
                    files,
                ));
            },
            _ => {},
        }
    }
}

/// The number of tile entities among `items`.
pub open spec fn tile_count(items: Seq<Result<TileEntityModel, ScanError>>) -> nat
    decreases items.len(),
{
    if items.len() == 0 {
        0
    } else if items.last() is Ok {
        tile_count(items.drop_last()) + 1
    } else {
        tile_count(items.drop_last())
    }
}

/// Whether the chunk document `doc` is in the current schema and each entry
/// of its tile-entity list is a tile entity of the chunk.
pub open spec fn chunk_well_formed(doc: Seq<u8>, chunk_x: i64, chunk_z: i64) -> bool {
    match document_of(doc) {
        Some(tree) => tree is Compound && schema_of(tree) == Schema::Current && forall|i: int|
            0 <= i < tree.list_field("block_entities"@).len() ==> element_outcome(
                #[trigger] tree.list_field("block_entities"@)[i],
                Placement::current_spec(chunk_x, chunk_z),
            ) is Ok,
        None => false,
    }
}

/// The length of the tile-entity list of the document `doc`.
pub open spec fn list_len(doc: Seq<u8>) -> nat {
    match document_of(doc) {
        Some(tree) => tree.list_field("block_entities"@).len(),
        None => 0,
    }
}

/// Whether `slot` is empty or holds a well-formed chunk.
pub open spec fn slot_well_formed(coords: RegionCoords, region: Seq<u8>, slot: int) -> bool {
    match slot_payload(region, slot) {
        None => true,
        Some(Ok(doc)) => chunk_well_formed(
            doc,
            (coords.x * 32 + slot % 32) as i64,
            (coords.z * 32 + slot / 32) as i64,
        ),
        Some(Err(_)) => false,
    }
}

/// Whether the region file holds a header and each of its slots is well
/// formed.
pub open spec fn region_well_formed(coords: RegionCoords, region: Seq<u8>) -> bool {
    &&& region.len() >= HEADER_BYTES
    &&& forall|slot: int| 0 <= slot < SLOT_COUNT ==> slot_well_formed(coords, region, slot)
}

/// Whether each of the region files `pending` is in the current format, can
/// be read and is well formed.
pub open spec fn world_well_formed(pending: Seq<RegionEntry>, files: Map<Seq<char>, Seq<u8>>) -> bool {
    forall|i: int|
        0 <= i < pending.len() ==> !(#[trigger] pending[i]).coords.legacy && files.contains_key(
            pending[i].name@,
        ) && region_well_formed(pending[i].coords, files[pending[i].name@])
}

/// The sum of the lengths of the tile-entity lists of the chunks from
/// `slot` on.
pub open spec fn region_list_total(region: Seq<u8>, slot: int) -> nat
    decreases SLOT_COUNT - slot,
{
    if slot < 0 || slot >= SLOT_COUNT {
        0
    } else {
        (match slot_payload(region, slot) {
            Some(Ok(doc)) => list_len(doc),
            _ => 0,
        }) + region_list_total(region, slot + 1)
    }
}

/// The sum of the lengths of the tile-entity lists of all chunks of the
/// region files `pending`.
pub open spec fn world_list_total(pending: Seq<RegionEntry>, files: Map<Seq<char>, Seq<u8>>) -> nat
    decreases pending.len(),
{
    if pending.len() == 0 {
        0
    } else {
        (match contents_of(files, pending[0]) {
            Some(region) => region_list_total(region, 0),
            None => 0,
        }) + world_list_total(pending.skip(1), files)
    }
}

/// Whether every item is a tile entity.
pub open spec fn all_tiles(items: Seq<Result<TileEntityModel, ScanError>>) -> bool {
    forall|i: int| 0 <= i < items.len() ==> (#[trigger] items[i]) is Ok
}

/// Where every item is a tile entity, there are as many tile entities as
/// items.
pub proof fn lemma_all_tiles_count(items: Seq<Result<TileEntityModel, ScanError>>)
    requires
        all_tiles(items),
    ensures
        tile_count(items) == items.len(),
    decreases items.len(),
{
    if items.len() > 0 {
        assert(items.last() == items[items.len() - 1]);
        assert forall|i: int| 0 <= i < items.drop_last().len() implies (#[trigger] items.drop_last()[i]) is Ok by {
            assert(items.drop_last()[i] == items[i]);
        }
        lemma_all_tiles_count(items.drop_last());
    }
}

/// A well-formed region yields a tile entity for each entry of the lists
/// of its chunks, and nothing else.
proof fn lemma_region_count(coords: RegionCoords, region: Seq<u8>, slot: int, accept_old: bool)
    requires
        region_well_formed(coords, region),
        0 <= slot <= SLOT_COUNT,
    ensures
        all_tiles(region_items(coords, region, slot, accept_old)),
        region_items(coords, region, slot, accept_old).len() == region_list_total(region, slot),
    decreases SLOT_COUNT - slot,
{
    if slot < SLOT_COUNT {
        lemma_region_count(coords, region, slot + 1, accept_old);
        assert(slot_well_formed(coords, region, slot));
        let here = slot_items(coords, region, slot, accept_old);
        match slot_payload(region, slot) {
            Some(Ok(doc)) => {
                let tree = document_of(doc).unwrap();
                let list = tree.list_field("block_entities"@);
                let chunk_x = (coords.x * 32 + slot % 32) as i64;
                let chunk_z = (coords.z * 32 + slot / 32) as i64;
                let outcomes = list_outcomes(list, Placement::current_spec(chunk_x, chunk_z));
                assert(here == lifted(outcomes));
                assert forall|i: int| 0 <= i < here.len() implies (#[trigger] here[i]) is Ok by {
                    assert(outcomes[i] == element_outcome(
                        list[i],
                        Placement::current_spec(chunk_x, chunk_z),
                    ));
                }
            },
            _ => {},
        }
    }
}

/// Well-formed region files yield a tile entity for each entry of the
/// lists of their chunks, and nothing else.
proof fn lemma_files_count(pending: Seq<RegionEntry>, files: Map<Seq<char>, Seq<u8>>, accept_old: bool)
    requires
        world_well_formed(pending, files),
    ensures
        all_tiles(files_items(pending, files, accept_old)),
        files_items(pending, files, accept_old).len() == world_list_total(pending, files),
    decreases pending.len(),
{
    if pending.len() > 0 {
        let rest = pending.skip(1);
        assert forall|i: int| 0 <= i < rest.len() implies !(#[trigger] rest[i]).coords.legacy
            && files.contains_key(rest[i].name@) && region_well_formed(
            rest[i].coords,
            files[rest[i].name@],
        ) by {
            assert(rest[i] == pending[i + 1]);
        }
        lemma_files_count(rest, files, accept_old);
        let first = pending[0];
        lemma_region_count(first.coords, files[first.name@], 0, accept_old);
    }
}

/// In a world whose region files are all in the current format, readable
/// and well formed, the scan yields exactly as many tile entities as the
/// tile-entity lists of all chunks have entries, and passes nothing over.
pub proof fn lemma_scan_count(names: Seq<String>, files: Map<Seq<char>, Seq<u8>>, accept_old: bool)
    requires
        world_well_formed(scan_order(names), files),
    ensures
        tile_count(scan_items(names, files, accept_old)) == world_list_total(
            scan_order(names),
            files,
        ),
        scan_items(names, files, accept_old).len() == world_list_total(scan_order(names), files),
{
    lemma_files_count(scan_order(names), files, accept_old);
    assert(scan_items(names, files, accept_old) =~= files_items(
        scan_order(names),
        files,
        accept_old,
    ));
    lemma_all_tiles_count(scan_items(names, files, accept_old));
}

/// Region files that are alike yield the same items.
proof fn lemma_files_alike(
    s: Seq<RegionEntry>,
    t: Seq<RegionEntry>,
    files: Map<Seq<char>, Seq<u8>>,
    accept_old: bool,
)
    requires
        alike(s, t),
    ensures
        files_items(s, files, accept_old) == files_items(t, files, accept_old),
    decreases s.len(),
{
    if s.len() > 0 {
        assert(alike(s.skip(1), t.skip(1))) by {
            assert forall|i: int| 0 <= i < s.len() - 1 implies (#[trigger] s.skip(1)[i]).name@ == (
            #[trigger] t.skip(1)[i]).name@ && s.skip(1)[i].coords == t.skip(1)[i].coords by {
                assert(s.skip(1)[i] == s[i + 1] && t.skip(1)[i] == t[i + 1]);
            }
        }
        lemma_files_alike(s.skip(1), t.skip(1), files, accept_old);
    }
}

/// What a scan yields depends on nothing but the names of the directory's
/// entries, the contents of its region files and the flag: a second scan of
/// a directory that lists the same names in the same order and holds the
/// same files yields the same items in the same order.
pub proof fn lemma_scan_repeats(
    first: Seq<String>,
    second: Seq<String>,
    files: Map<Seq<char>, Seq<u8>>,
    accept_old: bool,
)
    requires
        same_names(first, second),
    ensures
        scan_items(first, files, accept_old) == scan_items(second, files, accept_old),
{
    lemma_listed_alike(first, second);
    lemma_arranged_alike(listed(first), listed(second));
    lemma_files_alike(scan_order(first), scan_order(second), files, accept_old);
}

/// The scan does not depend on the order in which the directory lists its
/// entries: two listings that hold the same names, in whatever order, lead
/// to the same items in the same order.
pub proof fn lemma_scan_ignores_listing_order(
    first: Seq<String>,
    second: Seq<String>,
    files: Map<Seq<char>, Seq<u8>>,
    accept_old: bool,
)
    requires
        same_entries(first, second),
    ensures
        scan_items(first, files, accept_old) == scan_items(second, files, accept_old),
{
    lemma_scan_order_of_listing(first, second);
    lemma_files_alike(scan_order(first), scan_order(second), files, accept_old);
}

/// A chunk that the file ends in the middle of is passed over as a length
/// mismatch, and the scan goes on with the slot behind it.
pub proof fn lemma_truncated_slot(m: FetcherModel, files: Map<Seq<char>, Seq<u8>>)
    requires
        m.phase is Scanning,
        m.phase->Scanning_bytes.len() >= HEADER_BYTES,
        0 <= m.phase->Scanning_slot < SLOT_COUNT,
        slot_offset(m.phase->Scanning_bytes, m.phase->Scanning_slot) >= 2,
        slot_sectors(m.phase->Scanning_bytes, m.phase->Scanning_slot) >= 1,
        chunk_start(m.phase->Scanning_bytes, m.phase->Scanning_slot) + 5
            > m.phase->Scanning_bytes.len() || chunk_start(
            m.phase->Scanning_bytes,
            m.phase->Scanning_slot,
        ) + 4 + declared_len(m.phase->Scanning_bytes, m.phase->Scanning_slot)
            > m.phase->Scanning_bytes.len(),
    ensures
        ({
            let coords = m.phase->Scanning_coords;
            let bytes = m.phase->Scanning_bytes;
            let slot = m.phase->Scanning_slot;
            let skipped = Skipped {
                error: RegionError::LengthMismatch,
                region: coords,
                slot: Some(slot as u16),
            };
            &&& step(m) == (
                FetcherModel { phase: PhaseModel::Scanning { coords, bytes, slot: slot + 1 }, ..m },
                FetchModel::Skipped(skipped),
            )
            &&& fetcher_items(m, files) == seq![
                Err::<TileEntityModel, ScanError>(ScanError::Region(skipped)),
            ] + fetcher_items(step(m).0, files)
        }),
{
    lemma_step_items(m, files);
}

/// A scan comes to an end: a pull that returns an item leaves less to do
/// or a shorter queue, a file that is handed over leaves less to do, and a
/// scan that is done stays done.
pub proof fn lemma_pull_progress(m: IteratorModel, files: Map<Seq<char>, Seq<u8>>)
    ensures
        match pull(m).1 {
            PullModel::Item(_) => effort(pull(m).0.fetcher) < effort(m.fetcher) || (effort(
                pull(m).0.fetcher,
            ) == effort(m.fetcher) && pull(m).0.queue.len() < m.queue.len()),
            PullModel::Open(entry) => effort(answered(pull(m).0, files, entry).fetcher) < effort(
                m.fetcher,
            ),
            PullModel::Done => pull(pull(m).0).1 is Done,
        },
    decreases effort(m.fetcher), m.queue.len(),
{
    if m.queue.len() == 0 {
        let (fetcher, fetched) = step(m.fetcher);
        lemma_step_effort(m.fetcher);
        match fetched {
            FetchModel::Chunk(blob) => match extraction(
                document_of(blob.bytes),
                blob.chunk_x,
                blob.chunk_z,
            ) {
                Ok(items) => {
                    lemma_pull_progress(IteratorModel { fetcher, queue: items }, files);
                },
                Err(e) => {},
            },
            FetchModel::Open(entry) => {
                lemma_loaded_effort(fetcher, contents_of(files, entry));
                lemma_step_effort(fetcher);
            },
            FetchModel::Done => {
                lemma_step_effort(fetcher);
            },
            _ => {},
        }
    }
}

/// The contents of the files `files`, by name; of two files with one name
/// the first counts.
pub open spec fn file_map(files: Seq<(String, Vec<u8>)>) -> Map<Seq<char>, Seq<u8>>
    decreases files.len(),
{
    if files.len() == 0 {
        Map::empty()
    } else {
        let before = file_map(files.drop_last());
        if before.contains_key(files.last().0@) {
            before
        } else {
            before.insert(files.last().0@, files.last().1@)
        }
    }
}

/// A name that the first `i` files bear keeps its contents in the whole.
proof fn lemma_file_map_prefix(files: Seq<(String, Vec<u8>)>, i: int, name: Seq<char>)
    requires
        0 <= i <= files.len(),
        file_map(files.take(i)).contains_key(name),
    ensures
        file_map(files).contains_key(name),
        file_map(files)[name] == file_map(files.take(i))[name],
    decreases files.len() - i,
{
    if i < files.len() {
        assert(files.take(i + 1).drop_last() =~= files.take(i));
        lemma_file_map_prefix(files, i + 1, name);
    } else {
        assert(files.take(i) =~= files);
    }
}

/// Copies bytes.
fn copy_bytes(bytes: &Vec<u8>) -> (r: Vec<u8>)
    ensures
        r@ == bytes@,
{
    let mut out: Vec<u8> = Vec::with_capacity(bytes.len());
    let mut i: usize = 0;
    while i < bytes.len()
        invariant
            i <= bytes@.len(),
            out@ == bytes@.take(i as int),
        decreases bytes@.len() - i,
    {
        out.push(bytes[i]);
        proof {
            assert(out@ =~= bytes@.take(i + 1));
        }
        i += 1;
    }
    proof {
        assert(bytes@.take(i as int) =~= bytes@);
    }
    out
}

/// Looks up the contents of the file of `entry` among `files`.
fn find_file(files: &Vec<(String, Vec<u8>)>, entry: &RegionEntry) -> (r: Option<Vec<u8>>)
    ensures
        contents_view(r) == contents_of(file_map(files@), *entry),
{
    let mut i: usize = 0;
    assert(files@.take(0) =~= Seq::empty());
    while i < files.len()
        invariant
            i <= files@.len(),
            !file_map(files@.take(i as int)).contains_key(entry.name@),
        decreases files@.len() - i,
    {
        proof {
            assert(files@.take(i + 1).drop_last() =~= files@.take(i as int));
        }
        if files[i].0 == entry.name {
            proof {
                let upto = files@.take(i + 1);
                assert(upto.last() == files@[i as int]);
                assert(file_map(upto)[entry.name@] == files@[i as int].1@);
                lemma_file_map_prefix(files@, i + 1, entry.name@);
            }
            return Some(copy_bytes(&files[i].1));
        }
        i += 1;
    }
    proof {
        assert(files@.take(i as int) =~= files@);
    }
    None
}

/// The content of a run of items of a scan.
pub open spec fn items_view(items: Seq<Result<TileEntity, ScanError>>) -> Seq<
    Result<TileEntityModel, ScanError>,
> {
    Seq::new(
        items.len(),
        |i: int|
            match items[i] {
                Ok(t) => Ok(t@),
                Err(e) => Err(e),
            },
    )
}

/// Whether each tile entity among the items is canonical.
pub open spec fn neat(items: Seq<Result<TileEntity, ScanError>>) -> bool {
    forall|i: int| 0 <= i < items.len() && (#[trigger] items[i]) is Ok ==> items[i].unwrap().canonical()
}

/// Scans a directory whose files are held in memory.
///
/// `names` are the names of the directory's entries and `files` the
/// contents of its files that can be read, by name. Returns all that a scan
/// of the directory yields, in order.
pub fn scan_files(names: Vec<String>, files: &Vec<(String, Vec<u8>)>, accept_old: bool) -> (r: Vec<
    Result<TileEntity, ScanError>,
>)
    ensures
        items_view(r@) == scan_items(names@, file_map(files@), accept_old),
        neat(r@),
{
    let ghost all = scan_items(names@, file_map(files@), accept_old);
    let mut out: Vec<Result<TileEntity, ScanError>> = Vec::new();
    let fetcher = match WorldFetcher::new(DirListing::Entries(names), accept_old) {
        Ok(fetcher) => fetcher,
        Err(_) => {
            proof {
                assert(false);
            }
            return out;
        },
    };
    let mut scan = TileEntityIterator::new(fetcher);
    assert(items_view(out@) + remaining(scan@, file_map(files@)) =~= all);
    loop
        invariant
            items_view(out@) + remaining(scan@, file_map(files@)) == all,
            all == scan_items(names@, file_map(files@), accept_old),
            neat(out@),
            scan.wf(),
        decreases effort(scan@.fetcher), scan@.queue.len(),
    {
        let ghost before = scan@;
        let ghost done = out@;
        proof {
            lemma_pull_items(before, file_map(files@));
            lemma_pull_progress(before, file_map(files@));
        }
        match scan.next() {
            Pull::Item(item) => {
                out.push(item);
                proof {
                    assert forall|i: int| 0 <= i < out@.len() && (#[trigger] out@[i]) is Ok implies out@[i].unwrap().canonical() by {
                        if i < done.len() {
                            assert(out@[i] == done[i]);
                        }
                    }
                    let left = remaining(scan@, file_map(files@));
                    assert(items_view(out@) =~= items_view(done) + seq![pull(before).1->Item_0]);
                    assert((items_view(done) + seq![pull(before).1->Item_0]) + left =~= items_view(
                        done,
                    ) + (seq![pull(before).1->Item_0] + left));
                }
            },
            Pull::Open(entry) => {
                let contents = find_file(files, &entry);
                scan.load(contents);
            },
            Pull::Done => {
                proof {
                    assert(items_view(out@) + Seq::empty() =~= items_view(out@));
                }
                return out;
            },
        }
    }
}

/// A run of items of a scan as it is laid out.
pub open spec fn items_shape(items: Seq<Result<TileEntity, ScanError>>) -> Seq<
    Result<TileShape, ScanError>,
> {
    Seq::new(
        items.len(),
        |i: int|
            match items[i] {
                Ok(t) => Ok(tile_shape(t)),
                Err(e) => Err(e),
            },
    )
}

/// Two runs of canonical items with the same content are laid out alike.
pub proof fn lemma_items_unique(
    a: Seq<Result<TileEntity, ScanError>>,
    b: Seq<Result<TileEntity, ScanError>>,
)
    requires
        neat(a),
        neat(b),
        items_view(a) == items_view(b),
    ensures
        items_shape(a) == items_shape(b),
{
    let va = items_view(a);
    let vb = items_view(b);
    assert(va.len() == a.len());
    assert(vb.len() == b.len());
    assert forall|i: int| 0 <= i < a.len() implies items_shape(a)[i] == items_shape(b)[i] by {
        assert(va[i] == vb[i]);
        match (a[i], b[i]) {
            (Ok(s), Ok(t)) => {
                assert(va[i] == Ok::<TileEntityModel, ScanError>(s@));
                assert(vb[i] == Ok::<TileEntityModel, ScanError>(t@));
                lemma_tile_entity_unique(s, t);
            },
            _ => {},
        }
    }
    assert(items_shape(a) =~= items_shape(b));
}

/// Two scans of a directory yield the same: where the listings hold the
/// same names, in whatever order, and the files hold the same bytes, what
/// the scans return is laid out alike, tile entity by tile entity and field
/// by field.
pub proof fn lemma_scans_agree(
    first: Seq<String>,
    second: Seq<String>,
    files: Map<Seq<char>, Seq<u8>>,
    accept_old: bool,
    a: Seq<Result<TileEntity, ScanError>>,
    b: Seq<Result<TileEntity, ScanError>>,
)
    requires
        same_entries(first, second),
        items_view(a) == scan_items(first, files, accept_old),
        items_view(b) == scan_items(second, files, accept_old),
        neat(a),
        neat(b),
    ensures
        items_shape(a) == items_shape(b),
{
    lemma_scan_ignores_listing_order(first, second, files, accept_old);
    lemma_items_unique(a, b);
}

} // verus!
