//! Tile entities and their extraction from a chunk document.
//!
//! A chunk in the current schema lists its tile entities under
//! `block_entities`, with absolute positions. A chunk in the legacy schema
//! lists them section by section, under `Level.Sections[..].TileEntities`,
//! with a height that counts from the floor of the section.

use crate::chunk::ChunkBlob;
use crate::chunk::Schema;
use crate::chunk::schema_of;
use crate::chunk::schema_of_document;
use crate::names::name_before;
use crate::nbt::all_canonical;
use crate::nbt::decode_document;
use crate::nbt::document_of;
use crate::nbt::entry_map;
use crate::nbt::MAX_NESTING;
use crate::nbt::names_rise;
use crate::nbt::NbtTree;
use crate::nbt::NbtValue;
use crate::nbt::trees_of;
use crate::nesting::nesting_within;
use vstd::prelude::*;

verus! {

/// The lowest height of a chunk in the current schema.
pub const CURRENT_FLOOR: i32 = -64;

/// The height just above a chunk in the current schema.
pub const CURRENT_CEILING: i32 = 320;

/// The number of sections in a chunk of the legacy schema.
pub const LEGACY_SECTIONS: i32 = 16;

/// The height of a section, and the width and depth of a chunk.
pub const SECTION_SIDE: i32 = 16;

/// Why a chunk, or one entry of its tile-entity list, yields no tile entity.
#[derive(Clone, Copy, Debug, PartialEq, Eq, Structural)]
pub enum DecodeError {
    /// The chunk holds no document, or its root is no compound.
    CorruptChunk,
    /// The entry lacks a required field or lies outside its chunk.
    MalformedTileEntity,
}

/// A tile entity: the metadata attached to one block.
#[derive(Clone, Debug, PartialEq, Eq)]
pub struct TileEntity {
    pub x: i32,
    pub y: i32,
    pub z: i32,
    /// The type identifier.
    pub id: String,
    /// The entries of the record other than `x`, `y`, `z` and `id`.
    pub fields: Vec<(String, NbtValue)>,
}

/// The content of a tile entity.
pub struct TileEntityModel {
    pub x: int,
    pub y: int,
    pub z: int,
    pub id: Seq<char>,
    pub fields: Map<Seq<char>, NbtTree>,
}

impl View for TileEntity {
    type V = TileEntityModel;

    open spec fn view(&self) -> TileEntityModel {
        TileEntityModel {
            x: self.x as int,
            y: self.y as int,
            z: self.z as int,
            id: self.id@,
            fields: entry_map(self.fields@),
        }
    }
}

impl TileEntity {
    /// Whether the fields stand in the order of their names, each name
    /// once, and are canonical themselves.
    pub open spec fn canonical(&self) -> bool {
        NbtValue::Compound(self.fields).canonical()
    }
}

/// Whether each tile entity among the items is canonical.
pub open spec fn tidy(items: Seq<Result<TileEntity, DecodeError>>) -> bool {
    forall|i: int| 0 <= i < items.len() && (#[trigger] items[i]) is Ok ==> items[i].unwrap().canonical()
}

/// Where the entries of one tile-entity list belong: the chunk, the height
/// to which theirs is relative, and the heights between which they must lie.
#[derive(Clone, Copy, Debug, PartialEq, Eq)]
pub struct Placement {
    pub chunk_x: i64,
    pub chunk_z: i64,
    pub y_base: i32,
    pub y_floor: i32,
    pub y_ceiling: i32,
}

impl Placement {
    /// The placement of the list of a chunk in the current schema.
    pub open spec fn current_spec(chunk_x: i64, chunk_z: i64) -> Placement {
        Placement {
            chunk_x,
            chunk_z,
            y_base: 0,
            y_floor: CURRENT_FLOOR,
            y_ceiling: CURRENT_CEILING,
        }
    }

    /// The placement of the list of section `index` of a legacy chunk.
    pub open spec fn legacy_spec(chunk_x: i64, chunk_z: i64, index: int) -> Placement {
        Placement {
            chunk_x,
            chunk_z,
            y_base: (index * 16) as i32,
            y_floor: (index * 16) as i32,
            y_ceiling: (index * 16 + 16) as i32,
        }
    }

    /// Whether a block at `x`, `z` and the relative height `y` lies in the
    /// chunk and between the two heights.
    pub open spec fn admits(self, x: int, y: int, z: int) -> bool {
        &&& 16 * self.chunk_x <= x < 16 * self.chunk_x + 16
        &&& 16 * self.chunk_z <= z < 16 * self.chunk_z + 16
        &&& self.y_floor <= self.y_base + y < self.y_ceiling
    }

    /// The placement of the list of a chunk in the current schema.
    pub fn current(chunk_x: i64, chunk_z: i64) -> (r: Placement)
        ensures
            r == Placement::current_spec(chunk_x, chunk_z),
    {
        Placement { chunk_x, chunk_z, y_base: 0, y_floor: CURRENT_FLOOR, y_ceiling: CURRENT_CEILING }
    }

    /// The placement of the list of section `index` of a legacy chunk.
    pub fn legacy(chunk_x: i64, chunk_z: i64, index: i32) -> (r: Placement)
        requires
            0 <= index < LEGACY_SECTIONS,
        ensures
            r == Placement::legacy_spec(chunk_x, chunk_z, index as int),
    {
        Placement {
            chunk_x,
            chunk_z,
            y_base: index * 16,
            y_floor: index * 16,
            y_ceiling: index * 16 + 16,
        }
    }

    /// Whether a block at `x`, `z` and the relative height `y` lies in the
    /// chunk and between the two heights.
    pub fn contains(&self, x: i32, y: i32, z: i32) -> (r: bool)
        ensures
            r == self.admits(x as int, y as int, z as int),
    {
        let height: i64 = self.y_base as i64 + y as i64;
        in_column(x, self.chunk_x) && in_column(z, self.chunk_z) && self.y_floor as i64 <= height
            && height < self.y_ceiling as i64
    }
}

/// Whether the block coordinate `block` lies in the chunk column `chunk`.
fn in_column(block: i32, chunk: i64) -> (r: bool)
    ensures
        r == (16 * chunk <= block < 16 * chunk + 16),
{
    if chunk < -134217728 || chunk >= 134217728 {
        false
    } else {
        16 * chunk <= block as i64 && (block as i64) < 16 * chunk + 16
    }
}

/// The names that a tile entity holds in fields of its own.
pub open spec fn reserved_names() -> Set<Seq<char>> {
    set!["x"@, "y"@, "z"@, "id"@]
}

/// What one entry of a tile-entity list yields.
pub open spec fn element_outcome(e: NbtTree, place: Placement) -> Result<
    TileEntityModel,
    DecodeError,
> {
    match (e.int_field("x"@), e.int_field("y"@), e.int_field("z"@), e.string_field("id"@)) {
        (Some(x), Some(y), Some(z), Some(id)) => if place.admits(x as int, y as int, z as int) {
            Ok(
                TileEntityModel {
                    x: x as int,
                    y: place.y_base + y,
                    z: z as int,
                    id,
                    fields: e->Compound_0.remove_keys(reserved_names()),
                },
            )
        } else {
            Err(DecodeError::MalformedTileEntity)
        },
        _ => Err(DecodeError::MalformedTileEntity),
    }
}

/// The content of one yielded item.
pub open spec fn outcome_view(r: Result<TileEntity, DecodeError>) -> Result<
    TileEntityModel,
    DecodeError,
> {
    match r {
        Ok(t) => Ok(t@),
        Err(e) => Err(e),
    }
}

/// The content of a run of yielded items.
pub open spec fn outcomes_view(items: Seq<Result<TileEntity, DecodeError>>) -> Seq<
    Result<TileEntityModel, DecodeError>,
> {
    Seq::new(items.len(), |i: int| outcome_view(items[i]))
}

/// What a tile-entity list yields: one item for each entry, in order.
pub open spec fn list_outcomes(items: Seq<NbtTree>, place: Placement) -> Seq<
    Result<TileEntityModel, DecodeError>,
> {
    Seq::new(items.len(), |i: int| element_outcome(items[i], place))
}

/// The entries of a compound other than the reserved ones, in their order.
fn other_fields(e: &NbtValue) -> (r: Vec<(String, NbtValue)>)
    requires
        e@ is Compound,
    ensures
        entry_map(r@) == e@->Compound_0.remove_keys(reserved_names()),
        e.canonical() ==> NbtValue::Compound(r).canonical(),
{
    let mut out: Vec<(String, NbtValue)> = Vec::new();
    match e {
        NbtValue::Compound(entries) => {
            let x_name: String = "x".to_owned();
            let y_name: String = "y".to_owned();
            let z_name: String = "z".to_owned();
            let id_name: String = "id".to_owned();
            let mut i: usize = 0;
            while i < entries.len()
                invariant
                    i <= entries@.len(),
                    x_name@ == "x"@,
                    y_name@ == "y"@,
                    z_name@ == "z"@,
                    id_name@ == "id"@,
                    entry_map(out@) == entry_map(entries@.take(i as int)).remove_keys(
                        reserved_names(),
                    ),
                    *e == NbtValue::Compound(*entries),
                    forall|k: int|
                        0 <= k < out@.len() ==> exists|j: int|
                            0 <= j < i && entries@[j].0@ == (#[trigger] out@[k]).0@,
                    e.canonical() ==> names_rise(out@) && forall|k: int|
                        0 <= k < out@.len() ==> (#[trigger] out@[k]).1.canonical(),
                decreases entries@.len() - i,
            {
                let ghost before = out@;
                let name: &String = &entries[i].0;
                proof {
                    assert(entries@.take(i + 1).drop_last() =~= entries@.take(i as int));
                }
                if !(*name == x_name || *name == y_name || *name == z_name || *name == id_name) {
                    let value = entries[i].1.duplicate();
                    proof {
                        crate::canonical::lemma_shape_decides(value, entries@[i as int].1);
                    }
                    out.push((name.clone(), value));
                    proof {
                        assert(out@.drop_last() =~= before);
                        assert(!reserved_names().contains(name@));
                        assert forall|k: int| 0 <= k < out@.len() implies exists|j: int|
                            0 <= j < i + 1 && entries@[j].0@ == (#[trigger] out@[k]).0@ by {
                            if k < before.len() {
                                assert(out@[k] == before[k]);
                                let j = choose|j: int|
                                    0 <= j < i && entries@[j].0@ == before[k].0@;
                                assert(0 <= j < i + 1 && entries@[j].0@ == out@[k].0@);
                            } else {
                                assert(entries@[i as int].0@ == out@[k].0@);
                            }
                        }
                        if e.canonical() {
                            assert forall|a: int, b: int|
                                0 <= a < b < out@.len() implies name_before(
                                (#[trigger] out@[a]).0@,
                                (#[trigger] out@[b]).0@,
                            ) by {
                                if b < before.len() {
                                    assert(out@[a] == before[a] && out@[b] == before[b]);
                                } else {
                                    assert(out@[a] == before[a]);
                                    let j = choose|j: int|
                                        0 <= j < i && entries@[j].0@ == before[a].0@;
                                    assert(name_before(entries@[j].0@, entries@[i as int].0@));
                                }
                            }
                            assert forall|k: int| 0 <= k < out@.len() implies (
                            #[trigger] out@[k]).1.canonical() by {
                                if k < before.len() {
                                    assert(out@[k] == before[k]);
                                } else {
                                    assert(entries@[i as int].1.canonical());
                                }
                            }
                        }
                        assert(entry_map(out@) =~= entry_map(entries@.take(i + 1)).remove_keys(
                            reserved_names(),
                        ));
                    }
                } else {
                    proof {
                        assert(reserved_names().contains(name@));
                        assert(entry_map(out@) =~= entry_map(entries@.take(i + 1)).remove_keys(
                            reserved_names(),
                        ));
                        assert forall|k: int| 0 <= k < out@.len() implies exists|j: int|
                            0 <= j < i + 1 && entries@[j].0@ == (#[trigger] out@[k]).0@ by {
                            let j = choose|j: int| 0 <= j < i && entries@[j].0@ == out@[k].0@;
                            assert(0 <= j < i + 1 && entries@[j].0@ == out@[k].0@);
                        }
                    }
                }
                i += 1;
            }
            proof {
                assert(entries@.take(i as int) =~= entries@);
            }
        },
        _ => {},
    }
    out
}

/// Reads one entry of a tile-entity list.
///
/// The entry must be a compound with `Int` fields `x`, `y` and `z` and a
/// `String` field `id`, and must lie where `place` admits it; its height is
/// raised by the base of `place`. Anything else is a malformed tile entity.
pub fn decode_element(e: &NbtValue, place: &Placement) -> (r: Result<TileEntity, DecodeError>)
    ensures
        outcome_view(r) == element_outcome(e@, *place),
        e.canonical() && r is Ok ==> r.unwrap().canonical(),
{
    let x = match e.get("x") {
        Some(v) => v.as_int(),
        None => None,
    };
    let y = match e.get("y") {
        Some(v) => v.as_int(),
        None => None,
    };
    let z = match e.get("z") {
        Some(v) => v.as_int(),
        None => None,
    };
    let id = match e.get("id") {
        Some(v) => v.as_str(),
        None => None,
    };
    match (x, y, z, id) {
        (Some(x), Some(y), Some(z), Some(id)) => {
            if place.contains(x, y, z) {
                let height: i64 = place.y_base as i64 + y as i64;
                let t = TileEntity {
                    x,
                    y: height as i32,
                    z,
                    id: id.to_owned(),
                    fields: other_fields(e),
                };
                Ok(t)
            } else {
                Err(DecodeError::MalformedTileEntity)
            }
        },
        _ => Err(DecodeError::MalformedTileEntity),
    }
}

/// Appends to `out` what the tile-entity list `items` yields.
pub fn decode_list(
    items: &Vec<NbtValue>,
    place: &Placement,
    out: &mut Vec<Result<TileEntity, DecodeError>>,
)
    ensures
        outcomes_view(final(out)@) == outcomes_view(old(out)@) + list_outcomes(
            trees_of(items@),
            *place,
        ),
        all_canonical(items@) && tidy(old(out)@) ==> tidy(final(out)@),
{
    let ghost start = out@;
    let ghost trees = trees_of(items@);
    let mut i: usize = 0;
    while i < items.len()
        invariant
            i <= items@.len(),
            trees == trees_of(items@),
            outcomes_view(out@) == outcomes_view(start) + list_outcomes(trees, *place).take(
                i as int,
            ),
            all_canonical(items@) && tidy(start) ==> tidy(out@),
        decreases items@.len() - i,
    {
        let ghost before = out@;
        let item = decode_element(&items[i], place);
        out.push(item);
        proof {
            if all_canonical(items@) && tidy(start) {
                assert forall|k: int| 0 <= k < out@.len() && (#[trigger] out@[k]) is Ok implies out@[k].unwrap().canonical() by {
                    if k < before.len() {
                        assert(out@[k] == before[k]);
                    }
                }
            }
            assert(outcomes_view(out@) =~= outcomes_view(before).push(outcome_view(item)));
            assert(list_outcomes(trees, *place).take(i + 1) =~= list_outcomes(trees, *place).take(
                i as int,
            ).push(element_outcome(trees[i as int], *place)));
        }
        i += 1;
    }
    proof {
        assert(list_outcomes(trees, *place).take(i as int) =~= list_outcomes(trees, *place));
    }
}

/// What a chunk in the current schema yields: the items of its list
/// `block_entities`.
pub open spec fn current_outcomes(doc: NbtTree, chunk_x: i64, chunk_z: i64) -> Seq<
    Result<TileEntityModel, DecodeError>,
> {
    list_outcomes(doc.list_field("block_entities"@), Placement::current_spec(chunk_x, chunk_z))
}

/// Whether `section` is the section `index` of its chunk, by its `Byte`
/// entry `Y`.
pub open spec fn is_section(section: NbtTree, index: int) -> bool {
    match section.byte_field("Y"@) {
        Some(y) => y as int == index,
        None => false,
    }
}

/// What one section of a legacy chunk yields when section `index` is read:
/// the items of its list `TileEntities`, if it is that section.
pub open spec fn section_outcomes(section: NbtTree, index: int, chunk_x: i64, chunk_z: i64) -> Seq<
    Result<TileEntityModel, DecodeError>,
> {
    if is_section(section, index) {
        list_outcomes(
            section.list_field("TileEntities"@),
            Placement::legacy_spec(chunk_x, chunk_z, index),
        )
    } else {
        Seq::empty()
    }
}

/// What the sections that call themselves section `index` yield, in the
/// order of the list.
pub open spec fn level_outcomes(sections: Seq<NbtTree>, index: int, chunk_x: i64, chunk_z: i64) -> Seq<
    Result<TileEntityModel, DecodeError>,
>
    decreases sections.len(),
{
    if sections.len() == 0 {
        Seq::empty()
    } else {
        level_outcomes(sections.drop_last(), index, chunk_x, chunk_z) + section_outcomes(
            sections.last(),
            index,
            chunk_x,
            chunk_z,
        )
    }
}

/// What the sections below `upto` yield, from section 0 upwards.
pub open spec fn outcomes_below(sections: Seq<NbtTree>, upto: int, chunk_x: i64, chunk_z: i64) -> Seq<
    Result<TileEntityModel, DecodeError>,
>
    decreases upto,
{
    if upto <= 0 {
        Seq::empty()
    } else {
        outcomes_below(sections, upto - 1, chunk_x, chunk_z) + level_outcomes(
            sections,
            upto - 1,
            chunk_x,
            chunk_z,
        )
    }
}

/// The sections of a legacy chunk: the list `Sections` of its compound
/// `Level`.
pub open spec fn legacy_sections(doc: NbtTree) -> Seq<NbtTree> {
    match doc.field("Level"@) {
        Some(level) => level.list_field("Sections"@),
        None => Seq::empty(),
    }
}

/// What a chunk in the legacy schema yields: its sixteen sections from the
/// lowest up, each with the items of its list.
pub open spec fn legacy_outcomes(doc: NbtTree, chunk_x: i64, chunk_z: i64) -> Seq<
    Result<TileEntityModel, DecodeError>,
> {
    outcomes_below(legacy_sections(doc), LEGACY_SECTIONS as int, chunk_x, chunk_z)
}

/// What a chunk document yields, by its schema.
pub open spec fn chunk_outcomes(doc: NbtTree, chunk_x: i64, chunk_z: i64) -> Seq<
    Result<TileEntityModel, DecodeError>,
> {
    match schema_of(doc) {
        Schema::Current => current_outcomes(doc, chunk_x, chunk_z),
        Schema::Legacy => legacy_outcomes(doc, chunk_x, chunk_z),
    }
}

/// What the extraction yields for a chunk whose bytes decode to `doc`.
pub open spec fn extraction(doc: Option<NbtTree>, chunk_x: i64, chunk_z: i64) -> Result<
    Seq<Result<TileEntityModel, DecodeError>>,
    DecodeError,
> {
    match doc {
        Some(tree) => if tree is Compound {
            Ok(chunk_outcomes(tree, chunk_x, chunk_z))
        } else {
            Err(DecodeError::CorruptChunk)
        },
        None => Err(DecodeError::CorruptChunk),
    }
}

/// The content of what `extract` returns.
pub open spec fn extraction_view(
    r: Result<Vec<Result<TileEntity, DecodeError>>, DecodeError>,
) -> Result<Seq<Result<TileEntityModel, DecodeError>>, DecodeError> {
    match r {
        Ok(items) => Ok(outcomes_view(items@)),
        Err(e) => Err(e),
    }
}

/// Reads the tile entities of a chunk in the current schema.
pub fn current_tile_entities(doc: &NbtValue, chunk_x: i64, chunk_z: i64) -> (r: Vec<
    Result<TileEntity, DecodeError>,
>)
    ensures
        outcomes_view(r@) == current_outcomes(doc@, chunk_x, chunk_z),
        doc.canonical() ==> tidy(r@),
{
    let mut out: Vec<Result<TileEntity, DecodeError>> = Vec::new();
    let place = Placement::current(chunk_x, chunk_z);
    assert(outcomes_view(out@) =~= Seq::empty());
    match doc.list_field("block_entities") {
        Some(items) => {
            decode_list(items, &place, &mut out);
            assert(outcomes_view(out@) =~= list_outcomes(trees_of(items@), place));
        },
        None => {
            assert(list_outcomes(doc@.list_field("block_entities"@), place) =~= Seq::empty());
        },
    }
    out
}

/// Reads the tile entities of a chunk in the legacy schema.
pub fn legacy_tile_entities(doc: &NbtValue, chunk_x: i64, chunk_z: i64) -> (r: Vec<
    Result<TileEntity, DecodeError>,
>)
    ensures
        outcomes_view(r@) == legacy_outcomes(doc@, chunk_x, chunk_z),
        doc.canonical() ==> tidy(r@),
{
    let mut out: Vec<Result<TileEntity, DecodeError>> = Vec::new();
    assert(outcomes_view(out@) =~= Seq::empty());
    let found = match doc.get("Level") {
        Some(level) => level.list_field("Sections"),
        None => None,
    };
    match found {
        Some(sections) => {
            let ghost trees = trees_of(sections@);
            assert(legacy_sections(doc@) == trees);
            let mut index: i32 = 0;
            while index < LEGACY_SECTIONS
                invariant
                    0 <= index <= LEGACY_SECTIONS,
                    trees == trees_of(sections@),
                    outcomes_view(out@) == outcomes_below(trees, index as int, chunk_x, chunk_z),
                    doc.canonical() ==> all_canonical(sections@) && tidy(out@),
                decreases LEGACY_SECTIONS - index,
            {
                let place = Placement::legacy(chunk_x, chunk_z, index);
                let mut j: usize = 0;
                assert(trees.take(0) =~= Seq::empty());
                while j < sections.len()
                    invariant
                        0 <= index < LEGACY_SECTIONS,
                        j <= sections@.len(),
                        trees == trees_of(sections@),
                        place == Placement::legacy_spec(chunk_x, chunk_z, index as int),
                        doc.canonical() ==> all_canonical(sections@) && tidy(out@),
                        outcomes_view(out@) == outcomes_below(
                            trees,
                            index as int,
                            chunk_x,
                            chunk_z,
                        ) + level_outcomes(trees.take(j as int), index as int, chunk_x, chunk_z),
                    decreases sections@.len() - j,
                {
                    let section = &sections[j];
                    let y = match section.get("Y") {
                        Some(v) => v.as_byte(),
                        None => None,
                    };
                    let here = match y {
                        Some(y) => y as i32 == index,
                        None => false,
                    };
                    proof {
                        assert(trees.take(j + 1).drop_last() =~= trees.take(j as int));
                        assert(trees.take(j + 1).last() == section@);
                        assert(here == is_section(section@, index as int));
                    }
                    if here {
                        match section.list_field("TileEntities") {
                            Some(items) => {
                                decode_list(items, &place, &mut out);
                            },
                            None => {
                                assert(list_outcomes(
                                    section@.list_field("TileEntities"@),
                                    place,
                                ) =~= Seq::empty());
                            },
                        }
                    }
                    proof {
                        let below = outcomes_below(trees, index as int, chunk_x, chunk_z);
                        let level = level_outcomes(
                            trees.take(j as int),
                            index as int,
                            chunk_x,
                            chunk_z,
                        );
                        let added = section_outcomes(section@, index as int, chunk_x, chunk_z);
                        assert(outcomes_view(out@) =~= (below + level) + added);
                        assert((below + level) + added =~= below + (level + added));
                    }
                    j += 1;
                }
                proof {
                    assert(trees.take(j as int) =~= trees);
                }
                index += 1;
            }
        },
        None => {
            proof {
                assert(legacy_sections(doc@) =~= Seq::empty());
                lemma_no_sections(LEGACY_SECTIONS as int, chunk_x, chunk_z);
            }
        },
    }
    out
}

/// A chunk without sections yields nothing.
pub proof fn lemma_no_sections(upto: int, chunk_x: i64, chunk_z: i64)
    ensures
        outcomes_below(Seq::empty(), upto, chunk_x, chunk_z) == Seq::<
            Result<TileEntityModel, DecodeError>,
        >::empty(),
    decreases upto,
{
    if upto > 0 {
        lemma_no_sections(upto - 1, chunk_x, chunk_z);
        assert(outcomes_below(Seq::empty(), upto, chunk_x, chunk_z) =~= Seq::empty());
    }
}

/// Reads the tile entities of a chunk document, by its schema.
///
/// Yields one item for each entry of the chunk's tile-entity lists, in the
/// order of the document: the tile entity, or `MalformedTileEntity`.
pub fn tile_entities_of(doc: &NbtValue, chunk_x: i64, chunk_z: i64) -> (r: Vec<
    Result<TileEntity, DecodeError>,
>)
    ensures
        outcomes_view(r@) == chunk_outcomes(doc@, chunk_x, chunk_z),
        doc.canonical() ==> tidy(r@),
{
    match schema_of_document(doc) {
        Schema::Current => current_tile_entities(doc, chunk_x, chunk_z),
        Schema::Legacy => legacy_tile_entities(doc, chunk_x, chunk_z),
    }
}

/// Reads the tile entities of a decoded chunk; `CorruptChunk` where there is
/// no document or its root is no compound.
pub fn extract_document(doc: Option<&NbtValue>, chunk_x: i64, chunk_z: i64) -> (r: Result<
    Vec<Result<TileEntity, DecodeError>>,
    DecodeError,
>)
    ensures
        extraction_view(r) == extraction(
            match doc {
                Some(d) => Some(d@),
                None => None,
            },
            chunk_x,
            chunk_z,
        ),
        match doc {
            Some(d) => d.canonical(),
            None => true,
        } && r is Ok ==> tidy(r.unwrap()@),
{
    match doc {
        Some(d) => match d {
            NbtValue::Compound(_) => Ok(tile_entities_of(d, chunk_x, chunk_z)),
            _ => Err(DecodeError::CorruptChunk),
        },
        None => Err(DecodeError::CorruptChunk),
    }
}

/// Extracts the tile entities of a chunk.
///
/// Decodes the chunk's bytes with `fastnbt` and reads the document by the
/// schema that its data version names. Bytes that hold no document, be it
/// that they nest too deep or that `fastnbt` decodes none from them, are a
/// corrupt chunk.
pub fn extract(blob: &ChunkBlob) -> (r: Result<Vec<Result<TileEntity, DecodeError>>, DecodeError>)
    ensures
        extraction_view(r) == extraction(document_of(blob.bytes@), blob.chunk_x, blob.chunk_z),
        r is Ok ==> tidy(r.unwrap()@),
{
    let doc = decode_document(blob.bytes.as_slice());
    extract_document(doc.as_ref(), blob.chunk_x, blob.chunk_z)
}

/// A list yields one item for each of its entries, and what an entry
/// yields does not depend on the others: an entry without an `Int` field
/// `x`, `y` or `z` yields `MalformedTileEntity` in its place, and the entries
/// around it yield what they yield alone.
pub proof fn lemma_malformed_entry_is_passed_over(items: Seq<NbtTree>, place: Placement, i: int)
    requires
        0 <= i < items.len(),
        items[i].int_field("x"@) is None || items[i].int_field("y"@) is None || items[i].int_field(
            "z"@,
        ) is None,
    ensures
        list_outcomes(items, place).len() == items.len(),
        list_outcomes(items, place)[i] == Err::<TileEntityModel, DecodeError>(
            DecodeError::MalformedTileEntity,
        ),
        forall|j: int|
            0 <= j < items.len() ==> #[trigger] list_outcomes(items, place)[j] == element_outcome(
                items[j],
                place,
            ),
{
}

/// A tile entity of section `index` of a legacy chunk stands at the height
/// `index * 16 + y`, where `y` is the height that its entry gives, and that
/// height lies in the section.
pub proof fn lemma_legacy_height(e: NbtTree, chunk_x: i64, chunk_z: i64, index: int)
    requires
        0 <= index < LEGACY_SECTIONS,
        element_outcome(e, Placement::legacy_spec(chunk_x, chunk_z, index)) is Ok,
    ensures
        e.int_field("y"@) is Some,
        0 <= e.int_field("y"@).unwrap() < SECTION_SIDE,
        element_outcome(e, Placement::legacy_spec(chunk_x, chunk_z, index)).unwrap().y == index
            * 16 + e.int_field("y"@).unwrap(),
{
}

/// The sections that yield nothing for one index yield nothing together.
proof fn lemma_empty_level(sections: Seq<NbtTree>, index: int, chunk_x: i64, chunk_z: i64)
    requires
        forall|k: int|
            0 <= k < sections.len() ==> (#[trigger] sections[k]).list_field("TileEntities"@).len()
                == 0,
    ensures
        level_outcomes(sections, index, chunk_x, chunk_z) == Seq::<
            Result<TileEntityModel, DecodeError>,
        >::empty(),
    decreases sections.len(),
{
    if sections.len() > 0 {
        let front = sections.drop_last();
        assert forall|k: int| 0 <= k < front.len() implies (#[trigger] front[k]).list_field(
            "TileEntities"@,
        ).len() == 0 by {
            assert(front[k] == sections[k]);
        }
        lemma_empty_level(front, index, chunk_x, chunk_z);
        assert(sections.last() == sections[sections.len() - 1]);
        assert(section_outcomes(sections.last(), index, chunk_x, chunk_z) =~= Seq::empty());
        assert(level_outcomes(sections, index, chunk_x, chunk_z) =~= Seq::empty());
    }
}

/// Sections with empty lists yield nothing, up to any index.
proof fn lemma_empty_below(sections: Seq<NbtTree>, upto: int, chunk_x: i64, chunk_z: i64)
    requires
        forall|k: int|
            0 <= k < sections.len() ==> (#[trigger] sections[k]).list_field("TileEntities"@).len()
                == 0,
    ensures
        outcomes_below(sections, upto, chunk_x, chunk_z) == Seq::<
            Result<TileEntityModel, DecodeError>,
        >::empty(),
    decreases upto,
{
    if upto > 0 {
        lemma_empty_below(sections, upto - 1, chunk_x, chunk_z);
        lemma_empty_level(sections, upto - 1, chunk_x, chunk_z);
        assert(outcomes_below(sections, upto, chunk_x, chunk_z) =~= Seq::empty());
    }
}

/// A chunk whose tile-entity lists are empty yields no item and no error,
/// in either schema.
pub proof fn lemma_empty_chunk(doc: NbtTree, chunk_x: i64, chunk_z: i64)
    requires
        doc is Compound,
        match schema_of(doc) {
            Schema::Current => doc.list_field("block_entities"@).len() == 0,
            Schema::Legacy => forall|k: int|
                0 <= k < legacy_sections(doc).len() ==> (#[trigger] legacy_sections(
                    doc,
                )[k]).list_field("TileEntities"@).len() == 0,
        },
    ensures
        extraction(Some(doc), chunk_x, chunk_z) == Ok::<
            Seq<Result<TileEntityModel, DecodeError>>,
            DecodeError,
        >(Seq::empty()),
{
    match schema_of(doc) {
        Schema::Current => {
            assert(current_outcomes(doc, chunk_x, chunk_z) =~= Seq::empty());
        },
        Schema::Legacy => {
            lemma_empty_below(legacy_sections(doc), LEGACY_SECTIONS as int, chunk_x, chunk_z);
        },
    }
}

/// Whether the tile entity stands in the chunk and between the two heights.
pub open spec fn in_chunk(
    t: TileEntityModel,
    chunk_x: i64,
    chunk_z: i64,
    floor: int,
    ceiling: int,
) -> bool {
    &&& 16 * chunk_x <= t.x < 16 * chunk_x + 16
    &&& 16 * chunk_z <= t.z < 16 * chunk_z + 16
    &&& floor <= t.y < ceiling
}

/// Whether every tile entity among the items stands in the chunk and
/// between the two heights.
pub open spec fn all_in_chunk(
    items: Seq<Result<TileEntityModel, DecodeError>>,
    chunk_x: i64,
    chunk_z: i64,
    floor: int,
    ceiling: int,
) -> bool {
    forall|i: int|
        0 <= i < items.len() && (#[trigger] items[i]) is Ok ==> in_chunk(
            items[i].unwrap(),
            chunk_x,
            chunk_z,
            floor,
            ceiling,
        )
}

/// The tile entities of the sections that call themselves section `index`
/// stand in the chunk, in the sixteen heights of that section.
proof fn lemma_level_in_chunk(sections: Seq<NbtTree>, index: int, chunk_x: i64, chunk_z: i64)
    requires
        0 <= index < LEGACY_SECTIONS,
    ensures
        all_in_chunk(
            level_outcomes(sections, index, chunk_x, chunk_z),
            chunk_x,
            chunk_z,
            index * 16,
            index * 16 + 16,
        ),
    decreases sections.len(),
{
    if sections.len() > 0 {
        lemma_level_in_chunk(sections.drop_last(), index, chunk_x, chunk_z);
    }
}

/// The tile entities of the sections below `upto` stand in the chunk, below
/// the floor of section `upto`.
proof fn lemma_below_in_chunk(sections: Seq<NbtTree>, upto: int, chunk_x: i64, chunk_z: i64)
    requires
        0 <= upto <= LEGACY_SECTIONS,
    ensures
        all_in_chunk(
            outcomes_below(sections, upto, chunk_x, chunk_z),
            chunk_x,
            chunk_z,
            0,
            upto * 16,
        ),
    decreases upto,
{
    if upto > 0 {
        lemma_below_in_chunk(sections, upto - 1, chunk_x, chunk_z);
        lemma_level_in_chunk(sections, upto - 1, chunk_x, chunk_z);
    }
}

/// Every tile entity that a chunk yields stands in the column of blocks of
/// that chunk, between the lowest and the highest height of its schema.
pub proof fn lemma_tile_entities_in_chunk(doc: NbtTree, chunk_x: i64, chunk_z: i64)
    ensures
        match schema_of(doc) {
            Schema::Current => all_in_chunk(
                chunk_outcomes(doc, chunk_x, chunk_z),
                chunk_x,
                chunk_z,
                CURRENT_FLOOR as int,
                CURRENT_CEILING as int,
            ),
            Schema::Legacy => all_in_chunk(
                chunk_outcomes(doc, chunk_x, chunk_z),
                chunk_x,
                chunk_z,
                0,
                LEGACY_SECTIONS * SECTION_SIDE,
            ),
        },
{
    lemma_below_in_chunk(legacy_sections(doc), LEGACY_SECTIONS as int, chunk_x, chunk_z);
}

/// A chunk whose lists and compounds nest too deep is a corrupt chunk, and
/// no more than that.
pub proof fn lemma_deep_chunk_is_corrupt(bytes: Seq<u8>, chunk_x: i64, chunk_z: i64)
    requires
        !nesting_within(bytes, MAX_NESTING as nat),
    ensures
        extraction(document_of(bytes), chunk_x, chunk_z) == Err::<
            Seq<Result<TileEntityModel, DecodeError>>,
            DecodeError,
        >(DecodeError::CorruptChunk),
{
}

} // verus!
