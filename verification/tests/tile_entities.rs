use std::collections::HashMap;

use fastnbt::Value;
use fasttiles::chunk::ChunkBlob;
use fasttiles::chunk::Schema;
use fasttiles::nbt::NbtValue;
use fasttiles::tile_entity::current_tile_entities;
use fasttiles::tile_entity::decode_element;
use fasttiles::tile_entity::decode_list;
use fasttiles::tile_entity::extract;
use fasttiles::tile_entity::extract_document;
use fasttiles::tile_entity::legacy_tile_entities;
use fasttiles::tile_entity::tile_entities_of;
use fasttiles::tile_entity::DecodeError;
use fasttiles::tile_entity::Placement;
use fasttiles::tile_entity::TileEntity;
use fasttiles::tile_entity::CURRENT_CEILING;
use fasttiles::tile_entity::CURRENT_FLOOR;
use fasttiles::tile_entity::LEGACY_SECTIONS;
use fasttiles::tile_entity::SECTION_SIDE;

fn own(entries: Vec<(&str, NbtValue)>) -> NbtValue {
    NbtValue::Compound(entries.into_iter().map(|(n, v)| (n.to_string(), v)).collect())
}

fn text(s: &str) -> NbtValue {
    NbtValue::String(s.to_string())
}

fn entry(x: i32, y: i32, z: i32, id: &str) -> NbtValue {
    own(vec![
        ("id", text(id)),
        ("x", NbtValue::Int(x)),
        ("y", NbtValue::Int(y)),
        ("z", NbtValue::Int(z)),
    ])
}

fn tile(x: i32, y: i32, z: i32, id: &str) -> TileEntity {
    TileEntity { x, y, z, id: id.to_string(), fields: vec![] }
}

fn current_doc(entries: Vec<NbtValue>) -> NbtValue {
    own(vec![("DataVersion", NbtValue::Int(3465)), ("block_entities", NbtValue::List(entries))])
}

fn section(index: i8, entries: Vec<NbtValue>) -> NbtValue {
    own(vec![("Y", NbtValue::Byte(index)), ("TileEntities", NbtValue::List(entries))])
}

fn legacy_doc(sections: Vec<NbtValue>) -> NbtValue {
    own(vec![
        ("DataVersion", NbtValue::Int(1343)),
        ("Level", own(vec![("Sections", NbtValue::List(sections))])),
    ])
}

fn compound(entries: Vec<(&str, Value)>) -> Value {
    let mut map = HashMap::new();
    for (name, value) in entries {
        map.insert(name.to_string(), value);
    }
    Value::Compound(map)
}

fn blob(document: &Value, chunk_x: i64, chunk_z: i64) -> ChunkBlob {
    ChunkBlob {
        bytes: fastnbt::to_bytes(document).unwrap(),
        local_x: chunk_x.rem_euclid(32) as u8,
        local_z: chunk_z.rem_euclid(32) as u8,
        chunk_x,
        chunk_z,
        schema: Some(Schema::Current),
    }
}

#[test]
fn volume_constants() {
    assert_eq!(CURRENT_FLOOR, -64);
    assert_eq!(CURRENT_CEILING, 320);
    assert_eq!(LEGACY_SECTIONS, 16);
    assert_eq!(SECTION_SIDE, 16);
}

#[test]
fn placements() {
    assert_eq!(
        Placement::current(3, -4),
        Placement { chunk_x: 3, chunk_z: -4, y_base: 0, y_floor: -64, y_ceiling: 320 }
    );
    assert_eq!(
        Placement::legacy(3, -4, 0),
        Placement { chunk_x: 3, chunk_z: -4, y_base: 0, y_floor: 0, y_ceiling: 16 }
    );
    assert_eq!(
        Placement::legacy(0, 0, 15),
        Placement { chunk_x: 0, chunk_z: 0, y_base: 240, y_floor: 240, y_ceiling: 256 }
    );
}

#[test]
fn placement_admits_the_blocks_of_its_chunk() {
    let place = Placement::current(2, -1);
    assert!(place.contains(32, 0, -16));
    assert!(place.contains(47, 0, -1));
    assert!(!place.contains(31, 0, -16));
    assert!(!place.contains(48, 0, -16));
    assert!(!place.contains(32, 0, -17));
    assert!(!place.contains(32, 0, 0));
    assert!(place.contains(32, -64, -16));
    assert!(place.contains(32, 319, -16));
    assert!(!place.contains(32, -65, -16));
    assert!(!place.contains(32, 320, -16));
    assert!(!place.contains(32, i32::MAX, -16));
    assert!(!place.contains(32, i32::MIN, -16));
}

#[test]
fn placement_of_a_section_admits_its_sixteen_heights() {
    let place = Placement::legacy(0, 0, 3);
    assert!(place.contains(0, 0, 0));
    assert!(place.contains(15, 15, 15));
    assert!(!place.contains(0, -1, 0));
    assert!(!place.contains(0, 16, 0));
    assert!(!place.contains(0, 48, 0));
}

#[test]
fn placement_far_from_the_origin() {
    assert!(Placement::current(134217727, 0).contains(i32::MAX, 0, 0));
    assert!(Placement::current(-134217728, 0).contains(i32::MIN, 0, 0));
    assert!(!Placement::current(134217728, 0).contains(i32::MAX, 0, 0));
    assert!(!Placement::current(-134217729, 0).contains(i32::MIN, 0, 0));
    assert!(!Placement::current(i64::MAX, 0).contains(0, 0, 0));
    assert!(!Placement::current(i64::MIN, 0).contains(0, 0, 0));
}

#[test]
fn entry_becomes_a_tile_entity() {
    let e = own(vec![
        ("Items", NbtValue::List(vec![own(vec![("Slot", NbtValue::Byte(0))])])),
        ("id", text("minecraft:chest")),
        ("keepPacked", NbtValue::Byte(0)),
        ("x", NbtValue::Int(-3)),
        ("y", NbtValue::Int(70)),
        ("z", NbtValue::Int(17)),
    ]);
    assert_eq!(
        decode_element(&e, &Placement::current(-1, 1)),
        Ok(TileEntity {
            x: -3,
            y: 70,
            z: 17,
            id: "minecraft:chest".to_string(),
            fields: vec![
                (
                    "Items".to_string(),
                    NbtValue::List(vec![own(vec![("Slot", NbtValue::Byte(0))])])
                ),
                ("keepPacked".to_string(), NbtValue::Byte(0)),
            ],
        })
    );
}

#[test]
fn entry_without_a_required_field_is_malformed() {
    let place = Placement::current(0, 0);
    let malformed = Err(DecodeError::MalformedTileEntity);
    let without = |name: &str| match entry(1, 2, 3, "sign") {
        NbtValue::Compound(entries) => {
            NbtValue::Compound(entries.into_iter().filter(|(n, _)| n != name).collect())
        }
        other => other,
    };
    assert_eq!(decode_element(&entry(1, 2, 3, "sign"), &place), Ok(tile(1, 2, 3, "sign")));
    assert_eq!(decode_element(&without("x"), &place), malformed);
    assert_eq!(decode_element(&without("y"), &place), malformed);
    assert_eq!(decode_element(&without("z"), &place), malformed);
    assert_eq!(decode_element(&without("id"), &place), malformed);
    assert_eq!(decode_element(&own(vec![]), &place), malformed);
}

#[test]
fn entry_with_a_field_of_the_wrong_kind_is_malformed() {
    let place = Placement::current(0, 0);
    let malformed = Err(DecodeError::MalformedTileEntity);
    let with = |name: &str, value: NbtValue| match entry(1, 2, 3, "sign") {
        NbtValue::Compound(entries) => NbtValue::Compound(
            entries
                .into_iter()
                .map(|(n, v)| if n == name { (n, value.duplicate()) } else { (n, v) })
                .collect(),
        ),
        other => other,
    };
    assert_eq!(decode_element(&with("x", NbtValue::Long(1)), &place), malformed);
    assert_eq!(decode_element(&with("y", NbtValue::Short(2)), &place), malformed);
    assert_eq!(decode_element(&with("z", NbtValue::Byte(3)), &place), malformed);
    assert_eq!(decode_element(&with("z", text("3")), &place), malformed);
    assert_eq!(decode_element(&with("id", NbtValue::Int(5)), &place), malformed);
    assert_eq!(decode_element(&NbtValue::Int(5), &place), malformed);
    assert_eq!(decode_element(&NbtValue::List(vec![]), &place), malformed);
}

#[test]
fn entry_outside_its_chunk_is_malformed() {
    let malformed = Err(DecodeError::MalformedTileEntity);
    assert_eq!(decode_element(&entry(16, 0, 0, "a"), &Placement::current(0, 0)), malformed);
    assert_eq!(decode_element(&entry(0, 0, -1, "a"), &Placement::current(0, 0)), malformed);
    assert_eq!(decode_element(&entry(0, 320, 0, "a"), &Placement::current(0, 0)), malformed);
    assert_eq!(decode_element(&entry(0, -65, 0, "a"), &Placement::current(0, 0)), malformed);
    assert_eq!(
        decode_element(&entry(0, -64, 0, "a"), &Placement::current(0, 0)),
        Ok(tile(0, -64, 0, "a"))
    );
    assert_eq!(
        decode_element(&entry(15, 319, 15, "a"), &Placement::current(0, 0)),
        Ok(tile(15, 319, 15, "a"))
    );
}

#[test]
fn list_yields_one_item_for_each_entry() {
    let items = vec![entry(0, 1, 0, "a"), NbtValue::Int(0), entry(1, 2, 1, "b")];
    let mut out = vec![Err(DecodeError::CorruptChunk)];
    decode_list(&items, &Placement::current(0, 0), &mut out);
    assert_eq!(
        out,
        vec![
            Err(DecodeError::CorruptChunk),
            Ok(tile(0, 1, 0, "a")),
            Err(DecodeError::MalformedTileEntity),
            Ok(tile(1, 2, 1, "b")),
        ]
    );
    decode_list(&vec![], &Placement::current(0, 0), &mut out);
    assert_eq!(out.len(), 4);
}

#[test]
fn chunk_with_an_empty_list_yields_nothing() {
    assert_eq!(tile_entities_of(&current_doc(vec![]), 0, 0), vec![]);
    assert_eq!(extract_document(Some(&current_doc(vec![])), 0, 0), Ok(vec![]));
    let document = compound(vec![
        ("DataVersion", Value::Int(3465)),
        ("block_entities", Value::List(vec![])),
    ]);
    assert_eq!(extract(&blob(&document, 0, 0)), Ok(vec![]));
}

#[test]
fn chunk_without_a_list_yields_nothing() {
    let doc = own(vec![("DataVersion", NbtValue::Int(3465))]);
    assert_eq!(extract_document(Some(&doc), 0, 0), Ok(vec![]));
    let doc = own(vec![("DataVersion", NbtValue::Int(3465)), ("block_entities", text("none"))]);
    assert_eq!(extract_document(Some(&doc), 0, 0), Ok(vec![]));
    assert_eq!(extract_document(Some(&own(vec![])), 0, 0), Ok(vec![]));
    assert_eq!(extract_document(Some(&legacy_doc(vec![])), 0, 0), Ok(vec![]));
    let doc = own(vec![("Level", own(vec![]))]);
    assert_eq!(extract_document(Some(&doc), 0, 0), Ok(vec![]));
    let doc = legacy_doc(vec![section(0, vec![]), own(vec![("Y", NbtValue::Byte(1))])]);
    assert_eq!(extract_document(Some(&doc), 0, 0), Ok(vec![]));
}

#[test]
fn entry_without_a_coordinate_is_passed_over_and_the_rest_follows() {
    let broken = own(vec![("id", text("b")), ("x", NbtValue::Int(1)), ("z", NbtValue::Int(1))]);
    let doc = current_doc(vec![entry(0, 0, 0, "a"), broken, entry(2, 2, 2, "c"), entry(3, 3, 3, "d")]);
    assert_eq!(
        extract_document(Some(&doc), 0, 0),
        Ok(vec![
            Ok(tile(0, 0, 0, "a")),
            Err(DecodeError::MalformedTileEntity),
            Ok(tile(2, 2, 2, "c")),
            Ok(tile(3, 3, 3, "d")),
        ])
    );
}

#[test]
fn current_chunk_keeps_the_order_of_its_list() {
    let doc = current_doc(vec![entry(37, 200, -5, "z"), entry(32, -10, -16, "a"), entry(40, 0, -1, "m")]);
    assert_eq!(
        current_tile_entities(&doc, 2, -1),
        vec![Ok(tile(37, 200, -5, "z")), Ok(tile(32, -10, -16, "a")), Ok(tile(40, 0, -1, "m"))]
    );
    assert_eq!(tile_entities_of(&doc, 2, -1), current_tile_entities(&doc, 2, -1));
}

#[test]
fn legacy_heights_count_from_the_floor_of_the_section() {
    let doc = legacy_doc(vec![
        section(0, vec![entry(1, 5, 1, "low")]),
        section(1, vec![entry(2, 0, 2, "floor"), entry(2, 15, 2, "top")]),
        section(15, vec![entry(3, 9, 3, "high")]),
    ]);
    assert_eq!(
        legacy_tile_entities(&doc, 0, 0),
        vec![
            Ok(tile(1, 5, 1, "low")),
            Ok(tile(2, 16, 2, "floor")),
            Ok(tile(2, 31, 2, "top")),
            Ok(tile(3, 249, 3, "high")),
        ]
    );
    assert_eq!(tile_entities_of(&doc, 0, 0), legacy_tile_entities(&doc, 0, 0));
}

#[test]
fn legacy_sections_are_read_from_the_lowest_up() {
    let doc = legacy_doc(vec![
        section(4, vec![entry(0, 0, 0, "four")]),
        section(0, vec![entry(0, 1, 0, "zero a")]),
        section(2, vec![entry(0, 2, 0, "two")]),
        section(0, vec![entry(0, 3, 0, "zero b")]),
    ]);
    assert_eq!(
        legacy_tile_entities(&doc, 0, 0),
        vec![
            Ok(tile(0, 1, 0, "zero a")),
            Ok(tile(0, 3, 0, "zero b")),
            Ok(tile(0, 34, 0, "two")),
            Ok(tile(0, 64, 0, "four")),
        ]
    );
}

#[test]
fn legacy_sections_outside_the_chunk_are_left_out() {
    let doc = legacy_doc(vec![
        section(-1, vec![entry(0, 0, 0, "below")]),
        section(16, vec![entry(0, 0, 0, "above")]),
        own(vec![("TileEntities", NbtValue::List(vec![entry(0, 0, 0, "nowhere")]))]),
        own(vec![
            ("Y", NbtValue::Int(0)),
            ("TileEntities", NbtValue::List(vec![entry(0, 0, 0, "int")])),
        ]),
        section(15, vec![entry(0, 0, 0, "inside")]),
    ]);
    assert_eq!(legacy_tile_entities(&doc, 0, 0), vec![Ok(tile(0, 240, 0, "inside"))]);
}

#[test]
fn legacy_height_outside_the_section_is_malformed() {
    let doc = legacy_doc(vec![section(
        2,
        vec![entry(0, 16, 0, "over"), entry(0, -1, 0, "under"), entry(0, 15, 0, "in")],
    )]);
    assert_eq!(
        legacy_tile_entities(&doc, 0, 0),
        vec![
            Err(DecodeError::MalformedTileEntity),
            Err(DecodeError::MalformedTileEntity),
            Ok(tile(0, 47, 0, "in")),
        ]
    );
}

#[test]
fn schema_decides_where_the_lists_are_looked_for() {
    let both = |version: i32| {
        own(vec![
            ("DataVersion", NbtValue::Int(version)),
            ("block_entities", NbtValue::List(vec![entry(0, 100, 0, "current")])),
            ("Level", own(vec![("Sections", NbtValue::List(vec![section(1, vec![entry(0, 1, 0, "legacy")])]))])),
        ])
    };
    assert_eq!(tile_entities_of(&both(2844), 0, 0), vec![Ok(tile(0, 100, 0, "current"))]);
    assert_eq!(tile_entities_of(&both(2843), 0, 0), vec![Ok(tile(0, 17, 0, "legacy"))]);
}

#[test]
fn chunk_without_a_document_is_corrupt() {
    assert_eq!(extract_document(None, 0, 0), Err(DecodeError::CorruptChunk));
    assert_eq!(extract_document(Some(&NbtValue::Int(1)), 0, 0), Err(DecodeError::CorruptChunk));
    assert_eq!(
        extract_document(Some(&NbtValue::List(vec![])), 0, 0),
        Err(DecodeError::CorruptChunk)
    );
    let mut garbage = blob(&compound(vec![]), 0, 0);
    garbage.bytes = b"no document".to_vec();
    assert_eq!(extract(&garbage), Err(DecodeError::CorruptChunk));
    garbage.bytes = vec![];
    assert_eq!(extract(&garbage), Err(DecodeError::CorruptChunk));
}

#[test]
fn chunk_is_extracted_from_its_bytes() {
    let chest = compound(vec![
        ("id", Value::String("minecraft:chest".to_string())),
        ("x", Value::Int(-20)),
        ("y", Value::Int(-12)),
        ("z", Value::Int(100)),
        ("Lock", Value::String("key".to_string())),
        ("Items", Value::List(vec![])),
    ]);
    let sign = compound(vec![
        ("id", Value::String("minecraft:sign".to_string())),
        ("x", Value::Int(-17)),
        ("y", Value::Int(64)),
        ("z", Value::Int(111)),
    ]);
    let stray = compound(vec![
        ("id", Value::String("minecraft:sign".to_string())),
        ("x", Value::Int(0)),
        ("y", Value::Int(64)),
        ("z", Value::Int(111)),
    ]);
    let document = compound(vec![
        ("DataVersion", Value::Int(3465)),
        ("xPos", Value::Int(-2)),
        ("block_entities", Value::List(vec![chest, sign, stray])),
    ]);
    assert_eq!(
        extract(&blob(&document, -2, 6)),
        Ok(vec![
            Ok(TileEntity {
                x: -20,
                y: -12,
                z: 100,
                id: "minecraft:chest".to_string(),
                fields: vec![
                    ("Items".to_string(), NbtValue::List(vec![])),
                    ("Lock".to_string(), text("key")),
                ],
            }),
            Ok(tile(-17, 64, 111, "minecraft:sign")),
            Err(DecodeError::MalformedTileEntity),
        ])
    );
}

#[test]
fn legacy_chunk_is_extracted_from_its_bytes() {
    let at = |y: i32, id: &str| {
        compound(vec![
            ("id", Value::String(id.to_string())),
            ("x", Value::Int(5)),
            ("y", Value::Int(y)),
            ("z", Value::Int(6)),
        ])
    };
    let part = |index: i8, entries: Vec<Value>| {
        compound(vec![("Y", Value::Byte(index)), ("TileEntities", Value::List(entries))])
    };
    let document = compound(vec![(
        "Level",
        compound(vec![(
            "Sections",
            Value::List(vec![
                part(15, vec![at(15, "top")]),
                part(0, vec![at(0, "bottom")]),
                part(1, vec![at(7, "middle")]),
            ]),
        )]),
    )]);
    assert_eq!(
        extract(&blob(&document, 0, 0)),
        Ok(vec![Ok(tile(5, 0, 6, "bottom")), Ok(tile(5, 23, 6, "middle")), Ok(tile(5, 255, 6, "top"))])
    );
}
