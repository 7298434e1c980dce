use std::collections::HashMap;
use std::io::Cursor;

use fastanvil::Region;
use fastnbt::Value;
use fasttiles::chunk::detect_schema;
use fasttiles::chunk::ChunkBlob;
use fasttiles::nbt::decode_document;
use fasttiles::nbt::NbtValue;
use fasttiles::nbt::MAX_NESTING;
use fasttiles::nesting::nests_within;
use fasttiles::scan::scan_files;
use fasttiles::tile_entity::extract;
use fasttiles::tile_entity::DecodeError;
use fasttiles::tile_entity::TileEntity;
use fasttiles::tile_entity_iterator::ScanError;

/// A root compound with one entry: lists nested `k` deep, the innermost
/// empty. With the root that makes `k + 1` levels.
fn nested_lists(k: usize) -> Vec<u8> {
    let mut bytes = vec![10, 0, 0, 9, 0, 1, b'd'];
    for _ in 1..k {
        bytes.extend_from_slice(&[9, 0, 0, 0, 1]);
    }
    bytes.extend_from_slice(&[0, 0, 0, 0, 0]);
    bytes.push(0);
    bytes
}

/// A root compound with compounds nested `k` deep in it, each the one entry
/// of the one around it. With the root that makes `k + 1` levels.
fn nested_compounds(k: usize) -> Vec<u8> {
    let mut bytes = vec![10, 0, 0];
    for _ in 0..k {
        bytes.extend_from_slice(&[10, 0, 1, b'c']);
    }
    bytes.extend(std::iter::repeat(0).take(k + 1));
    bytes
}

/// A root compound with a list of one compound with a list of one compound
/// and so on, `k` lists in all. With the root that makes `2 k + 1` levels.
fn nested_lists_of_compounds(k: usize) -> Vec<u8> {
    let mut bytes = vec![10, 0, 0];
    for _ in 0..k {
        bytes.extend_from_slice(&[9, 0, 1, b'l', 10, 0, 0, 0, 1]);
    }
    bytes.extend(std::iter::repeat(0).take(k + 1));
    bytes
}

fn compound(entries: Vec<(&str, Value)>) -> Value {
    let mut map = HashMap::new();
    for (name, value) in entries {
        map.insert(name.to_string(), value);
    }
    Value::Compound(map)
}

fn depth(value: &Value) -> usize {
    match value {
        Value::List(items) => 1 + items.iter().map(depth).max().unwrap_or(0),
        Value::Compound(fields) => 1 + fields.values().map(depth).max().unwrap_or(0),
        _ => 0,
    }
}

fn own_depth(value: &NbtValue) -> usize {
    match value {
        NbtValue::List(items) => 1 + items.iter().map(own_depth).max().unwrap_or(0),
        NbtValue::Compound(entries) => {
            1 + entries.iter().map(|(_, v)| own_depth(v)).max().unwrap_or(0)
        }
        _ => 0,
    }
}

struct Dice(u64);

impl Dice {
    fn roll(&mut self, sides: usize) -> usize {
        self.0 = self.0.wrapping_mul(6364136223846793005).wrapping_add(1442695040888963407);
        ((self.0 >> 33) as usize) % sides
    }
}

fn grown(dice: &mut Dice, room: usize) -> Value {
    let kinds = if room == 0 { 10 } else { 12 };
    match dice.roll(kinds) {
        0 => Value::Byte(dice.roll(256) as i8),
        1 => Value::Short(dice.roll(65536) as i16),
        2 => Value::Int(dice.roll(1 << 30) as i32 - (1 << 29)),
        3 => Value::Long(-(dice.roll(1 << 40) as i64)),
        4 => Value::Float(dice.roll(1000) as f32 / 8.0),
        5 => Value::Double(dice.roll(1000) as f64 / 16.0),
        6 => Value::String("x".repeat(dice.roll(300))),
        7 => Value::ByteArray(fastnbt::ByteArray::new(vec![9; dice.roll(5)])),
        8 => Value::IntArray(fastnbt::IntArray::new(vec![10; dice.roll(5)])),
        9 => Value::LongArray(fastnbt::LongArray::new(vec![11; dice.roll(5)])),
        10 => {
            let len = dice.roll(4);
            let kind = dice.roll(3);
            Value::List(
                (0..len)
                    .map(|_| match kind {
                        0 => Value::Int(dice.roll(100) as i32),
                        1 => Value::List(vec![grown(dice, room - 1); dice.roll(2)]),
                        _ => tree(dice, room - 1),
                    })
                    .collect(),
            )
        }
        _ => tree(dice, room - 1),
    }
}

fn tree(dice: &mut Dice, room: usize) -> Value {
    let len = dice.roll(4);
    let mut map = HashMap::new();
    for i in 0..len {
        map.insert(format!("entry{}", i), grown(dice, room));
    }
    Value::Compound(map)
}

#[test]
fn limit_of_nesting() {
    assert_eq!(MAX_NESTING, 512);
}

#[test]
fn root_counts_as_one_level() {
    let bytes = vec![10, 0, 0, 0];
    assert!(nests_within(&bytes, 1));
    assert!(nests_within(&bytes, 512));
    assert!(!nests_within(&bytes, 0));
    let named = vec![10, 0, 2, b'h', b'i', 1, 0, 1, b'b', 7, 0];
    assert!(nests_within(&named, 1));
    assert!(!nests_within(&named, 0));
}

#[test]
fn lists_count_one_level_each() {
    for k in [1usize, 2, 3, 10, 100] {
        let bytes = nested_lists(k);
        assert!(nests_within(&bytes, k + 1));
        assert!(nests_within(&bytes, k + 2));
        assert!(!nests_within(&bytes, k));
        assert!(!nests_within(&bytes, 1));
    }
}

#[test]
fn compounds_count_one_level_each() {
    for k in [1usize, 2, 3, 10, 100] {
        let bytes = nested_compounds(k);
        assert!(nests_within(&bytes, k + 1));
        assert!(!nests_within(&bytes, k));
    }
}

#[test]
fn compounds_in_lists_count_too() {
    for k in [1usize, 2, 5, 50] {
        let bytes = nested_lists_of_compounds(k);
        assert!(nests_within(&bytes, 2 * k + 1));
        assert!(!nests_within(&bytes, 2 * k));
    }
    let empty_ones = vec![10, 0, 0, 9, 0, 1, b'l', 10, 0, 0, 0, 2, 0, 0, 0];
    assert!(nests_within(&empty_ones, 3));
    assert!(!nests_within(&empty_ones, 2));
    assert_eq!(
        decode_document(&empty_ones),
        Some(NbtValue::Compound(vec![(
            "l".to_string(),
            NbtValue::List(vec![NbtValue::Compound(vec![]), NbtValue::Compound(vec![])])
        )]))
    );
}

#[test]
fn values_beside_the_deep_one_do_not_count() {
    let mut bytes = vec![10, 0, 0];
    bytes.extend_from_slice(&[8, 0, 1, b's', 0, 3, b'a', b'b', b'c']);
    bytes.extend_from_slice(&[7, 0, 1, b'b', 0, 0, 0, 2, 1, 2]);
    bytes.extend_from_slice(&[11, 0, 1, b'i', 0, 0, 0, 1, 0, 0, 0, 9]);
    bytes.extend_from_slice(&[12, 0, 1, b'l', 0, 0, 0, 1, 0, 0, 0, 0, 0, 0, 0, 9]);
    bytes.extend_from_slice(&[9, 0, 1, b'n', 3, 0, 0, 0, 2, 0, 0, 0, 1, 0, 0, 0, 2]);
    bytes.extend_from_slice(&[9, 0, 1, b'e', 9, 0, 0, 0, 2, 0, 0, 0, 0, 0, 1, 0, 0, 0, 1, 5]);
    bytes.extend_from_slice(&[10, 0, 1, b'c', 6, 0, 1, b'd', 0, 0, 0, 0, 0, 0, 0, 0, 0]);
    bytes.push(0);
    assert!(decode_document(&bytes).is_some());
    assert!(nests_within(&bytes, 3));
    assert!(!nests_within(&bytes, 2));
}

#[test]
fn scan_agrees_with_the_depth_of_decoded_documents() {
    let mut dice = Dice(7);
    let mut deepest = 0;
    for _ in 0..400 {
        let value = tree(&mut dice, 6);
        let levels = depth(&value);
        deepest = deepest.max(levels);
        let bytes = fastnbt::to_bytes(&value).unwrap();
        assert!(nests_within(&bytes, levels));
        assert!(!nests_within(&bytes, levels - 1));
        assert_eq!(own_depth(&decode_document(&bytes).unwrap()), levels);
    }
    assert!(deepest >= 5);
}

#[test]
fn bytes_that_cannot_be_read_on_end_the_scan() {
    assert!(nests_within(&[], 0));
    assert!(nests_within(&[10], 0));
    assert!(nests_within(&[10, 0], 0));
    assert!(nests_within(&[10, 0, 5, b'a'], 0));
    assert!(nests_within(&[9, 0, 0, 9, 0, 0, 0, 1], 0));
    assert!(nests_within(&[0x1f, 0x8b, 8, 0], 0));
    assert!(nests_within(b"no document at all", 0));
    let deep = nested_lists(20);
    for cut in 0..7 {
        assert!(nests_within(&deep[..cut], 1));
    }
    assert!(!nests_within(&deep[..12], 1));
    assert!(nests_within(&deep[..12], 2));
    assert!(nests_within(&deep[..16], 2));
    assert!(!nests_within(&deep[..17], 2));
    let bad_tag = vec![10, 0, 0, 13, 0, 1, b'x', 9, 9, 9, 9, 9, 9];
    assert!(nests_within(&bad_tag, 1));
    let bad_element = vec![10, 0, 0, 9, 0, 1, b'l', 13, 0, 0, 0, 1];
    assert!(nests_within(&bad_element, 1));
    let negative = vec![10, 0, 0, 9, 0, 1, b'l', 9, 0xff, 0xff, 0xff, 0xff];
    assert!(nests_within(&negative, 1));
    let ends = vec![10, 0, 0, 9, 0, 1, b'l', 0, 0, 0, 0, 1];
    assert!(nests_within(&ends, 1));
    let negative_array = vec![10, 0, 0, 7, 0, 1, b'a', 0x80, 0, 0, 0, 9, 0, 1, b'l', 9];
    assert!(nests_within(&negative_array, 1));
    let long_array = vec![10, 0, 0, 12, 0, 1, b'a', 0x7f, 0xff, 0xff, 0xff, 0];
    assert!(nests_within(&long_array, 1));
}

#[test]
fn what_stands_behind_the_root_is_not_read() {
    let mut bytes = vec![10, 0, 0, 0];
    bytes.extend_from_slice(&nested_lists(50));
    assert!(nests_within(&bytes, 1));
    assert_eq!(decode_document(&bytes), Some(NbtValue::Compound(vec![])));
}

#[test]
fn list_may_claim_more_than_the_bytes_hold() {
    let mut bytes = vec![10, 0, 0, 9, 0, 1, b'l', 9, 0x7f, 0xff, 0xff, 0xff];
    for _ in 0..30 {
        bytes.extend_from_slice(&[9, 0x7f, 0xff, 0xff, 0xff]);
    }
    assert!(!nests_within(&bytes, 31));
    assert!(nests_within(&bytes, 32));
    assert_eq!(decode_document(&bytes), None);
}

#[test]
fn document_at_the_limit_is_decoded() {
    for bytes in [
        nested_lists(MAX_NESTING - 1),
        nested_compounds(MAX_NESTING - 1),
        nested_lists_of_compounds((MAX_NESTING - 1) / 2),
    ] {
        assert!(nests_within(&bytes, MAX_NESTING));
        let document = decode_document(&bytes).unwrap();
        let levels = own_depth(&document);
        assert!(levels == MAX_NESTING || levels == MAX_NESTING - 1);
        assert_eq!(own_depth(&document.duplicate()), levels);
        assert!(detect_schema(&bytes).is_some());
    }
}

#[test]
fn document_beyond_the_limit_is_refused() {
    for bytes in [
        nested_lists(MAX_NESTING),
        nested_compounds(MAX_NESTING),
        nested_lists_of_compounds(MAX_NESTING / 2),
    ] {
        assert!(!nests_within(&bytes, MAX_NESTING));
        assert!(nests_within(&bytes, MAX_NESTING + 1));
        assert_eq!(decode_document(&bytes), None);
        assert_eq!(detect_schema(&bytes), None);
    }
}

#[test]
fn document_far_beyond_the_limit_is_refused() {
    for bytes in [
        nested_lists(200_000),
        nested_compounds(300_000),
        nested_lists_of_compounds(100_000),
    ] {
        assert!(bytes.len() > 900_000);
        assert!(!nests_within(&bytes, MAX_NESTING));
        assert_eq!(decode_document(&bytes), None);
        assert_eq!(detect_schema(&bytes), None);
        let blob = ChunkBlob {
            bytes,
            local_x: 0,
            local_z: 0,
            chunk_x: 0,
            chunk_z: 0,
            schema: None,
        };
        assert_eq!(extract(&blob), Err(DecodeError::CorruptChunk));
    }
}

#[test]
fn deep_chunk_is_one_corrupt_chunk_and_the_scan_goes_on() {
    let mut fine = vec![10, 0, 0];
    fine.extend_from_slice(&[3, 0, 11]);
    fine.extend_from_slice(b"DataVersion");
    fine.extend_from_slice(&3465i32.to_be_bytes());
    fine.extend_from_slice(&[9, 0, 14]);
    fine.extend_from_slice(b"block_entities");
    fine.extend_from_slice(&[10, 0, 0, 0, 1]);
    fine.extend_from_slice(&[8, 0, 2, b'i', b'd', 0, 1, b't']);
    fine.extend_from_slice(&[3, 0, 1, b'x', 0, 0, 0, 33]);
    fine.extend_from_slice(&[3, 0, 1, b'y', 0, 0, 0, 7]);
    fine.extend_from_slice(&[3, 0, 1, b'z', 0, 0, 0, 1]);
    fine.extend_from_slice(&[0, 0]);
    let mut region = Region::create(Cursor::new(Vec::new())).unwrap();
    region.write_chunk(0, 0, &nested_lists(150_000)).unwrap();
    region.write_chunk(1, 0, &nested_compounds(MAX_NESTING)).unwrap();
    region.write_chunk(2, 0, &fine).unwrap();
    let file = region.into_inner().unwrap().into_inner();
    assert!(file.len() < 64 * 1024);
    let tile = TileEntity { x: 33, y: 7, z: 1, id: "t".to_string(), fields: vec![] };
    for accept_old in [true, false] {
        assert_eq!(
            scan_files(
                vec!["r.0.0.mca".to_string()],
                &vec![("r.0.0.mca".to_string(), file.clone())],
                accept_old
            ),
            vec![
                Err(ScanError::Decode(DecodeError::CorruptChunk)),
                Err(ScanError::Decode(DecodeError::CorruptChunk)),
                Ok(tile.clone()),
            ]
        );
    }
}
