use std::collections::HashMap;
use std::io::Cursor;

use fastanvil::Region;
use fastnbt::Value;
use fasttiles::chunk::ChunkBlob;
use fasttiles::nbt::decode_document;
use fasttiles::nbt::NbtValue;
use fasttiles::region::read_slot;
use fasttiles::scan::scan_files;
use fasttiles::tile_entity::extract;

/// A small generator of numbers that looks random and is the same each run.
struct Dice(u64);

impl Dice {
    fn roll(&mut self, sides: usize) -> usize {
        self.0 = self.0.wrapping_mul(6364136223846793005).wrapping_add(1442695040888963407);
        ((self.0 >> 33) as usize) % sides
    }
}

/// Writes documents byte by byte, so that they are the same each run.
struct Writer(Vec<u8>);

impl Writer {
    fn name(&mut self, tag: u8, name: &str) {
        self.0.push(tag);
        self.0.extend_from_slice(&(name.len() as u16).to_be_bytes());
        self.0.extend_from_slice(name.as_bytes());
    }

    fn small(&mut self, name: &str, value: i8) {
        self.name(1, name);
        self.0.push(value as u8);
    }

    fn number(&mut self, name: &str, value: i32) {
        self.name(3, name);
        self.0.extend_from_slice(&value.to_be_bytes());
    }

    fn text(&mut self, name: &str, value: &str) {
        self.name(8, name);
        self.0.extend_from_slice(&(value.len() as u16).to_be_bytes());
        self.0.extend_from_slice(value.as_bytes());
    }

    fn numbers(&mut self, name: &str, values: &[i32]) {
        self.name(11, name);
        self.0.extend_from_slice(&(values.len() as i32).to_be_bytes());
        for value in values {
            self.0.extend_from_slice(&value.to_be_bytes());
        }
    }

    fn list_of_compounds(&mut self, name: &str, len: i32) {
        self.name(9, name);
        self.0.push(10);
        self.0.extend_from_slice(&len.to_be_bytes());
    }

    fn end(&mut self) {
        self.0.push(0);
    }
}

fn document() -> Vec<u8> {
    let mut w = Writer(Vec::new());
    w.name(10, "");
    w.number("DataVersion", 3465);
    w.list_of_compounds("block_entities", 16);
    for i in 0..16 {
        w.text("id", &format!("minecraft:thing{}", i));
        w.number("x", i);
        w.number("y", i * 3);
        w.number("z", 15 - i);
        w.list_of_compounds("Items", 1);
        w.small("Count", i as i8);
        w.end();
        w.numbers("data", &[i, i + 1]);
        w.end();
    }
    w.end();
    w.0
}

fn compound(entries: Vec<(&str, Value)>) -> Value {
    let mut map = HashMap::new();
    for (name, value) in entries {
        map.insert(name.to_string(), value);
    }
    Value::Compound(map)
}

fn blob(bytes: Vec<u8>) -> ChunkBlob {
    ChunkBlob { bytes, local_x: 0, local_z: 0, chunk_x: 0, chunk_z: 0, schema: None }
}

#[test]
fn mangled_documents_are_decoded_or_refused() {
    let good = document();
    let items = extract(&blob(good.clone())).unwrap();
    assert_eq!(items.len(), 16);
    assert!(items.iter().all(|item| item.is_ok()));
    let mut dice = Dice(1);
    let mut refused = 0;
    for _ in 0..3000 {
        let mut bytes = good.clone();
        for _ in 0..1 + dice.roll(4) {
            let at = dice.roll(bytes.len());
            bytes[at] = dice.roll(256) as u8;
        }
        if dice.roll(4) == 0 {
            bytes.truncate(dice.roll(bytes.len()));
        }
        match decode_document(&bytes) {
            Some(_) => {
                let _ = extract(&blob(bytes));
            }
            None => refused += 1,
        }
    }
    assert!(refused > 0);
    assert!(refused < 3000);
}

#[test]
fn random_bytes_are_decoded_or_refused() {
    let mut dice = Dice(2);
    for _ in 0..3000 {
        let len = dice.roll(64);
        let mut bytes: Vec<u8> = (0..len).map(|_| dice.roll(13) as u8).collect();
        if !bytes.is_empty() {
            bytes[0] = 10;
        }
        let _ = decode_document(&bytes);
    }
}

#[test]
fn nesting_of_some_hundred_levels_is_decoded() {
    let mut value = Value::Int(7);
    for _ in 0..300 {
        value = Value::List(vec![value]);
    }
    let bytes = fastnbt::to_bytes(&compound(vec![("deep", value)])).unwrap();
    let mut at = decode_document(&bytes).unwrap();
    let mut depth = 0;
    at = match at {
        NbtValue::Compound(mut entries) => entries.remove(0).1,
        other => other,
    };
    while let NbtValue::List(mut items) = at {
        at = items.remove(0);
        depth += 1;
    }
    assert_eq!(depth, 300);
    assert_eq!(at, NbtValue::Int(7));
}

#[test]
fn mangled_regions_are_scanned_to_the_end() {
    let mut region = Region::create(Cursor::new(Vec::new())).unwrap();
    for slot in [0usize, 1, 33, 700, 1023] {
        region.write_chunk(slot % 32, slot / 32, &document()).unwrap();
    }
    let good = region.into_inner().unwrap().into_inner();
    let names = vec!["r.0.0.mca".to_string()];
    let whole = scan_files(names.clone(), &vec![("r.0.0.mca".to_string(), good.clone())], true);
    assert_eq!(whole.len(), 5 * 16);
    let mut dice = Dice(3);
    for _ in 0..300 {
        let mut bytes = good.clone();
        for _ in 0..1 + dice.roll(6) {
            let at = if dice.roll(2) == 0 { dice.roll(4096) } else { dice.roll(bytes.len()) };
            bytes[at] = dice.roll(256) as u8;
        }
        if dice.roll(3) == 0 {
            bytes.truncate(dice.roll(bytes.len()));
        }
        for slot in [0usize, 1, 2, 33, 700, 1023] {
            let _ = read_slot(&bytes, slot);
        }
        let got = scan_files(names.clone(), &vec![("r.0.0.mca".to_string(), bytes)], true);
        assert!(got.len() <= 1024 * 16 + 1024);
    }
}
