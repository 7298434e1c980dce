use std::io::Cursor;
use std::io::Write;

use fastanvil::CompressionScheme;
use fastanvil::Region;
use fasttiles::region::read_slot;
use fasttiles::region::slot_status;
use fasttiles::region::SlotStatus;
use fasttiles::region::RegionError;
use fasttiles::region::HEADER_BYTES;
use fasttiles::region::REGION_SIDE;
use fasttiles::region::SECTOR_BYTES;
use fasttiles::region::SLOT_COUNT;

fn empty_region() -> Region<Cursor<Vec<u8>>> {
    Region::create(Cursor::new(Vec::new())).unwrap()
}

fn bytes_of(region: Region<Cursor<Vec<u8>>>) -> Vec<u8> {
    region.into_inner().unwrap().into_inner()
}

/// A region file with one chunk in slot 0, written byte by byte.
fn hand_made(offset: u32, sectors: u8, declared: u32, tag: u8, payload: &[u8], total: usize) -> Vec<u8> {
    let mut file = vec![0u8; total];
    file[0] = (offset >> 16) as u8;
    file[1] = (offset >> 8) as u8;
    file[2] = offset as u8;
    file[3] = sectors;
    let start = offset as usize * 4096;
    if start + 5 <= total {
        file[start..start + 4].copy_from_slice(&declared.to_be_bytes());
        file[start + 4] = tag;
        let end = (start + 5 + payload.len()).min(total);
        file[start + 5..end].copy_from_slice(&payload[..end - start - 5]);
    }
    file
}

#[test]
fn layout_constants() {
    assert_eq!(SECTOR_BYTES, 4096);
    assert_eq!(HEADER_BYTES, 8192);
    assert_eq!(REGION_SIDE, 32);
    assert_eq!(SLOT_COUNT, 1024);
}

#[test]
fn zlib_chunk_is_inflated() {
    let document: Vec<u8> = (0..5000u32).map(|i| (i % 251) as u8).collect();
    let mut region = empty_region();
    region.write_chunk(3, 5, &document).unwrap();
    let file = bytes_of(region);
    assert_ne!(&file[2 * 4096 + 5..2 * 4096 + 5 + 100], &document[..100]);
    assert_eq!(read_slot(&file, 5 * 32 + 3), Some(Ok(document)));
}

#[test]
fn gzip_chunk_is_inflated() {
    let document = b"a gzip payload, a gzip payload, a gzip payload".to_vec();
    let mut encoder = flate2::write::GzEncoder::new(Vec::new(), flate2::Compression::default());
    encoder.write_all(&document).unwrap();
    let packed = encoder.finish().unwrap();
    let mut region = empty_region();
    region.write_compressed_chunk(0, 0, CompressionScheme::Gzip, &packed).unwrap();
    assert_eq!(read_slot(&bytes_of(region), 0), Some(Ok(document)));
}

#[test]
fn uncompressed_chunk_is_handed_out() {
    let document = b"plain bytes".to_vec();
    let mut region = empty_region();
    region.write_compressed_chunk(31, 31, CompressionScheme::Uncompressed, &document).unwrap();
    assert_eq!(read_slot(&bytes_of(region), 1023), Some(Ok(document)));
}

#[test]
fn slots_are_row_major() {
    let mut region = empty_region();
    region.write_chunk(1, 0, b"x one").unwrap();
    region.write_chunk(0, 1, b"z one").unwrap();
    let file = bytes_of(region);
    assert_eq!(read_slot(&file, 1), Some(Ok(b"x one".to_vec())));
    assert_eq!(read_slot(&file, 32), Some(Ok(b"z one".to_vec())));
}

#[test]
fn empty_slot_yields_nothing() {
    let mut region = empty_region();
    region.write_chunk(0, 0, b"only one").unwrap();
    let file = bytes_of(region);
    assert_eq!(read_slot(&file, 1), None);
    assert_eq!(read_slot(&file, 1023), None);
    assert_eq!(read_slot(&bytes_of(empty_region()), 0), None);
}

#[test]
fn short_file_has_a_malformed_header() {
    assert_eq!(read_slot(&[], 0), Some(Err(RegionError::MalformedHeader)));
    assert_eq!(read_slot(&vec![0u8; 8191], 7), Some(Err(RegionError::MalformedHeader)));
    assert_eq!(read_slot(&vec![0u8; 8192], 7), None);
}

#[test]
fn location_inside_the_header_is_malformed() {
    let file = hand_made(1, 1, 3, 3, b"ab", 3 * 4096);
    assert_eq!(read_slot(&file, 0), Some(Err(RegionError::MalformedHeader)));
    let file = hand_made(0, 1, 3, 3, b"ab", 3 * 4096);
    assert_eq!(read_slot(&file, 0), Some(Err(RegionError::MalformedHeader)));
}

#[test]
fn location_without_sectors_is_malformed() {
    let file = hand_made(2, 0, 3, 3, b"ab", 3 * 4096);
    assert_eq!(read_slot(&file, 0), Some(Err(RegionError::MalformedHeader)));
}

#[test]
fn hand_made_chunk_is_read() {
    let file = hand_made(2, 1, 3, 3, b"ab", 3 * 4096);
    assert_eq!(read_slot(&file, 0), Some(Ok(b"ab".to_vec())));
}

#[test]
fn file_that_ends_before_the_chunk_is_a_length_mismatch() {
    let file = hand_made(2, 1, 3, 3, b"ab", 8192);
    assert_eq!(read_slot(&file, 0), Some(Err(RegionError::LengthMismatch)));
    let file = hand_made(2, 1, 3, 3, b"ab", 8192 + 4);
    assert_eq!(read_slot(&file, 0), Some(Err(RegionError::LengthMismatch)));
}

#[test]
fn file_truncated_in_the_payload_is_a_length_mismatch() {
    let document: Vec<u8> = (0..3000u32).map(|i| (i * 7 % 256) as u8).collect();
    let mut region = empty_region();
    region.write_compressed_chunk(0, 0, CompressionScheme::Uncompressed, &document).unwrap();
    let mut file = bytes_of(region);
    assert_eq!(read_slot(&file, 0), Some(Ok(document)));
    file.truncate(8192 + 5 + 2999);
    assert_eq!(read_slot(&file, 0), Some(Err(RegionError::LengthMismatch)));
    file.truncate(8192 + 100);
    assert_eq!(read_slot(&file, 0), Some(Err(RegionError::LengthMismatch)));
}

#[test]
fn payload_may_end_with_the_file() {
    let file = hand_made(2, 1, 3, 3, b"ab", 8192 + 7);
    assert_eq!(read_slot(&file, 0), Some(Ok(b"ab".to_vec())));
    let file = hand_made(2, 1, 3, 3, b"ab", 8192 + 6);
    assert_eq!(read_slot(&file, 0), Some(Err(RegionError::LengthMismatch)));
}

#[test]
fn declared_length_of_zero_is_a_length_mismatch() {
    let file = hand_made(2, 1, 0, 3, b"", 3 * 4096);
    assert_eq!(read_slot(&file, 0), Some(Err(RegionError::LengthMismatch)));
}

#[test]
fn declared_length_beyond_the_sectors_is_a_length_mismatch() {
    let payload = vec![7u8; 4092];
    let file = hand_made(2, 1, 4093, 3, &payload, 4 * 4096);
    assert_eq!(read_slot(&file, 0), Some(Err(RegionError::LengthMismatch)));
    let file = hand_made(2, 2, 4093, 3, &payload, 4 * 4096);
    assert_eq!(read_slot(&file, 0), Some(Ok(payload)));
    let payload = vec![7u8; 4091];
    let file = hand_made(2, 1, 4092, 3, &payload, 3 * 4096);
    assert_eq!(read_slot(&file, 0), Some(Ok(payload)));
}

#[test]
fn unknown_scheme_is_a_corrupt_payload() {
    for tag in [0u8, 4, 5, 127, 130, 255] {
        let file = hand_made(2, 1, 3, tag, b"ab", 3 * 4096);
        assert_eq!(read_slot(&file, 0), Some(Err(RegionError::CorruptPayload)));
    }
}

#[test]
fn payload_that_does_not_inflate_is_corrupt() {
    let garbage = [0xffu8; 64];
    let file = hand_made(2, 1, 65, 2, &garbage, 3 * 4096);
    assert_eq!(read_slot(&file, 0), Some(Err(RegionError::CorruptPayload)));
    let file = hand_made(2, 1, 65, 1, &garbage, 3 * 4096);
    assert_eq!(read_slot(&file, 0), Some(Err(RegionError::CorruptPayload)));
}

#[test]
fn fault_in_one_slot_leaves_the_others() {
    let mut region = empty_region();
    region.write_chunk(0, 0, b"first").unwrap();
    region.write_chunk(1, 0, b"second").unwrap();
    let mut file = bytes_of(region);
    file[2 * 4096 + 4] = 9;
    assert_eq!(read_slot(&file, 0), Some(Err(RegionError::CorruptPayload)));
    assert_eq!(read_slot(&file, 1), Some(Ok(b"second".to_vec())));
}

#[test]
fn status_of_a_slot() {
    let faulty = |e| SlotStatus::Faulty(e);
    assert_eq!(slot_status(&[], 0), faulty(RegionError::MalformedHeader));
    assert_eq!(slot_status(&vec![0u8; 8192], 1023), SlotStatus::Empty);
    assert_eq!(slot_status(&hand_made(2, 1, 3, 3, b"ab", 3 * 4096), 0), SlotStatus::Sound);
    assert_eq!(slot_status(&hand_made(2, 1, 3, 3, b"ab", 3 * 4096), 1), SlotStatus::Empty);
    assert_eq!(slot_status(&hand_made(2, 1, 3, 1, b"ab", 3 * 4096), 0), SlotStatus::Sound);
    assert_eq!(slot_status(&hand_made(2, 1, 3, 2, b"ab", 3 * 4096), 0), SlotStatus::Sound);
    assert_eq!(
        slot_status(&hand_made(1, 1, 3, 3, b"ab", 3 * 4096), 0),
        faulty(RegionError::MalformedHeader)
    );
    assert_eq!(
        slot_status(&hand_made(2, 0, 3, 3, b"ab", 3 * 4096), 0),
        faulty(RegionError::MalformedHeader)
    );
    assert_eq!(
        slot_status(&hand_made(3, 1, 3, 3, b"ab", 3 * 4096), 0),
        faulty(RegionError::LengthMismatch)
    );
    assert_eq!(
        slot_status(&hand_made(2, 1, 0, 3, b"", 3 * 4096), 0),
        faulty(RegionError::LengthMismatch)
    );
    assert_eq!(
        slot_status(&hand_made(2, 1, 4093, 3, b"ab", 4 * 4096), 0),
        faulty(RegionError::LengthMismatch)
    );
    assert_eq!(
        slot_status(&hand_made(2, 1, 3, 4, b"ab", 3 * 4096), 0),
        faulty(RegionError::CorruptPayload)
    );
    assert_eq!(
        slot_status(&hand_made(0xff_ffff, 255, 3, 3, b"ab", 3 * 4096), 0),
        faulty(RegionError::LengthMismatch)
    );
}

#[test]
fn numbers_in_the_file_are_big_endian() {
    let mut file = hand_made(0x000102, 1, 3, 3, b"ab", 0x103 * 4096);
    assert_eq!(slot_status(&file, 0), SlotStatus::Sound);
    assert_eq!(read_slot(&file, 0), Some(Ok(b"ab".to_vec())));
    file[0x102 * 4096 + 2] = 1;
    assert_eq!(slot_status(&file, 0), SlotStatus::Sound);
    file[0x102 * 4096 + 2] = 16;
    assert_eq!(slot_status(&file, 0), SlotStatus::Faulty(RegionError::LengthMismatch));
}
