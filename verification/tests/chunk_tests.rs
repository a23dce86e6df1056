use crypt_dew_world::chunks::{
    decode_varint32, dimension_name, infer_encrypted_chunks, is_chunk_key, parse_unencrypted_ldb,
    ChunkPos, ChunkScanResult, ChunkSet,
};

fn pos(x: i32, z: i32, dim: i32) -> ChunkPos {
    ChunkPos { x, z, dim }
}

#[test]
fn varint_single_and_multi_byte() {
    assert_eq!(decode_varint32(&[0x05]), Some((5, 1)));
    assert_eq!(decode_varint32(&[0x96, 0x01, 0x33]), Some((150, 2)));
    assert_eq!(decode_varint32(&[0xFF, 0xFF, 0xFF, 0xFF, 0x0F]), Some((0xFFFF_FFFF, 5)));
}

#[test]
fn varint_fifth_byte_is_truncated_to_32_bits() {
    assert_eq!(decode_varint32(&[0xFF, 0xFF, 0xFF, 0xFF, 0x7F]), Some((0xFFFF_FFFF, 5)));
    assert_eq!(decode_varint32(&[0x80, 0x80, 0x80, 0x80, 0x10]), Some((0, 5)));
}

#[test]
fn varint_without_terminator() {
    assert_eq!(decode_varint32(&[]), None);
    assert_eq!(decode_varint32(&[0x80]), None);
    assert_eq!(decode_varint32(&[0x80, 0x80, 0x80, 0x80, 0x80, 0x01]), None);
}

fn key9(x: i32, z: i32, tag: u8) -> Vec<u8> {
    let mut k = x.to_le_bytes().to_vec();
    k.extend_from_slice(&z.to_le_bytes());
    k.push(tag);
    k
}

fn key13(x: i32, z: i32, dim: i32, tag: u8) -> Vec<u8> {
    let mut k = x.to_le_bytes().to_vec();
    k.extend_from_slice(&z.to_le_bytes());
    k.extend_from_slice(&dim.to_le_bytes());
    k.push(tag);
    k
}

#[test]
fn chunk_keys_in_the_overworld() {
    assert_eq!(is_chunk_key(&key9(1, -1, 0x2F)), Some(pos(1, -1, 0)));
    assert_eq!(is_chunk_key(&key9(-300, 7, 0x2D)), Some(pos(-300, 7, 0)));
    assert_eq!(is_chunk_key(&key9(0, 0, 0x41)), Some(pos(0, 0, 0)));
    let mut longer = key9(4, 5, 0x76);
    longer.push(0x00);
    assert_eq!(is_chunk_key(&longer), Some(pos(4, 5, 0)));
}

#[test]
fn chunk_keys_with_dimension() {
    assert_eq!(is_chunk_key(&key13(2, 3, 1, 0x76)), Some(pos(2, 3, 1)));
    assert_eq!(is_chunk_key(&key13(2, 3, 0, 0x77)), Some(pos(2, 3, 0)));
    assert_eq!(is_chunk_key(&key13(2, 3, 2, 0x30)), Some(pos(2, 3, 2)));
}

#[test]
fn non_chunk_keys() {
    assert_eq!(is_chunk_key(&key9(1, 1, 0x42)), None);
    assert_eq!(is_chunk_key(&key9(1, 1, 0x2C)), None);
    assert_eq!(is_chunk_key(&key13(1, 1, 3, 0x2F)), None);
    assert_eq!(is_chunk_key(&key13(1, 1, -2, 0x2F)), None);
    assert_eq!(is_chunk_key(&key13(1, 1, -1, 0x2F)), None);
    assert_eq!(is_chunk_key(&[1, 2, 3, 4, 5, 6, 7, 8]), None);
    assert_eq!(is_chunk_key(b"~local_player"), None);
}

fn record(shared: u8, key: &[u8], value: &[u8]) -> Vec<u8> {
    let mut r = vec![shared, key.len() as u8, value.len() as u8];
    r.extend_from_slice(key);
    r.extend_from_slice(value);
    r
}

#[test]
fn ldb_scan_finds_chunk_records() {
    let mut data = record(0, &key9(5, 6, 0x2F), &[0xAA]);
    data.extend(record(0, &key13(-1, 2, 1, 0x76), &[1, 2, 3]));
    data.extend(record(0, b"~local_player", &[9, 9]));
    data.extend(record(0, &key9(5, 6, 0x30), &[0xBB]));
    let mut set = ChunkSet::new();
    parse_unencrypted_ldb(&data, &mut set);
    assert_eq!(set.len(), 2);
    assert!(set.contains(&pos(5, 6, 0)));
    assert!(set.contains(&pos(-1, 2, 1)));
}

#[test]
fn ldb_scan_keeps_what_was_there() {
    let mut set = ChunkSet::new();
    set.insert(pos(100, 100, 2));
    parse_unencrypted_ldb(&record(0, &key9(1, 1, 0x2F), &[1]), &mut set);
    assert_eq!(set.len(), 2);
    assert!(set.contains(&pos(100, 100, 2)));
    assert!(set.contains(&pos(1, 1, 0)));
}

#[test]
fn ldb_scan_skips_shared_records_and_stops_on_overrun() {
    let mut set = ChunkSet::new();
    parse_unencrypted_ldb(&record(1, &key9(1, 1, 0x2F), &[1]), &mut set);
    assert_eq!(set.len(), 0);
    let mut cut = record(0, &key9(2, 2, 0x2F), &[1, 2, 3, 4]);
    cut.truncate(cut.len() - 2);
    parse_unencrypted_ldb(&cut, &mut set);
    assert_eq!(set.len(), 0);
    parse_unencrypted_ldb(&[0, 9, 1, 0], &mut set);
    assert_eq!(set.len(), 0);
}

#[test]
fn ldb_scan_resumes_one_byte_after_an_unusable_record() {
    let mut data = vec![0x00, 0x00, 0x00, 0xEE];
    data.extend(record(0, &key9(7, 8, 0x2F), &[1]));
    let mut set = ChunkSet::new();
    parse_unencrypted_ldb(&data, &mut set);
    assert!(set.contains(&pos(7, 8, 0)));
}

#[test]
fn neighbours_of_one_chunk() {
    let mut plain = ChunkSet::new();
    plain.insert(pos(0, 0, 0));
    let hidden = infer_encrypted_chunks(&plain);
    assert_eq!(
        hidden,
        vec![
            pos(-1, -1, 0),
            pos(-1, 0, 0),
            pos(-1, 1, 0),
            pos(0, -1, 0),
            pos(0, 1, 0),
            pos(1, -1, 0),
            pos(1, 0, 0),
            pos(1, 1, 0),
        ]
    );
}

#[test]
fn neighbours_exclude_plain_chunks_and_repeat_nothing() {
    let mut plain = ChunkSet::new();
    plain.insert(pos(1, 0, 0));
    plain.insert(pos(0, 0, 0));
    let hidden = infer_encrypted_chunks(&plain);
    assert_eq!(hidden.len(), 10);
    assert!(!hidden.contains(&pos(0, 0, 0)));
    assert!(!hidden.contains(&pos(1, 0, 0)));
    assert!(hidden.contains(&pos(2, 1, 0)));
    assert!(hidden.contains(&pos(-1, -1, 0)));
    for w in hidden.windows(2) {
        assert!((w[0].dim, w[0].x, w[0].z) < (w[1].dim, w[1].x, w[1].z));
    }
}

#[test]
fn neighbours_are_sorted_by_dimension_first() {
    let mut plain = ChunkSet::new();
    plain.insert(pos(0, 0, 1));
    plain.insert(pos(10, 10, 0));
    let hidden = infer_encrypted_chunks(&plain);
    assert_eq!(hidden.len(), 16);
    assert_eq!(hidden[0], pos(9, 9, 0));
    assert_eq!(hidden[8], pos(-1, -1, 1));
    assert!(infer_encrypted_chunks(&ChunkSet::new()).is_empty());
}

#[test]
fn chunk_set_insert_reports_novelty() {
    let mut s = ChunkSet::new();
    assert!(s.insert(pos(1, 2, 0)));
    assert!(!s.insert(pos(1, 2, 0)));
    assert_eq!(s.len(), 1);
    assert_eq!(s.get(0), pos(1, 2, 0));
    let result = ChunkScanResult { plain: s, encrypted_file_count: 3 };
    assert_eq!(result.encrypted_file_count, 3);
    assert_eq!(result.plain.len(), 1);
}

#[test]
fn dimension_names() {
    assert_eq!(dimension_name(0), "Overworld");
    assert_eq!(dimension_name(1), "Nether");
    assert_eq!(dimension_name(2), "End");
    assert_eq!(dimension_name(-1), "Unknown");
}

#[test]
fn chunk_set_keeps_extreme_coordinates_apart() {
    let mut s = ChunkSet::new();
    assert!(s.insert(pos(i32::MIN, i32::MAX, -1)));
    assert!(s.insert(pos(i32::MAX, i32::MIN, -1)));
    assert!(s.insert(pos(-1, -1, 2)));
    assert!(s.insert(pos(0, -1, 2)));
    assert!(!s.insert(pos(i32::MIN, i32::MAX, -1)));
    assert_eq!(s.len(), 4);
    assert!(s.contains(&pos(-1, -1, 2)));
    assert!(!s.contains(&pos(-1, 0, 2)));
}

#[test]
fn neighbours_of_a_filled_square() {
    let mut plain = ChunkSet::new();
    for x in 0..200 {
        for z in 0..200 {
            plain.insert(pos(x, z, 0));
        }
    }
    assert_eq!(plain.len(), 40_000);
    let hidden = infer_encrypted_chunks(&plain);
    // The ring around a 200 x 200 square.
    assert_eq!(hidden.len(), 4 * 200 + 4);
    assert_eq!(hidden[0], pos(-1, -1, 0));
    assert_eq!(hidden[hidden.len() - 1], pos(200, 200, 0));
    for w in hidden.windows(2) {
        assert!((w[0].dim, w[0].x, w[0].z) < (w[1].dim, w[1].x, w[1].z));
    }
}
