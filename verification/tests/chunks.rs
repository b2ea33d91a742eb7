use file_server::chunk::{plan_part_read, plan_read, read_part, read_range};
use file_server::BLOB_SIZE;

fn sample(len: usize) -> Vec<u8> {
    let mut v = Vec::with_capacity(len);
    for i in 0..len {
        v.push((i % 251) as u8);
    }
    v
}

#[test]
fn read_range_returns_exact_bytes() {
    let data = sample(100);
    let out = read_range(&data, 10, 5);
    assert_eq!(out, data[10..15].to_vec());
}

#[test]
fn read_range_clamps_at_end_of_file() {
    // a file of size S: a read of 10 bytes at S-5 returns the 5 last bytes
    let data = sample(100);
    let out = read_range(&data, 95, 10);
    assert_eq!(out.len(), 5);
    assert_eq!(out, data[95..100].to_vec());
}

#[test]
fn read_range_past_end_is_empty() {
    // a read at or past the end never underflows: it returns nothing
    let data = sample(100);
    assert!(read_range(&data, 100, 10).is_empty());
    assert!(read_range(&data, 1000, 10).is_empty());
}

#[test]
fn read_range_zero_length() {
    let data = sample(10);
    assert!(read_range(&data, 3, 0).is_empty());
}

#[test]
fn plan_read_values() {
    assert_eq!(plan_read(100, 0, 10), 10);
    assert_eq!(plan_read(100, 95, 10), 5);
    assert_eq!(plan_read(100, 100, 10), 0);
    assert_eq!(plan_read(100, 200, 10), 0);
}

#[test]
fn read_part_matches_read_range() {
    // chunking determinism: part k is a range read at k * BLOB_SIZE
    let data = sample(1000);
    assert_eq!(read_part(&data, 0), read_range(&data, 0, BLOB_SIZE));
    assert_eq!(read_part(&data, 1), read_range(&data, BLOB_SIZE as u64, BLOB_SIZE));
    assert_eq!(read_part(&data, 7), read_range(&data, 7 * BLOB_SIZE as u64, BLOB_SIZE));
}

#[test]
fn read_part_zero_covers_small_file() {
    let data = sample(1000);
    assert_eq!(read_part(&data, 0), data);
}

#[test]
fn read_part_past_end_is_empty() {
    let data = sample(1000);
    assert!(read_part(&data, 1).is_empty());
    // even an absurd part index neither panics nor overflows
    assert!(read_part(&data, usize::MAX).is_empty());
}

#[test]
fn plan_part_read_values() {
    assert_eq!(plan_part_read(100, 0), (0, 100));
    assert_eq!(plan_part_read(100, 1), (100, 0));
    let big = 3 * BLOB_SIZE as u64 + 17;
    assert_eq!(plan_part_read(big, 2), (2 * BLOB_SIZE as u64, BLOB_SIZE));
    assert_eq!(plan_part_read(big, 3), (3 * BLOB_SIZE as u64, 17));
    assert_eq!(plan_part_read(big, usize::MAX), (big, 0));
}
