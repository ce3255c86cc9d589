//! Range iteration over roaring bitmaps, validated against the bitmap's
//! own contents.

use roaring::RoaringBitmap;
use zettacore::bitmap::iter_ranges;

fn validate_iter_ranges(a: &RoaringBitmap) {
    let mut total_segments: u32 = 0;
    for (first, last) in iter_ranges(a) {
        assert!(last >= first);
        for slot in first..last + 1 {
            assert!(a.contains(slot));
        }
        total_segments += last - first + 1;
    }
    assert_eq!(u64::from(total_segments), a.len());
}

#[test]
fn test_empty() {
    let a = RoaringBitmap::new();
    validate_iter_ranges(&a);
}

#[test]
fn test_single_start_slot() {
    let mut a = RoaringBitmap::new();
    a.insert(0);
    validate_iter_ranges(&a);
}

#[test]
fn test_single_start_range() {
    let mut a = RoaringBitmap::new();
    a.insert_range(0..2);
    validate_iter_ranges(&a);
}

#[test]
fn test_single_start_range_2() {
    let mut a = RoaringBitmap::new();
    a.insert_range(0..3);
    validate_iter_ranges(&a);
}

#[test]
fn test_single_middle_slot() {
    let mut a = RoaringBitmap::new();
    a.insert(5);
    validate_iter_ranges(&a);
}

#[test]
fn test_single_middle_range() {
    let mut a = RoaringBitmap::new();
    a.insert_range(5..7);
    validate_iter_ranges(&a);
}

#[test]
fn test_single_middle_range_2() {
    let mut a = RoaringBitmap::new();
    a.insert_range(5..8);
    validate_iter_ranges(&a);
}

#[test]
fn test_two_slots_start_end() {
    let mut a = RoaringBitmap::new();
    a.insert(0);
    a.insert(10);
    validate_iter_ranges(&a);
}

#[test]
fn test_start_slot_end_range() {
    let mut a = RoaringBitmap::new();
    a.insert(0);
    a.insert_range(10..12);
    validate_iter_ranges(&a);
}

#[test]
fn test_start_range_end_slot() {
    let mut a = RoaringBitmap::new();
    a.insert_range(0..2);
    a.insert(10);
    validate_iter_ranges(&a);
}

#[test]
fn test_start_range_end_range() {
    let mut a = RoaringBitmap::new();
    a.insert_range(0..2);
    a.insert_range(10..12);
    validate_iter_ranges(&a);
}

#[test]
fn test_two_slots_middle_end() {
    let mut a = RoaringBitmap::new();
    a.insert(5);
    a.insert(10);
    validate_iter_ranges(&a);
}

#[test]
fn test_middle_slot_end_range() {
    let mut a = RoaringBitmap::new();
    a.insert(5);
    a.insert_range(10..12);
    validate_iter_ranges(&a);
}

#[test]
fn test_middle_range_end_slot() {
    let mut a = RoaringBitmap::new();
    a.insert_range(5..7);
    a.insert(10);
    validate_iter_ranges(&a);
}

#[test]
fn test_middle_range_end_range() {
    let mut a = RoaringBitmap::new();
    a.insert_range(5..7);
    a.insert_range(10..12);
    validate_iter_ranges(&a);
}

#[test]
fn test_three_slots_start_middle_end() {
    let mut a = RoaringBitmap::new();
    a.insert(0);
    a.insert(5);
    a.insert(10);
    validate_iter_ranges(&a);
}

#[test]
fn test_start_range_middle_slot_end_slot() {
    let mut a = RoaringBitmap::new();
    a.insert_range(0..2);
    a.insert(5);
    a.insert(10);
    validate_iter_ranges(&a);
}

#[test]
fn test_start_slot_middle_range_end_slot() {
    let mut a = RoaringBitmap::new();
    a.insert(0);
    a.insert_range(5..7);
    a.insert(10);
    validate_iter_ranges(&a);
}

#[test]
fn test_start_slot_middle_slot_end_range() {
    let mut a = RoaringBitmap::new();
    a.insert(0);
    a.insert(5);
    a.insert_range(10..12);
    validate_iter_ranges(&a);
}

#[test]
fn test_start_slot_middle_range_end_range() {
    let mut a = RoaringBitmap::new();
    a.insert(0);
    a.insert_range(5..7);
    a.insert_range(10..12);
    validate_iter_ranges(&a);
}

#[test]
fn test_start_range_middle_range_end_slot() {
    let mut a = RoaringBitmap::new();
    a.insert_range(0..2);
    a.insert_range(5..7);
    a.insert(10);
    validate_iter_ranges(&a);
}

#[test]
fn test_start_range_middle_range_end_range() {
    let mut a = RoaringBitmap::new();
    a.insert_range(0..2);
    a.insert_range(5..7);
    a.insert_range(10..12);
    validate_iter_ranges(&a);
}
