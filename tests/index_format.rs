use cache_guess_mapping::error::IndexError;
use cache_guess_mapping::index::{Index, IndexBuilder};
use cache_guess_mapping::layout::{item_count_fits, write_bytes, Layout};
use cache_guess_mapping::probe::{next_hash_prefix, read_hash_indices, read_hash_prefix};

/// A digest whose first sixteen bytes read as `prefix`, little-endian.
fn digest_with_prefix(prefix: u128, tail: u8) -> [u8; 20] {
    let mut d = [tail; 20];
    d[..16].copy_from_slice(&prefix.to_le_bytes());
    d
}

#[test]
fn capacity_examples() {
    assert_eq!(Layout::from_item_count(1000).capacity, 1500);
    assert_eq!(Layout::from_item_count(3).capacity, 4);
    assert_eq!(Layout::from_item_count(0).capacity, 0);
    assert_eq!(Layout::from_item_count(1).capacity, 1);
}

#[test]
fn layout_offsets_for_four_slots() {
    let l = Layout::from_capacity(4);
    assert_eq!(l.hash1_offset, 72);
    assert_eq!(l.hash2_offset, 104);
    assert_eq!(l.hash3_offset, 136);
    assert_eq!(l.value_offset, 168);
    assert_eq!(l.min_file_size, 200);
}

#[test]
fn layout_offsets_are_ordered_and_aligned() {
    for cap in [1usize, 7, 8, 9, 63, 64, 65, 1500] {
        let l = Layout::from_capacity(cap);
        assert!(64 < l.hash1_offset);
        assert!(l.hash1_offset < l.hash2_offset);
        assert!(l.hash2_offset < l.hash3_offset);
        assert!(l.hash3_offset < l.value_offset);
        assert!(l.value_offset < l.min_file_size);
        for o in [l.hash1_offset, l.hash2_offset, l.hash3_offset, l.value_offset, l.min_file_size] {
            assert_eq!(o % 8, 0);
        }
    }
}

#[test]
fn item_count_fits_rejects_huge_counts() {
    assert!(item_count_fits(1000));
    assert!(!item_count_fits(usize::MAX));
}

#[test]
fn probe_sequence_steps() {
    assert_eq!(next_hash_prefix(2), 62);
    assert_eq!(next_hash_prefix(u128::MAX), u128::MAX - 30);
    let d = digest_with_prefix(0x0102, 9);
    assert_eq!(read_hash_prefix(&d), 0x0102);
    let l = Layout::from_capacity(7);
    let mut walk = read_hash_indices(&l, &digest_with_prefix(1, 0));
    let slots: Vec<usize> = (0..4).map(|_| walk.next_index()).collect();
    assert_eq!(slots, vec![1, 3, 2, 6]);
}

#[test]
fn write_bytes_pads_with_zeros() {
    let src = [1u8, 2, 3, 4, 5, 6, 7, 8, 9, 10];
    let mut dest = vec![0xffu8; 12];
    write_bytes(&src, 8, &mut dest, 2);
    assert_eq!(dest, vec![0xff, 0xff, 9, 10, 0, 0, 0, 0, 0, 0, 0xff, 0xff]);
}

#[test]
fn round_trip_single_entry() {
    let d = digest_with_prefix(0x1234_5678_9abc, 7);
    let mut b = IndexBuilder::new(5, 4096);
    assert_eq!(b.add(&d, 42), Ok(()));
    b.finish();
    let image = b.into_image();
    let index = Index::open(&image).unwrap();
    assert_eq!(index.get_block_size(), 4096);
    assert_eq!(index.get(&d), vec![42]);
    assert_eq!(index.get(&digest_with_prefix(0x1234_5678_9abc, 8)), Vec::<u64>::new());
}

#[test]
fn header_fields_are_little_endian() {
    let mut b = IndexBuilder::new(10, 8192);
    b.finish();
    let image = b.into_image();
    assert_eq!(&image[..25], b"INDEX / dmcache-recovery\n");
    assert!(image[25..48].iter().all(|&x| x == 0));
    assert_eq!(Layout::get_block_size(&image), 8192);
    assert_eq!(Layout::get_capacity(&image), 15);
    assert_eq!(&image[48..56], &8192u64.to_le_bytes());
    assert_eq!(Layout::check_preamble(&image), Ok(()));
}

#[test]
fn duplicate_content_both_orders() {
    let d = digest_with_prefix(1, 0);
    for (v1, v2) in [(100u64, 200u64), (200, 100)] {
        let mut b = IndexBuilder::new(5, 512);
        assert_eq!(b.add(&d, v1), Ok(()));
        assert_eq!(b.add(&d, v2), Ok(()));
        b.finish();
        let image = b.into_image();
        let index = Index::open(&image).unwrap();
        let mut got = index.get(&d);
        assert_eq!(got, vec![v1, v2]);
        got.sort();
        assert_eq!(got, vec![100, 200]);
    }
}

#[test]
fn stored_slot_can_be_read_back() {
    let d = digest_with_prefix(1, 0xab);
    let mut b = IndexBuilder::new(5, 512);
    b.add(&d, 0x0102_0304).unwrap();
    b.finish();
    let image = b.into_image();
    let l = Layout::from_file(&image).unwrap();
    assert_eq!(l.capacity, 7);
    assert!(l.is_used(&image, 1));
    assert!(!l.is_used(&image, 0));
    assert_eq!(image[64], 0b0100_0000);
    assert_eq!(l.get_value(&image, 1), 0x0102_0304);
    assert_eq!(l.get_hash1(&image, 1), u64::from_le_bytes(d[0..8].try_into().unwrap()));
    assert_eq!(l.get_hash2(&image, 1), u64::from_le_bytes(d[8..16].try_into().unwrap()));
    let mut third = [0u8; 8];
    third[..4].copy_from_slice(&d[16..20]);
    assert_eq!(l.get_hash3(&image, 1), u64::from_le_bytes(third));
}

#[test]
fn uncommitted_index_is_corrupt() {
    let mut b = IndexBuilder::new(4, 512);
    b.add(&digest_with_prefix(5, 1), 1).unwrap();
    b.add(&digest_with_prefix(6, 1), 2).unwrap();
    let image = b.into_image();
    assert_eq!(Index::open(&image).err(), Some(IndexError::CorruptIndex));
    assert_eq!(Layout::check_preamble(&image), Err(IndexError::CorruptIndex));
}

#[test]
fn short_files_are_rejected() {
    let mut b = IndexBuilder::new(4, 512);
    b.finish();
    let image = b.into_image();
    assert!(Index::open(&image).is_ok());
    assert_eq!(Index::open(&image[..image.len() - 1]).err(), Some(IndexError::TruncatedIndex));
    assert_eq!(Index::open(&image[..50]).err(), Some(IndexError::TruncatedIndex));
    assert_eq!(Index::open(&image[..20]).err(), Some(IndexError::CorruptIndex));
}

#[test]
fn full_probe_walk_reports_no_free_slot() {
    let mut b = IndexBuilder::new(1, 512);
    assert_eq!(b.add(&digest_with_prefix(3, 0), 1), Ok(()));
    assert_eq!(b.add(&digest_with_prefix(4, 0), 2), Err(IndexError::NoFreeSlot));
    let mut empty = IndexBuilder::new(0, 512);
    assert_eq!(empty.add(&digest_with_prefix(3, 0), 1), Err(IndexError::NoFreeSlot));
}
