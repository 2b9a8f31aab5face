use cache_guess_mapping::digest::hash_block;
use cache_guess_mapping::error::IndexError;
use cache_guess_mapping::index::{Index, IndexEntry};
use cache_guess_mapping::mapper::{find, map_cache_block, tally_votes, Candidate};
use cache_guess_mapping::scan::{index, read_old_index, read_origin_blocks, write_index_file};

const FS: usize = 512;

/// A filesystem block whose bytes all derive from `seed`.
fn block(seed: u8) -> Vec<u8> {
    (0..FS).map(|i| seed.wrapping_mul(31).wrapping_add(i as u8)).collect()
}

fn concat(blocks: &[Vec<u8>]) -> Vec<u8> {
    blocks.iter().flat_map(|b| b.iter().copied()).collect()
}

#[test]
fn sha1_digest_of_known_input() {
    let data = b"xxabcyy";
    let d = hash_block(data, 2, 3);
    let expected: [u8; 20] = [
        0xa9, 0x99, 0x3e, 0x36, 0x47, 0x06, 0x81, 0x6a, 0xba, 0x3e, 0x25, 0x71, 0x78, 0x50, 0xc2, 0x6c,
        0x9c, 0xd0, 0xd8, 0x9d,
    ];
    assert_eq!(d, expected);
    assert_eq!(hash_block(b"abcdef", 0, 3), expected);
    // a block cut short by the end of the data is digested as it is
    assert_eq!(hash_block(b"xxabc", 2, 8), expected);
}

#[test]
fn origin_blocks_with_short_tail() {
    let mut origin = concat(&[block(1), block(2)]);
    origin.extend_from_slice(b"abc");
    let entries = read_origin_blocks(&origin, FS);
    assert_eq!(entries.len(), 3);
    assert_eq!(entries[0].offset, 0);
    assert_eq!(entries[1].offset, 512);
    assert_eq!(entries[2].offset, 1024);
    assert_eq!(entries[1].digest, hash_block(&block(2), 0, FS));
    assert_eq!(entries[2].digest, hash_block(b"abc", 0, 3));
    assert!(read_origin_blocks(&[], FS).is_empty());
}

#[test]
fn legacy_log_records() {
    // blocks of 64 bytes: two records of 28 bytes each, 8 bytes unused
    let mut log = Vec::new();
    for b in 0..2u8 {
        for r in 0..2u8 {
            let tag = b * 2 + r;
            log.extend_from_slice(&[tag; 20]);
            log.extend_from_slice(&(1000u64 * tag as u64 + 7).to_le_bytes());
        }
        log.extend_from_slice(&[0xee; 8]);
    }
    let entries = read_old_index(&log, 64);
    assert_eq!(entries.len(), 4);
    for (i, e) in entries.iter().enumerate() {
        assert_eq!(e.digest, [i as u8; 20]);
        assert_eq!(e.offset, 1000 * i as u64 + 7);
    }
    assert!(read_old_index(&log, 128).len() == 4);
    assert!(read_old_index(&log[..64], 16).is_empty());
}

/// A digest whose first sixteen bytes read as `prefix`, little-endian.
fn digest_with_prefix(prefix: u128) -> [u8; 20] {
    let mut d = [0x5a; 20];
    d[..16].copy_from_slice(&prefix.to_le_bytes());
    d
}

#[test]
fn write_index_file_round_trip() {
    // five entries: seven slots; the walk of prefix p visits p, 3p, 2p, 6p, ... modulo 7
    let entries = vec![
        IndexEntry { digest: digest_with_prefix(1), offset: 10 },
        IndexEntry { digest: digest_with_prefix(2), offset: 20 },
        IndexEntry { digest: digest_with_prefix(1), offset: 30 },
        IndexEntry { digest: digest_with_prefix(3), offset: 40 },
        IndexEntry { digest: digest_with_prefix(4), offset: 50 },
    ];
    let image = write_index_file(4096, &entries).unwrap();
    let idx = Index::open(&image).unwrap();
    assert_eq!(idx.get_block_size(), 4096);
    assert_eq!(idx.get(&digest_with_prefix(1)), vec![10, 30]);
    assert_eq!(idx.get(&digest_with_prefix(2)), vec![20]);
    assert_eq!(idx.get(&digest_with_prefix(3)), vec![40]);
    assert_eq!(idx.get(&digest_with_prefix(4)), vec![50]);
    assert!(idx.get(&digest_with_prefix(5)).is_empty());
}

#[test]
fn end_to_end_mapping() {
    // cache blocks of five filesystem blocks; region B is origin cache block 1
    let a = concat(&[block(22), block(23), block(24), block(25), block(26)]);
    let b = concat(&[block(27), block(28), block(29), block(30), block(31)]);
    let origin = concat(&[a, b.clone()]);
    let image = index(&origin, FS, false, 0).unwrap();
    let idx = Index::open(&image).unwrap();
    let reports = find(&idx, &b, 5 * FS);
    assert_eq!(reports.len(), 1);
    assert_eq!(reports[0].candidates, vec![Candidate { origin_cache_block: 1, votes: 5 }]);
    assert_eq!(reports[0].fake_matches, 0);
}

#[test]
fn false_positive_resistance() {
    // block X is at position 0 of origin cache block 0 and at position 1 of
    // origin cache block 1; the cache block holds it at position 1 only
    let x = block(200);
    let origin = concat(&[
        x.clone(), block(22), block(23), block(24), block(25),
        block(26), x.clone(), block(27), block(28), block(29),
    ]);
    let image = index(&origin, FS, false, 0).unwrap();
    let idx = Index::open(&image).unwrap();
    let mut x_offsets = idx.get(&hash_block(&x, 0, FS));
    x_offsets.sort();
    assert_eq!(x_offsets, vec![0, 3072]);
    let cache = concat(&[block(82), x.clone(), block(83), block(84), block(85)]);
    let report = map_cache_block(&idx, &cache, 0, 5 * FS);
    assert_eq!(report.candidates, vec![Candidate { origin_cache_block: 1, votes: 1 }]);
    assert!(report.candidates.iter().all(|c| c.origin_cache_block != 0));
    assert_eq!(report.fake_matches, 1);
}

#[test]
fn unmatched_cache_block_has_no_candidates() {
    let origin = concat(&[block(11), block(12), block(13), block(14), block(15)]);
    let image = index(&origin, FS, false, 0).unwrap();
    let idx = Index::open(&image).unwrap();
    let cache = concat(&[block(250), block(250), block(250), block(250), block(11), block(12), block(13), block(14)]);
    let reports = find(&idx, &cache, 4 * FS);
    assert_eq!(reports.len(), 2);
    assert!(reports[0].candidates.is_empty());
    assert_eq!(reports[0].fake_matches, 0);
    assert_eq!(reports[1].candidates, vec![Candidate { origin_cache_block: 0, votes: 4 }]);
}

#[test]
fn index_from_legacy_log() {
    // blocks of 32 bytes, one record each
    let mut log = Vec::new();
    for i in 1..=5u128 {
        log.extend_from_slice(&digest_with_prefix(i));
        log.extend_from_slice(&(4096 * i as u64).to_le_bytes());
        log.extend_from_slice(&[0; 4]);
    }
    let image = index(&log, FS, true, 32).unwrap();
    let idx = Index::open(&image).unwrap();
    assert_eq!(idx.get_block_size(), 512);
    assert_eq!(idx.get(&digest_with_prefix(1)), vec![4096]);
    assert_eq!(idx.get(&digest_with_prefix(5)), vec![20480]);
    assert!(idx.get(&digest_with_prefix(6)).is_empty());
}

#[test]
fn tally_ranks_by_votes_then_block() {
    // block size 10, cache block size 40: four positions per cache block
    let hits = vec![
        vec![40, 80, 10],  // position 0: block 1 and block 2 vote, 10 is at position 1
        vec![50, 90],      // position 1: blocks 1 and 2 vote
        vec![60, 0],       // position 2: block 1 votes, 0 is at position 0
        vec![],
    ];
    let r = tally_votes(&hits, 10, 40);
    assert_eq!(
        r.candidates,
        vec![
            Candidate { origin_cache_block: 1, votes: 3 },
            Candidate { origin_cache_block: 2, votes: 2 },
        ]
    );
    assert_eq!(r.fake_matches, 2);
    let tie = tally_votes(&vec![vec![80, 40]], 10, 40);
    assert_eq!(
        tie.candidates,
        vec![
            Candidate { origin_cache_block: 1, votes: 1 },
            Candidate { origin_cache_block: 2, votes: 1 },
        ]
    );
    assert!(tally_votes(&vec![], 10, 40).candidates.is_empty());
}

#[test]
fn error_variants_are_distinct() {
    assert_ne!(IndexError::CorruptIndex, IndexError::TruncatedIndex);
    assert_ne!(IndexError::NoFreeSlot, IndexError::TooLarge);
}
