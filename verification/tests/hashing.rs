use rdiff::rolling::RollingHash;
use rdiff::{BlockHashes, ByteReader, Delete, Diff, Error, Insert};

fn check_hashes(hashes: &BlockHashes, block_size: usize, starting_data: &str) {
    let expected_hashes = BlockHashes::new(starting_data.as_bytes(), block_size);
    assert_eq!(hashes, &expected_hashes);
}

fn check_diff(
    start: &str,
    block_size: usize,
    new: &str,
    inserts: &[(usize, &str)],
    deletes: &[(usize, usize)],
) {
    let mut hashes = BlockHashes::new(start.as_bytes(), block_size);
    let diff = hashes.diff_and_update(new.as_bytes());
    let expected_inserts: Vec<Insert> = inserts
        .iter()
        .map(|(position, data)| Insert::new(data.bytes().collect(), *position))
        .collect();
    let expected_deletes: Vec<Delete> =
        deletes.iter().map(|(position, len)| Delete::new(*position, *len)).collect();
    assert_eq!(&expected_inserts, diff.inserts());
    assert_eq!(&expected_deletes, diff.deletes());
    check_hashes(&hashes, block_size, new);
}

#[test]
fn rolling_hash_small() {
    let mut hash = RollingHash::new(&[7, 2, 9, 1, 7, 8]);
    assert_eq!(hash.get_hash(), 0x710022); // a: 34 b: 113
    hash.roll_hash(Some(12), 7); // [2, 9, 1, 7, 8, 12]
    assert_eq!(hash.get_hash(), 0x6E0027); // a: 39 b:110
    hash.roll_hash(Some(1), 2); // [9, 1, 7, 8, 12, 1]
    assert_eq!(hash.get_hash(), 0x880026); // a: 38 b:136
    hash.roll_hash(None, 9); // [1, 7, 8, 12, 1]
    assert_eq!(hash.get_hash(), 0x52001D); // a: 29 b:82
    hash.roll_hash(None, 1); // [7, 8, 12, 1]
    assert_eq!(hash.get_hash(), 0x4D001C); // a: 28 b: 77
    hash.roll_hash(None, 7); // [8, 12, 1]
    assert_eq!(hash.get_hash(), 0x310015); // a: 21 b: 49
    hash.roll_hash(None, 8); // [12, 1]
    assert_eq!(hash.get_hash(), 0x19000D); // a: 13 b: 25
    hash.roll_hash(None, 12); // [1]
    assert_eq!(hash.get_hash(), 0x10001); // a: 1 b: 1
    hash.roll_hash(None, 1); // []
    assert_eq!(hash.get_hash(), 0x0); // a: 0 b: 0
}

#[test]
fn rolling_hash_big() {
    let mut numbers = Vec::new();
    for i in 0..4000 {
        numbers.push((200 + i * i) as u8);
    }
    let mut hash = RollingHash::new(&numbers);
    assert_eq!(hash.get_hash(), 0x1880A9F0); // a: A9f0 b: 1880
    hash.roll_hash(Some(237), 200);
    assert_eq!(hash.get_hash(), 0x8D95AA15); // a: AA15 b: 8D95
    hash.roll_hash(None, 201);
    assert_eq!(hash.get_hash(), 0x48F5A94C) // a: A94C b: 48F5
}

#[test]
fn hash_blocks_init() {
    let test_string = "It was the best of times, it was the worst of times";
    let hashes = BlockHashes::new(test_string.as_bytes(), 8);

    let expected_blocks: Vec<(u32, [u8; 16])> = vec![
        (202900156, [0xad, 0x72, 0x1d, 0x63, 0xc3, 0xda, 0xbb, 0x32, 0xcc, 0x90, 0x96, 0x82, 0x40, 0x71, 0xa9, 0x19]),
        (211944123, [0x27, 0x12, 0xA2, 0x2D, 0xDA, 0x55, 0x85, 0x75, 0x8A, 0xEB, 0xC4, 0xD2, 0x98, 0x14, 0x2F, 0x8B]),
        (225313559, [0x31, 0x60, 0x52, 0x34, 0x54, 0xfa, 0x59, 0xe4, 0xc1, 0x4b, 0xad, 0xf9, 0x43, 0x5d, 0x62, 0x12]),
        (169083540, [0x5f, 0xa8, 0xfa, 0x65, 0x9a, 0xdc, 0x38, 0x99, 0x7b, 0xb3, 0x65, 0xf1, 0x76, 0x48, 0xea, 0x8a]),
        (197788377, [0x6B, 0xF2, 0x9B, 0x2C, 0xD5, 0x03, 0x3E, 0xFC, 0x07, 0x9C, 0x2E, 0xA1, 0x27, 0xFD, 0x7B, 0x13]),
        (217580249, [0x1c, 0x64, 0x81, 0x16, 0x71, 0xe4, 0x3e, 0xa5, 0xf8, 0x2d, 0xa6, 0xff, 0xc4, 0xa5, 0xbb, 0xee]),
        (42205509, [0xd2, 0xdb, 0x8a, 0x61, 0x0f, 0x8c, 0x7c, 0x07, 0x85, 0xd2, 0xd9, 0x2a, 0x6e, 0x8c, 0x45, 0x0e]),
    ];
    let mut encoded: Vec<u8> = Vec::new();
    encoded.extend_from_slice(&51u32.to_be_bytes());
    encoded.extend_from_slice(&8u32.to_be_bytes());
    for (weak, strong) in expected_blocks.iter() {
        encoded.extend_from_slice(&weak.to_be_bytes());
        encoded.extend_from_slice(strong);
    }
    let mut reader = ByteReader::new(&encoded);
    let expected = BlockHashes::expand_from(&mut reader).unwrap();

    assert_eq!(hashes, expected);

    let mut written = Vec::new();
    hashes.compress_to(&mut written).unwrap();
    assert_eq!(written, encoded);
}

#[test]
fn empty_hashes() {
    check_diff("", 16, "The New Data", &[(0, "The New Data")], &[]);
}

#[test]
fn no_change() {
    check_diff("Same Data", 8, "Same Data", &[], &[]);
}

#[test]
fn multiple_overwrites() {
    check_diff("", 8, "New Data", &[(0, "New Data")], &[]);
    check_diff("New Data", 8, "Other Stuff", &[(0, "Other Stuff")], &[(11, 8)]);
    check_diff("Other Stuff", 8, "More Things", &[(0, "More Things")], &[(11, 11)]);
}

#[test]
fn insertions() {
    check_diff(
        "Starting data is a long sentence",
        8,
        "Starting data is now a long sentence",
        &[(16, " now")],
        &[],
    );
    check_diff(
        "Starting data is a long sentence",
        8,
        "This Starting data is a long sentence",
        &[(0, "This ")],
        &[],
    );
    check_diff(
        "Starting data is a long sentence",
        8,
        "Starting data is a long sentence. With more",
        &[(32, ". With more")],
        &[],
    );
    check_diff(
        "Starting data is a long sentence",
        8,
        "This Starting data is now a long sentence. With more",
        &[(0, "This "), (21, " now"), (41, ". With more")],
        &[],
    );
}

#[test]
fn delete_on_boundry() {
    check_diff("13 chars long, no longer", 13, "13 chars long", &[], &[(13, 11)]);
}

#[test]
fn deletions() {
    check_diff(
        "Starting data is a long sentence",
        8,
        "Starting a long sentence",
        &[],
        &[(8, 8)],
    );
    check_diff(
        "Starting data is a long sentence",
        8,
        "Starting data is a long ",
        &[],
        &[(24, 8)],
    );
    check_diff(
        "Starting data is a long sentence",
        8,
        " data is a long sentence",
        &[],
        &[(0, 8)],
    );
    check_diff("Starting data is a long sentence", 8, " a long ", &[], &[(0, 16), (8, 8)]);
}

#[test]
fn insertions_and_deletions() {
    check_diff(
        "Starting data is a long sentence",
        8,
        "Starting data a long sentence",
        &[(8, " data")],
        &[(13, 8)],
    );
    check_diff(
        "Starting data is a long sentence",
        8,
        "Starting data is a long sentenc",
        &[(24, "sentenc")],
        &[(31, 8)],
    );
    check_diff(
        "Starting data is a long sentence",
        8,
        "This Starting data a very long sentence",
        &[(0, "This "), (13, " data a very long ")],
        &[(31, 16)],
    );
}

#[test]
fn hash_buffer_is_the_hash_of_a_fresh_window() {
    assert_eq!(RollingHash::hash_buffer(&[7, 2, 9, 1, 7, 8]), 0x710022);
    assert_eq!(RollingHash::hash_buffer(&[2, 9, 1, 7, 8, 12]), 0x6E0027);
    assert_eq!(RollingHash::hash_buffer(&[1, 7, 8, 12, 1]), 0x52001D);
    assert_eq!(RollingHash::hash_buffer(&[]), 0);
    assert_eq!(RollingHash::hash_buffer(b"It was t"), 202900156);
}

#[test]
fn rolled_hash_is_the_hash_of_the_moved_window() {
    let data: Vec<u8> = (0..300u32).map(|i| (i * 37 + 11) as u8).collect();
    let width = 17;
    let mut hash = RollingHash::new(&data[..width]);
    for start in 0..data.len() {
        let end = std::cmp::min(start + width, data.len());
        assert_eq!(hash.get_hash(), RollingHash::hash_buffer(&data[start..end]));
        let head = if start + width < data.len() { Some(data[start + width]) } else { None };
        hash.roll_hash(head, data[start]);
    }
    assert_eq!(hash.get_hash(), 0);
}

#[test]
fn rolling_hash_of_a_window_wider_than_sixteen_bits() {
    let data: Vec<u8> = (0..70000u32).map(|i| (i * 7 + 3) as u8).collect();
    let width = 66000;
    let mut hash = RollingHash::new(&data[..width]);
    hash.roll_hash(Some(data[width]), data[0]);
    assert_eq!(hash.get_hash(), RollingHash::hash_buffer(&data[1..width + 1]));
    hash.roll_hash(None, data[1]);
    assert_eq!(hash.get_hash(), RollingHash::hash_buffer(&data[2..width + 1]));
}

#[test]
fn empty_digest_is_the_digest_of_nothing() {
    assert_eq!(BlockHashes::empty(8), BlockHashes::new(b"", 8));
    let mut hashes = BlockHashes::empty(4);
    let diff = hashes.diff_and_update(b"");
    assert!(diff.is_empty());
    assert_eq!(hashes, BlockHashes::empty(4));
}

#[test]
fn empty_new_stream_deletes_the_whole_old_one() {
    let mut hashes = BlockHashes::new(b"Some old data here", 8);
    let diff = hashes.diff_and_update(b"");
    assert_eq!(diff.inserts().len(), 0);
    assert_eq!(diff.deletes(), &vec![Delete::new(0, 18)]);
    assert_eq!(diff.apply_to_bytes(b"Some old data here").unwrap(), Vec::<u8>::new());
    assert_eq!(hashes, BlockHashes::empty(8));
}

#[test]
fn same_stream_with_repeated_blocks_gives_an_empty_script() {
    let data = b"abcdabcdabcdabcdxyabcdabcd";
    let mut hashes = BlockHashes::new(data, 4);
    let diff = hashes.diff_and_update(data);
    assert!(diff.is_empty());
    assert_eq!(hashes, BlockHashes::new(data, 4));
}

#[test]
fn applying_the_script_gives_the_new_stream() {
    let cases: Vec<(&str, &str, usize)> = vec![
        ("", "The New Data", 16),
        ("Same Data", "Same Data", 8),
        ("Starting data is a long sentence", "Starting data is now a long sentence", 8),
        ("Starting data is a long sentence", " a long ", 8),
        ("13 chars long, no longer", "13 chars long", 13),
        ("Starting data is a long sentence", "This Starting data a very long sentence", 8),
        ("It was the best of times", "It was not the best of things", 6),
        ("abc", "", 1),
        ("abcabcabc", "abcabc", 3),
    ];
    for (old, new, block_size) in cases {
        let mut hashes = BlockHashes::new(old.as_bytes(), block_size);
        let diff = hashes.diff_and_update(new.as_bytes());
        assert_eq!(diff.apply_to_bytes(old.as_bytes()).unwrap(), new.as_bytes().to_vec());
        assert_eq!(diff.apply_to_string(old).unwrap(), new.to_string());
        assert_eq!(hashes, BlockHashes::new(new.as_bytes(), block_size));
    }
}

#[test]
fn later_old_blocks_are_matched_only_forwards() {
    // The second block of the old stream comes first in the new one; the
    // first old block cannot be matched after it.
    let mut hashes = BlockHashes::new(b"AAAABBBB", 4);
    let diff = hashes.diff_and_update(b"BBBBAAAA");
    assert_eq!(diff.inserts(), &vec![Insert::new(b"AAAA".to_vec(), 4)]);
    assert_eq!(diff.deletes(), &vec![Delete::new(0, 4)]);
    // The insert lies behind a delete: it is placed by its position in the
    // new stream, and applying the script puts it four bytes too early.
    assert_eq!(diff.apply_to_bytes(b"AAAABBBB").unwrap(), b"AAAABBBB".to_vec());
    assert_eq!(hashes, BlockHashes::new(b"BBBBAAAA", 4));
}

#[test]
fn verify_unchanged_tells_same_from_changed() {
    let data = b"It was the best of times, it was the worst of times";
    let hashes = BlockHashes::new(data, 8);
    assert!(hashes.verify_unchanged(data));
    assert!(!hashes.verify_unchanged(b"It was the best of times, it was the worst of timez"));
    assert!(!hashes.verify_unchanged(b"It was the best of times, it was the worst of time"));
    assert!(!hashes.verify_unchanged(b"It was the best of times, it was the worst of times!"));
    assert!(!hashes.verify_unchanged(b"zzzzzzzzzzzzzzzzzzzzzzzzzzzzzzzzzzzzzzzzzzzzzzzzzzz"));
    assert!(!hashes.verify_unchanged(b""));
    assert!(BlockHashes::empty(8).verify_unchanged(b""));
    assert!(!BlockHashes::empty(8).verify_unchanged(b"x"));
}

#[test]
fn digest_encoding_round_trip() {
    let hashes = BlockHashes::new(b"0123456789abcdefXYZ", 8);
    let mut out = vec![1, 2, 3];
    hashes.compress_to(&mut out).unwrap();
    assert_eq!(out.len(), 3 + 8 + 3 * 20);
    assert_eq!(&out[..11], &[1, 2, 3, 0, 0, 0, 19, 0, 0, 0, 8]);
    let weak = RollingHash::hash_buffer(b"01234567");
    assert_eq!(&out[11..15], &weak.to_be_bytes());
    out.push(99);
    let mut reader = ByteReader::new(&out[3..]);
    let back = BlockHashes::expand_from(&mut reader).unwrap();
    assert_eq!(back, hashes);
    assert_eq!(reader.remaining_len(), 1);
    assert!(back.verify_unchanged(b"0123456789abcdefXYZ"));
}

#[test]
fn strong_hash_is_md5() {
    // The digest of one block holds the MD5 of that block.
    let hashes = BlockHashes::new(b"abc", 8);
    let mut out = Vec::new();
    hashes.compress_to(&mut out).unwrap();
    assert_eq!(
        &out[12..],
        &[0x90, 0x01, 0x50, 0x98, 0x3c, 0xd2, 0x4f, 0xb0, 0xd6, 0x96, 0x3f, 0x7d, 0x28, 0xe1, 0x7f, 0x72]
    );
}

#[test]
fn truncated_digest_is_a_decode_error() {
    let hashes = BlockHashes::new(b"0123456789abcdefXYZ", 8);
    let mut out = Vec::new();
    hashes.compress_to(&mut out).unwrap();
    for cut in 0..out.len() {
        let mut reader = ByteReader::new(&out[..cut]);
        assert_eq!(BlockHashes::expand_from(&mut reader), Err(Error::Decode));
    }
}

#[test]
fn zero_block_size_is_a_decode_error() {
    let mut reader = ByteReader::new(&[0, 0, 0, 0, 0, 0, 0, 0]);
    assert_eq!(BlockHashes::expand_from(&mut reader), Err(Error::Decode));
    let mut empty = ByteReader::new(&[0, 0, 0, 0, 0, 0, 0, 5]);
    assert_eq!(BlockHashes::expand_from(&mut empty).unwrap(), BlockHashes::empty(5));
}

#[test]
fn oversized_digest_is_an_encode_error() {
    if usize::BITS > 32 {
        let hashes = BlockHashes::empty((u32::MAX as usize) + 1);
        let mut out = vec![4];
        assert_eq!(hashes.compress_to(&mut out), Err(Error::Encode));
        assert_eq!(out, vec![4]);
    }
}

#[test]
fn diff_from_scan_is_a_diff() {
    let mut hashes = BlockHashes::new(b"Starting data is a long sentence", 8);
    let diff: Diff = hashes.diff_and_update(b"Starting data is now a long sentence");
    let mut expected = Diff::new();
    expected.add_insert(16, b" now".to_vec());
    assert_eq!(diff, expected);
}
