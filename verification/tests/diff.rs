use rdiff::{ByteReader, Delete, Diff, Error, Insert};

#[test]
fn applying_diff_to_string() {
    let string = "Mr. and Mrs. Dursley, of number four, Privet Drive, were proud to say that they were perfectly normal, thank you very much. They were the last people you'd expect to be involved in anything strange or mysterious, because they just didn't hold with such nonsense.";
    let mut diff = Diff::new();
    diff.add_insert(2, vec![115]); // 's'
    diff.add_insert(37, vec![116, 121]); //'ty'
    diff.add_insert(98, vec![97, 98]); // ab
    diff.add_insert(253, vec![109]); // m
    diff.add_delete(35, 1); // 'u'
    diff.add_delete(181, 34);
    diff.add_delete(219, 1);
    let result = diff.apply_to_string(string).unwrap();
    assert_eq!(result, "Mrs. and Mrs. Dursley, of number forty, Privet Drive, were proud to say that they were perfectly abnormal, thank you very much. They were the last people you'd expect to be involved, because they just didn't hold with much nonsense.".to_string());
}

#[test]
fn new_diff_is_empty() {
    let diff = Diff::new();
    assert!(diff.is_empty());
    assert_eq!(diff.inserts().len(), 0);
    assert_eq!(diff.deletes().len(), 0);
    assert_eq!(diff.apply_to_bytes(b"unchanged").unwrap(), b"unchanged".to_vec());
}

#[test]
fn adjacent_inserts_are_merged() {
    let mut diff = Diff::new();
    diff.add_insert(3, vec![1, 2]);
    diff.add_insert(5, vec![3]);
    diff.add_insert(7, vec![4]);
    assert!(!diff.is_empty());
    assert_eq!(diff.inserts(), &vec![Insert::new(vec![1, 2, 3], 3), Insert::new(vec![4], 7)]);
}

#[test]
fn deletes_at_one_position_are_merged() {
    let mut diff = Diff::new();
    diff.add_delete(4, 2);
    diff.add_delete(4, 5);
    diff.add_delete(6, 1);
    assert!(!diff.is_empty());
    assert_eq!(diff.deletes(), &vec![Delete::new(4, 7), Delete::new(6, 1)]);
}

#[test]
fn getters_give_back_what_was_built() {
    let insert = Insert::new(vec![9, 8, 7], 12);
    assert_eq!(insert.get_position(), 12);
    assert_eq!(insert.get_data(), &vec![9, 8, 7]);
    let delete = Delete::new(5, 40);
    assert_eq!(delete.get_position(), 5);
    assert_eq!(delete.get_length(), 40);
}

#[test]
fn apply_inserts_then_deletes() {
    let mut diff = Diff::new();
    diff.add_insert(2, b"XY".to_vec());
    diff.add_delete(5, 2);
    // "abcdefgh" -> "abXYcdefgh" -> "abXYcfgh"
    assert_eq!(diff.apply_to_bytes(b"abcdefgh").unwrap(), b"abXYcfgh".to_vec());
}

#[test]
fn apply_insert_at_the_very_end() {
    let mut diff = Diff::new();
    diff.add_insert(3, b"!".to_vec());
    assert_eq!(diff.apply_to_bytes(b"abc").unwrap(), b"abc!".to_vec());
}

#[test]
fn apply_fails_when_an_insert_lies_beyond_the_end() {
    let mut diff = Diff::new();
    diff.add_insert(4, b"!".to_vec());
    assert_eq!(diff.apply_to_bytes(b"abc"), Err(Error::Apply));
}

#[test]
fn apply_fails_when_a_delete_lies_beyond_the_end() {
    let mut diff = Diff::new();
    diff.add_delete(4, 1);
    assert_eq!(diff.apply_to_bytes(b"abc"), Err(Error::Apply));
}

#[test]
fn apply_fails_when_a_delete_runs_over_the_end() {
    let mut diff = Diff::new();
    diff.add_delete(1, 3);
    assert_eq!(diff.apply_to_bytes(b"abc"), Err(Error::Apply));
    let mut exact = Diff::new();
    exact.add_delete(1, 2);
    assert_eq!(exact.apply_to_bytes(b"abc").unwrap(), b"a".to_vec());
}

#[test]
fn apply_to_string_fails_on_invalid_utf8() {
    let mut diff = Diff::new();
    diff.add_insert(1, vec![0xff]);
    assert_eq!(diff.apply_to_string("ab"), Err(Error::Apply));
    assert_eq!(diff.apply_to_bytes(b"ab").unwrap(), vec![b'a', 0xff, b'b']);
}

#[test]
fn apply_to_string_keeps_multibyte_characters() {
    let mut diff = Diff::new();
    diff.add_insert(3, "é".as_bytes().to_vec());
    assert_eq!(diff.apply_to_string("hé").unwrap(), "héé".to_string());
    let mut splitting = Diff::new();
    splitting.add_insert(2, "é".as_bytes().to_vec());
    assert_eq!(splitting.apply_to_string("hé"), Err(Error::Apply));
}

#[test]
fn insert_encoding_is_position_length_bytes() {
    let insert = Insert::new(vec![0xaa, 0xbb, 0xcc], 0x01020304);
    let mut out = vec![0x55];
    insert.compress_to(&mut out).unwrap();
    assert_eq!(out, vec![0x55, 1, 2, 3, 4, 0, 0, 0, 3, 0xaa, 0xbb, 0xcc]);
    let mut reader = ByteReader::new(&out[1..]);
    assert_eq!(Insert::expand_from(&mut reader).unwrap(), insert);
    assert_eq!(reader.remaining_len(), 0);
}

#[test]
fn delete_encoding_is_position_length() {
    let delete = Delete::new(258, 65536);
    let mut out = Vec::new();
    delete.compress_to(&mut out).unwrap();
    assert_eq!(out, vec![0, 0, 1, 2, 0, 1, 0, 0]);
    out.push(77);
    let mut reader = ByteReader::new(&out);
    assert_eq!(Delete::expand_from(&mut reader).unwrap(), delete);
    assert_eq!(reader.remaining_len(), 1);
}

#[test]
fn diff_encoding_round_trip() {
    let mut diff = Diff::new();
    diff.add_insert(2, vec![115]);
    diff.add_insert(37, vec![116, 121]);
    diff.add_delete(35, 1);
    diff.add_delete(181, 34);
    diff.add_delete(219, 1);
    let mut out = Vec::new();
    diff.compress_to(&mut out).unwrap();
    assert_eq!(
        out,
        vec![
            0, 0, 0, 2, // two inserts
            0, 0, 0, 2, 0, 0, 0, 1, 115, //
            0, 0, 0, 37, 0, 0, 0, 2, 116, 121, //
            0, 0, 0, 3, // three deletes
            0, 0, 0, 35, 0, 0, 0, 1, //
            0, 0, 0, 181, 0, 0, 0, 34, //
            0, 0, 0, 219, 0, 0, 0, 1,
        ]
    );
    let mut reader = ByteReader::new(&out);
    let back = Diff::expand_from(&mut reader).unwrap();
    assert_eq!(back, diff);
    assert_eq!(reader.remaining_len(), 0);
}

#[test]
fn empty_diff_encoding() {
    let diff = Diff::new();
    let mut out = Vec::new();
    diff.compress_to(&mut out).unwrap();
    assert_eq!(out, vec![0, 0, 0, 0, 0, 0, 0, 0]);
    let mut reader = ByteReader::new(&out);
    assert!(Diff::expand_from(&mut reader).unwrap().is_empty());
}

#[test]
fn truncated_input_is_a_decode_error() {
    let mut diff = Diff::new();
    diff.add_insert(2, vec![1, 2, 3]);
    diff.add_delete(9, 4);
    let mut out = Vec::new();
    diff.compress_to(&mut out).unwrap();
    for cut in 0..out.len() {
        let mut reader = ByteReader::new(&out[..cut]);
        assert_eq!(Diff::expand_from(&mut reader), Err(Error::Decode));
    }
    let mut short_insert = ByteReader::new(&[0, 0, 0, 1, 0, 0, 0, 5, 1, 2, 3, 4]);
    assert_eq!(Insert::expand_from(&mut short_insert), Err(Error::Decode));
    let mut short_delete = ByteReader::new(&[0, 0, 0, 1, 0, 0, 0]);
    assert_eq!(Delete::expand_from(&mut short_delete), Err(Error::Decode));
}

#[test]
fn oversized_values_are_an_encode_error() {
    if usize::BITS > 32 {
        let too_far = (u32::MAX as usize) + 1;
        let mut out = vec![7];
        assert_eq!(Insert::new(vec![1], too_far).compress_to(&mut out), Err(Error::Encode));
        assert_eq!(Delete::new(too_far, 1).compress_to(&mut out), Err(Error::Encode));
        assert_eq!(Delete::new(1, too_far).compress_to(&mut out), Err(Error::Encode));
        let mut diff = Diff::new();
        diff.add_insert(1, vec![1]);
        diff.add_delete(too_far, 1);
        assert_eq!(diff.compress_to(&mut out), Err(Error::Encode));
        assert_eq!(out, vec![7]);
    }
}

#[test]
fn reader_reads_big_endian_numbers() {
    let bytes = [0x12u8, 0x34, 0x56, 0x78, 9, 10];
    let mut reader = ByteReader::new(&bytes);
    assert_eq!(reader.remaining_len(), 6);
    assert_eq!(reader.read_u32(), Some(0x12345678));
    assert_eq!(reader.read_u32(), None);
    assert_eq!(reader.read_exact(3), None);
    assert_eq!(reader.read_exact(2), Some(vec![9, 10]));
    assert_eq!(reader.remaining_len(), 0);
    let mut out = Vec::new();
    rdiff::wire::put_u32(&mut out, 0x12345678);
    assert_eq!(out, vec![0x12, 0x34, 0x56, 0x78]);
}
