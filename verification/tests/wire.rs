use sley_repo::scb::{
    decode_list, encode_bytes, encode_list, encode_record, encode_uvar, exact_array, read_record,
    read_single_uvar, Reader, RecordReader,
};

#[test]
fn varints_are_minimal_little_endian_groups() {
    assert_eq!(encode_uvar(0), vec![0x00]);
    assert_eq!(encode_uvar(127), vec![0x7f]);
    assert_eq!(encode_uvar(128), vec![0x80, 0x01]);
    assert_eq!(read_single_uvar(&encode_uvar(u64::MAX)).unwrap(), u64::MAX);
    assert_eq!(
        read_single_uvar(&[0x80, 0x00]).unwrap_err().symbol(),
        "SCB_VARINT_NON_MINIMAL"
    );
    assert_eq!(
        read_single_uvar(&[0x01, 0x00]).unwrap_err().symbol(),
        "SCB_TRAILING_BYTES"
    );
}

#[test]
fn lists_round_trip_within_their_limit() {
    let elements = vec![b"a".to_vec(), Vec::new(), b"ccc".to_vec()];
    let bytes = encode_list(&elements);
    assert_eq!(decode_list(&bytes, 3).unwrap(), elements);
    assert_eq!(
        decode_list(&bytes, 2).unwrap_err().symbol(),
        "PACK_RESOURCE_LIMIT"
    );
}

#[test]
fn records_round_trip_and_reject_reordered_fields() {
    let fields = vec![(1, b"one".to_vec()), (2, b"two".to_vec())];
    let bytes = encode_record(&fields);
    assert_eq!(
        read_record(&bytes, 2).unwrap(),
        vec![b"one".to_vec(), b"two".to_vec()]
    );
    let swapped = encode_record(&vec![(2, b"two".to_vec()), (1, b"one".to_vec())]);
    assert!(read_record(&swapped, 2).is_err());
    let mut record = RecordReader::new(&bytes).unwrap();
    assert_eq!(record.required(1).unwrap(), b"one".to_vec());
    assert_eq!(
        record.required(3).unwrap_err().symbol(),
        "SCB_FIELD_UNKNOWN"
    );
}

#[test]
fn readers_take_exact_prefixes() {
    let bytes = encode_bytes(b"xyz");
    let mut reader = Reader::new(&bytes);
    assert_eq!(reader.remaining(), 4);
    assert_eq!(reader.read_bytes().unwrap(), b"xyz".to_vec());
    assert!(reader.is_finished());
    assert!(exact_array(&[5u8; 32]).is_ok());
    assert_eq!(
        exact_array(&[5u8; 31]).unwrap_err().symbol(),
        "SCB_LENGTH_OVERFLOW"
    );
}
