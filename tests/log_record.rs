use flash_kv::batch::{log_record_key_with_seq, parse_log_record_key};
use flash_kv::errors::Errors;
use flash_kv::log_record::{
    decode_log_record, decode_log_record_pos, LogRecord, LogRecordPos, LogRecordType,
};

#[test]
fn test_log_record_encode_and_get_crc() {
    let verify_crc = |record: &LogRecord| {
        let encoded_data = record.encode();
        let len = encoded_data.len();
        assert!(len > 4, "Encoded data should be longer than CRC length");

        let payload = &encoded_data[0..len - 4];
        let stored_crc_bytes: [u8; 4] = encoded_data[len - 4..].try_into().unwrap();
        let stored_crc = u32::from_be_bytes(stored_crc_bytes);

        let mut hasher = crc32fast::Hasher::new();
        hasher.update(payload);
        let calculated_crc = hasher.finalize();

        assert_eq!(calculated_crc, stored_crc, "CRC mismatch for record: {:?}", record);
        assert_eq!(record.get_crc(), stored_crc, "get_crc() mismatch for record: {:?}", record);
    };

    let rec1 = LogRecord {
        key: "key-a".as_bytes().to_vec(),
        value: "value-a".as_bytes().to_vec(),
        rec_type: LogRecordType::Normal,
    };
    verify_crc(&rec1);

    let rec2 = LogRecord {
        key: "flash-kv".as_bytes().to_vec(),
        value: vec![],
        rec_type: LogRecordType::Normal,
    };
    verify_crc(&rec2);

    let rec3 = LogRecord {
        key: "key-b".as_bytes().to_vec(),
        value: "value-b".as_bytes().to_vec(),
        rec_type: LogRecordType::Deleted,
    };
    verify_crc(&rec3);
}

#[test]
fn test_data_file_read_log_record() {
    let mut data: Vec<u8> = Vec::new();
    let enc1 = LogRecord {
        key: "key-a".as_bytes().to_vec(),
        value: "value-a".as_bytes().to_vec(),
        rec_type: LogRecordType::Normal,
    };
    data.extend_from_slice(&enc1.encode());

    let read_res1 = decode_log_record(&data, 0);
    assert!(read_res1.is_ok());
    let read_enc1 = read_res1.ok().unwrap();
    assert_eq!(enc1.key, read_enc1.record.key);
    assert_eq!(enc1.value, read_enc1.record.value);
    assert_eq!(enc1.rec_type, read_enc1.record.rec_type);

    let enc2 = LogRecord {
        key: "key-b".as_bytes().to_vec(),
        value: "value-b".as_bytes().to_vec(),
        rec_type: LogRecordType::Normal,
    };
    let enc3 = LogRecord {
        key: "key-c".as_bytes().to_vec(),
        value: "value-c".as_bytes().to_vec(),
        rec_type: LogRecordType::Normal,
    };
    data.extend_from_slice(&enc2.encode());
    data.extend_from_slice(&enc3.encode());

    let read_res2 = decode_log_record(&data, 19);
    assert!(read_res2.is_ok());
    let read_enc2 = read_res2.ok().unwrap();
    assert_eq!(enc2.key, read_enc2.record.key);
    assert_eq!(enc2.value, read_enc2.record.value);
    assert_eq!(enc2.rec_type, read_enc2.record.rec_type);

    let read_res3 = decode_log_record(&data, 19 + read_enc2.size as u64);
    assert!(read_res3.is_ok());
    let read_enc3 = read_res3.ok().unwrap();
    assert_eq!(enc3.key, read_enc3.record.key);
    assert_eq!(enc3.value, read_enc3.record.value);
    assert_eq!(enc3.rec_type, read_enc3.record.rec_type);

    let enc4 = LogRecord {
        key: "key-d".as_bytes().to_vec(),
        value: "value-d".as_bytes().to_vec(),
        rec_type: LogRecordType::Deleted,
    };
    data.extend_from_slice(&enc4.encode());

    let read_res4 = decode_log_record(&data, 19 + read_enc2.size as u64 + read_enc3.size as u64);
    assert!(read_res4.is_ok());
    let read_enc4 = read_res4.ok().unwrap();
    assert_eq!(enc4.key, read_enc4.record.key);
    assert_eq!(enc4.value, read_enc4.record.value);
    assert_eq!(enc4.rec_type, read_enc4.record.rec_type);
}

#[test]
fn encode_has_exact_layout() {
    let rec = LogRecord { key: b"ab".to_vec(), value: b"xyz".to_vec(), rec_type: LogRecordType::Deleted };
    let bytes = rec.encode();
    assert_eq!(&bytes[..8], &[2u8, 2, 3, b'a', b'b', b'x', b'y', b'z']);
    assert_eq!(bytes.len(), 12);
    assert_eq!(rec.encoded_length(), 12);
    let crc = crc32fast::hash(&bytes[..8]);
    assert_eq!(&bytes[8..], &crc.to_be_bytes());
    assert_eq!(rec.get_crc(), crc);
}

#[test]
fn long_lengths_use_several_varint_bytes() {
    let rec = LogRecord { key: vec![7u8; 200], value: vec![9u8; 300], rec_type: LogRecordType::Normal };
    let bytes = rec.encode();
    assert_eq!(&bytes[..5], &[1u8, 0xC8, 0x01, 0xAC, 0x02]);
    assert_eq!(bytes.len(), 5 + 200 + 300 + 4);
    let back = decode_log_record(&bytes, 0).unwrap();
    assert_eq!(back.record.key, vec![7u8; 200]);
    assert_eq!(back.record.value, vec![9u8; 300]);
    assert_eq!(back.size, bytes.len());
}

#[test]
fn decode_past_end_is_eof() {
    let rec = LogRecord { key: b"k".to_vec(), value: b"v".to_vec(), rec_type: LogRecordType::Normal };
    let bytes = rec.encode();
    assert_eq!(decode_log_record(&bytes, bytes.len() as u64).unwrap_err(), Errors::ReadDataFileEOF);
    assert_eq!(decode_log_record(&[], 0).unwrap_err(), Errors::ReadDataFileEOF);
}

#[test]
fn decode_zero_padding_is_eof() {
    let zeros = vec![0u8; 32];
    assert_eq!(decode_log_record(&zeros, 0).unwrap_err(), Errors::ReadDataFileEOF);
}

#[test]
fn decode_truncated_record_is_eof() {
    let rec = LogRecord { key: b"key".to_vec(), value: b"value".to_vec(), rec_type: LogRecordType::Normal };
    let bytes = rec.encode();
    assert_eq!(decode_log_record(&bytes[..bytes.len() - 1], 0).unwrap_err(), Errors::ReadDataFileEOF);
}

#[test]
fn decode_flipped_byte_fails_crc() {
    let rec = LogRecord { key: b"key".to_vec(), value: b"value".to_vec(), rec_type: LogRecordType::Normal };
    let bytes = rec.encode();
    for i in 3..bytes.len() {
        let mut bad = bytes.clone();
        bad[i] ^= 0x20;
        assert_eq!(decode_log_record(&bad, 0).unwrap_err(), Errors::InvalidLogRecordCrc);
    }
}

#[test]
fn decode_unknown_type_byte_fails() {
    let mut body = vec![9u8, 1, 1, b'k', b'v'];
    let crc = crc32fast::hash(&body);
    body.extend_from_slice(&crc.to_be_bytes());
    assert_eq!(decode_log_record(&body, 0).unwrap_err(), Errors::InvalidLogRecordCrc);
}

#[test]
fn record_type_bytes() {
    assert_eq!(LogRecordType::from_u8(1), LogRecordType::Normal);
    assert_eq!(LogRecordType::from_u8(2), LogRecordType::Deleted);
    assert_eq!(LogRecordType::from_u8(3), LogRecordType::TxnFinished);
    assert_eq!(LogRecordType::try_from_u8(0), None);
    assert_eq!(LogRecordType::try_from_u8(4), None);
    assert_eq!(LogRecordType::TxnFinished.to_u8(), 3);
}

#[test]
fn position_round_trip() {
    let pos = LogRecordPos { file_id: 300, offset: 1 << 40, size: 77 };
    let bytes = pos.encode();
    assert_eq!(&bytes[..2], &[0xAC, 0x02]);
    assert_eq!(decode_log_record_pos(bytes), Some(pos));
    let small = LogRecordPos { file_id: 1, offset: 2, size: 3 };
    assert_eq!(small.encode(), vec![1u8, 2, 3]);
    assert_eq!(decode_log_record_pos(vec![1u8, 2]), None);
    assert_eq!(decode_log_record_pos(vec![0x80u8, 0x80, 0x80, 0x80, 0x80, 0x01, 0, 0]), None);
}

#[test]
fn key_with_sequence_number() {
    let k = log_record_key_with_seq(b"hello", 300);
    assert_eq!(k, vec![0xAC, 0x02, b'h', b'e', b'l', b'l', b'o']);
    assert_eq!(parse_log_record_key(&k), Some((b"hello".to_vec(), 300)));
    let k0 = log_record_key_with_seq(b"x", 0);
    assert_eq!(k0, vec![0u8, b'x']);
    assert_eq!(parse_log_record_key(&k0), Some((b"x".to_vec(), 0)));
    assert_eq!(parse_log_record_key(&[]), None);
}

#[test]
fn decode_short_tail_is_eof() {
    let garbage = vec![1u8, 5, 5, 9, 9];
    assert_eq!(decode_log_record(&garbage, 0).unwrap_err(), Errors::ReadDataFileEOF);
}
