use ypbank_parser::error::ParserError;
use ypbank_parser::format::format_bin::BinParser;
use ypbank_parser::parser::Parser;
use ypbank_parser::storage::{YPBankRecord, YPBankRecordStatus, YPBankRecordType, YPBankStorage};

const MAGIC: [u8; 4] = [0x59, 0x50, 0x42, 0x4E];

fn sample_record() -> YPBankRecord {
    YPBankRecord {
        tx_id: 42,
        tx_type: YPBankRecordType::DEPOSIT,
        from_user_id: 1,
        to_user_id: 2,
        amount: 1000,
        timestamp: 1700000001,
        status: YPBankRecordStatus::PENDING,
        description: "test deposit".to_string(),
    }
}

fn body_of(record: &YPBankRecord, signed_amount: i64, type_code: u8, status_code: u8) -> Vec<u8> {
    let desc = record.description.as_bytes();
    let mut out = Vec::new();
    out.extend_from_slice(&record.tx_id.to_be_bytes());
    out.push(type_code);
    out.extend_from_slice(&record.from_user_id.to_be_bytes());
    out.extend_from_slice(&record.to_user_id.to_be_bytes());
    out.extend_from_slice(&signed_amount.to_be_bytes());
    out.extend_from_slice(&record.timestamp.to_be_bytes());
    out.push(status_code);
    out.extend_from_slice(&(desc.len() as u32).to_be_bytes());
    out.extend_from_slice(desc);
    out
}

fn frame(body: &[u8]) -> Vec<u8> {
    let mut data = Vec::new();
    data.extend_from_slice(&MAGIC);
    data.extend_from_slice(&(body.len() as u32).to_be_bytes());
    data.extend_from_slice(body);
    data
}

fn encode(records: Vec<YPBankRecord>) -> Vec<u8> {
    let mut storage = YPBankStorage::new();
    for r in records {
        storage.push(r);
    }
    let mut buf = Vec::new();
    BinParser::from_storage(storage).write_to(&mut buf).expect("write failed");
    buf
}

fn error_message(result: Result<YPBankStorage, ParserError>) -> String {
    match result {
        Err(ParserError::InvalidRecord { message }) => message,
        Err(ParserError::IO { .. }) => panic!("unexpected I/O error"),
        Ok(_) => panic!("expected an error"),
    }
}

#[test]
fn format_bin_test_write_then_read() {
    let record = sample_record();
    let mut storage = YPBankStorage::new();
    storage.push(record.clone());

    let mut buf = Vec::new();
    let parser = BinParser::from_storage(storage);
    parser.write_to(&mut buf).expect("write failed");

    let parsed = BinParser::from_read(&buf).expect("read failed");

    assert_eq!(parsed.records().len(), 1);
    assert_eq!(parsed.records()[0], record);
}

#[test]
fn test_read_from_binary() {
    let record = sample_record();

    let body = body_of(&record, 1000, 0, 2);
    let data = frame(&body);

    let parsed = BinParser::from_read(&data).expect("read failed");

    assert_eq!(parsed.records().len(), 1);
    assert_eq!(parsed.records()[0], record);
}

#[test]
fn encoding_matches_the_layout_byte_for_byte() {
    let record = sample_record();
    let expected = frame(&body_of(&record, 1000, 0, 2));
    assert_eq!(encode(vec![record]), expected);
    assert_eq!(expected.len(), 8 + 46 + 12);
}

#[test]
fn withdrawal_amount_is_written_negative() {
    let mut record = sample_record();
    record.tx_type = YPBankRecordType::WITHDRAWAL;
    record.amount = 500;
    let bytes = encode(vec![record.clone()]);
    let field: [u8; 8] = bytes[8 + 25..8 + 33].try_into().unwrap();
    assert_eq!(i64::from_be_bytes(field), -500);
    let parsed = BinParser::from_read(&bytes).expect("read failed");
    assert_eq!(parsed.records()[0].amount, 500);
    assert_eq!(parsed.records()[0].tx_type, YPBankRecordType::WITHDRAWAL);
}

#[test]
fn deposit_and_transfer_amounts_are_written_positive() {
    for t in [YPBankRecordType::DEPOSIT, YPBankRecordType::TRANSFER] {
        let mut record = sample_record();
        record.tx_type = t;
        record.amount = 500;
        let bytes = encode(vec![record.clone()]);
        let field: [u8; 8] = bytes[8 + 25..8 + 33].try_into().unwrap();
        assert_eq!(i64::from_be_bytes(field), 500);
        let parsed = BinParser::from_read(&bytes).expect("read failed");
        assert_eq!(parsed.records()[0], record);
    }
}

#[test]
fn negative_amount_on_read_gives_its_magnitude() {
    let record = sample_record();
    let data = frame(&body_of(&record, -1000, 0, 2));
    let parsed = BinParser::from_read(&data).expect("read failed");
    assert_eq!(parsed.records()[0].amount, 1000);
    assert_eq!(parsed.records()[0].tx_type, YPBankRecordType::DEPOSIT);
}

#[test]
fn largest_withdrawal_round_trips() {
    let mut record = sample_record();
    record.tx_type = YPBankRecordType::WITHDRAWAL;
    record.amount = 1u64 << 63;
    let bytes = encode(vec![record.clone()]);
    let parsed = BinParser::from_read(&bytes).expect("read failed");
    assert_eq!(parsed.records()[0], record);
}

#[test]
fn empty_input_is_an_empty_store() {
    let parsed = BinParser::from_read(&[]).expect("read failed");
    assert!(parsed.records().is_empty());
}

#[test]
fn fewer_than_four_trailing_bytes_end_the_stream() {
    let mut data = encode(vec![sample_record()]);
    data.extend_from_slice(&[0x59, 0x50]);
    let parsed = BinParser::from_read(&data).expect("read failed");
    assert_eq!(parsed.records().len(), 1);
}

#[test]
fn wrong_magic_is_a_header_error() {
    let mut data = encode(vec![sample_record()]);
    data[0] = 0x00;
    assert_eq!(error_message(BinParser::from_read(&data)), "invalid record header");
}

#[test]
fn missing_length_is_a_truncated_field() {
    let data = vec![0x59, 0x50, 0x42, 0x4E, 0x00];
    assert_eq!(error_message(BinParser::from_read(&data)), "truncated field");
}

#[test]
fn short_body_is_rejected() {
    let mut data = encode(vec![sample_record()]);
    data.pop();
    assert_eq!(error_message(BinParser::from_read(&data)), "invalid record body");
}

#[test]
fn body_errors_are_distinct() {
    let record = sample_record();
    let good = body_of(&record, 1000, 0, 2);
    assert_eq!(error_message(BinParser::from_read(&frame(&good[..5]))), "truncated field");
    assert_eq!(error_message(BinParser::from_read(&frame(&good[..8]))), "truncated TX_TYPE");
    assert_eq!(error_message(BinParser::from_read(&frame(&good[..20]))), "truncated field");
    assert_eq!(error_message(BinParser::from_read(&frame(&good[..41]))), "truncated STATUS");
    assert_eq!(error_message(BinParser::from_read(&frame(&good[..44]))), "truncated field");
    assert_eq!(
        error_message(BinParser::from_read(&frame(&good[..50]))),
        "DESCRIPTION length exceeds body"
    );
    let bad_type = body_of(&record, 1000, 3, 2);
    assert_eq!(error_message(BinParser::from_read(&frame(&bad_type))), "invalid TX_TYPE");
    let bad_status = body_of(&record, 1000, 0, 9);
    assert_eq!(error_message(BinParser::from_read(&frame(&bad_status))), "invalid STATUS");
    let mut bad_utf8 = body_of(&record, 1000, 0, 2);
    let last = bad_utf8.len() - 1;
    bad_utf8[last] = 0xFF;
    assert_eq!(
        error_message(BinParser::from_read(&frame(&bad_utf8))),
        "DESCRIPTION is not valid UTF-8"
    );
}

#[test]
fn one_enclosing_quote_pair_is_removed() {
    let mut record = sample_record();
    record.description = "\"quoted\"".to_string();
    let parsed = BinParser::from_read(&encode(vec![record])).expect("read failed");
    assert_eq!(parsed.records()[0].description, "quoted");

    let mut twice = sample_record();
    twice.description = "\"\"both\"\"".to_string();
    let parsed = BinParser::from_read(&encode(vec![twice])).expect("read failed");
    assert_eq!(parsed.records()[0].description, "\"both\"");

    let mut unbalanced = sample_record();
    unbalanced.description = "\"open".to_string();
    let parsed = BinParser::from_read(&encode(vec![unbalanced])).expect("read failed");
    assert_eq!(parsed.records()[0].description, "\"open");
}

#[test]
fn unicode_description_round_trips() {
    let mut record = sample_record();
    record.description = "caf\u{e9} \u{1F600}, ok".to_string();
    let parsed = BinParser::from_read(&encode(vec![record.clone()])).expect("read failed");
    assert_eq!(parsed.records()[0], record);
}

#[test]
fn records_keep_their_order() {
    let mut records = Vec::new();
    for i in 0..3u64 {
        let mut r = sample_record();
        r.tx_id = 10 - i;
        r.description = format!("record {}", i);
        records.push(r);
    }
    let bytes = encode(records.clone());
    let parsed = BinParser::from_read(&bytes).expect("read failed");
    assert_eq!(parsed.records(), &records[..]);
}
