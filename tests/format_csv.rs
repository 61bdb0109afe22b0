use ypbank_parser::error::ParserError;
use ypbank_parser::format::format_csv::CsvParser;
use ypbank_parser::parser::Parser;
use ypbank_parser::storage::{YPBankRecord, YPBankRecordStatus, YPBankRecordType, YPBankStorage};

const HEADER: &str = "TX_ID,TX_TYPE,FROM_USER_ID,TO_USER_ID,AMOUNT,TIMESTAMP,STATUS,DESCRIPTION\n";

fn sample_record() -> YPBankRecord {
    YPBankRecord {
        tx_id: 43,
        tx_type: YPBankRecordType::TRANSFER,
        from_user_id: 1,
        to_user_id: 2,
        amount: 500,
        timestamp: 1700000000,
        status: YPBankRecordStatus::SUCCESS,
        description: "test transfer".to_string(),
    }
}

fn encode(records: Vec<YPBankRecord>) -> Vec<u8> {
    let mut storage = YPBankStorage::new();
    for r in records {
        storage.push(r);
    }
    let mut buf = Vec::new();
    CsvParser::from_storage(storage).write_to(&mut buf).expect("write failed");
    buf
}

fn error_message(text: &str) -> String {
    match CsvParser::from_read(text.as_bytes()) {
        Err(ParserError::InvalidRecord { message }) => message,
        Err(ParserError::IO { .. }) => panic!("unexpected I/O error"),
        Ok(_) => panic!("expected an error"),
    }
}

#[test]
fn format_csv_test_write_then_read() {
    let record = sample_record();
    let mut storage = YPBankStorage::new();
    storage.push(record.clone());

    let mut buf = Vec::new();
    let parser = CsvParser::from_storage(storage);
    parser.write_to(&mut buf).expect("write failed");

    let parsed = CsvParser::from_read(&buf).expect("read failed");

    assert_eq!(parsed.records().len(), 1);
    assert_eq!(parsed.records()[0], record);
}

#[test]
fn test_read_from_csv() {
    let record = sample_record();
    let text = "TX_ID,TX_TYPE,FROM_USER_ID,TO_USER_ID,AMOUNT,TIMESTAMP,STATUS,DESCRIPTION\n43,TRANSFER,1,2,500,1700000000,SUCCESS,\"test transfer\"\n";

    let parsed = CsvParser::from_read(text.as_bytes()).expect("read failed");

    assert_eq!(parsed.records().len(), 1);
    assert_eq!(parsed.records()[0], record);
}

#[test]
fn encoding_is_header_then_one_line_per_record() {
    let text = String::from_utf8(encode(vec![sample_record()])).unwrap();
    assert_eq!(
        text,
        format!("{}43,TRANSFER,1,2,500,1700000000,SUCCESS,\"test transfer\"\n", HEADER)
    );
    let empty = String::from_utf8(encode(Vec::new())).unwrap();
    assert_eq!(empty, HEADER);
}

#[test]
fn short_line_fails_at_first_missing_field() {
    let text = format!("{}43,TRANSFER,1\n", HEADER);
    assert_eq!(error_message(&text), "missing TO_USER_ID");
    let seven = format!("{}43,TRANSFER,1,2,500,1700000000,SUCCESS\n", HEADER);
    assert_eq!(error_message(&seven), "missing DESCRIPTION");
}

#[test]
fn comma_in_description_is_kept() {
    let text = format!("{}43,TRANSFER,1,2,500,1700000000,SUCCESS,\"a, b, c\"\n", HEADER);
    let parsed = CsvParser::from_read(text.as_bytes()).expect("read failed");
    assert_eq!(parsed.records()[0].description, "a, b, c");
    let mut record = sample_record();
    record.description = "x,y".to_string();
    let parsed = CsvParser::from_read(&encode(vec![record.clone()])).expect("read failed");
    assert_eq!(parsed.records()[0], record);
}

#[test]
fn header_must_match() {
    assert_eq!(error_message(""), "invalid CSV header");
    assert_eq!(error_message("TX_ID,TX_TYPE\n"), "invalid CSV header");
    assert!(CsvParser::from_read(HEADER.as_bytes()).unwrap().records().is_empty());
    let padded = "  TX_ID,TX_TYPE,FROM_USER_ID,TO_USER_ID,AMOUNT,TIMESTAMP,STATUS,DESCRIPTION\n";
    assert_eq!(error_message(padded), "invalid CSV header");
    let trailing = "TX_ID,TX_TYPE,FROM_USER_ID,TO_USER_ID,AMOUNT,TIMESTAMP,STATUS,DESCRIPTION \n";
    assert_eq!(error_message(trailing), "invalid CSV header");
    let crlf = "TX_ID,TX_TYPE,FROM_USER_ID,TO_USER_ID,AMOUNT,TIMESTAMP,STATUS,DESCRIPTION\r\n";
    assert_eq!(error_message(crlf), "invalid CSV header");
}

#[test]
fn blank_lines_are_skipped() {
    let text = format!(
        "{}\n   \n43,TRANSFER,1,2,500,1700000000,SUCCESS,\"test transfer\"\n\n",
        HEADER
    );
    let parsed = CsvParser::from_read(text.as_bytes()).expect("read failed");
    assert_eq!(parsed.records(), &[sample_record()]);
}

#[test]
fn fields_are_trimmed() {
    let text = format!(
        "{} 43 ,\tTRANSFER , 1,2 ,500,1700000000, SUCCESS ,  \"test transfer\"  \r\n",
        HEADER
    );
    let parsed = CsvParser::from_read(text.as_bytes()).expect("read failed");
    assert_eq!(parsed.records(), &[sample_record()]);
}

#[test]
fn invalid_fields_are_named() {
    let bad_id = format!("{}x,TRANSFER,1,2,500,1,SUCCESS,\"d\"\n", HEADER);
    assert_eq!(error_message(&bad_id), "invalid TX_ID");
    let bad_type = format!("{}1,transfer,1,2,500,1,SUCCESS,\"d\"\n", HEADER);
    assert_eq!(error_message(&bad_type), "invalid TX_TYPE");
    let bad_amount = format!("{}1,TRANSFER,1,2,-5,1,SUCCESS,\"d\"\n", HEADER);
    assert_eq!(error_message(&bad_amount), "invalid AMOUNT");
    let overflow = format!("{}1,TRANSFER,1,2,18446744073709551616,1,SUCCESS,\"d\"\n", HEADER);
    assert_eq!(error_message(&overflow), "invalid AMOUNT");
    let bad_status = format!("{}1,TRANSFER,1,2,5,1,DONE,\"d\"\n", HEADER);
    assert_eq!(error_message(&bad_status), "invalid STATUS");
    let bad_desc = format!("{}1,TRANSFER,1,2,5,1,SUCCESS,d\n", HEADER);
    assert_eq!(error_message(&bad_desc), "DESCRIPTION must be enclosed in double quotes");
    let lone_quote = format!("{}1,TRANSFER,1,2,5,1,SUCCESS,\"\n", HEADER);
    assert_eq!(error_message(&lone_quote), "DESCRIPTION must be enclosed in double quotes");
}

#[test]
fn numbers_take_a_plus_sign_and_the_full_range() {
    let text = format!("{}+7,DEPOSIT,0,18446744073709551615,0,0,PENDING,\"\"\n", HEADER);
    let parsed = CsvParser::from_read(text.as_bytes()).expect("read failed");
    let r = &parsed.records()[0];
    assert_eq!(r.tx_id, 7);
    assert_eq!(r.to_user_id, u64::MAX);
    assert_eq!(r.description, "");
}

#[test]
fn invalid_utf8_is_rejected() {
    let mut bytes = HEADER.as_bytes().to_vec();
    bytes.extend_from_slice(&[0xC3, 0x28]);
    match CsvParser::from_read(&bytes) {
        Err(ParserError::InvalidRecord { message }) => assert_eq!(message, "input is not valid UTF-8"),
        _ => panic!("expected an error"),
    }
}

#[test]
fn csv_records_keep_their_order() {
    let mut records = Vec::new();
    for i in 0..4u64 {
        let mut r = sample_record();
        r.tx_id = 100 - i;
        r.description = format!("n\u{e9}{}", i);
        records.push(r);
    }
    let parsed = CsvParser::from_read(&encode(records.clone())).expect("read failed");
    assert_eq!(parsed.records(), &records[..]);
}
