use ypbank_parser::error::ParserError;
use ypbank_parser::format::format_txt::TxtParser;
use ypbank_parser::parser::Parser;
use ypbank_parser::storage::{YPBankRecord, YPBankRecordStatus, YPBankRecordType, YPBankStorage};

fn sample_record() -> YPBankRecord {
    YPBankRecord {
        tx_id: 44,
        tx_type: YPBankRecordType::WITHDRAWAL,
        from_user_id: 1,
        to_user_id: 2,
        amount: 500,
        timestamp: 1700000000,
        status: YPBankRecordStatus::FAILURE,
        description: "test withdrawal".to_string(),
    }
}

const SAMPLE: &str = "TX_ID: 44\nTX_TYPE: WITHDRAWAL\nFROM_USER_ID: 1\nTO_USER_ID: 2\nAMOUNT: 500\nTIMESTAMP: 1700000000\nSTATUS: FAILURE\nDESCRIPTION: \"test withdrawal\"\n";

fn encode(records: Vec<YPBankRecord>) -> Vec<u8> {
    let mut storage = YPBankStorage::new();
    for r in records {
        storage.push(r);
    }
    let mut buf = Vec::new();
    TxtParser::from_storage(storage).write_to(&mut buf).expect("write failed");
    buf
}

fn error_message(text: &str) -> String {
    match TxtParser::from_read(text.as_bytes()) {
        Err(ParserError::InvalidRecord { message }) => message,
        Err(ParserError::IO { .. }) => panic!("unexpected I/O error"),
        Ok(_) => panic!("expected an error"),
    }
}

#[test]
fn format_txt_test_write_then_read() {
    let record = sample_record();
    let mut storage = YPBankStorage::new();
    storage.push(record.clone());

    let mut buf = Vec::new();
    let parser = TxtParser::from_storage(storage);
    parser.write_to(&mut buf).expect("write failed");

    let parsed = TxtParser::from_read(&buf).expect("read failed");

    assert_eq!(parsed.records().len(), 1);
    assert_eq!(parsed.records()[0], record);
}

#[test]
fn test_read_from_text() {
    let record = sample_record();
    let text = "TX_ID: 44\nTX_TYPE: WITHDRAWAL\nFROM_USER_ID: 1\nTO_USER_ID: 2\nAMOUNT: 500\nTIMESTAMP: 1700000000\nSTATUS: FAILURE\nDESCRIPTION: \"test withdrawal\"\n";

    let parsed = TxtParser::from_read(text.as_bytes()).expect("read failed");

    assert_eq!(parsed.records().len(), 1);
    assert_eq!(parsed.records()[0], record);
}

#[test]
fn encoding_separates_blocks_by_one_blank_line() {
    let mut second = sample_record();
    second.tx_id = 45;
    let text = String::from_utf8(encode(vec![sample_record(), second])).unwrap();
    assert_eq!(text, format!("{}\n{}", SAMPLE, SAMPLE.replace("TX_ID: 44", "TX_ID: 45")));
    assert_eq!(String::from_utf8(encode(vec![sample_record()])).unwrap(), SAMPLE);
    assert!(encode(Vec::new()).is_empty());
}

#[test]
fn duplicate_key_is_named() {
    let text = format!("TX_ID: 1\n{}", SAMPLE);
    assert_eq!(error_message(&text), "duplicate field: TX_ID");
    let other = format!("{}NOTE: a\nNOTE: b\n", SAMPLE);
    assert_eq!(error_message(&other), "duplicate field: NOTE");
}

#[test]
fn missing_key_is_named() {
    let text = SAMPLE.replace("STATUS: FAILURE\n", "");
    assert_eq!(error_message(&text), "missing field: STATUS");
    assert_eq!(error_message("NOTE: only\n"), "missing field: TX_ID");
}

#[test]
fn comments_blank_lines_and_unknown_keys_are_ignored() {
    let text = format!(
        "\n\n# a comment\n{}\n\n  # another\nNOTE: extra\n{}",
        SAMPLE.replace("AMOUNT: 500\n", "AMOUNT: 500\nNOTE: x\n"),
        SAMPLE
    );
    let parsed = TxtParser::from_read(text.as_bytes()).expect("read failed");
    assert_eq!(parsed.records(), &[sample_record(), sample_record()]);
}

#[test]
fn line_without_separator_is_rejected() {
    assert_eq!(error_message("TX_ID=1\n"), "expected 'KEY: VALUE' format");
    assert_eq!(error_message("TX_ID:1\n"), "expected 'KEY: VALUE' format");
}

#[test]
fn values_may_hold_the_separator() {
    let text = SAMPLE.replace("\"test withdrawal\"", "\"a: b\"");
    let parsed = TxtParser::from_read(text.as_bytes()).expect("read failed");
    assert_eq!(parsed.records()[0].description, "a: b");
}

#[test]
fn invalid_values_are_named() {
    assert_eq!(error_message(&SAMPLE.replace("AMOUNT: 500", "AMOUNT: five")), "invalid AMOUNT");
    assert_eq!(error_message(&SAMPLE.replace("STATUS: FAILURE", "STATUS: failure")), "invalid STATUS");
    assert_eq!(
        error_message(&SAMPLE.replace("\"test withdrawal\"", "test withdrawal")),
        "DESCRIPTION must be enclosed in double quotes"
    );
}

#[test]
fn txt_records_keep_their_order() {
    let mut records = Vec::new();
    for i in 0..3u64 {
        let mut r = sample_record();
        r.tx_id = 7 * i;
        r.status = YPBankRecordStatus::PENDING;
        r.description = format!("#{} \u{3b1}", i);
        records.push(r);
    }
    let parsed = TxtParser::from_read(&encode(records.clone())).expect("read failed");
    assert_eq!(parsed.records(), &records[..]);
}
