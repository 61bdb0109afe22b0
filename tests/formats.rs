use ypbank_parser::error::CliError;
use ypbank_parser::parser::{read_format, write_format, Format};
use ypbank_parser::storage::{YPBankRecord, YPBankRecordStatus, YPBankRecordType, YPBankStorage};

fn records() -> Vec<YPBankRecord> {
    vec![
        YPBankRecord {
            tx_id: 1,
            tx_type: YPBankRecordType::DEPOSIT,
            from_user_id: 0,
            to_user_id: 9,
            amount: 250,
            timestamp: 1700000000,
            status: YPBankRecordStatus::SUCCESS,
            description: "salary, march".to_string(),
        },
        YPBankRecord {
            tx_id: 2,
            tx_type: YPBankRecordType::WITHDRAWAL,
            from_user_id: 9,
            to_user_id: 0,
            amount: 40,
            timestamp: 1700000100,
            status: YPBankRecordStatus::PENDING,
            description: "atm".to_string(),
        },
    ]
}

fn store(rs: &[YPBankRecord]) -> YPBankStorage {
    let mut s = YPBankStorage::new();
    for r in rs {
        s.push(r.clone());
    }
    s
}

#[test]
fn every_layout_converts_to_every_other() {
    for from in ["bin", "csv", "txt"] {
        let bytes = write_format(store(&records()), from).expect("write failed");
        for to in ["bin", "csv", "txt"] {
            let decoded = read_format(&bytes, from).expect("read failed");
            let out = write_format(decoded, to).expect("write failed");
            let back = read_format(&out, to).expect("read failed");
            assert_eq!(back.records(), &records()[..]);
        }
    }
}

#[test]
fn unknown_format_is_reported() {
    match read_format(b"", "binary") {
        Err(CliError::InvalidFormat { name }) => assert_eq!(name, "binary"),
        _ => panic!("expected an invalid format"),
    }
    match write_format(YPBankStorage::new(), "xml") {
        Err(CliError::InvalidFormat { name }) => assert_eq!(name, "xml"),
        _ => panic!("expected an invalid format"),
    }
    assert_eq!(Format::from_name("csv"), Some(Format::Csv));
    assert_eq!(Format::from_name("CSV"), None);
}

#[test]
fn codec_errors_are_wrapped() {
    match read_format(b"garbage", "csv") {
        Err(CliError::Parser(_)) => {}
        _ => panic!("expected a parser error"),
    }
}
