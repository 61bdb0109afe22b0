use ypbank_parser::storage::{YPBankRecord, YPBankRecordStatus, YPBankRecordType, YPBankStorage};

fn record(tx_id: u64, description: &str) -> YPBankRecord {
    YPBankRecord {
        tx_id,
        tx_type: YPBankRecordType::DEPOSIT,
        from_user_id: 1,
        to_user_id: 2,
        amount: 10,
        timestamp: 5,
        status: YPBankRecordStatus::SUCCESS,
        description: description.to_string(),
    }
}

#[test]
fn test_new_storage_is_empty() {
    let storage = YPBankStorage::new();
    assert!(storage.records().is_empty());
}

#[test]
fn test_push_record() {
    let mut storage = YPBankStorage::new();
    let record = YPBankRecord {
        tx_id: 1,
        tx_type: YPBankRecordType::DEPOSIT,
        from_user_id: 1,
        to_user_id: 2,
        amount: 100,
        timestamp: 1638224000,
        status: YPBankRecordStatus::SUCCESS,
        description: "Some deposit".to_string(),
    };
    let expected = record.clone();
    storage.push(record);
    assert_eq!(storage.records().len(), 1);
    assert_eq!(storage.records(), &[expected]);
}

#[test]
fn test_get_record() {
    let mut storage = YPBankStorage::new();
    let record = YPBankRecord {
        tx_id: 2,
        tx_type: YPBankRecordType::TRANSFER,
        from_user_id: 2,
        to_user_id: 3,
        amount: 120,
        timestamp: 1638224111,
        status: YPBankRecordStatus::PENDING,
        description: "Some pending transfer".to_string(),
    };
    let expected = record.clone();
    storage.push(record);
    assert_eq!(storage.get(0), Some(&expected));
    assert_eq!(storage.get(1), None);
}

#[test]
fn push_keeps_insertion_order() {
    let mut storage = YPBankStorage::new();
    storage.push(record(3, "c"));
    storage.push(record(1, "a"));
    storage.push(record(2, "b"));
    let ids: Vec<u64> = storage.records().iter().map(|r| r.tx_id).collect();
    assert_eq!(ids, vec![3, 1, 2]);
    assert_eq!(storage.records().len(), 3);
}

#[test]
fn containment_ignores_order_and_extra_records() {
    let r1 = record(1, "one");
    let r2 = record(2, "two");
    let r3 = record(3, "three");
    let mut a = YPBankStorage::new();
    a.push(r1.clone());
    a.push(r2.clone());
    let mut b = YPBankStorage::new();
    b.push(r2);
    b.push(r1.clone());
    b.push(r3);
    assert!(a.is_contained_in(&b));
    assert!(!b.is_contained_in(&a));
    let mut single = YPBankStorage::new();
    single.push(r1);
    assert!(!single.is_contained_in(&YPBankStorage::new()));
    assert!(YPBankStorage::new().is_contained_in(&single));
}

#[test]
fn containment_compares_every_field() {
    let mut a = YPBankStorage::new();
    a.push(record(1, "one"));
    let mut b = YPBankStorage::new();
    b.push(record(1, "One"));
    assert!(!a.is_contained_in(&b));
    let mut c = YPBankStorage::new();
    c.push(record(1, "one"));
    c.push(record(1, "one"));
    assert!(c.is_contained_in(&a));
}

#[test]
fn enum_names_and_codes() {
    assert_eq!(YPBankRecordType::WITHDRAWAL.name(), "WITHDRAWAL");
    assert_eq!(YPBankRecordStatus::PENDING.name(), "PENDING");
    let chars: Vec<char> = "TRANSFER".chars().collect();
    assert_eq!(YPBankRecordType::from_name(&chars), Some(YPBankRecordType::TRANSFER));
    let lower: Vec<char> = "transfer".chars().collect();
    assert_eq!(YPBankRecordType::from_name(&lower), None);
    assert_eq!(YPBankRecordType::from_code(2), Some(YPBankRecordType::WITHDRAWAL));
    assert_eq!(YPBankRecordStatus::from_code(3), None);
    assert_eq!(YPBankRecordStatus::FAILURE.code(), 1);
}
