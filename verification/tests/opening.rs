use finance_store::date::Date;
use finance_store::encrypted_store::{open_or_create, Snapshot, StoreFile, StoreHandle};
use finance_store::error::InitializationError;
use finance_store::reference_catalog::LookupKind;
use finance_store::transaction::{Amount, Cursor, Transaction};
use finance_store::transaction_repository::Store;

fn stored(id: i64, day: u32, name: &str, tags: &[&str]) -> Transaction {
    Transaction {
        id: Some(id),
        date: Date::new(2024, 1, day),
        name: name.to_string(),
        category: "Food".to_string(),
        amount: Amount { bits: 1.5f64.to_bits() },
        transaction_types: tags.iter().map(|t| t.to_string()).collect(),
        bank: "First Bank".to_string(),
    }
}

fn unstored(day: u32, name: &str) -> Transaction {
    let mut t = stored(0, day, name, &["x"]);
    t.id = None;
    t
}

#[test]
fn a_wrong_passphrase_leaves_the_handle_without_a_store() {
    let mut handle = StoreHandle::new();
    assert!(!handle.is_ready());
    assert_eq!(handle.open(StoreFile::Undecipherable), Err(InitializationError::WrongPassphrase));
    assert!(!handle.is_ready());
    assert!(handle.store().is_none());
    assert!(handle.store_mut().is_none());
    assert_eq!(handle.open(StoreFile::Denied), Err(InitializationError::AccessDenied));
    assert!(!handle.is_ready());
}

#[test]
fn a_failed_reopening_keeps_the_store_that_was_held() {
    let mut handle = StoreHandle::new();
    assert_eq!(handle.open(StoreFile::Absent), Ok(()));
    assert!(handle.is_ready());
    handle.store_mut().unwrap().insert(unstored(3, "kept")).unwrap();
    handle.store_mut().unwrap().add(LookupKind::Category, "Food").unwrap();
    let before = handle.store().unwrap().snapshot();
    assert_eq!(handle.open(StoreFile::Undecipherable), Err(InitializationError::WrongPassphrase));
    assert!(handle.is_ready());
    assert_eq!(handle.store().unwrap().snapshot(), before);
    assert_eq!(handle.open(StoreFile::Denied), Err(InitializationError::AccessDenied));
    assert_eq!(handle.store().unwrap().snapshot(), before);
    let broken = Snapshot {
        transactions: vec![stored(1, 1, "a", &["x"]), stored(1, 2, "b", &["x"])],
        categories: Vec::new(),
        banks: Vec::new(),
        transaction_types: Vec::new(),
    };
    assert_eq!(handle.open(StoreFile::Decrypted(broken)), Err(InitializationError::Corrupt));
    assert_eq!(handle.store().unwrap().snapshot(), before);
    assert_eq!(handle.store().unwrap().len(), 1);
}

#[test]
fn a_successful_reopening_replaces_the_store() {
    let mut handle = StoreHandle::new();
    handle.open(StoreFile::Absent).unwrap();
    handle.store_mut().unwrap().insert(unstored(3, "old")).unwrap();
    let content = Snapshot {
        transactions: vec![stored(8, 2, "new", &["x", "y"])],
        categories: vec!["Food".to_string()],
        banks: vec!["First Bank".to_string(), "Second Bank".to_string()],
        transaction_types: vec!["x".to_string()],
    };
    assert_eq!(handle.open(StoreFile::Decrypted(content.clone())), Ok(()));
    assert_eq!(handle.store().unwrap().snapshot(), content);
    assert_eq!(handle.open(StoreFile::Absent), Ok(()));
    assert_eq!(handle.store().unwrap().len(), 0);
    assert!(handle.store().unwrap().values_for(LookupKind::Bank).is_empty());
}

#[test]
fn a_missing_file_gives_the_empty_schema() {
    let store = open_or_create(StoreFile::Absent).unwrap();
    assert_eq!(store.len(), 0);
    assert!(store.list_page(10, Cursor::Start).is_empty());
    for kind in [LookupKind::Category, LookupKind::Bank, LookupKind::TransactionType] {
        assert!(store.values_for(kind).is_empty());
    }
    assert_eq!(
        store.snapshot(),
        Snapshot {
            transactions: Vec::new(),
            categories: Vec::new(),
            banks: Vec::new(),
            transaction_types: Vec::new(),
        }
    );
}

#[test]
fn opening_reports_each_kind_of_failure() {
    assert_eq!(open_or_create(StoreFile::Denied).unwrap_err(), InitializationError::AccessDenied);
    assert_eq!(
        open_or_create(StoreFile::Undecipherable).unwrap_err(),
        InitializationError::WrongPassphrase
    );
    let good = Snapshot {
        transactions: vec![stored(1, 1, "a", &["x"])],
        categories: vec!["Food".to_string()],
        banks: Vec::new(),
        transaction_types: Vec::new(),
    };
    let mut twice = good.clone();
    twice.categories.push("Food".to_string());
    assert_eq!(open_or_create(StoreFile::Decrypted(twice)).unwrap_err(), InitializationError::Corrupt);
    let mut no_id = good.clone();
    no_id.transactions[0].id = None;
    assert_eq!(open_or_create(StoreFile::Decrypted(no_id)).unwrap_err(), InitializationError::Corrupt);
    let mut bad_date = good.clone();
    bad_date.transactions[0].date = Date::new(2024, 2, 30);
    assert_eq!(
        open_or_create(StoreFile::Decrypted(bad_date)).unwrap_err(),
        InitializationError::Corrupt
    );
    let mut bad_tags = good.clone();
    bad_tags.transactions[0].transaction_types = vec!["x".to_string(), "x".to_string()];
    assert_eq!(
        open_or_create(StoreFile::Decrypted(bad_tags)).unwrap_err(),
        InitializationError::Corrupt
    );
    assert!(open_or_create(StoreFile::Decrypted(good)).is_ok());
}

#[test]
fn a_snapshot_is_read_back_as_the_same_store() {
    let mut store = Store::new();
    store.add(LookupKind::Category, "Food").unwrap();
    store.add(LookupKind::Category, "Rent").unwrap();
    store.add(LookupKind::Bank, "First Bank").unwrap();
    store.add(LookupKind::TransactionType, "x").unwrap();
    for (day, name) in [(5, "a"), (9, "b"), (5, "c"), (1, "d")] {
        store.insert(unstored(day, name)).unwrap();
    }
    store.delete(2).unwrap();
    let snapshot = store.snapshot();
    let ids: Vec<i64> = snapshot.transactions.iter().map(|t| t.id.unwrap()).collect();
    assert_eq!(ids, vec![3, 1, 4]);
    let again = Store::load(&snapshot).unwrap();
    assert_eq!(again.snapshot(), snapshot);
    assert_eq!(again.list_all(), store.list_all());
    assert_eq!(again.values_for(LookupKind::Category), vec!["Food".to_string(), "Rent".to_string()]);
}

#[test]
fn a_snapshot_in_any_order_is_listed_in_key_order() {
    let content = Snapshot {
        transactions: vec![
            stored(2, 1, "a", &["x"]),
            stored(9, 20, "b", &["x"]),
            stored(4, 1, "c", &["x"]),
        ],
        categories: Vec::new(),
        banks: Vec::new(),
        transaction_types: Vec::new(),
    };
    let store = Store::load(&content).unwrap();
    let ids: Vec<i64> = store.list_all().iter().map(|t| t.id.unwrap()).collect();
    assert_eq!(ids, vec![9, 4, 2]);
}
