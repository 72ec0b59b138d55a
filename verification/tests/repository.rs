use finance_store::date::Date;
use finance_store::error::{Error, StorageError, ValidationError};
use finance_store::transaction::{Amount, Cursor, Transaction};
use finance_store::transaction_repository::Store;

fn amount(value: f64) -> Amount {
    Amount { bits: value.to_bits() }
}

fn tx(day: u32, month: u32, year: i32, name: &str, tags: &[&str]) -> Transaction {
    Transaction {
        id: None,
        date: Date::new(year, month, day),
        name: name.to_string(),
        category: "Food".to_string(),
        amount: amount(12.5),
        transaction_types: tags.iter().map(|t| t.to_string()).collect(),
        bank: "First Bank".to_string(),
    }
}

fn keys(page: &[Transaction]) -> Vec<(i32, u32, u32, i64)> {
    page.iter().map(|t| (t.date.year, t.date.month, t.date.day, t.id.unwrap())).collect()
}

#[test]
fn insert_then_list_gives_back_the_fields() {
    let mut store = Store::new();
    let handed_in = Transaction {
        id: None,
        date: Date::new(2024, 3, 15),
        name: "Groceries".to_string(),
        category: "Food".to_string(),
        amount: amount(-42.17),
        transaction_types: vec!["Debit".to_string(), "Card".to_string()],
        bank: "First Bank".to_string(),
    };
    let id = store.insert(handed_in.clone()).unwrap();
    assert_eq!(id, 1);
    let page = store.list_page(10, Cursor::Start);
    assert_eq!(page.len(), 1);
    let mut expected = handed_in;
    expected.id = Some(1);
    assert_eq!(page[0], expected);
    assert_eq!(f64::from_bits(page[0].amount.bits), -42.17);
}

#[test]
fn identifiers_are_one_above_the_largest_in_use() {
    let mut store = Store::new();
    assert_eq!(store.insert(tx(1, 1, 2024, "a", &["x"])), Ok(1));
    assert_eq!(store.insert(tx(2, 1, 2024, "b", &["x"])), Ok(2));
    assert_eq!(store.insert(tx(3, 1, 2024, "c", &["x"])), Ok(3));
    assert_eq!(store.delete(2), Ok(()));
    assert_eq!(store.insert(tx(4, 1, 2024, "d", &["x"])), Ok(4));
    assert_eq!(store.delete(4), Ok(()));
    assert_eq!(store.insert(tx(5, 1, 2024, "e", &["x"])), Ok(4));
    assert_eq!(store.len(), 3);
}

#[test]
fn listing_is_most_recent_first_with_larger_id_first_among_equal_dates() {
    let mut store = Store::new();
    store.insert(tx(10, 5, 2024, "a", &["x"])).unwrap();
    store.insert(tx(12, 5, 2024, "b", &["x"])).unwrap();
    store.insert(tx(10, 5, 2024, "c", &["x"])).unwrap();
    store.insert(tx(31, 12, 2023, "d", &["x"])).unwrap();
    store.insert(tx(1, 6, 2024, "e", &["x"])).unwrap();
    let page = store.list_page(100, Cursor::Start);
    assert_eq!(
        keys(&page),
        vec![(2024, 6, 1, 5), (2024, 5, 12, 2), (2024, 5, 10, 3), (2024, 5, 10, 1), (2023, 12, 31, 4)]
    );
}

fn walk(store: &Store, size: u32) -> Vec<Vec<Transaction>> {
    let mut pages = Vec::new();
    let mut cursor = Cursor::Start;
    loop {
        let page = store.list_page(size, cursor);
        if let Some(last) = page.last() {
            cursor = Cursor::After { date: last.date, id: last.id.unwrap() };
        }
        let short = (page.len() as u32) < size;
        pages.push(page);
        if short {
            return pages;
        }
    }
}

#[test]
fn paging_shows_every_transaction_once_in_falling_order() {
    let mut store = Store::new();
    for i in 0..7u32 {
        store.insert(tx(1 + (i * 5) % 28, 1 + i % 3, 2024, "n", &["x"])).unwrap();
    }
    let pages = walk(&store, 3);
    assert_eq!(pages.iter().map(|p| p.len()).collect::<Vec<_>>(), vec![3, 3, 1]);
    let seen: Vec<Transaction> = pages.into_iter().flatten().collect();
    assert_eq!(seen, store.list_all());
    assert_eq!(seen.len(), 7);
    let ks = keys(&seen);
    for pair in ks.windows(2) {
        assert!(pair[0] > pair[1]);
    }
    let mut ids: Vec<i64> = seen.iter().map(|t| t.id.unwrap()).collect();
    ids.sort();
    assert_eq!(ids, vec![1, 2, 3, 4, 5, 6, 7]);
}

#[test]
fn paging_ends_with_an_empty_page_where_the_size_divides_the_count() {
    let mut store = Store::new();
    for i in 0..6u32 {
        store.insert(tx(1 + i, 2, 2024, "n", &["x"])).unwrap();
    }
    let pages = walk(&store, 3);
    assert_eq!(pages.iter().map(|p| p.len()).collect::<Vec<_>>(), vec![3, 3, 0]);
    assert_eq!(keys(&pages[0]), vec![(2024, 2, 6, 6), (2024, 2, 5, 5), (2024, 2, 4, 4)]);
    assert_eq!(keys(&pages[1]), vec![(2024, 2, 3, 3), (2024, 2, 2, 2), (2024, 2, 1, 1)]);
}

#[test]
fn paging_an_empty_store_gives_one_empty_page() {
    let store = Store::new();
    let pages = walk(&store, 5);
    assert_eq!(pages.len(), 1);
    assert!(pages[0].is_empty());
}

#[test]
fn a_page_of_size_zero_is_empty() {
    let mut store = Store::new();
    store.insert(tx(1, 1, 2024, "a", &["x"])).unwrap();
    assert!(store.list_page(0, Cursor::Start).is_empty());
}

#[test]
fn a_cursor_leaves_out_its_own_key_and_every_larger_one() {
    let mut store = Store::new();
    store.insert(tx(10, 5, 2024, "a", &["x"])).unwrap();
    store.insert(tx(10, 5, 2024, "b", &["x"])).unwrap();
    store.insert(tx(10, 5, 2024, "c", &["x"])).unwrap();
    store.insert(tx(9, 5, 2024, "d", &["x"])).unwrap();
    let after = Cursor::After { date: Date::new(2024, 5, 10), id: 2 };
    assert_eq!(keys(&store.list_page(10, after)), vec![(2024, 5, 10, 1), (2024, 5, 9, 4)]);
    let far = Cursor::After { date: Date::new(9999, 12, 31), id: i64::MAX };
    assert_eq!(store.list_page(10, far), store.list_page(10, Cursor::Start));
    let before_all = Cursor::After { date: Date::new(2024, 5, 9), id: 4 };
    assert!(store.list_page(10, before_all).is_empty());
}

#[test]
fn a_refused_association_takes_the_row_back() {
    let mut store = Store::new();
    store.insert(tx(1, 1, 2024, "kept", &["Rent"])).unwrap();
    let before = store.list_all();
    let r = store.insert(tx(2, 1, 2024, "orphan", &["Rent", "Utilities", "Rent"]));
    assert_eq!(r, Err(Error::Storage(StorageError::DuplicateLink)));
    assert_eq!(store.list_page(10, Cursor::Start), before);
    assert_eq!(store.len(), 1);
    assert!(store.get(2).is_none());
    assert_eq!(store.insert(tx(2, 1, 2024, "next", &["Rent", "Utilities"])), Ok(2));
    assert_eq!(
        store.get(2).unwrap().transaction_types,
        vec!["Rent".to_string(), "Utilities".to_string()]
    );
}

#[test]
fn edit_replaces_the_tags_fully() {
    let mut store = Store::new();
    let id = store.insert(tx(5, 4, 2024, "Flat", &["Rent"])).unwrap();
    store.insert(tx(6, 4, 2024, "Other", &["Rent", "Misc"])).unwrap();
    let mut changed = tx(5, 4, 2024, "Flat", &["Rent", "Utilities"]);
    changed.id = Some(id);
    assert_eq!(store.edit(changed.clone()), Ok(()));
    assert_eq!(store.get(id), Some(changed));
    assert_eq!(
        store.get(2).unwrap().transaction_types,
        vec!["Rent".to_string(), "Misc".to_string()]
    );
    let mut fewer = tx(5, 4, 2024, "Flat", &["Utilities"]);
    fewer.id = Some(id);
    assert_eq!(store.edit(fewer), Ok(()));
    assert_eq!(store.get(id).unwrap().transaction_types, vec!["Utilities".to_string()]);
    assert_eq!(store.len(), 2);
}

#[test]
fn edit_replaces_every_field_and_moves_the_transaction_to_its_new_place() {
    let mut store = Store::new();
    store.insert(tx(1, 1, 2024, "a", &["x"])).unwrap();
    store.insert(tx(2, 1, 2024, "b", &["x"])).unwrap();
    store.insert(tx(3, 1, 2024, "c", &["x"])).unwrap();
    let changed = Transaction {
        id: Some(1),
        date: Date::new(2025, 7, 4),
        name: "moved".to_string(),
        category: "Travel".to_string(),
        amount: amount(99.0),
        transaction_types: vec!["y".to_string()],
        bank: "Second Bank".to_string(),
    };
    assert_eq!(store.edit(changed.clone()), Ok(()));
    let all = store.list_all();
    assert_eq!(keys(&all), vec![(2025, 7, 4, 1), (2024, 1, 3, 3), (2024, 1, 2, 2)]);
    assert_eq!(all[0], changed);
}

#[test]
fn a_failed_edit_leaves_the_store_as_it_was() {
    let mut store = Store::new();
    store.insert(tx(1, 1, 2024, "a", &["Rent", "Misc"])).unwrap();
    store.insert(tx(2, 1, 2024, "b", &["Rent"])).unwrap();
    let before = store.list_all();
    let mut twice = tx(9, 9, 2030, "changed", &["Fee", "Fee"]);
    twice.id = Some(1);
    assert_eq!(store.edit(twice), Err(Error::Storage(StorageError::DuplicateLink)));
    assert_eq!(store.list_all(), before);
    let mut absent = tx(1, 1, 2024, "a", &["x"]);
    absent.id = Some(77);
    assert_eq!(store.edit(absent), Err(Error::NotFound));
    assert_eq!(store.edit(tx(1, 1, 2024, "a", &["x"])), Err(Error::Validation(ValidationError::MissingId)));
    let mut bad = tx(30, 2, 2024, "a", &["x"]);
    bad.id = Some(1);
    assert_eq!(store.edit(bad), Err(Error::Validation(ValidationError::InvalidDate)));
    assert_eq!(store.list_all(), before);
}

#[test]
fn delete_removes_the_transaction_and_its_tags() {
    let mut store = Store::new();
    store.insert(tx(1, 1, 2024, "a", &["Rent"])).unwrap();
    store.insert(tx(2, 1, 2024, "b", &["Fee"])).unwrap();
    assert_eq!(store.delete(1), Ok(()));
    assert_eq!(store.delete(1), Err(Error::NotFound));
    assert_eq!(store.delete(42), Err(Error::NotFound));
    assert_eq!(keys(&store.list_all()), vec![(2024, 1, 2, 2)]);
    assert!(store.get(1).is_none());
    let mut again = tx(1, 1, 2024, "a", &["Other"]);
    again.id = Some(1);
    assert_eq!(store.restore(again), Ok(()));
    assert_eq!(store.get(1).unwrap().transaction_types, vec!["Other".to_string()]);
}

#[test]
fn insert_refuses_malformed_transactions_in_a_fixed_order() {
    let mut store = Store::new();
    let mut with_id = tx(31, 2, 2024, "", &[]);
    with_id.id = Some(3);
    assert_eq!(store.insert(with_id), Err(Error::Validation(ValidationError::UnexpectedId)));
    assert_eq!(
        store.insert(tx(31, 2, 2024, "", &[])),
        Err(Error::Validation(ValidationError::InvalidDate))
    );
    assert_eq!(
        store.insert(tx(28, 2, 2024, "", &[])),
        Err(Error::Validation(ValidationError::EmptyName))
    );
    let mut no_category = tx(28, 2, 2024, "n", &[]);
    no_category.category = String::new();
    no_category.bank = String::new();
    assert_eq!(store.insert(no_category), Err(Error::Validation(ValidationError::EmptyCategory)));
    let mut no_bank = tx(28, 2, 2024, "n", &[]);
    no_bank.bank = String::new();
    assert_eq!(store.insert(no_bank), Err(Error::Validation(ValidationError::EmptyBank)));
    assert_eq!(
        store.insert(tx(28, 2, 2024, "n", &[])),
        Err(Error::Validation(ValidationError::NoTransactionTypes))
    );
    assert_eq!(
        store.insert(tx(28, 2, 2024, "n", &["a", ""])),
        Err(Error::Validation(ValidationError::EmptyTransactionType))
    );
    assert_eq!(store.len(), 0);
    assert!(store.list_page(10, Cursor::Start).is_empty());
}

#[test]
fn restore_keeps_the_identifier_and_refuses_one_in_use() {
    let mut store = Store::new();
    let mut a = tx(1, 1, 2024, "a", &["x"]);
    a.id = Some(40);
    assert_eq!(store.restore(a.clone()), Ok(()));
    assert_eq!(store.restore(a.clone()), Err(Error::Storage(StorageError::DuplicateId)));
    assert_eq!(store.restore(tx(1, 1, 2024, "a", &["x"])), Err(Error::Validation(ValidationError::MissingId)));
    let mut twice = tx(1, 1, 2024, "a", &["x", "x"]);
    twice.id = Some(41);
    assert_eq!(store.restore(twice), Err(Error::Storage(StorageError::DuplicateLink)));
    assert_eq!(store.get(40), Some(a));
    assert_eq!(store.insert(tx(2, 1, 2024, "b", &["x"])), Ok(41));
}

#[test]
fn insert_fails_where_no_identifier_is_left() {
    let mut store = Store::new();
    let mut last = tx(1, 1, 2024, "a", &["x"]);
    last.id = Some(i64::MAX);
    assert_eq!(store.restore(last), Ok(()));
    assert_eq!(
        store.insert(tx(2, 1, 2024, "b", &["x"])),
        Err(Error::Storage(StorageError::IdentifiersExhausted))
    );
    assert_eq!(store.len(), 1);
}

#[test]
fn negative_identifiers_do_not_lower_the_next_one() {
    let mut store = Store::new();
    let mut old = tx(1, 1, 2024, "a", &["x"]);
    old.id = Some(-5);
    assert_eq!(store.restore(old), Ok(()));
    assert_eq!(store.insert(tx(2, 1, 2024, "b", &["x"])), Ok(1));
}
