use finance_store::error::DuplicateError;
use finance_store::reference_catalog::{LookupKind, ReferenceCatalog};
use finance_store::transaction_repository::Store;

#[test]
fn adding_a_value_twice_fails_the_second_time() {
    let mut catalog = ReferenceCatalog::new();
    assert_eq!(catalog.add(LookupKind::Category, "Food"), Ok(()));
    assert_eq!(catalog.add(LookupKind::Category, "Food"), Err(DuplicateError));
    let listed = catalog.list(LookupKind::Category);
    assert_eq!(listed, vec!["Food".to_string()]);
    assert_eq!(listed.iter().filter(|v| v.as_str() == "Food").count(), 1);
}

#[test]
fn the_three_sets_are_apart() {
    let mut catalog = ReferenceCatalog::new();
    assert_eq!(catalog.add(LookupKind::Category, "Food"), Ok(()));
    assert_eq!(catalog.add(LookupKind::Bank, "Food"), Ok(()));
    assert_eq!(catalog.add(LookupKind::TransactionType, "Food"), Ok(()));
    assert_eq!(catalog.add(LookupKind::Bank, "Food"), Err(DuplicateError));
    assert_eq!(catalog.list(LookupKind::Bank), vec!["Food".to_string()]);
    assert!(catalog.contains(LookupKind::TransactionType, "Food"));
    assert!(!catalog.contains(LookupKind::TransactionType, "Rent"));
}

#[test]
fn values_are_listed_in_insertion_order_and_matched_exactly() {
    let mut catalog = ReferenceCatalog::new();
    for v in ["Rent", "Food", "rent", "Food ", ""] {
        assert_eq!(catalog.add(LookupKind::Category, v), Ok(()));
    }
    assert_eq!(
        catalog.list(LookupKind::Category),
        vec!["Rent".to_string(), "Food".to_string(), "rent".to_string(), "Food ".to_string(), String::new()]
    );
    assert!(catalog.list(LookupKind::Bank).is_empty());
}

#[test]
fn the_store_passes_lookups_through() {
    let mut store = Store::new();
    assert_eq!(store.add(LookupKind::Bank, "First Bank"), Ok(()));
    assert_eq!(store.add(LookupKind::Bank, "Second Bank"), Ok(()));
    assert_eq!(store.add(LookupKind::Bank, "First Bank"), Err(DuplicateError));
    assert_eq!(
        store.values_for(LookupKind::Bank),
        vec!["First Bank".to_string(), "Second Bank".to_string()]
    );
    assert!(store.values_for(LookupKind::Category).is_empty());
    assert_eq!(store.len(), 0);
}

#[test]
fn lookup_sets_are_found_by_the_name_of_the_field() {
    assert_eq!(LookupKind::from_field_name("category"), Some(LookupKind::Category));
    assert_eq!(LookupKind::from_field_name("bank"), Some(LookupKind::Bank));
    assert_eq!(LookupKind::from_field_name("transaction_types"), Some(LookupKind::TransactionType));
    assert_eq!(LookupKind::from_field_name("Category"), None);
    assert_eq!(LookupKind::from_field_name("name"), None);
    assert_eq!(LookupKind::from_field_name(""), None);
}
