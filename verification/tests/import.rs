use finance_store::date::Date;
use finance_store::error::{Error, StorageError, ValidationError};
use finance_store::import_pipeline::{
    import, import_read_row, import_row, ImportSummary, RawRow, RowFailure, RowOutcome,
};
use finance_store::transaction::{Amount, Cursor, Transaction};
use finance_store::transaction_repository::Store;

fn row(date: &str, name: &str, amount: f64, tags: &str) -> RawRow {
    RawRow {
        date: date.to_string(),
        name: name.to_string(),
        category: "Food".to_string(),
        amount: Amount { bits: amount.to_bits() },
        transaction_types: tags.to_string(),
        bank: "First Bank".to_string(),
    }
}

fn expected(id: i64, date: Date, name: &str, amount: f64, tags: &[&str]) -> Transaction {
    Transaction {
        id: Some(id),
        date,
        name: name.to_string(),
        category: "Food".to_string(),
        amount: Amount { bits: amount.to_bits() },
        transaction_types: tags.iter().map(|t| t.to_string()).collect(),
        bank: "First Bank".to_string(),
    }
}

#[test]
fn a_row_with_an_invalid_date_is_left_out_and_the_others_are_stored() {
    let rows = vec![
        row("01/02/2024", "one", 1.0, "Debit"),
        row("02/02/2024", "two", 2.0, "Debit / Card"),
        row("31-02-2024", "three", 3.0, "Debit"),
        row("04/02/2024", "four", 4.0, "Credit"),
        row("05/02/2024", "five", 5.0, " Debit/Card /Online "),
    ];
    let mut store = Store::new();
    let summary = import(&mut store, &rows);
    assert!(summary.has_failure());
    assert_eq!(summary.stored_count(), 4);
    assert_eq!(
        summary.outcomes,
        vec![
            RowOutcome::Stored(1),
            RowOutcome::Stored(2),
            RowOutcome::Failed(RowFailure::UnreadableDate),
            RowOutcome::Stored(3),
            RowOutcome::Stored(4),
        ]
    );
    assert_eq!(store.len(), 4);
    assert_eq!(store.get(1), Some(expected(1, Date::new(2024, 2, 1), "one", 1.0, &["Debit"])));
    assert_eq!(store.get(2), Some(expected(2, Date::new(2024, 2, 2), "two", 2.0, &["Debit", "Card"])));
    assert_eq!(store.get(3), Some(expected(3, Date::new(2024, 2, 4), "four", 4.0, &["Credit"])));
    assert_eq!(
        store.get(4),
        Some(expected(4, Date::new(2024, 2, 5), "five", 5.0, &["Debit", "Card", "Online"]))
    );
    let names: Vec<String> =
        store.list_page(10, Cursor::Start).into_iter().map(|t| t.name).collect();
    assert_eq!(names, vec!["five", "four", "two", "one"]);
}

#[test]
fn a_date_that_is_no_day_of_the_calendar_is_unreadable() {
    let mut store = Store::new();
    assert_eq!(
        import_row(&mut store, &row("31/02/2024", "x", 1.0, "Debit")),
        RowOutcome::Failed(RowFailure::UnreadableDate)
    );
    assert_eq!(store.len(), 0);
}

#[test]
fn a_row_that_the_repository_refuses_is_reported_with_the_cause() {
    let mut store = Store::new();
    let rows = vec![
        row("01/02/2024", "", 1.0, "Debit"),
        row("01/02/2024", "empty tags", 1.0, ""),
        row("01/02/2024", "empty tag", 1.0, "Debit/ /Card"),
        row("01/02/2024", "twice", 1.0, "Debit/Card/ Debit"),
        row("01/02/2024", "fine", 1.0, "Debit"),
    ];
    let summary = import(&mut store, &rows);
    assert_eq!(
        summary.outcomes,
        vec![
            RowOutcome::Failed(RowFailure::Refused(Error::Validation(ValidationError::EmptyName))),
            RowOutcome::Failed(RowFailure::Refused(Error::Validation(
                ValidationError::EmptyTransactionType
            ))),
            RowOutcome::Failed(RowFailure::Refused(Error::Validation(
                ValidationError::EmptyTransactionType
            ))),
            RowOutcome::Failed(RowFailure::Refused(Error::Storage(StorageError::DuplicateLink))),
            RowOutcome::Stored(1),
        ]
    );
    assert!(summary.has_failure());
    assert_eq!(summary.stored_count(), 1);
    assert_eq!(store.len(), 1);
}

#[test]
fn an_import_without_failures_reports_none() {
    let mut store = Store::new();
    let rows = vec![row("01/02/2024", "a", 1.0, "x"), row("01/02/2024", "b", 2.0, "y")];
    let summary = import(&mut store, &rows);
    assert!(!summary.has_failure());
    assert_eq!(summary.outcomes, vec![RowOutcome::Stored(1), RowOutcome::Stored(2)]);
    let empty = import(&mut store, &Vec::new());
    assert_eq!(empty, ImportSummary { outcomes: Vec::new() });
    assert!(!empty.has_failure());
    assert_eq!(empty.stored_count(), 0);
    assert_eq!(store.len(), 2);
}

#[test]
fn rows_are_taken_in_their_order_and_go_on_from_what_is_stored() {
    let mut store = Store::new();
    import(&mut store, &vec![row("01/02/2024", "a", 1.0, "x")]);
    let summary = import(
        &mut store,
        &vec![row("03/02/2024", "b", 1.0, "x"), row("02/02/2024", "c", 1.0, "x")],
    );
    assert_eq!(summary.outcomes, vec![RowOutcome::Stored(2), RowOutcome::Stored(3)]);
    let names: Vec<String> = store.list_all().into_iter().map(|t| t.name).collect();
    assert_eq!(names, vec!["b", "c", "a"]);
}

#[test]
fn a_row_is_built_from_its_fields_and_the_date_that_was_read() {
    let r = row("ignored", "n", 7.25, " a / b ");
    let t = r.to_transaction(Date::new(2020, 1, 2));
    assert_eq!(t.id, None);
    assert_eq!(t.date, Date::new(2020, 1, 2));
    assert_eq!(t.name, "n");
    assert_eq!(t.category, "Food");
    assert_eq!(f64::from_bits(t.amount.bits), 7.25);
    assert_eq!(t.transaction_types, vec!["a".to_string(), "b".to_string()]);
    assert_eq!(t.bank, "First Bank");
    let mut store = Store::new();
    assert_eq!(import_read_row(&mut store, &r, Some(Date::new(2020, 1, 2))), RowOutcome::Stored(1));
    assert_eq!(
        import_read_row(&mut store, &r, None),
        RowOutcome::Failed(RowFailure::UnreadableDate)
    );
    assert_eq!(
        import_read_row(&mut store, &r, Some(Date::new(2021, 2, 29))),
        RowOutcome::Failed(RowFailure::Refused(Error::Validation(ValidationError::InvalidDate)))
    );
    assert_eq!(store.len(), 1);
}
