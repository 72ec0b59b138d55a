use finance_store::date::Date;
use finance_store::text::{split_tags, trim};
use finance_store::transaction::{key_precedes, Cursor};

#[test]
fn calendar_dates_follow_the_leap_year_rule() {
    assert!(Date::new(2024, 2, 29).is_valid());
    assert!(!Date::new(2023, 2, 29).is_valid());
    assert!(!Date::new(1900, 2, 29).is_valid());
    assert!(Date::new(2000, 2, 29).is_valid());
    assert!(Date::new(-4, 2, 29).is_valid());
    assert!(!Date::new(-1, 2, 29).is_valid());
    assert!(Date::new(2024, 12, 31).is_valid());
    assert!(!Date::new(2024, 4, 31).is_valid());
    assert!(Date::new(2024, 4, 30).is_valid());
    assert!(!Date::new(2024, 13, 1).is_valid());
    assert!(!Date::new(2024, 0, 1).is_valid());
    assert!(!Date::new(2024, 1, 0).is_valid());
    assert!(!Date::new(2024, 1, 32).is_valid());
}

#[test]
fn dates_are_ordered_by_year_then_month_then_day() {
    let a = Date::new(2023, 12, 31);
    let b = Date::new(2024, 1, 1);
    let c = Date::new(2024, 1, 2);
    let d = Date::new(2024, 2, 1);
    assert!(a.is_before(&b) && b.is_before(&c) && c.is_before(&d) && a.is_before(&d));
    assert!(!b.is_before(&a) && !b.is_before(&b));
    assert!(key_precedes(&b, 5, &b, 6));
    assert!(!key_precedes(&b, 6, &b, 6));
    assert!(key_precedes(&a, 100, &b, 1));
    assert!(!key_precedes(&b, 1, &a, 100));
}

#[test]
fn cursors_let_through_smaller_keys_only() {
    let at = Date::new(2024, 5, 10);
    let cursor = Cursor::After { date: at, id: 7 };
    assert!(cursor.lets_through(&at, 6));
    assert!(!cursor.lets_through(&at, 7));
    assert!(!cursor.lets_through(&at, 8));
    assert!(cursor.lets_through(&Date::new(2024, 5, 9), 1000));
    assert!(!cursor.lets_through(&Date::new(2024, 5, 11), 0));
    assert!(Cursor::Start.lets_through(&Date::new(i32::MAX, 12, 31), i64::MAX));
}

#[test]
fn day_month_year_texts_are_read_by_chrono() {
    assert_eq!(Date::parse_day_month_year("15/03/2024"), Some(Date::new(2024, 3, 15)));
    assert_eq!(Date::parse_day_month_year("29/02/2024"), Some(Date::new(2024, 2, 29)));
    assert_eq!(Date::parse_day_month_year("1/1/1999"), Some(Date::new(1999, 1, 1)));
    assert_eq!(Date::parse_day_month_year("31/02/2024"), None);
    assert_eq!(Date::parse_day_month_year("31-02-2024"), None);
    assert_eq!(Date::parse_day_month_year("15-03-2024"), None);
    assert_eq!(Date::parse_day_month_year("2024/03/15"), None);
    assert_eq!(Date::parse_day_month_year(""), None);
    assert_eq!(Date::parse_day_month_year("15/03/2024 and more"), None);
}

#[test]
fn every_date_that_is_read_is_valid() {
    for text in ["01/01/2000", "31/12/1999", "29/02/2000", "30/06/2021"] {
        assert!(Date::parse_day_month_year(text).unwrap().is_valid());
    }
}

#[test]
fn trim_removes_white_space_at_both_ends_only() {
    assert_eq!(trim("  Rent  "), "Rent");
    assert_eq!(trim("\t\nRent and more\r\n"), "Rent and more");
    assert_eq!(trim("\u{00A0}\u{3000}Rent\u{2003}"), "Rent");
    assert_eq!(trim("Rent"), "Rent");
    assert_eq!(trim("   "), "");
    assert_eq!(trim(""), "");
    assert_eq!(trim(" a b "), "a b");
    assert_eq!(trim("_a_"), "_a_");
    for text in ["", " ", " x", "x ", " x y ", "\u{0085}x\u{1680}", "é ", " 日本 "] {
        assert_eq!(trim(text), text.trim());
    }
}

#[test]
fn tags_are_split_on_slashes_and_trimmed() {
    assert_eq!(split_tags("Rent / Utilities"), vec!["Rent".to_string(), "Utilities".to_string()]);
    assert_eq!(split_tags("Rent"), vec!["Rent".to_string()]);
    assert_eq!(split_tags(""), vec![String::new()]);
    assert_eq!(split_tags("/"), vec![String::new(), String::new()]);
    assert_eq!(split_tags("a//b/"), vec!["a".to_string(), String::new(), "b".to_string(), String::new()]);
    assert_eq!(split_tags(" a b /\tc "), vec!["a b".to_string(), "c".to_string()]);
    for text in ["", "x", "x/y", " x / y / z ", "//", "é/日本/ ", "a\\b/c"] {
        let expected: Vec<String> = text.split('/').map(|s| s.trim().to_string()).collect();
        assert_eq!(split_tags(text), expected);
    }
}
