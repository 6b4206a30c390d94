use ledgerbot::accountant::{AccountantBot, EntryType};
use ledgerbot::date::Date;

fn day(y: u16, m: u8, d: u8) -> Date {
    Date::from_ymd(y, m, d).unwrap()
}

#[test]
fn empty_ledger_balance_is_zero() {
    let bot = AccountantBot::new();
    assert_eq!(bot.balance(), 0);
    let (inc, exp, net) = bot.summary();
    assert_eq!(inc, 0);
    assert_eq!(exp, 0);
    assert_eq!(net, 0);
}

#[test]
fn balance_is_signed_sum() {
    let mut bot = AccountantBot::new();
    let d = day(2024, 5, 1);
    bot.income(5000, "salary", d);
    bot.out(2000, "snack", d);
    bot.income(150, "found coin", d);
    bot.out(75, "gum", d);
    assert_eq!(bot.balance(), 5000 - 2000 + 150 - 75);
    let (inc, exp, net) = bot.summary();
    assert_eq!(inc, 5150);
    assert_eq!(exp, 2075);
    assert_eq!(net, inc as i128 - exp as i128);
    assert_eq!(net, bot.balance());
}

#[test]
fn undo_removes_exactly_the_last_entry() {
    let mut bot = AccountantBot::new();
    let d = day(2024, 5, 1);
    bot.income(5000, "salary", d);
    bot.out(2000, "snack", d);
    let before = bot.balance();
    let undone = bot.undo().unwrap();
    assert_eq!(undone.amount, 2000);
    assert_eq!(undone.description, "snack");
    assert!(matches!(undone.entry_type, EntryType::Expense));
    // an expense contributed -2000, so removing it raises the balance by 2000
    assert_eq!(bot.balance(), before + 2000);
    assert_eq!(bot.balance(), 5000);
}

#[test]
fn undo_on_empty_ledger_reports_nothing() {
    let mut bot = AccountantBot::new();
    assert!(bot.undo().is_none());
    assert_eq!(bot.balance(), 0);
}

#[test]
fn list_recent_is_most_recent_first() {
    let mut bot = AccountantBot::new();
    bot.income(100, "first", day(2024, 1, 2));
    bot.out(250, "second", day(2024, 1, 3));
    bot.income(399, "third", day(2024, 1, 4));
    let all = bot.list_recent(10);
    let lines: Vec<&str> = all.lines().collect();
    assert_eq!(lines.len(), 3);
    assert_eq!(lines[0], "IN | 2024-01-04 | 3.99 | uncategorized: third");
    assert_eq!(lines[1], "OUT | 2024-01-03 | 2.50 | uncategorized: second");
    assert_eq!(lines[2], "IN | 2024-01-02 | 1.00 | uncategorized: first");
}

#[test]
fn list_recent_length_is_min_of_count_and_entries() {
    let mut bot = AccountantBot::new();
    bot.income(100, "a", day(2024, 1, 2));
    bot.out(200, "b", day(2024, 1, 3));
    bot.income(300, "c", day(2024, 1, 4));
    assert_eq!(bot.list_recent(2).lines().count(), 2);
    assert_eq!(bot.list_recent(3).lines().count(), 3);
    assert_eq!(bot.list_recent(99).lines().count(), 3);
    assert_eq!(bot.list_recent(0), "");
}

#[test]
fn date_validity_follows_the_calendar() {
    assert!(Date::from_ymd(2023, 2, 29).is_none());
    assert!(Date::from_ymd(2024, 2, 29).is_some());
    assert!(Date::from_ymd(1900, 2, 29).is_none());
    assert!(Date::from_ymd(2000, 2, 29).is_some());
    assert!(Date::from_ymd(2024, 4, 31).is_none());
    assert!(Date::from_ymd(2024, 0, 1).is_none());
    assert!(Date::from_ymd(2024, 13, 1).is_none());
    assert!(Date::from_ymd(2024, 12, 31).is_some());
}

#[test]
fn current_date_is_a_real_calendar_day() {
    let d = ledgerbot::date::current_date();
    assert!(d.is_valid());
}
