use ledgerbot::accountant::{AccountantBot, EntryType};
use ledgerbot::date::Date;
use ledgerbot::records::LoadError;

fn day(y: u16, m: u8, d: u8) -> Date {
    Date::from_ymd(y, m, d).unwrap()
}

#[test]
fn rendered_records_are_oldest_first() {
    let mut bot = AccountantBot::new();
    bot.income(5000, "salary", day(2024, 5, 1));
    bot.out(2000, "snack", day(2024, 5, 2));
    assert_eq!(
        bot.render_records(),
        "IN,2024-05-01,50.00,uncategorized,salary\nOUT,2024-05-02,20.00,uncategorized,snack\n"
    );
}

#[test]
fn round_trip_preserves_every_entry() {
    let mut bot = AccountantBot::new();
    bot.income(5000, "salary", day(2024, 5, 1));
    bot.out(2000, "snack", day(2024, 5, 2));
    bot.income(1, "cent", day(2023, 12, 31));
    let image = bot.render_records();

    let mut fresh = AccountantBot::new();
    fresh.load_from_records(&image).unwrap();
    assert_eq!(fresh.entries.len(), bot.entries.len());
    for (a, b) in bot.entries.iter().zip(fresh.entries.iter()) {
        assert_eq!(a.amount, b.amount);
        assert_eq!(a.date, b.date);
        assert_eq!(a.description, b.description);
        assert!(matches!(
            (&a.entry_type, &b.entry_type),
            (EntryType::Income, EntryType::Income) | (EntryType::Expense, EntryType::Expense)
        ));
        // an absent category is persisted as the explicit default
        assert_eq!(b.category.as_deref(), Some("uncategorized"));
    }
    assert_eq!(fresh.balance(), bot.balance());
}

#[test]
fn delimiter_in_description_is_replaced_by_space() {
    let mut bot = AccountantBot::new();
    bot.income(100, "tea, with milk", day(2024, 5, 1));
    let image = bot.render_records();
    assert_eq!(image, "IN,2024-05-01,1.00,uncategorized,tea  with milk\n");
    let mut fresh = AccountantBot::new();
    fresh.load_from_records(&image).unwrap();
    assert_eq!(fresh.entries[0].description, "tea  with milk");
}

#[test]
fn lines_with_wrong_field_count_are_skipped() {
    let mut bot = AccountantBot::new();
    let image = "garbage line\nIN,2024-01-02,5.00,food,bread\nonly,three,fields\n";
    bot.load_from_records(image).unwrap();
    assert_eq!(bot.entries.len(), 1);
    assert_eq!(bot.entries[0].amount, 500);
    assert_eq!(bot.entries[0].category.as_deref(), Some("food"));
    assert_eq!(bot.entries[0].description, "bread");
}

#[test]
fn lines_with_unknown_kind_are_skipped() {
    let mut bot = AccountantBot::new();
    bot.load_from_records("XX,2024-01-02,5.00,a,b\nOUT,2024-01-03,2.50,a,b\n").unwrap();
    assert_eq!(bot.entries.len(), 1);
    assert!(matches!(bot.entries[0].entry_type, EntryType::Expense));
}

#[test]
fn bad_date_fails_the_whole_load() {
    let mut bot = AccountantBot::new();
    bot.income(100, "kept", day(2024, 5, 1));
    let r = bot.load_from_records("IN,202x-01-02,5.00,a,b\n");
    assert_eq!(r, Err(LoadError::InvalidDate));
    // the ledger is untouched on failure
    assert_eq!(bot.entries.len(), 1);
    assert_eq!(bot.entries[0].description, "kept");
}

#[test]
fn impossible_calendar_date_fails_the_load() {
    let mut bot = AccountantBot::new();
    let r = bot.load_from_records("IN,2023-02-29,5.00,a,b\n");
    assert_eq!(r, Err(LoadError::InvalidDate));
}

#[test]
fn bad_amount_fails_the_whole_load() {
    let mut bot = AccountantBot::new();
    let r = bot.load_from_records("IN,2024-01-02,abc,a,b\n");
    assert_eq!(r, Err(LoadError::InvalidAmount));
    let r2 = bot.load_from_records("IN,2024-01-02,0.00,a,b\n");
    assert_eq!(r2, Err(LoadError::InvalidAmount));
}

#[test]
fn load_replaces_previous_contents() {
    let mut bot = AccountantBot::new();
    bot.income(5000, "old", day(2024, 5, 1));
    bot.load_from_records("OUT,2024-06-01,1.00,a,b\n").unwrap();
    assert_eq!(bot.entries.len(), 1);
    assert_eq!(bot.entries[0].description, "b");
    assert_eq!(bot.balance(), -100);
}

#[test]
fn description_may_hold_commas_after_the_fourth_field_on_load() {
    let mut bot = AccountantBot::new();
    bot.load_from_records("IN,2024-01-02,5.00,food,a,b,c\n").unwrap();
    assert_eq!(bot.entries.len(), 1);
    assert_eq!(bot.entries[0].description, "a,b,c");
}

#[test]
fn empty_image_loads_an_empty_ledger() {
    let mut bot = AccountantBot::new();
    bot.income(100, "x", day(2024, 5, 1));
    bot.load_from_records("").unwrap();
    assert_eq!(bot.entries.len(), 0);
}
