use ledgerbot::accountant::AccountantBot;
use ledgerbot::command::handle_command;
use ledgerbot::date::Date;

fn today() -> Date {
    Date::from_ymd(2024, 5, 1).unwrap()
}

#[test]
fn income_then_balance_scenario() {
    let mut bot = AccountantBot::new();
    let d = today();
    assert_eq!(handle_command(&mut bot, "/in 50.00 coffee", d), "Logged income: 50.00 - coffee");
    assert_eq!(handle_command(&mut bot, "/balance", d), "Current balance: 50.00");
    assert_eq!(handle_command(&mut bot, "/out 20 snack", d), "Logged expense: 20.00 - snack");
    assert_eq!(
        handle_command(&mut bot, "/summary", d),
        "Income: 50.00, Expenses: 20.00, Net: 30.00"
    );
    assert_eq!(handle_command(&mut bot, "/undo", d), "Undid last entry: 20.00 - snack");
    assert_eq!(handle_command(&mut bot, "/balance", d), "Current balance: 50.00");
}

#[test]
fn recent_one_after_income_starts_with_in() {
    let mut bot = AccountantBot::new();
    let d = today();
    handle_command(&mut bot, "/in 50.00 coffee", d);
    let listing = handle_command(&mut bot, "/recent 1", d);
    assert!(listing.starts_with("IN"));
    assert_eq!(listing, "IN | 2024-05-01 | 50.00 | uncategorized: coffee\n");
}

#[test]
fn income_keyword_and_multiword_description() {
    let mut bot = AccountantBot::new();
    let d = today();
    assert_eq!(
        handle_command(&mut bot, "/income 12.5 two words here", d),
        "Logged income: 12.50 - two words here"
    );
    assert_eq!(handle_command(&mut bot, "/balance", d), "Current balance: 12.50");
}

#[test]
fn negative_balance_is_rendered_with_sign() {
    let mut bot = AccountantBot::new();
    let d = today();
    handle_command(&mut bot, "/out 20 snack", d);
    assert_eq!(handle_command(&mut bot, "/balance", d), "Current balance: -20.00");
    assert_eq!(
        handle_command(&mut bot, "/summary", d),
        "Income: 0.00, Expenses: 20.00, Net: -20.00"
    );
}

#[test]
fn empty_input_is_rejected() {
    let mut bot = AccountantBot::new();
    let d = today();
    assert_eq!(handle_command(&mut bot, "", d), "No command provided.");
    assert_eq!(handle_command(&mut bot, "   ", d), "No command provided.");
}

#[test]
fn malformed_amounts_are_rejected_without_mutation() {
    let mut bot = AccountantBot::new();
    let d = today();
    assert_eq!(handle_command(&mut bot, "/in abc coffee", d), "Invalid amount.");
    assert_eq!(handle_command(&mut bot, "/in 0 coffee", d), "Invalid amount.");
    assert_eq!(handle_command(&mut bot, "/in 0.00 coffee", d), "Invalid amount.");
    assert_eq!(handle_command(&mut bot, "/in -5 coffee", d), "Invalid amount.");
    assert_eq!(handle_command(&mut bot, "/in 1.234 coffee", d), "Invalid amount.");
    assert_eq!(handle_command(&mut bot, "/in 5. coffee", d), "Invalid amount.");
    assert_eq!(handle_command(&mut bot, "/in .5 coffee", d), "Invalid amount.");
    assert_eq!(handle_command(&mut bot, "/balance", d), "Current balance: 0.00");
}

#[test]
fn fractional_cents_round_trip_in_replies() {
    let mut bot = AccountantBot::new();
    let d = today();
    assert_eq!(handle_command(&mut bot, "/in 0.5 tip", d), "Logged income: 0.50 - tip");
    assert_eq!(handle_command(&mut bot, "/in 0.05 cent", d), "Logged income: 0.05 - cent");
    assert_eq!(handle_command(&mut bot, "/balance", d), "Current balance: 0.55");
}

#[test]
fn wrong_argument_counts_fall_through_to_unknown() {
    let mut bot = AccountantBot::new();
    let d = today();
    let unknown = "Unknown command. Try /in, /out, /balance, /summary, /recent, or /undo.";
    assert_eq!(handle_command(&mut bot, "/in 50", d), unknown);
    assert_eq!(handle_command(&mut bot, "/out 50", d), unknown);
    assert_eq!(handle_command(&mut bot, "/recent", d), unknown);
    assert_eq!(handle_command(&mut bot, "/recent 1 2", d), unknown);
    assert_eq!(handle_command(&mut bot, "/nonsense", d), unknown);
    assert_eq!(handle_command(&mut bot, "hello there", d), unknown);
}

#[test]
fn recent_count_must_be_an_integer() {
    let mut bot = AccountantBot::new();
    let d = today();
    assert_eq!(handle_command(&mut bot, "/recent x", d), "Invalid number.");
    assert_eq!(handle_command(&mut bot, "/recent 1.5", d), "Invalid number.");
    assert_eq!(handle_command(&mut bot, "/recent -1", d), "Invalid number.");
    assert_eq!(handle_command(&mut bot, "/recent +1", d), "");
}

#[test]
fn undo_on_empty_ledger_via_command() {
    let mut bot = AccountantBot::new();
    let d = today();
    assert_eq!(handle_command(&mut bot, "/undo", d), "Nothing to undo.");
}

#[test]
fn identical_command_on_identical_state_gives_identical_result() {
    let d = today();
    let mut a = AccountantBot::new();
    let mut b = AccountantBot::new();
    let ra = handle_command(&mut a, "/in 7.25 lunch money", d);
    let rb = handle_command(&mut b, "/in 7.25 lunch money", d);
    assert_eq!(ra, rb);
    assert_eq!(a.balance(), b.balance());
}

#[test]
fn amounts_at_the_cap_are_accepted_and_beyond_rejected() {
    let mut bot = AccountantBot::new();
    let d = today();
    assert_eq!(
        handle_command(&mut bot, "/in 9999999999999.99 big", d),
        "Logged income: 9999999999999.99 - big"
    );
    assert_eq!(handle_command(&mut bot, "/in 10000000000000 too big", d), "Invalid amount.");
    assert_eq!(handle_command(&mut bot, "/balance", d), "Current balance: 9999999999999.99");
}
