//! The command interpreter: a whitespace-tokenized command beginning with a
//! slash-marked keyword is applied to the ledger, and the reply text is
//! returned. A malformed amount, a malformed count or an unknown keyword
//! leaves the ledger untouched and yields a descriptive rejection text.

use vstd::prelude::*;
use crate::accountant::{
    AccountantBot, AMOUNT_MAX_CENTS, EntryModel, EntryType, amount_cents_of, balance_of,
    cents_chars, expense_total, income_total, lemma_amount_scale, lemma_totals_bounds,
    parse_amount, push_cents,
    push_signed_cents, recent_lines, signed_cents_chars,
};
use crate::date::{Date, date_valid};
use crate::text::{
    all_digits, chars_of, digits_val, eq_str, joined, push_joined, push_range, push_str_chars,
    split_tokens, string_of, tokens_of,
};

verus! {

/// An amount token accepted by the interpreter: a well-formed decimal whose
/// value in cents is positive and within the per-entry cap.
pub open spec fn checked_amount(t: Seq<char>) -> Option<int> {
    match amount_cents_of(t) {
        Some(v) => if 1 <= v <= AMOUNT_MAX_CENTS {
            Some(v)
        } else {
            None
        },
        None => None,
    }
}

/// A count token as `usize::from_str` reads it: an optional plus sign, then
/// digits, the value fitting the machine word.
pub open spec fn count_of(s: Seq<char>) -> Option<int> {
    let t = if s.len() >= 1 && s[0] == '+' {
        s.drop_first()
    } else {
        s
    };
    if t.len() > 0 && all_digits(t) && digits_val(t) <= usize::MAX {
        Some(digits_val(t))
    } else {
        None
    }
}

/// What one command does: the ledger afterwards, and the reply text.
pub open spec fn interp(l: Seq<EntryModel>, input: Seq<char>, today: Date) -> (Seq<EntryModel>,
    Seq<char>,
) {
    let ts = tokens_of(input);
    if ts.len() == 0 {
        (l, "No command provided."@)
    } else if (ts[0] == "/income"@ || ts[0] == "/in"@) && ts.len() >= 3 {
        match checked_amount(ts[1]) {
            Some(a) => {
                let desc = joined(ts.skip(2));
                (
                    l.push(
                        EntryModel {
                            entry_type: EntryType::Income,
                            amount: a,
                            description: desc,
                            date: today,
                            category: None,
                        },
                    ),
                    "Logged income: "@ + cents_chars(a) + " - "@ + desc,
                )
            },
            None => (l, "Invalid amount."@),
        }
    } else if ts[0] == "/out"@ && ts.len() >= 3 {
        match checked_amount(ts[1]) {
            Some(a) => {
                let desc = joined(ts.skip(2));
                (
                    l.push(
                        EntryModel {
                            entry_type: EntryType::Expense,
                            amount: a,
                            description: desc,
                            date: today,
                            category: None,
                        },
                    ),
                    "Logged expense: "@ + cents_chars(a) + " - "@ + desc,
                )
            },
            None => (l, "Invalid amount."@),
        }
    } else if ts[0] == "/balance"@ {
        (l, "Current balance: "@ + signed_cents_chars(balance_of(l)))
    } else if ts[0] == "/summary"@ {
        (
            l,
            "Income: "@ + cents_chars(income_total(l)) + ", Expenses: "@ + cents_chars(
                expense_total(l),
            ) + ", Net: "@ + signed_cents_chars(balance_of(l)),
        )
    } else if ts[0] == "/recent"@ && ts.len() == 2 {
        match count_of(ts[1]) {
            Some(n) => (l, recent_lines(l, n)),
            None => (l, "Invalid number."@),
        }
    } else if ts[0] == "/undo"@ {
        if l.len() == 0 {
            (l, "Nothing to undo."@)
        } else {
            (
                l.drop_last(),
                "Undid last entry: "@ + cents_chars(l.last().amount) + " - "@
                    + l.last().description,
            )
        }
    } else {
        (l, "Unknown command. Try /in, /out, /balance, /summary, /recent, or /undo."@)
    }
}

/// Parses a count token.
fn parse_count(t: &Vec<char>) -> (r: Option<usize>)
    ensures
        match count_of(t@) {
            Some(n) => 0 <= n <= usize::MAX && r == Some(n as usize),
            None => r is None,
        },
{
    let start: usize = if t.len() >= 1 && t[0] == '+' {
        1
    } else {
        0
    };
    let ghost tt = if t@.len() >= 1 && t@[0] == '+' {
        t@.drop_first()
    } else {
        t@
    };
    proof {
        assert(t@.subrange(start as int, t@.len() as int) =~= tt);
    }
    match crate::text::parse_digits(t, start, t.len(), usize::MAX as u128) {
        Some(u) => {
            proof {
                assert(tt.len() > 0 && all_digits(tt) && digits_val(tt) <= usize::MAX);
                crate::text::lemma_digits_val_nonneg(tt);
            }
            Some(u as usize)
        },
        None => None,
    }
}

/// Applies one command string to the ledger and returns the reply text; the
/// effect and the reply are exactly those of `interp`.
pub fn handle_command(bot: &mut AccountantBot, input: &str, today: Date) -> (r: String)
    requires
        old(bot).wf(),
        date_valid(today),
    ensures
        final(bot)@ == interp(old(bot)@, input@, today).0,
        r@ == interp(old(bot)@, input@, today).1,
        final(bot).wf(),
{
    let ghost l0 = bot@;
    let v = chars_of(input);
    let ts = split_tokens(&v);
    let ghost tok = ts.deep_view();
    proof {
        assert(tok == tokens_of(input@));
        assert(tok.len() == ts@.len());
        assert(forall|i: int| 0 <= i < ts@.len() ==> (#[trigger] ts@[i])@ == ts@[i].deep_view());
        assert(forall|i: int| 0 <= i < ts@.len() ==> ts@[i].deep_view() == #[trigger] tok[i]);
        assert(forall|i: int| 0 <= i < ts@.len() ==> (#[trigger] ts@[i])@ == tok[i]);
    }
    if ts.len() == 0 {
        return String::from_str("No command provided.");
    }
    let is_income = eq_str(&ts[0], "/income") || eq_str(&ts[0], "/in");
    let is_out = eq_str(&ts[0], "/out");
    if (is_income || is_out) && ts.len() >= 3 {
        let t1 = &ts[1];
        proof {
            assert(t1@.subrange(0, t1@.len() as int) =~= t1@);
        }
        match parse_amount(t1, 0, t1.len()) {
            Some(a) => {
                let mut desc: Vec<char> = Vec::new();
                push_joined(&mut desc, &ts, 2);
                proof {
                    assert(tok.skip(2) =~~= ts.deep_view().skip(2));
                }
                let d = string_of(&desc);
                let mut out: Vec<char> = Vec::new();
                if is_income {
                    bot.income(a, d.as_str(), today);
                    push_str_chars(&mut out, "Logged income: ");
                } else {
                    bot.out(a, d.as_str(), today);
                    push_str_chars(&mut out, "Logged expense: ");
                }
                push_cents(&mut out, a as u128);
                push_str_chars(&mut out, " - ");
                push_range(&mut out, &desc, 0, desc.len());
                proof {
                    assert(desc@.subrange(0, desc@.len() as int) =~= desc@);
                    assert(desc@ =~= joined(tok.skip(2)));
                    if is_income {
                        assert(out@ =~= "Logged income: "@ + cents_chars(a as int) + " - "@
                            + desc@);
                    } else {
                        assert(out@ =~= "Logged expense: "@ + cents_chars(a as int) + " - "@
                            + desc@);
                    }
                }
                string_of(&out)
            },
            None => String::from_str("Invalid amount."),
        }
    } else if eq_str(&ts[0], "/balance") {
        proof {
            assert(bot.entries.len() == bot.entries@.len());
            assert(l0.len() <= usize::MAX);
        }
        let b = bot.balance();
        proof {
            lemma_totals_bounds(l0);
            lemma_amount_scale(l0.len() as int);
        }
        let mut out: Vec<char> = Vec::new();
        push_str_chars(&mut out, "Current balance: ");
        push_signed_cents(&mut out, b);
        proof {
            assert(out@ =~= "Current balance: "@ + signed_cents_chars(balance_of(l0)));
        }
        string_of(&out)
    } else if eq_str(&ts[0], "/summary") {
        proof {
            assert(bot.entries.len() == bot.entries@.len());
            assert(l0.len() <= usize::MAX);
        }
        let (inc, exp, net) = bot.summary();
        proof {
            lemma_totals_bounds(l0);
            lemma_amount_scale(l0.len() as int);
        }
        let mut out: Vec<char> = Vec::new();
        push_str_chars(&mut out, "Income: ");
        push_cents(&mut out, inc);
        push_str_chars(&mut out, ", Expenses: ");
        push_cents(&mut out, exp);
        push_str_chars(&mut out, ", Net: ");
        push_signed_cents(&mut out, net);
        proof {
            assert(out@ =~= "Income: "@ + cents_chars(income_total(l0)) + ", Expenses: "@
                + cents_chars(expense_total(l0)) + ", Net: "@ + signed_cents_chars(
                balance_of(l0),
            ));
        }
        string_of(&out)
    } else if eq_str(&ts[0], "/recent") && ts.len() == 2 {
        match parse_count(&ts[1]) {
            Some(n) => bot.list_recent(n),
            None => String::from_str("Invalid number."),
        }
    } else if eq_str(&ts[0], "/undo") {
        match bot.undo() {
            Some(entry) => {
                let mut out: Vec<char> = Vec::new();
                push_str_chars(&mut out, "Undid last entry: ");
                push_cents(&mut out, entry.amount as u128);
                push_str_chars(&mut out, " - ");
                push_str_chars(&mut out, entry.description.as_str());
                proof {
                    assert(out@ =~= "Undid last entry: "@ + cents_chars(l0.last().amount)
                        + " - "@ + l0.last().description);
                }
                string_of(&out)
            },
            None => String::from_str("Nothing to undo."),
        }
    } else {
        String::from_str("Unknown command. Try /in, /out, /balance, /summary, /recent, or /undo.")
    }
}

} // verus!
