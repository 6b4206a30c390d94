//! The ledger: an append-ordered sequence of income and expense entries with
//! exact integer arithmetic. Amounts are held in cents, so a balance of
//! fifty units is the value 5000; the sign of an entry is carried by its
//! kind, never by the stored amount.

use vstd::prelude::*;
use crate::date::{Date, date_valid};

verus! {

/// The largest amount, in cents, that a single entry may carry. Keeping every
/// entry under this bound keeps every sum over a ledger inside `i128`.
pub const AMOUNT_MAX_CENTS: u64 = 999_999_999_999_999;

#[derive(Clone, Copy, Debug, PartialEq, Eq, Structural)]
pub enum EntryType {
    Income,
    Expense,
}

#[derive(Clone, Debug)]
pub struct Entry {
    pub entry_type: EntryType,
    pub amount: u64,
    pub description: String,
    pub date: Date,
    pub category: Option<String>,
}

/// The mathematical image of one entry.
pub ghost struct EntryModel {
    pub entry_type: EntryType,
    pub amount: int,
    pub description: Seq<char>,
    pub date: Date,
    pub category: Option<Seq<char>>,
}

impl View for Entry {
    type V = EntryModel;

    open spec fn view(&self) -> EntryModel {
        EntryModel {
            entry_type: self.entry_type,
            amount: self.amount as int,
            description: self.description@,
            date: self.date,
            category: match self.category {
                Some(c) => Some(c@),
                None => None,
            },
        }
    }
}

pub open spec fn entry_wf(e: EntryModel) -> bool {
    1 <= e.amount <= AMOUNT_MAX_CENTS && date_valid(e.date)
}

/// The signed contribution of one entry to the balance: positive for income,
/// negative for expense.
pub open spec fn signed_amount(e: EntryModel) -> int {
    match e.entry_type {
        EntryType::Income => e.amount,
        EntryType::Expense => -e.amount,
    }
}

/// The balance of a sequence of entries: the signed sum of their amounts.
pub open spec fn balance_of(s: Seq<EntryModel>) -> int
    decreases s.len(),
{
    if s.len() == 0 {
        0
    } else {
        balance_of(s.drop_last()) + signed_amount(s.last())
    }
}

/// The sum of the income amounts of a sequence of entries.
pub open spec fn income_total(s: Seq<EntryModel>) -> int
    decreases s.len(),
{
    if s.len() == 0 {
        0
    } else {
        income_total(s.drop_last()) + (if s.last().entry_type is Income {
            s.last().amount
        } else {
            0
        })
    }
}

/// The sum of the expense amounts of a sequence of entries.
pub open spec fn expense_total(s: Seq<EntryModel>) -> int
    decreases s.len(),
{
    if s.len() == 0 {
        0
    } else {
        expense_total(s.drop_last()) + (if s.last().entry_type is Expense {
            s.last().amount
        } else {
            0
        })
    }
}

/// The balance always reconciles with the two one-sided totals: it is the
/// income total minus the expense total.
pub proof fn lemma_balance_totals(s: Seq<EntryModel>)
    ensures
        balance_of(s) == income_total(s) - expense_total(s),
    decreases s.len(),
{
    if s.len() > 0 {
        lemma_balance_totals(s.drop_last());
    }
}

/// Appending an entry moves the balance by exactly its signed amount, so
/// over any sequence of appends the balance is the signed sum of them all.
pub proof fn lemma_balance_push(s: Seq<EntryModel>, e: EntryModel)
    ensures
        balance_of(s.push(e)) == balance_of(s) + signed_amount(e),
{
    assert(s.push(e).drop_last() =~= s);
    assert(s.push(e).last() == e);
}

/// Removing the most recently appended entry lowers the balance by exactly
/// that entry's signed contribution.
pub proof fn lemma_undo_balance(s: Seq<EntryModel>)
    requires
        s.len() > 0,
    ensures
        balance_of(s.drop_last()) == balance_of(s) - signed_amount(s.last()),
{
}

/// Every entry of a well-formed ledger keeps the totals within these linear
/// bounds, which is what lets the executable sums use fixed-width integers.
pub proof fn lemma_totals_bounds(s: Seq<EntryModel>)
    requires
        forall|i: int| 0 <= i < s.len() ==> entry_wf(#[trigger] s[i]),
    ensures
        0 <= income_total(s) <= s.len() * AMOUNT_MAX_CENTS,
        0 <= expense_total(s) <= s.len() * AMOUNT_MAX_CENTS,
        -(s.len() * AMOUNT_MAX_CENTS) <= balance_of(s) <= s.len() * AMOUNT_MAX_CENTS,
    decreases s.len(),
{
    if s.len() > 0 {
        assert(forall|i: int| 0 <= i < s.len() - 1 ==> s.drop_last()[i] == s[i]);
        lemma_totals_bounds(s.drop_last());
        assert(entry_wf(s.last()));
        assert(s.len() * AMOUNT_MAX_CENTS == (s.len() - 1) * AMOUNT_MAX_CENTS
            + AMOUNT_MAX_CENTS) by (nonlinear_arith);
    }
}

/// A count of entries times the per-entry cap stays far inside the
/// fixed-width accumulators used below.
pub proof fn lemma_amount_scale(k: int)
    requires
        0 <= k <= 0x1_0000_0000_0000_0000,
    ensures
        k * AMOUNT_MAX_CENTS < i128::MAX,
        k * AMOUNT_MAX_CENTS < u128::MAX,
{
    assert(k * AMOUNT_MAX_CENTS <= 0x1_0000_0000_0000_0000 * AMOUNT_MAX_CENTS)
        by (nonlinear_arith)
        requires
            0 <= k <= 0x1_0000_0000_0000_0000,
    ;
}

/// The two-decimal rendering of an amount in cents: units, a dot, and exactly
/// two fraction digits.
pub open spec fn cents_chars(n: int) -> Seq<char> {
    crate::text::dec_digits((n / 100) as nat) + seq!['.'] + crate::date::pad2(n % 100)
}

/// The rendering of a signed amount of cents: a leading minus when negative.
pub open spec fn signed_cents_chars(n: int) -> Seq<char> {
    if n < 0 {
        seq!['-'] + cents_chars(-n)
    } else {
        cents_chars(n)
    }
}

/// Appends the two-decimal rendering of a non-negative amount of cents.
pub fn push_cents(out: &mut Vec<char>, n: u128)
    ensures
        final(out)@ == old(out)@ + cents_chars(n as int),
{
    crate::text::push_dec(out, n / 100);
    out.push('.');
    out.push(crate::text::digit_char_of(((n / 10) % 10) as u8));
    out.push(crate::text::digit_char_of((n % 10) as u8));
    proof {
        assert(((n as int) % 100) / 10 % 10 == ((n as int) / 10) % 10) by (nonlinear_arith);
        assert(((n as int) % 100) % 10 == (n as int) % 10) by (nonlinear_arith);
        assert(final(out)@ =~= old(out)@ + cents_chars(n as int));
    }
}

/// Appends the rendering of a signed amount of cents.
pub fn push_signed_cents(out: &mut Vec<char>, n: i128)
    requires
        n > i128::MIN,
    ensures
        final(out)@ == old(out)@ + signed_cents_chars(n as int),
{
    if n < 0 {
        out.push('-');
        push_cents(out, (-n) as u128);
        proof {
            assert(final(out)@ =~= old(out)@ + signed_cents_chars(n as int));
        }
    } else {
        push_cents(out, n as u128);
    }
}

/// The amount, in cents, denoted by a token: a non-empty run of digits,
/// optionally followed by a dot and one or two fraction digits.
pub open spec fn amount_cents_of(s: Seq<char>) -> Option<int> {
    let i = crate::text::first_index_of(s, '.');
    if i < 0 {
        if s.len() > 0 && crate::text::all_digits(s) {
            Some(crate::text::digits_val(s) * 100)
        } else {
            None
        }
    } else {
        let ip = s.take(i);
        let fp = s.skip(i + 1);
        if ip.len() > 0 && crate::text::all_digits(ip) && 1 <= fp.len() <= 2
            && crate::text::all_digits(fp) {
            Some(crate::text::digits_val(ip) * 100 + crate::text::digits_val(fp) * (
            if fp.len() == 1 {
                10int
            } else {
                1int
            }))
        } else {
            None
        }
    }
}

/// Parses the characters between `from` and `to` as an amount of cents,
/// accepting only positive values within the per-entry cap.
pub fn parse_amount(v: &Vec<char>, from: usize, to: usize) -> (r: Option<u64>)
    requires
        from <= to <= v@.len(),
    ensures
        ({
            let s = v@.subrange(from as int, to as int);
            match amount_cents_of(s) {
                Some(val) => if 1 <= val <= AMOUNT_MAX_CENTS {
                    r == Some(val as u64)
                } else {
                    r is None
                },
                None => r is None,
            }
        }),
{
    let ghost s = v@.subrange(from as int, to as int);
    let dot = crate::text::find_char(v, from, to, '.');
    match dot {
        None => {
            match crate::text::parse_digits(v, from, to, 9_999_999_999_999) {
                Some(u) => {
                    proof {
                        assert(s.len() > 0 && crate::text::all_digits(s)
                            && crate::text::digits_val(s) <= 9_999_999_999_999);
                        crate::text::lemma_digits_val_nonneg(s);
                        assert(u == crate::text::digits_val(s));
                    }
                    if u == 0 {
                        None
                    } else {
                        Some((u as u64) * 100)
                    }
                },
                None => {
                    proof {
                        if s.len() > 0 && crate::text::all_digits(s) {
                            assert(crate::text::digits_val(s) > 9_999_999_999_999);
                        }
                    }
                    None
                },
            }
        },
        Some(k) => {
            let ghost i = k - from;
            let ghost ip = s.take(i);
            let ghost fp = s.skip(i + 1);
            proof {
                assert(v@.subrange(from as int, k as int) =~= ip);
                assert(v@.subrange(k + 1, to as int) =~= fp);
            }
            let fplen = to - k - 1;
            if fplen < 1 || fplen > 2 {
                return None;
            }
            match crate::text::parse_digits(v, from, k, 9_999_999_999_999) {
                None => {
                    proof {
                        if ip.len() > 0 && crate::text::all_digits(ip) {
                            assert(crate::text::digits_val(ip) > 9_999_999_999_999);
                            if 1 <= fp.len() <= 2 && crate::text::all_digits(fp) {
                                crate::text::lemma_digits_val_nonneg(fp);
                            }
                        }
                    }
                    None
                },
                Some(u) => {
                    proof {
                        assert(ip.len() > 0 && crate::text::all_digits(ip)
                            && crate::text::digits_val(ip) <= 9_999_999_999_999);
                        crate::text::lemma_digits_val_nonneg(ip);
                        assert(u == crate::text::digits_val(ip));
                    }
                    let d0 = crate::text::digit_of(v[k + 1]);
                    match d0 {
                        None => {
                            proof {
                                assert(fp[0] == v@[k + 1]);
                                assert(!crate::text::all_digits(fp));
                            }
                            None
                        },
                        Some(a) => {
                            if fplen == 1 {
                                proof {
                                    assert(fp =~= seq![v@[k + 1]]);
                                    assert(fp.drop_last() =~= Seq::<char>::empty());
                                    assert(fp.last() == v@[k + 1]);
                                    assert(crate::text::digits_val(fp.drop_last()) == 0);
                                    assert(crate::text::digits_val(fp)
                                        == crate::text::digit_val(v@[k + 1]));
                                    assert(a == crate::text::digit_val(v@[k + 1]));
                                }
                                let total = (u as u64) * 100 + (a as u64) * 10;
                                if total == 0 {
                                    None
                                } else {
                                    Some(total)
                                }
                            } else {
                                let d1 = crate::text::digit_of(v[k + 2]);
                                match d1 {
                                    None => {
                                        proof {
                                            assert(fp[1] == v@[k + 2]);
                                            assert(!crate::text::all_digits(fp));
                                        }
                                        None
                                    },
                                    Some(b) => {
                                        proof {
                                            assert(fp =~= seq![v@[k + 1], v@[k + 2]]);
                                            assert(fp.drop_last() =~= seq![v@[k + 1]]);
                                            assert(fp.drop_last().drop_last()
                                                =~= Seq::<char>::empty());
                                            assert(fp.last() == v@[k + 2]);
                                            assert(fp.drop_last().last() == v@[k + 1]);
                                            assert(crate::text::digits_val(
                                                fp.drop_last().drop_last()) == 0);
                                            assert(crate::text::digits_val(fp.drop_last())
                                                == crate::text::digit_val(v@[k + 1]));
                                            assert(crate::text::digits_val(fp)
                                                == crate::text::digit_val(v@[k + 1]) * 10
                                                + crate::text::digit_val(v@[k + 2]));
                                            assert(a == crate::text::digit_val(v@[k + 1]));
                                            assert(b == crate::text::digit_val(v@[k + 2]));
                                        }
                                        let total = (u as u64) * 100 + (a as u64) * 10
                                            + (b as u64);
                                        if total == 0 {
                                            None
                                        } else {
                                            Some(total)
                                        }
                                    },
                                }
                            }
                        },
                    }
                },
            }
        },
    }
}

/// The category shown for an entry: its own, or "uncategorized" when absent.
pub open spec fn category_text(e: EntryModel) -> Seq<char> {
    match e.category {
        Some(c) => c,
        None => "uncategorized"@,
    }
}

pub open spec fn kind_chars(t: EntryType) -> Seq<char> {
    match t {
        EntryType::Income => "IN"@,
        EntryType::Expense => "OUT"@,
    }
}

/// One rendered line of `list_recent`:
/// `KIND | DATE | AMOUNT | CATEGORY: DESCRIPTION` and a newline.
pub open spec fn line_of(e: EntryModel) -> Seq<char> {
    kind_chars(e.entry_type) + " | "@ + crate::date::date_chars(e.date) + " | "@ + cents_chars(
        e.amount,
    ) + " | "@ + category_text(e) + ": "@ + e.description + "\n"@
}

/// The `n` most recently appended entries, most recent first (all of them
/// when `n` exceeds the count).
pub open spec fn recent_entries(s: Seq<EntryModel>, n: int) -> Seq<EntryModel>
    decreases s.len(),
{
    if n <= 0 || s.len() == 0 {
        Seq::empty()
    } else {
        seq![s.last()] + recent_entries(s.drop_last(), n - 1)
    }
}

/// The rendered lines of a sequence of entries, in the order given.
pub open spec fn lines_concat(q: Seq<EntryModel>) -> Seq<char>
    decreases q.len(),
{
    if q.len() == 0 {
        Seq::empty()
    } else {
        line_of(q[0]) + lines_concat(q.drop_first())
    }
}

/// What `list_recent` renders: the last `n` entries, most recent first.
pub open spec fn recent_lines(s: Seq<EntryModel>, n: int) -> Seq<char> {
    lines_concat(recent_entries(s, n))
}

/// The listing order is exact: the rendering takes `min(n, len)` entries and
/// the entry at position `i` of the listing is the one appended `i` steps
/// before the most recent.
pub proof fn lemma_recent_entries_shape(s: Seq<EntryModel>, n: int)
    requires
        n >= 0,
    ensures
        recent_entries(s, n).len() == if n <= s.len() {
            n
        } else {
            s.len() as int
        },
        forall|i: int| 0 <= i < recent_entries(s, n).len() ==> recent_entries(s, n)[i] == s[s.len()
            - 1 - i],
    decreases s.len(),
{
    if n > 0 && s.len() > 0 {
        lemma_recent_entries_shape(s.drop_last(), n - 1);
        let r = recent_entries(s, n);
        let rd = recent_entries(s.drop_last(), n - 1);
        assert(r == seq![s.last()] + rd);
        assert(r[0] == s.last());
        assert(forall|i: int| 1 <= i < r.len() ==> r[i] == #[trigger] rd[i - 1]);
        assert(forall|i: int| 1 <= i < r.len() ==> #[trigger] rd[i - 1] == s.drop_last()[
            s.drop_last().len() - i]);
        assert(forall|i: int| 1 <= i < r.len() ==> #[trigger] s.drop_last()[s.drop_last().len()
            - i] == s[s.len() - 1 - i]);
    }
}

proof fn lemma_lines_concat_push(q: Seq<EntryModel>, e: EntryModel)
    ensures
        lines_concat(q.push(e)) == lines_concat(q) + line_of(e),
    decreases q.len(),
{
    if q.len() == 0 {
        assert(q.push(e)[0] == e);
        assert(q.push(e).drop_first() =~= Seq::<EntryModel>::empty());
        assert(lines_concat(Seq::<EntryModel>::empty()) == Seq::<char>::empty());
        assert(lines_concat(q.push(e)) == line_of(e) + Seq::<char>::empty());
        assert(line_of(e) + Seq::<char>::empty() =~= Seq::<char>::empty() + line_of(e));
    } else {
        assert(q.push(e).drop_first() =~= q.drop_first().push(e));
        lemma_lines_concat_push(q.drop_first(), e);
        assert(q.push(e)[0] == q[0]);
        assert(lines_concat(q.push(e)) == line_of(q[0]) + (lines_concat(q.drop_first())
            + line_of(e)));
        assert(line_of(q[0]) + (lines_concat(q.drop_first()) + line_of(e)) =~= (line_of(q[0])
            + lines_concat(q.drop_first())) + line_of(e));
    }
}

/// Appends the rendered line of one entry.
fn push_line(out: &mut Vec<char>, e: &Entry)
    requires
        entry_wf(e@),
    ensures
        final(out)@ == old(out)@ + line_of(e@),
{
    match e.entry_type {
        EntryType::Income => crate::text::push_str_chars(out, "IN"),
        EntryType::Expense => crate::text::push_str_chars(out, "OUT"),
    }
    crate::text::push_str_chars(out, " | ");
    crate::date::push_date(out, e.date);
    crate::text::push_str_chars(out, " | ");
    push_cents(out, e.amount as u128);
    crate::text::push_str_chars(out, " | ");
    match &e.category {
        Some(c) => crate::text::push_str_chars(out, c.as_str()),
        None => crate::text::push_str_chars(out, "uncategorized"),
    }
    crate::text::push_str_chars(out, ": ");
    crate::text::push_str_chars(out, e.description.as_str());
    crate::text::push_str_chars(out, "\n");
    proof {
        assert(final(out)@ =~= old(out)@ + line_of(e@));
    }
}

pub struct AccountantBot {
    pub entries: Vec<Entry>,
}

impl View for AccountantBot {
    type V = Seq<EntryModel>;

    open spec fn view(&self) -> Seq<EntryModel> {
        self.entries@.map(|i: int, e: Entry| e@)
    }
}

impl AccountantBot {
    /// Well-formedness: every entry carries a positive bounded amount and a
    /// real calendar date. Constructors establish it and methods keep it.
    pub open spec fn wf(&self) -> bool {
        forall|i: int| 0 <= i < self@.len() ==> entry_wf(#[trigger] self@[i])
    }

    /// Creates an empty ledger.
    pub fn new() -> (r: AccountantBot)
        ensures
            r@ == Seq::<EntryModel>::empty(),
            r.wf(),
    {
        let r = AccountantBot { entries: Vec::new() };
        proof {
            assert(r@ =~= Seq::<EntryModel>::empty());
        }
        r
    }

    /// Appends an income entry dated `date`, with no category.
    pub fn income(&mut self, amount: u64, description: &str, date: Date)
        requires
            old(self).wf(),
            1 <= amount <= AMOUNT_MAX_CENTS,
            date_valid(date),
        ensures
            final(self)@ == old(self)@.push(
                EntryModel {
                    entry_type: EntryType::Income,
                    amount: amount as int,
                    description: description@,
                    date: date,
                    category: None,
                },
            ),
            final(self).wf(),
    {
        let e = Entry {
            entry_type: EntryType::Income,
            amount,
            description: String::from_str(description),
            date,
            category: None,
        };
        self.entries.push(e);
        proof {
            assert(final(self)@ =~= old(self)@.push(e@));
        }
    }

    /// Appends an expense entry dated `date`, with no category.
    pub fn out(&mut self, amount: u64, description: &str, date: Date)
        requires
            old(self).wf(),
            1 <= amount <= AMOUNT_MAX_CENTS,
            date_valid(date),
        ensures
            final(self)@ == old(self)@.push(
                EntryModel {
                    entry_type: EntryType::Expense,
                    amount: amount as int,
                    description: description@,
                    date: date,
                    category: None,
                },
            ),
            final(self).wf(),
    {
        let e = Entry {
            entry_type: EntryType::Expense,
            amount,
            description: String::from_str(description),
            date,
            category: None,
        };
        self.entries.push(e);
        proof {
            assert(final(self)@ =~= old(self)@.push(e@));
        }
    }

    /// The signed sum of all amounts: income counts positively, expense
    /// negatively. Zero on an empty ledger.
    pub fn balance(&self) -> (r: i128)
        requires
            self.wf(),
        ensures
            r == balance_of(self@),
    {
        let ghost s = self@;
        let mut acc: i128 = 0;
        let mut i: usize = 0;
        proof {
            assert(s.take(0) =~= Seq::<EntryModel>::empty());
            assert(self.entries.len() == self.entries@.len());
            assert(self@.len() == self.entries@.len());
        }
        while i < self.entries.len()
            invariant
                self.wf(),
                i <= self@.len(),
                s == self@,
                acc == balance_of(s.take(i as int)),
                -(i * AMOUNT_MAX_CENTS) <= acc <= i * AMOUNT_MAX_CENTS,
                self@.len() <= usize::MAX,
            decreases self@.len() - i,
        {
            let e = &self.entries[i];
            proof {
                assert(s.take(i + 1).drop_last() =~= s.take(i as int));
                assert(s.take(i + 1).last() == s[i as int]);
                assert(entry_wf(s[i as int]));
                assert((i + 1) * AMOUNT_MAX_CENTS == i * AMOUNT_MAX_CENTS
                    + AMOUNT_MAX_CENTS) by (nonlinear_arith);
                lemma_amount_scale(i + 1);
            }
            match e.entry_type {
                EntryType::Income => {
                    acc = acc + e.amount as i128;
                },
                EntryType::Expense => {
                    acc = acc - e.amount as i128;
                },
            }
            i += 1;
        }
        proof {
            assert(s.take(s.len() as int) =~= s);
        }
        acc
    }

    /// The income total, the expense total, and the net, which equals the
    /// balance: `net == income - expense`.
    pub fn summary(&self) -> (r: (u128, u128, i128))
        requires
            self.wf(),
        ensures
            r.0 == income_total(self@),
            r.1 == expense_total(self@),
            r.2 == r.0 - r.1,
            r.2 == balance_of(self@),
    {
        let ghost s = self@;
        let mut inc: u128 = 0;
        let mut exp: u128 = 0;
        let mut i: usize = 0;
        proof {
            assert(s.take(0) =~= Seq::<EntryModel>::empty());
            assert(self.entries.len() == self.entries@.len());
            assert(self@.len() == self.entries@.len());
        }
        while i < self.entries.len()
            invariant
                self.wf(),
                i <= self@.len(),
                s == self@,
                inc == income_total(s.take(i as int)),
                exp == expense_total(s.take(i as int)),
                inc <= i * AMOUNT_MAX_CENTS,
                exp <= i * AMOUNT_MAX_CENTS,
                self@.len() <= usize::MAX,
            decreases self@.len() - i,
        {
            let e = &self.entries[i];
            proof {
                assert(s.take(i + 1).drop_last() =~= s.take(i as int));
                assert(s.take(i + 1).last() == s[i as int]);
                assert(entry_wf(s[i as int]));
                assert((i + 1) * AMOUNT_MAX_CENTS == i * AMOUNT_MAX_CENTS
                    + AMOUNT_MAX_CENTS) by (nonlinear_arith);
                lemma_amount_scale(i + 1);
            }
            match e.entry_type {
                EntryType::Income => {
                    inc = inc + e.amount as u128;
                },
                EntryType::Expense => {
                    exp = exp + e.amount as u128;
                },
            }
            i += 1;
        }
        proof {
            assert(s.take(s.len() as int) =~= s);
            lemma_totals_bounds(s);
            lemma_balance_totals(s);
            lemma_amount_scale(s.len() as int);
        }
        let net: i128 = inc as i128 - exp as i128;
        (inc, exp, net)
    }

    /// Removes and returns the most recently appended entry; `None` (and no
    /// change) on an empty ledger.
    pub fn undo(&mut self) -> (r: Option<Entry>)
        requires
            old(self).wf(),
        ensures
            old(self)@.len() == 0 ==> r is None && final(self)@ == old(self)@,
            old(self)@.len() > 0 ==> (r matches Some(e) && e@ == old(self)@.last()
                && final(self)@ == old(self)@.drop_last()),
            final(self).wf(),
    {
        let r = self.entries.pop();
        proof {
            if old(self)@.len() == 0 {
                assert(final(self)@ =~= old(self)@);
            } else {
                assert(final(self)@ =~= old(self)@.drop_last());
            }
        }
        r
    }

    /// Renders the `count` most recently appended entries, most recent first,
    /// one line each; all of them when `count` exceeds the entry count.
    pub fn list_recent(&self, count: usize) -> (r: String)
        requires
            self.wf(),
        ensures
            r@ == recent_lines(self@, count as int),
    {
        let ghost s = self@;
        let mut out: Vec<char> = Vec::new();
        let mut taken: usize = 0;
        let mut j: usize = self.entries.len();
        proof {
            assert(self.entries.len() == self.entries@.len());
            assert(s.len() == self.entries@.len());
            assert(recent_entries(s, 0) =~= Seq::<EntryModel>::empty());
            assert(out@ =~= lines_concat(recent_entries(s, 0)));
        }
        while j > 0 && taken < count
            invariant
                self.wf(),
                s == self@,
                taken <= count,
                j == s.len() - taken,
                out@ == lines_concat(recent_entries(s, taken as int)),
            decreases j,
        {
            let ghost before = recent_entries(s, taken as int);
            push_line(&mut out, &self.entries[j - 1]);
            proof {
                lemma_recent_entries_shape(s, taken as int);
                lemma_recent_entries_shape(s, taken + 1);
                assert(recent_entries(s, taken + 1) =~= before.push(s[j - 1]));
                lemma_lines_concat_push(before, s[j - 1]);
            }
            j -= 1;
            taken += 1;
        }
        proof {
            if taken < count {
                lemma_recent_entries_shape(s, taken as int);
                lemma_recent_entries_shape(s, count as int);
                assert(recent_entries(s, count as int) =~= recent_entries(s, taken as int));
            }
        }
        crate::text::string_of(&out)
    }
}

} // verus!

