//! The persisted record format: one line per entry, oldest first, the fields
//! `KIND,DATE,AMOUNT,CATEGORY,DESCRIPTION` separated by commas. The comma is
//! not permitted inside a description, so it is replaced by a space before
//! writing. Loading replaces the whole ledger: a line with the wrong field
//! count or an unknown kind is skipped, while an unreadable date or amount on
//! an otherwise well-formed line fails the load and leaves the ledger as it
//! was.

use vstd::prelude::*;
use crate::accountant::{
    AccountantBot, AMOUNT_MAX_CENTS, Entry, EntryModel, EntryType, amount_cents_of,
    category_text, cents_chars, entry_wf, kind_chars, parse_amount,
};
use crate::date::{Date, date_chars, date_of_chars, date_valid, parse_date};
use crate::text::{
    all_digits, dec_digits, digit_char, eq_range, find_char, first_index_of,
    lemma_first_in_concat, lemma_first_index_of, push_range, push_str_chars, string_of,
};

verus! {

/// How a load can fail: a well-formed line whose date or amount cannot be
/// read (or whose amount is not a positive value within the cap).
#[derive(Clone, Copy, Debug, PartialEq, Eq, Structural)]
pub enum LoadError {
    InvalidDate,
    InvalidAmount,
}

/// A description as persisted: every field delimiter replaced by a space.
pub open spec fn sanitize(s: Seq<char>) -> Seq<char> {
    s.map_values(|c: char| if c == ',' { ' ' } else { c })
}

/// One persisted record, newline included.
pub open spec fn record_of(e: EntryModel) -> Seq<char> {
    record_body(e) + "\n"@
}

/// One persisted record without its newline.
pub open spec fn record_body(e: EntryModel) -> Seq<char> {
    kind_chars(e.entry_type) + ","@ + date_chars(e.date) + ","@ + cents_chars(e.amount) + ","@
        + category_text(e) + ","@ + sanitize(e.description)
}

/// The whole persisted image of a ledger: its records, oldest first.
pub open spec fn records_chars(s: Seq<EntryModel>) -> Seq<char>
    decreases s.len(),
{
    if s.len() == 0 {
        Seq::empty()
    } else {
        record_of(s[0]) + records_chars(s.drop_first())
    }
}

/// Appending an entry appends its record at the end of the image.
proof fn lemma_records_push(q: Seq<EntryModel>, e: EntryModel)
    ensures
        records_chars(q.push(e)) == records_chars(q) + record_of(e),
    decreases q.len(),
{
    if q.len() == 0 {
        assert(q.push(e)[0] == e);
        assert(q.push(e).drop_first() =~= Seq::<EntryModel>::empty());
        assert(records_chars(Seq::<EntryModel>::empty()) == Seq::<char>::empty());
        assert(records_chars(q.push(e)) == record_of(e) + Seq::<char>::empty());
        assert(record_of(e) + Seq::<char>::empty() =~= Seq::<char>::empty() + record_of(e));
    } else {
        assert(q.push(e).drop_first() =~= q.drop_first().push(e));
        lemma_records_push(q.drop_first(), e);
        assert(q.push(e)[0] == q[0]);
        assert(records_chars(q.push(e)) == record_of(q[0]) + (records_chars(q.drop_first())
            + record_of(e)));
        assert(record_of(q[0]) + (records_chars(q.drop_first()) + record_of(e)) =~= (record_of(
            q[0],
        ) + records_chars(q.drop_first())) + record_of(e));
    }
}

/// Appends the sanitized form of `s`.
fn push_sanitized(out: &mut Vec<char>, s: &str)
    ensures
        final(out)@ == old(out)@ + sanitize(s@),
{
    let n = s.unicode_len();
    let mut i: usize = 0;
    while i < n
        invariant
            i <= n,
            n == s@.len(),
            out@ == old(out)@ + sanitize(s@.take(i as int)),
        decreases n - i,
    {
        let c = s.get_char(i);
        if c == ',' {
            out.push(' ');
        } else {
            out.push(c);
        }
        proof {
            assert(sanitize(s@.take(i + 1)) =~= sanitize(s@.take(i as int)).push(
                if s@[i as int] == ',' {
                    ' '
                } else {
                    s@[i as int]
                },
            ));
            assert(out@ =~= old(out)@ + sanitize(s@.take(i + 1)));
        }
        i += 1;
    }
    proof {
        assert(s@.take(n as int) =~= s@);
    }
}

/// Appends one persisted record, newline included.
fn push_record(out: &mut Vec<char>, e: &Entry)
    requires
        entry_wf(e@),
    ensures
        final(out)@ == old(out)@ + record_of(e@),
{
    match e.entry_type {
        EntryType::Income => push_str_chars(out, "IN"),
        EntryType::Expense => push_str_chars(out, "OUT"),
    }
    push_str_chars(out, ",");
    crate::date::push_date(out, e.date);
    push_str_chars(out, ",");
    crate::accountant::push_cents(out, e.amount as u128);
    push_str_chars(out, ",");
    match &e.category {
        Some(c) => push_str_chars(out, c.as_str()),
        None => push_str_chars(out, "uncategorized"),
    }
    push_str_chars(out, ",");
    push_sanitized(out, e.description.as_str());
    push_str_chars(out, "\n");
    proof {
        assert(final(out)@ =~= old(out)@ + record_of(e@));
    }
}

impl AccountantBot {
    /// The persisted image of this ledger: every entry, oldest first, one
    /// record per line.
    pub fn render_records(&self) -> (r: String)
        requires
            self.wf(),
        ensures
            r@ == records_chars(self@),
    {
        let ghost s = self@;
        let mut out: Vec<char> = Vec::new();
        let mut i: usize = 0;
        proof {
            assert(self.entries.len() == self.entries@.len());
            assert(s.len() == self.entries@.len());
            assert(s.take(0) =~= Seq::<EntryModel>::empty());
            assert(out@ =~= records_chars(s.take(0)));
        }
        while i < self.entries.len()
            invariant
                self.wf(),
                s == self@,
                i <= s.len(),
                s.len() == self.entries@.len(),
                out@ == records_chars(s.take(i as int)),
            decreases s.len() - i,
        {
            proof {
                assert(entry_wf(s[i as int]));
                assert(self.entries@[i as int]@ == s[i as int]);
            }
            push_record(&mut out, &self.entries[i]);
            proof {
                assert(s.take(i + 1) =~= s.take(i as int).push(s[i as int]));
                lemma_records_push(s.take(i as int), s[i as int]);
            }
            i += 1;
        }
        proof {
            assert(s.take(s.len() as int) =~= s);
        }
        string_of(&out)
    }
}

/// One stored line with a trailing carriage return removed, as `str::lines`
/// does for lines that end in `\r\n`.
pub open spec fn strip_cr(l: Seq<char>) -> Seq<char> {
    if l.len() > 0 && l.last() == '\r' {
        l.drop_last()
    } else {
        l
    }
}

/// The lines of a stored file, as `str::lines` yields them: split at
/// newlines, one optional trailing carriage return removed per split line,
/// and no final empty line.
pub open spec fn lines_of(s: Seq<char>) -> Seq<Seq<char>>
    decreases s.len(),
{
    if s.len() == 0 {
        Seq::empty()
    } else {
        let i = first_index_of(s, '\n');
        if i < 0 || i >= s.len() {
            seq![s]
        } else {
            seq![strip_cr(s.take(i))] + lines_of(s.skip(i + 1))
        }
    }
}

/// The five comma-separated fields of a line, the last one taking the whole
/// remainder; `None` when the line holds fewer than four commas.
pub open spec fn split5(l: Seq<char>) -> Option<(Seq<char>, Seq<char>, Seq<char>, Seq<char>, Seq<
    char,
>)> {
    let a = first_index_of(l, ',');
    if a < 0 {
        None
    } else {
        let r1 = l.skip(a + 1);
        let b = first_index_of(r1, ',');
        if b < 0 {
            None
        } else {
            let r2 = r1.skip(b + 1);
            let c = first_index_of(r2, ',');
            if c < 0 {
                None
            } else {
                let r3 = r2.skip(c + 1);
                let d = first_index_of(r3, ',');
                if d < 0 {
                    None
                } else {
                    Some((l.take(a), r1.take(b), r2.take(c), r3.take(d), r3.skip(d + 1)))
                }
            }
        }
    }
}

/// What one stored line contributes to a load.
pub ghost enum RecParse {
    Skipped,
    Failed(LoadError),
    Parsed(EntryModel),
}

/// The reading of one stored line: too few fields or an unknown kind skip
/// the line; a bad date or amount fails the load; otherwise the line names
/// an entry, its category taken verbatim from the fourth field.
pub open spec fn parse_record(l: Seq<char>) -> RecParse {
    match split5(l) {
        None => RecParse::Skipped,
        Some((f0, f1, f2, f3, f4)) => {
            if f0 == "IN"@ || f0 == "OUT"@ {
                let kind = if f0 == "IN"@ {
                    EntryType::Income
                } else {
                    EntryType::Expense
                };
                match date_of_chars(f1) {
                    None => RecParse::Failed(LoadError::InvalidDate),
                    Some(d) => match amount_cents_of(f2) {
                        None => RecParse::Failed(LoadError::InvalidAmount),
                        Some(a) => if 1 <= a <= AMOUNT_MAX_CENTS {
                            RecParse::Parsed(
                                EntryModel {
                                    entry_type: kind,
                                    amount: a,
                                    description: f4,
                                    date: d,
                                    category: Some(f3),
                                },
                            )
                        } else {
                            RecParse::Failed(LoadError::InvalidAmount)
                        },
                    },
                }
            } else {
                RecParse::Skipped
            }
        },
    }
}

/// The reading of a whole stored file, line by line, stopping at the first
/// failing line.
pub open spec fn parse_lines(ls: Seq<Seq<char>>) -> Result<Seq<EntryModel>, LoadError>
    decreases ls.len(),
{
    if ls.len() == 0 {
        Ok(Seq::empty())
    } else {
        match parse_record(ls[0]) {
            RecParse::Failed(e) => Err(e),
            RecParse::Skipped => parse_lines(ls.drop_first()),
            RecParse::Parsed(m) => match parse_lines(ls.drop_first()) {
                Ok(t) => Ok(seq![m] + t),
                Err(e) => Err(e),
            },
        }
    }
}

/// The entries denoted by a stored file.
pub open spec fn records_parse(s: Seq<char>) -> Result<Seq<EntryModel>, LoadError> {
    parse_lines(lines_of(s))
}

/// The outcome of reading one stored line.
enum LineOutcome {
    Skipped,
    Failed(LoadError),
    Parsed(Entry),
}

/// Reads one stored line, the characters between `from` and `to`.
fn parse_record_exec(v: &Vec<char>, from: usize, to: usize) -> (r: LineOutcome)
    requires
        from <= to <= v@.len(),
    ensures
        ({
            let l = v@.subrange(from as int, to as int);
            match r {
                LineOutcome::Skipped => parse_record(l) is Skipped,
                LineOutcome::Failed(e) => parse_record(l) == RecParse::Failed(e),
                LineOutcome::Parsed(ent) => parse_record(l) == RecParse::Parsed(ent@)
                    && entry_wf(ent@),
            }
        }),
{
    let ghost l = v@.subrange(from as int, to as int);
    let a = match find_char(v, from, to, ',') {
        None => {
            return LineOutcome::Skipped;
        },
        Some(a) => a,
    };
    proof {
        assert(v@.subrange(a + 1, to as int) =~= l.skip((a - from) + 1));
    }
    let b = match find_char(v, a + 1, to, ',') {
        None => {
            return LineOutcome::Skipped;
        },
        Some(b) => b,
    };
    proof {
        assert(v@.subrange(b + 1, to as int) =~= l.skip((a - from) + 1).skip((b - a - 1) + 1));
    }
    let c = match find_char(v, b + 1, to, ',') {
        None => {
            return LineOutcome::Skipped;
        },
        Some(c) => c,
    };
    proof {
        assert(v@.subrange(c + 1, to as int) =~= l.skip((a - from) + 1).skip((b - a - 1)
            + 1).skip((c - b - 1) + 1));
    }
    let d = match find_char(v, c + 1, to, ',') {
        None => {
            return LineOutcome::Skipped;
        },
        Some(d) => d,
    };
    let ghost f0 = l.take(a - from);
    let ghost r1 = l.skip((a - from) + 1);
    let ghost f1 = r1.take(b - a - 1);
    let ghost r2 = r1.skip((b - a - 1) + 1);
    let ghost f2 = r2.take(c - b - 1);
    let ghost r3 = r2.skip((c - b - 1) + 1);
    let ghost f3 = r3.take(d - c - 1);
    let ghost f4 = r3.skip((d - c - 1) + 1);
    proof {
        assert(v@.subrange(from as int, a as int) =~= f0);
        assert(v@.subrange(a + 1, b as int) =~= f1);
        assert(v@.subrange(b + 1, c as int) =~= f2);
        assert(v@.subrange(c + 1, d as int) =~= f3);
        assert(v@.subrange(d + 1, to as int) =~= f4);
        assert(split5(l) == Some((f0, f1, f2, f3, f4)));
    }
    let is_in = eq_range(v, from, a, "IN");
    let is_out = eq_range(v, from, a, "OUT");
    if !is_in && !is_out {
        return LineOutcome::Skipped;
    }
    let kind = if is_in {
        EntryType::Income
    } else {
        EntryType::Expense
    };
    let date = match parse_date(v, a + 1, b) {
        None => {
            return LineOutcome::Failed(LoadError::InvalidDate);
        },
        Some(dd) => dd,
    };
    let amount = match parse_amount(v, b + 1, c) {
        None => {
            return LineOutcome::Failed(LoadError::InvalidAmount);
        },
        Some(am) => am,
    };
    let mut catv: Vec<char> = Vec::new();
    push_range(&mut catv, v, c + 1, d);
    let category = string_of(&catv);
    let mut descv: Vec<char> = Vec::new();
    push_range(&mut descv, v, d + 1, to);
    let description = string_of(&descv);
    let ent = Entry { entry_type: kind, amount, description, date, category: Some(category) };
    proof {
        assert(date_valid(date));
        assert(ent@ == (match parse_record(l) {
            RecParse::Parsed(m) => m,
            _ => ent@,
        }));
    }
    LineOutcome::Parsed(ent)
}

/// Reads the stored lines from `pos` on, appending each entry they name.
fn parse_lines_exec(v: &Vec<char>, pos: usize, acc: &mut Vec<Entry>) -> (r: Result<
    (),
    LoadError,
>)
    requires
        pos <= v@.len(),
    ensures
        ({
            let res = parse_lines(lines_of(v@.skip(pos as int)));
            match res {
                Ok(es) => r is Ok && final(acc)@.map(|i: int, e: Entry| e@) == old(acc)@.map(
                    |i: int, e: Entry| e@,
                ) + es && (forall|i: int|
                    old(acc)@.len() <= i < final(acc)@.len() ==> entry_wf(
                        (#[trigger] final(acc)@[i])@,
                    )),
                Err(e) => r == Err::<(), LoadError>(e),
            }
        }),
    decreases v@.len() - pos,
{
    let ghost s = v@.skip(pos as int);
    if pos == v.len() {
        proof {
            assert(s.len() == 0);
            assert(lines_of(s) =~~= Seq::<Seq<char>>::empty());
            assert(final(acc)@.map(|i: int, e: Entry| e@) =~= old(acc)@.map(|i: int, e: Entry| e@)
                + Seq::<EntryModel>::empty());
        }
        return Ok(());
    }
    let nl = find_char(v, pos, v.len(), '\n');
    let (lend, next_pos): (usize, usize) = match nl {
        None => (v.len(), v.len()),
        Some(k) => {
            if k > pos && v[k - 1] == '\r' {
                (k - 1, k + 1)
            } else {
                (k, k + 1)
            }
        },
    };
    let ghost line = v@.subrange(pos as int, lend as int);
    let ghost tail_lines = lines_of(v@.skip(next_pos as int));
    proof {
        let i = first_index_of(s, '\n');
        match nl {
            None => {
                assert(i < 0);
                assert(line =~= s);
                assert(lines_of(s) == seq![s]);
                assert(v@.skip(next_pos as int).len() == 0);
                assert(tail_lines =~~= Seq::<Seq<char>>::empty());
            },
            Some(k) => {
                assert(i == k - pos);
                assert(0 <= i < s.len());
                assert(s.take(i) =~= v@.subrange(pos as int, k as int));
                if k > pos && v@[k - 1] == '\r' {
                    assert(s.take(i).len() > 0);
                    assert(s.take(i).last() == '\r');
                    assert(strip_cr(s.take(i)) =~= line);
                } else {
                    assert(strip_cr(s.take(i)) =~= line);
                }
                assert(s.skip(i + 1) =~= v@.skip(next_pos as int));
                assert(lines_of(s) == seq![strip_cr(s.take(i))] + tail_lines);
                assert(lines_of(s) =~~= seq![line] + tail_lines);
            },
        }
        assert(lines_of(s)[0] == line);
        assert(lines_of(s).drop_first() =~~= tail_lines);
    }
    match parse_record_exec(v, pos, lend) {
        LineOutcome::Failed(e) => {
            proof {
                assert(parse_lines(lines_of(s)) == Err::<Seq<EntryModel>, LoadError>(e));
            }
            Err(e)
        },
        LineOutcome::Skipped => {
            let r = parse_lines_exec(v, next_pos, acc);
            proof {
                assert(parse_lines(lines_of(s)) == parse_lines(tail_lines));
            }
            r
        },
        LineOutcome::Parsed(ent) => {
            let ghost mid = acc@.push(ent).map(|i: int, e: Entry| e@);
            acc.push(ent);
            proof {
                assert(acc@.map(|i: int, e: Entry| e@) =~= old(acc)@.map(|i: int, e: Entry| e@)
                    .push(ent@));
            }
            let ghost mid_acc = acc@;
            let r = parse_lines_exec(v, next_pos, acc);
            proof {
                let m = ent@;
                match parse_lines(tail_lines) {
                    Ok(t) => {
                        assert(parse_lines(lines_of(s)) == Ok::<Seq<EntryModel>, LoadError>(
                            seq![m] + t));
                        assert(old(acc)@.map(|i: int, e: Entry| e@).push(m) + t =~= old(acc)@.map(
                            |i: int, e: Entry| e@) + (seq![m] + t));
                        let k = old(acc)@.len() as int;
                        assert(acc@.map(|i: int, e: Entry| e@) == mid_acc.map(
                            |i: int, e: Entry| e@) + t);
                        assert(acc@.len() > k);
                        assert(acc@.map(|i: int, e: Entry| e@)[k] == mid_acc.map(
                            |i: int, e: Entry| e@)[k]);
                        assert(mid_acc.map(|i: int, e: Entry| e@)[k] == m);
                        assert((acc@[k])@ == acc@.map(|i: int, e: Entry| e@)[k]);
                        assert(entry_wf((acc@[k])@));
                        assert(forall|i: int| k <= i < acc@.len() ==> entry_wf(
                            (#[trigger] acc@[i])@));
                    },
                    Err(e) => {
                        assert(parse_lines(lines_of(s)) == Err::<Seq<EntryModel>, LoadError>(e));
                    },
                }
            }
            r
        },
    }
}

impl AccountantBot {
    /// Replaces the whole ledger with the entries named by `content`. On a
    /// failing line nothing is replaced and the error says which kind of
    /// field could not be read.
    pub fn load_from_records(&mut self, content: &str) -> (r: Result<(), LoadError>)
        ensures
            match records_parse(content@) {
                Ok(es) => r is Ok && final(self)@ == es && final(self).wf(),
                Err(e) => r == Err::<(), LoadError>(e) && final(self)@ == old(self)@,
            },
    {
        let v = crate::text::chars_of(content);
        let mut acc: Vec<Entry> = Vec::new();
        proof {
            assert(v@.skip(0) =~= content@);
        }
        match parse_lines_exec(&v, 0, &mut acc) {
            Ok(()) => {
                proof {
                    assert(Seq::<Entry>::empty().map(|i: int, e: Entry| e@)
                        =~= Seq::<EntryModel>::empty());
                }
                self.entries = acc;
                proof {
                    match records_parse(content@) {
                        Ok(es) => {
                            assert(final(self)@ =~= es);
                        },
                        Err(_) => {
                            assert(false);
                        },
                    }
                }
                Ok(())
            },
            Err(e) => {
                Err(e)
            },
        }
    }
}

/// Free of line terminators: such text survives being written on one line.
pub open spec fn line_safe(s: Seq<char>) -> bool {
    forall|i: int| 0 <= i < s.len() ==> #[trigger] s[i] != '\n' && s[i] != '\r'
}

/// Free of line terminators and of the field delimiter.
pub open spec fn field_safe(s: Seq<char>) -> bool {
    line_safe(s) && forall|i: int| 0 <= i < s.len() ==> #[trigger] s[i] != ','
}

/// An entry whose persisted image reads back exactly: its description holds
/// no line terminator and its category, when present, holds neither a line
/// terminator nor a comma.
pub open spec fn round_trippable(e: EntryModel) -> bool {
    entry_wf(e) && line_safe(e.description) && match e.category {
        Some(c) => field_safe(c),
        None => true,
    }
}

/// What an entry becomes after one save and load: the description sanitized,
/// the category made explicit.
pub open spec fn loaded_form(e: EntryModel) -> EntryModel {
    EntryModel {
        entry_type: e.entry_type,
        amount: e.amount,
        description: sanitize(e.description),
        date: e.date,
        category: Some(category_text(e)),
    }
}

proof fn lemma_digit_not_special(c: char)
    requires
        all_digits(seq![c]),
    ensures
        c != ',' && c != '\n' && c != '\r' && c != '.',
{
    assert(seq![c][0] == c);
    assert(crate::text::is_digit(c));
}

proof fn lemma_all_digits_safe(s: Seq<char>)
    requires
        all_digits(s),
    ensures
        field_safe(s),
        forall|i: int| 0 <= i < s.len() ==> #[trigger] s[i] != '.',
{
    assert forall|i: int| 0 <= i < s.len() implies #[trigger] s[i] != ',' && s[i] != '\n' && s[i]
        != '\r' && s[i] != '.' by {
        assert(crate::text::is_digit(s[i]));
        assert(seq![s[i]][0] == s[i]);
        lemma_digit_not_special(s[i]);
    }
}

proof fn lemma_kind_shape(t: EntryType)
    ensures
        field_safe(kind_chars(t)),
        (kind_chars(t) == "IN"@) <==> t is Income,
        (kind_chars(t) == "OUT"@) <==> t is Expense,
{
    reveal_strlit("IN");
    reveal_strlit("OUT");
    assert("IN"@.len() == 2);
    assert("OUT"@.len() == 3);
    assert("IN"@[0] == 'I' && "IN"@[1] == 'N');
    assert("OUT"@[0] == 'O' && "OUT"@[1] == 'U' && "OUT"@[2] == 'T');
    assert forall|i: int| 0 <= i < kind_chars(t).len() implies #[trigger] kind_chars(t)[i] != ','
        && kind_chars(t)[i] != '\n' && kind_chars(t)[i] != '\r' by {
        if i == 0 || i == 1 || i == 2 {
        }
    }
}

proof fn lemma_date_chars_safe(d: Date)
    ensures
        field_safe(date_chars(d)),
{
    let s = date_chars(d);
    assert(s.len() == 10);
    assert forall|i: int| 0 <= i < s.len() implies #[trigger] s[i] != ',' && s[i] != '\n' && s[i]
        != '\r' by {
        if i == 4 || i == 7 {
            assert(s[i] == '-');
        } else {
            let y = d.year as int;
            let m = d.month as int;
            let dd = d.day as int;
            if i == 0 {
                assert(s[i] == digit_char((y / 1000) % 10));
                lemma_digit_in_range((y / 1000) % 10);
            } else if i == 1 {
                assert(s[i] == digit_char((y / 100) % 10));
                lemma_digit_in_range((y / 100) % 10);
            } else if i == 2 {
                assert(s[i] == digit_char((y / 10) % 10));
                lemma_digit_in_range((y / 10) % 10);
            } else if i == 3 {
                assert(s[i] == digit_char(y % 10));
                lemma_digit_in_range(y % 10);
            } else if i == 5 {
                assert(s[i] == digit_char((m / 10) % 10));
                lemma_digit_in_range((m / 10) % 10);
            } else if i == 6 {
                assert(s[i] == digit_char(m % 10));
                lemma_digit_in_range(m % 10);
            } else if i == 8 {
                assert(s[i] == digit_char((dd / 10) % 10));
                lemma_digit_in_range((dd / 10) % 10);
            } else {
                assert(i == 9);
                assert(s[i] == digit_char(dd % 10));
                lemma_digit_in_range(dd % 10);
            }
        }
    }
}

proof fn lemma_digit_in_range(x: int)
    requires
        0 <= x <= 9,
    ensures
        digit_char(x) != ',' && digit_char(x) != '\n' && digit_char(x) != '\r' && digit_char(x)
            != '.',
        crate::text::is_digit(digit_char(x)),
        crate::text::digit_val(digit_char(x)) == x,
{
}

/// The value written for a two-digit zero-padded field reads back.
proof fn lemma_pad2_val(m: int)
    requires
        0 <= m <= 99,
    ensures
        crate::date::pad2(m).len() == 2,
        all_digits(crate::date::pad2(m)),
        crate::text::digits_val(crate::date::pad2(m)) == m,
{
    let p = crate::date::pad2(m);
    lemma_digit_in_range((m / 10) % 10);
    lemma_digit_in_range(m % 10);
    assert(p[0] == digit_char((m / 10) % 10));
    assert(p[1] == digit_char(m % 10));
    assert(p.drop_last() =~= seq![p[0]]);
    assert(p.drop_last().drop_last() =~= Seq::<char>::empty());
    assert(crate::text::digits_val(p.drop_last().drop_last()) == 0);
    assert(crate::text::digits_val(p.drop_last()) == crate::text::digit_val(p[0]));
    assert(crate::text::digits_val(p) == crate::text::digit_val(p[0]) * 10
        + crate::text::digit_val(p[1]));
    assert((m / 10) % 10 == m / 10) by (nonlinear_arith)
        requires
            0 <= m <= 99,
    ;
    assert((m / 10) * 10 + m % 10 == m);
}

proof fn lemma_cents_safe(a: int)
    requires
        a >= 0,
    ensures
        field_safe(cents_chars(a)),
{
    let dd = dec_digits((a / 100) as nat);
    let pp = crate::date::pad2(a % 100);
    crate::text::lemma_dec_digits_val((a / 100) as nat);
    lemma_all_digits_safe(dd);
    lemma_pad2_val(a % 100);
    lemma_all_digits_safe(pp);
    let s = cents_chars(a);
    assert(s =~= dd + seq!['.'] + pp);
    assert forall|i: int| 0 <= i < s.len() implies #[trigger] s[i] != ',' && s[i] != '\n' && s[i]
        != '\r' by {
        if i < dd.len() {
            assert(s[i] == dd[i]);
        } else if i == dd.len() {
            assert(s[i] == '.');
        } else {
            assert(s[i] == pp[i - dd.len() - 1]);
        }
    }
}

/// The two-decimal rendering of an amount of cents reads back as the same
/// amount.
pub proof fn lemma_cents_round_trip(a: int)
    requires
        a >= 0,
    ensures
        amount_cents_of(cents_chars(a)) == Some(a),
{
    let dd = dec_digits((a / 100) as nat);
    let pp = crate::date::pad2(a % 100);
    crate::text::lemma_dec_digits_val((a / 100) as nat);
    lemma_pad2_val(a % 100);
    lemma_all_digits_safe(dd);
    let s = cents_chars(a);
    assert(s =~= dd + seq!['.'] + pp);
    lemma_first_in_concat(dd, pp, '.');
    assert(first_index_of(s, '.') == dd.len());
    let i = first_index_of(s, '.');
    assert(s.take(i) =~= dd);
    assert(s.skip(i + 1) =~= pp);
    assert(crate::text::digits_val(dd) * 100 + crate::text::digits_val(pp) * 1int == (a / 100)
        * 100 + a % 100);
    assert((a / 100) * 100 + a % 100 == a);
}

proof fn lemma_uncategorized_safe()
    ensures
        field_safe("uncategorized"@),
{
    reveal_strlit("uncategorized");
    let s = "uncategorized"@;
    assert(s.len() == 13);
    assert forall|i: int| 0 <= i < s.len() implies #[trigger] s[i] != ',' && s[i] != '\n' && s[i]
        != '\r' by {
        if i == 0 || i == 1 || i == 2 || i == 3 || i == 4 || i == 5 || i == 6 || i == 7 || i == 8
            || i == 9 || i == 10 || i == 11 || i == 12 {
        }
    }
}

proof fn lemma_sanitize_safe(s: Seq<char>)
    requires
        line_safe(s),
    ensures
        line_safe(sanitize(s)),
{
    assert forall|i: int| 0 <= i < sanitize(s).len() implies #[trigger] sanitize(s)[i] != '\n'
        && sanitize(s)[i] != '\r' by {
        assert(s[i] != '\n' && s[i] != '\r');
        assert(sanitize(s)[i] == if s[i] == ',' {
            ' '
        } else {
            s[i]
        });
    }
}

/// One persisted record body reads back as the loaded form of its entry.
proof fn lemma_parse_record_body(e: EntryModel)
    requires
        round_trippable(e),
    ensures
        parse_record(record_body(e)) == RecParse::Parsed(loaded_form(e)),
        line_safe(record_body(e)),
{
    reveal_strlit(",");
    let k = kind_chars(e.entry_type);
    let dc = date_chars(e.date);
    let cc = cents_chars(e.amount);
    let ct = category_text(e);
    let sd = sanitize(e.description);
    lemma_kind_shape(e.entry_type);
    lemma_date_chars_safe(e.date);
    lemma_cents_safe(e.amount);
    if e.category is None {
        lemma_uncategorized_safe();
    }
    assert(field_safe(ct));
    lemma_sanitize_safe(e.description);
    let l = record_body(e);
    let rest1 = dc + seq![','] + (cc + seq![','] + (ct + seq![','] + sd));
    let rest2 = cc + seq![','] + (ct + seq![','] + sd);
    let rest3 = ct + seq![','] + sd;
    assert(","@ =~= seq![',']);
    assert(l =~= k + seq![','] + rest1);
    lemma_first_in_concat(k, rest1, ',');
    assert(first_index_of(l, ',') == k.len());
    let a = first_index_of(l, ',');
    assert(l.take(a) =~= k);
    assert(l.skip(a + 1) =~= rest1);
    assert(rest1 =~= dc + seq![','] + rest2);
    lemma_first_in_concat(dc, rest2, ',');
    let b = first_index_of(rest1, ',');
    assert(b == dc.len());
    assert(rest1.take(b) =~= dc);
    assert(rest1.skip(b + 1) =~= rest2);
    assert(rest2 =~= cc + seq![','] + rest3);
    lemma_first_in_concat(cc, rest3, ',');
    let c = first_index_of(rest2, ',');
    assert(c == cc.len());
    assert(rest2.take(c) =~= cc);
    assert(rest2.skip(c + 1) =~= rest3);
    lemma_first_in_concat(ct, sd, ',');
    let d = first_index_of(rest3, ',');
    assert(d == ct.len());
    assert(rest3.take(d) =~= ct);
    assert(rest3.skip(d + 1) =~= sd);
    assert(split5(l) == Some((k, dc, cc, ct, sd)));
    reveal_strlit("IN");
    reveal_strlit("OUT");
    crate::date::lemma_date_round_trip(e.date);
    lemma_cents_round_trip(e.amount);
    assert(line_safe(l)) by {
        assert forall|i: int| 0 <= i < l.len() implies #[trigger] l[i] != '\n' && l[i] != '\r' by {
            let n0 = k.len();
            let n1 = n0 + 1 + dc.len();
            let n2 = n1 + 1 + cc.len();
            let n3 = n2 + 1 + ct.len();
            if i < n0 {
                assert(l[i] == k[i]);
            } else if i == n0 {
                assert(l[i] == ',');
            } else if i < n1 {
                assert(l[i] == dc[i - n0 - 1]);
            } else if i == n1 {
                assert(l[i] == ',');
            } else if i < n2 {
                assert(l[i] == cc[i - n1 - 1]);
            } else if i == n2 {
                assert(l[i] == ',');
            } else if i < n3 {
                assert(l[i] == ct[i - n2 - 1]);
            } else if i == n3 {
                assert(l[i] == ',');
            } else {
                assert(l[i] == sd[i - n3 - 1]);
            }
        }
    }
}

/// Reading lines off a stored image whose first line is known.
proof fn lemma_lines_head(line: Seq<char>, rest: Seq<char>)
    requires
        line_safe(line),
    ensures
        lines_of(line + seq!['\n'] + rest) == seq![line] + lines_of(rest),
{
    let s = line + seq!['\n'] + rest;
    assert forall|i: int| 0 <= i < line.len() implies #[trigger] line[i] != '\n' by {}
    lemma_first_in_concat(line, rest, '\n');
    let i = first_index_of(s, '\n');
    assert(i == line.len());
    assert(0 <= i < s.len());
    assert(s.take(i) =~= line);
    assert(s.skip(i + 1) =~= rest);
    if line.len() > 0 {
        assert(line.last() != '\r');
    }
    assert(strip_cr(line) == line);
}

/// Saving a ledger and loading what was written yields the same entries,
/// in the same order, with equal kind, amount and date for every entry,
/// the description equal up to delimiter substitution, and the category
/// equal up to the explicit default for an absent one.
#[verifier::rlimit(100)]
pub proof fn lemma_records_round_trip(s: Seq<EntryModel>)
    requires
        forall|i: int| 0 <= i < s.len() ==> round_trippable(#[trigger] s[i]),
    ensures
        records_parse(records_chars(s)) == Ok::<Seq<EntryModel>, LoadError>(
            s.map(|i: int, e: EntryModel| loaded_form(e)),
        ),
    decreases s.len(),
{
    reveal_strlit("\n");
    if s.len() == 0 {
        assert(records_chars(s).len() == 0);
        assert(lines_of(records_chars(s)) =~~= Seq::<Seq<char>>::empty());
        assert(s.map(|i: int, e: EntryModel| loaded_form(e)) =~= Seq::<EntryModel>::empty());
    } else {
        let e0 = s[0];
        let t = s.drop_first();
        assert(round_trippable(e0));
        assert(forall|i: int| 0 <= i < t.len() ==> round_trippable(#[trigger] t[i])) by {
            assert(forall|i: int| 0 <= i < t.len() ==> t[i] == s[i + 1]);
        }
        lemma_records_round_trip(t);
        lemma_parse_record_body(e0);
        let body = record_body(e0);
        let rest = records_chars(t);
        assert("\n"@ =~= seq!['\n']);
        assert(records_chars(s) =~= body + seq!['\n'] + rest);
        lemma_lines_head(body, rest);
        assert(lines_of(records_chars(s)) == seq![body] + lines_of(rest));
        let ls = lines_of(records_chars(s));
        assert(ls[0] == body);
        assert(ls.drop_first() =~~= lines_of(rest));
        assert(parse_record(body) == RecParse::Parsed(loaded_form(e0)));
        let tmap = t.map(|i: int, e: EntryModel| loaded_form(e));
        assert(parse_lines(lines_of(rest)) == Ok::<Seq<EntryModel>, LoadError>(tmap));
        assert(parse_lines(ls) == Ok::<Seq<EntryModel>, LoadError>(seq![loaded_form(e0)]
            + tmap));
        assert(seq![loaded_form(e0)] + tmap =~= s.map(|i: int, e: EntryModel| loaded_form(e)))
            by {
            assert(forall|i: int| 0 <= i < t.len() ==> t[i] == s[i + 1]);
        }
    }
}

} // verus!
