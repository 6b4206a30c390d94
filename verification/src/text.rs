//! Character-level utilities: whitespace classification, conversions between
//! `&str`/`String` and `Vec<char>`, and decimal digit arithmetic, each with an
//! exact specification.

use vstd::prelude::*;

verus! {

/// The characters with the Unicode `White_Space` property: exactly what
/// `str::trim` and `str::split_whitespace` treat as separators.
pub open spec fn is_space(c: char) -> bool {
    c == '\u{0009}' || c == '\u{000A}' || c == '\u{000B}' || c == '\u{000C}'
        || c == '\u{000D}' || c == '\u{0020}' || c == '\u{0085}' || c == '\u{00A0}'
        || c == '\u{1680}' || c == '\u{2000}' || c == '\u{2001}' || c == '\u{2002}'
        || c == '\u{2003}' || c == '\u{2004}' || c == '\u{2005}' || c == '\u{2006}'
        || c == '\u{2007}' || c == '\u{2008}' || c == '\u{2009}' || c == '\u{200A}'
        || c == '\u{2028}' || c == '\u{2029}' || c == '\u{202F}' || c == '\u{205F}'
        || c == '\u{3000}'
}

pub fn is_space_char(c: char) -> (r: bool)
    ensures
        r == is_space(c),
{
    c == '\u{0009}' || c == '\u{000A}' || c == '\u{000B}' || c == '\u{000C}'
        || c == '\u{000D}' || c == '\u{0020}' || c == '\u{0085}' || c == '\u{00A0}'
        || c == '\u{1680}' || c == '\u{2000}' || c == '\u{2001}' || c == '\u{2002}'
        || c == '\u{2003}' || c == '\u{2004}' || c == '\u{2005}' || c == '\u{2006}'
        || c == '\u{2007}' || c == '\u{2008}' || c == '\u{2009}' || c == '\u{200A}'
        || c == '\u{2028}' || c == '\u{2029}' || c == '\u{202F}' || c == '\u{205F}'
        || c == '\u{3000}'
}

/// Collects the characters of a string slice into a vector.
pub fn chars_of(s: &str) -> (v: Vec<char>)
    ensures
        v@ == s@,
{
    let n = s.unicode_len();
    let mut v: Vec<char> = Vec::new();
    let mut i: usize = 0;
    while i < n
        invariant
            i <= n,
            n == s@.len(),
            v@ == s@.take(i as int),
        decreases n - i,
    {
        v.push(s.get_char(i));
        proof {
            assert(s@.take(i + 1) =~= s@.take(i as int).push(s@[i as int]));
        }
        i += 1;
    }
    proof {
        assert(s@.take(n as int) =~= s@);
    }
    v
}

/// Relies on std's `String::push`: appends the given character at the end of
/// the string.
#[verifier::external_body]
fn push_char(s: &mut String, c: char)
    ensures
        final(s)@ == old(s)@.push(c),
{
    s.push(c);
}

/// Builds an owned string out of a vector of characters.
pub fn string_of(v: &Vec<char>) -> (s: String)
    ensures
        s@ == v@,
{
    let mut s = String::new();
    let mut i: usize = 0;
    while i < v.len()
        invariant
            i <= v@.len(),
            s@ == v@.take(i as int),
        decreases v@.len() - i,
    {
        push_char(&mut s, v[i]);
        proof {
            assert(v@.take(i + 1) =~= v@.take(i as int).push(v@[i as int]));
        }
        i += 1;
    }
    proof {
        assert(v@.take(v@.len() as int) =~= v@);
    }
    s
}

/// Appends every character of a string slice to the vector.
pub fn push_str_chars(out: &mut Vec<char>, s: &str)
    ensures
        final(out)@ == old(out)@ + s@,
{
    let n = s.unicode_len();
    let mut i: usize = 0;
    while i < n
        invariant
            i <= n,
            n == s@.len(),
            out@ == old(out)@ + s@.take(i as int),
        decreases n - i,
    {
        out.push(s.get_char(i));
        proof {
            assert(old(out)@ + s@.take(i + 1) =~= (old(out)@ + s@.take(i as int)).push(
                s@[i as int],
            ));
        }
        i += 1;
    }
    proof {
        assert(s@.take(n as int) =~= s@);
    }
}

/// Appends every character of `src` (between `from` and `to`) to the vector.
pub fn push_range(out: &mut Vec<char>, src: &Vec<char>, from: usize, to: usize)
    requires
        from <= to <= src@.len(),
    ensures
        final(out)@ == old(out)@ + src@.subrange(from as int, to as int),
{
    let mut i: usize = from;
    while i < to
        invariant
            from <= i <= to <= src@.len(),
            out@ == old(out)@ + src@.subrange(from as int, i as int),
        decreases to - i,
    {
        out.push(src[i]);
        proof {
            assert(old(out)@ + src@.subrange(from as int, i + 1) =~= (old(out)@ + src@.subrange(
                from as int,
                i as int,
            )).push(src@[i as int]));
        }
        i += 1;
    }
}

pub open spec fn is_digit(c: char) -> bool {
    48 <= c as u32 && c as u32 <= 57
}

pub open spec fn digit_val(c: char) -> int {
    c as u32 - 48
}

pub open spec fn digit_char(d: int) -> char {
    ((48 + d) as u8) as char
}

pub fn digit_char_of(d: u8) -> (c: char)
    requires
        d <= 9,
    ensures
        c == digit_char(d as int),
{
    (48 + d) as char
}

/// The value of a decimal digit character; `None` for any other character.
pub fn digit_of(c: char) -> (r: Option<u8>)
    ensures
        if is_digit(c) {
            r == Some(digit_val(c) as u8)
        } else {
            r is None
        },
{
    let u = c as u32;
    if 48 <= u && u <= 57 {
        Some((u - 48) as u8)
    } else {
        None
    }
}

pub open spec fn all_digits(s: Seq<char>) -> bool {
    forall|i: int| 0 <= i < s.len() ==> is_digit(#[trigger] s[i])
}

/// The number denoted by a sequence of decimal digit characters
/// (the empty sequence denotes 0).
pub open spec fn digits_val(s: Seq<char>) -> int
    decreases s.len(),
{
    if s.len() == 0 {
        0
    } else {
        digits_val(s.drop_last()) * 10 + digit_val(s.last())
    }
}

/// The canonical decimal rendering of a natural number: no leading zero
/// except for the single digit of zero itself.
pub open spec fn dec_digits(n: nat) -> Seq<char>
    decreases n,
{
    if n < 10 {
        seq![digit_char(n as int)]
    } else {
        dec_digits(n / 10).push(digit_char((n % 10) as int))
    }
}

/// Appends the canonical decimal rendering of `n`.
pub fn push_dec(out: &mut Vec<char>, n: u128)
    ensures
        final(out)@ == old(out)@ + dec_digits(n as nat),
    decreases n,
{
    if n >= 10 {
        push_dec(out, n / 10);
    }
    out.push(digit_char_of((n % 10) as u8));
    proof {
        if n >= 10 {
            assert(old(out)@ + dec_digits(n as nat) =~= (old(out)@ + dec_digits(
                (n / 10) as nat,
            )).push(digit_char((n % 10) as int)));
        } else {
            assert(old(out)@ + dec_digits(n as nat) =~= old(out)@.push(
                digit_char((n % 10) as int),
            ));
        }
    }
}

pub proof fn lemma_digits_val_nonneg(s: Seq<char>)
    requires
        all_digits(s),
    ensures
        digits_val(s) >= 0,
    decreases s.len(),
{
    if s.len() > 0 {
        assert(all_digits(s.drop_last())) by {
            assert(forall|i: int|
                0 <= i < s.len() - 1 ==> #[trigger] s.drop_last()[i] == s[i]);
        }
        lemma_digits_val_nonneg(s.drop_last());
    }
}

/// The value of a digit run never shrinks when more digits follow it.
pub proof fn lemma_digits_val_prefix(s: Seq<char>, k: int)
    requires
        all_digits(s),
        0 <= k <= s.len(),
    ensures
        digits_val(s.take(k)) <= digits_val(s),
    decreases s.len(),
{
    if k == s.len() {
        assert(s.take(k) =~= s);
    } else {
        let d = s.drop_last();
        assert(all_digits(d)) by {
            assert(forall|i: int| 0 <= i < s.len() - 1 ==> #[trigger] d[i] == s[i]);
        }
        assert(s.take(k) =~= d.take(k));
        lemma_digits_val_prefix(d, k);
        lemma_digits_val_nonneg(d);
        assert(digits_val(d) * 10 >= digits_val(d)) by (nonlinear_arith)
            requires
                digits_val(d) >= 0,
        ;
        assert(is_digit(s.last()));
    }
}

/// Reading the canonical rendering of a number back gives the number.
pub proof fn lemma_dec_digits_val(n: nat)
    ensures
        all_digits(dec_digits(n)),
        digits_val(dec_digits(n)) == n,
        dec_digits(n).len() >= 1,
    decreases n,
{
    if n < 10 {
        let s = dec_digits(n);
        assert(s =~= seq![digit_char(n as int)]);
        assert(s.drop_last() =~= Seq::<char>::empty());
        assert(digits_val(Seq::<char>::empty()) == 0);
        assert(s.last() == digit_char(n as int));
        assert(digits_val(s) == digits_val(s.drop_last()) * 10 + digit_val(s.last()));
        assert(digit_val(digit_char(n as int)) == n);
    } else {
        lemma_dec_digits_val(n / 10);
        let s = dec_digits(n);
        assert(s =~= dec_digits(n / 10).push(digit_char((n % 10) as int)));
        assert(s.drop_last() =~= dec_digits(n / 10));
        assert(digits_val(s) == (n / 10) * 10 + (n % 10));
    }
}

/// The position of the first occurrence of `c` in `s`, or -1 when absent.
pub open spec fn first_index_of(s: Seq<char>, c: char) -> int
    decreases s.len(),
{
    if s.len() == 0 {
        -1
    } else if s[0] == c {
        0
    } else {
        let r = first_index_of(s.drop_first(), c);
        if r < 0 {
            -1
        } else {
            r + 1
        }
    }
}

pub proof fn lemma_first_index_of(s: Seq<char>, c: char)
    ensures
        first_index_of(s, c) >= 0 ==> 0 <= first_index_of(s, c) < s.len() && s[first_index_of(
            s,
            c,
        )] == c && forall|j: int| 0 <= j < first_index_of(s, c) ==> s[j] != c,
        first_index_of(s, c) < 0 ==> forall|j: int| 0 <= j < s.len() ==> s[j] != c,
    decreases s.len(),
{
    if s.len() > 0 && s[0] != c {
        lemma_first_index_of(s.drop_first(), c);
        assert(forall|j: int| 1 <= j < s.len() ==> s[j] == s.drop_first()[j - 1]);
    }
}

/// Finds the first occurrence of `c` between `from` and `to`.
pub fn find_char(v: &Vec<char>, from: usize, to: usize, c: char) -> (r: Option<usize>)
    requires
        from <= to <= v@.len(),
    ensures
        ({
            let s = v@.subrange(from as int, to as int);
            match r {
                Some(k) => from <= k < to && first_index_of(s, c) == k - from,
                None => first_index_of(s, c) < 0,
            }
        }),
{
    let ghost s = v@.subrange(from as int, to as int);
    let mut i: usize = from;
    while i < to
        invariant
            from <= i <= to <= v@.len(),
            s == v@.subrange(from as int, to as int),
            forall|j: int| 0 <= j < i - from ==> s[j] != c,
        decreases to - i,
    {
        if v[i] == c {
            proof {
                lemma_first_index_of(s, c);
                assert(s[i - from] == c);
                let f = first_index_of(s, c);
                if f < 0 {
                    assert(false);
                } else if f < i - from {
                    assert(s[f] != c);
                    assert(false);
                } else if f > i - from {
                    assert(s[i - from] != c);
                    assert(false);
                }
            }
            return Some(i);
        }
        i += 1;
    }
    proof {
        lemma_first_index_of(s, c);
        if first_index_of(s, c) >= 0 {
            assert(s[first_index_of(s, c)] == c);
            assert(false);
        }
    }
    None
}

/// Parses the characters between `from` and `to` as a run of decimal digits
/// whose value is at most `cap`; anything else gives `None`.
pub fn parse_digits(v: &Vec<char>, from: usize, to: usize, cap: u128) -> (r: Option<u128>)
    requires
        from <= to <= v@.len(),
        cap <= 0x1000_0000_0000_0000_0000_0000_0000,
    ensures
        ({
            let s = v@.subrange(from as int, to as int);
            if s.len() > 0 && all_digits(s) && digits_val(s) <= cap {
                r == Some(digits_val(s) as u128)
            } else {
                r is None
            }
        }),
{
    let ghost s = v@.subrange(from as int, to as int);
    if from == to {
        return None;
    }
    let mut acc: u128 = 0;
    let mut i: usize = from;
    while i < to
        invariant
            from <= i <= to <= v@.len(),
            s == v@.subrange(from as int, to as int),
            all_digits(s.take(i - from)),
            acc == digits_val(s.take(i - from)),
            acc <= cap,
            cap <= 0x1000_0000_0000_0000_0000_0000_0000,
        decreases to - i,
    {
        let c = v[i];
        let u = c as u32;
        if !(48 <= u && u <= 57) {
            proof {
                assert(s[i - from] == c);
                assert(!is_digit(s[i - from]));
            }
            return None;
        }
        let d = (u - 48) as u128;
        proof {
            assert(s.take(i - from + 1).drop_last() =~= s.take(i - from));
            assert(s.take(i - from + 1).last() == s[i - from]);
            assert(is_digit(s[i - from]));
            assert(all_digits(s.take(i - from + 1)));
        }
        let next = acc * 10 + d;
        if next > cap {
            proof {
                assert(digits_val(s.take(i - from + 1)) == next);
                if s.len() > 0 && all_digits(s) && digits_val(s) <= cap {
                    lemma_digits_val_prefix(s, i - from + 1);
                    assert(false);
                }
            }
            return None;
        }
        acc = next;
        i += 1;
    }
    proof {
        assert(s.take(to - from) =~= s);
    }
    Some(acc)
}

/// Leading and trailing whitespace removed, as `str::trim` does.
pub open spec fn trimmed(s: Seq<char>) -> Seq<char>
    decreases s.len(),
{
    if s.len() == 0 {
        s
    } else if is_space(s[0]) {
        trimmed(s.drop_first())
    } else if is_space(s.last()) {
        trimmed(s.drop_last())
    } else {
        s
    }
}

proof fn lemma_trimmed_subrange(s: Seq<char>, a: int, b: int)
    requires
        0 <= a <= b <= s.len(),
        forall|i: int| 0 <= i < a ==> is_space(#[trigger] s[i]),
        forall|i: int| b <= i < s.len() ==> is_space(#[trigger] s[i]),
        a < b ==> !is_space(s[a]) && !is_space(s[b - 1]),
    ensures
        trimmed(s) == s.subrange(a, b),
    decreases s.len(),
{
    if s.len() == 0 {
        assert(trimmed(s) =~= s.subrange(a, b));
    } else if is_space(s[0]) {
        let d = s.drop_first();
        assert(a != 0 || b != s.len() || s.len() == 0 || (a < b && !is_space(s[a])) || a == b);
        if a == 0 && a < b {
            assert(!is_space(s[0]));
            assert(false);
        }
        if a > 0 {
            assert(forall|i: int| 0 <= i < a - 1 ==> is_space(#[trigger] d[i]));
            assert(forall|i: int| b - 1 <= i < d.len() ==> is_space(#[trigger] d[i]));
            lemma_trimmed_subrange(d, a - 1, b - 1);
            assert(d.subrange(a - 1, b - 1) =~= s.subrange(a, b));
        } else {
            assert(a == 0 && b == 0);
            assert(forall|i: int| 0 <= i < d.len() ==> is_space(#[trigger] d[i])) by {
                assert(forall|i: int| 0 <= i < d.len() ==> d[i] == s[i + 1]);
            }
            lemma_trimmed_subrange(d, 0, 0);
            assert(d.subrange(0, 0) =~= s.subrange(0, 0));
        }
    } else if is_space(s.last()) {
        if b == s.len() {
            assert(a < b ==> !is_space(s[b - 1]));
            if a < b {
                assert(false);
            }
            assert(a == b);
            assert(is_space(s[a]) || a >= s.len());
            if a < s.len() {
                assert(forall|i: int| b <= i < s.len() ==> is_space(#[trigger] s[i]));
            }
            let d = s.drop_last();
            assert(forall|i: int| 0 <= i < d.len() ==> d[i] == s[i]);
            lemma_trimmed_subrange(d, if a > d.len() { d.len() as int } else { a }, if b > d.len() { d.len() as int } else { b });
            assert(trimmed(s) == trimmed(d));
            assert(s.subrange(a, b) =~= d.subrange(
                if a > d.len() { d.len() as int } else { a },
                if b > d.len() { d.len() as int } else { b },
            ));
        } else {
            let d = s.drop_last();
            assert(forall|i: int| 0 <= i < d.len() ==> d[i] == s[i]);
            lemma_trimmed_subrange(d, a, b);
            assert(d.subrange(a, b) =~= s.subrange(a, b));
        }
    } else {
        assert(a == 0) by {
            if a > 0 {
                assert(is_space(s[0]));
            }
        }
        assert(b == s.len()) by {
            if b < s.len() {
                assert(is_space(s[s.len() - 1]));
            }
        }
        assert(s.subrange(0, s.len() as int) =~= s);
    }
}

/// A copy of `v` with leading and trailing whitespace removed.
pub fn trim_chars(v: &Vec<char>) -> (r: Vec<char>)
    ensures
        r@ == trimmed(v@),
{
    let n = v.len();
    let mut a: usize = 0;
    while a < n && is_space_char(v[a])
        invariant
            a <= n,
            n == v@.len(),
            forall|i: int| 0 <= i < a ==> is_space(#[trigger] v@[i]),
        decreases n - a,
    {
        a += 1;
    }
    if a == n {
        let r: Vec<char> = Vec::new();
        proof {
            lemma_trimmed_subrange(v@, n as int, n as int);
            assert(v@.subrange(n as int, n as int) =~= r@);
        }
        return r;
    }
    let mut b: usize = n;
    while b > a && is_space_char(v[b - 1])
        invariant
            a <= b <= n,
            n == v@.len(),
            forall|i: int| b <= i < n ==> is_space(#[trigger] v@[i]),
        decreases b,
    {
        b -= 1;
    }
    proof {
        assert(!is_space(v@[a as int]));
        if b == a {
            assert(is_space(v@[a as int]));
            assert(false);
        }
    }
    let mut r: Vec<char> = Vec::new();
    push_range(&mut r, v, a, b);
    proof {
        assert(!is_space(v@[b - 1]));
        lemma_trimmed_subrange(v@, a as int, b as int);
        assert(r@ =~= v@.subrange(a as int, b as int));
    }
    r
}

/// Compares the characters of `v` with those of `s`.
pub fn eq_str(v: &Vec<char>, s: &str) -> (r: bool)
    ensures
        r == (v@ == s@),
{
    let n = s.unicode_len();
    if v.len() != n {
        proof {
            assert(v@ != s@) by {
                if v@ == s@ {
                    assert(v@.len() == s@.len());
                }
            }
        }
        return false;
    }
    let mut i: usize = 0;
    while i < n
        invariant
            i <= n,
            n == s@.len(),
            n == v@.len(),
            forall|j: int| 0 <= j < i ==> v@[j] == s@[j],
        decreases n - i,
    {
        if v[i] != s.get_char(i) {
            proof {
                assert(v@[i as int] != s@[i as int]);
            }
            return false;
        }
        i += 1;
    }
    proof {
        assert(v@ =~= s@);
    }
    true
}

/// The whitespace-separated tokens of `s`, in order, as `str::split_whitespace`
/// yields them.
pub open spec fn tokens_of(s: Seq<char>) -> Seq<Seq<char>>
    decreases s.len(),
{
    if s.len() == 0 {
        Seq::empty()
    } else {
        let prev = tokens_of(s.drop_last());
        let c = s.last();
        if is_space(c) {
            prev
        } else if s.len() >= 2 && !is_space(s[s.len() - 2]) {
            prev.update(prev.len() - 1, prev.last().push(c))
        } else {
            prev.push(seq![c])
        }
    }
}

/// Splits `v` into its whitespace-separated tokens.
pub fn split_tokens(v: &Vec<char>) -> (r: Vec<Vec<char>>)
    ensures
        r.deep_view() == tokens_of(v@),
{
    let n = v.len();
    let mut out: Vec<Vec<char>> = Vec::new();
    let mut cur: Vec<char> = Vec::new();
    let mut i: usize = 0;
    proof {
        assert(v@.take(0) =~= Seq::<char>::empty());
    }
    while i < n
        invariant
            i <= n,
            n == v@.len(),
            cur@.len() == 0 ==> out.deep_view() == tokens_of(v@.take(i as int)),
            cur@.len() == 0 ==> (i == 0 || is_space(v@[i - 1])),
            cur@.len() > 0 ==> i > 0 && !is_space(v@[i - 1]),
            cur@.len() > 0 ==> out.deep_view().push(cur@) == tokens_of(v@.take(i as int)),
        decreases n - i,
    {
        let c = v[i];
        proof {
            assert(v@.take(i + 1).drop_last() =~= v@.take(i as int));
            assert(v@.take(i + 1).last() == v@[i as int]);
        }
        if is_space_char(c) {
            if cur.len() > 0 {
                let ghost prev_out = out.deep_view();
                let ghost prev_cur = cur@;
                out.push(cur);
                cur = Vec::new();
                proof {
                    assert(out.deep_view() =~~= prev_out.push(prev_cur));
                    assert(tokens_of(v@.take(i + 1)) == tokens_of(v@.take(i as int)));
                    assert(out.deep_view() =~~= tokens_of(v@.take(i + 1)));
                }
            } else {
                proof {
                    assert(tokens_of(v@.take(i + 1)) == tokens_of(v@.take(i as int)));
                }
            }
        } else {
            if cur.len() > 0 {
                let ghost prev_tokens = tokens_of(v@.take(i as int));
                let ghost prev_out = out.deep_view();
                let ghost prev_cur = cur@;
                cur.push(c);
                proof {
                    let now = tokens_of(v@.take(i + 1));
                    assert(v@.take(i + 1).len() >= 2);
                    assert(v@.take(i + 1)[v@.take(i + 1).len() - 2] == v@[i - 1]);
                    assert(now == prev_tokens.update(prev_tokens.len() - 1,
                        prev_tokens.last().push(c)));
                    assert(prev_tokens =~~= prev_out.push(prev_cur));
                    assert(prev_tokens.last() == prev_cur);
                    assert(cur@ =~= prev_cur.push(c));
                    assert(prev_tokens.update(prev_tokens.len() - 1, prev_cur.push(c))
                        =~~= prev_out.push(cur@));
                    assert(out.deep_view().push(cur@) =~~= now);
                }
            } else {
                let ghost prev_out = out.deep_view();
                cur.push(c);
                proof {
                    let now = tokens_of(v@.take(i + 1));
                    if v@.take(i + 1).len() >= 2 {
                        assert(v@.take(i + 1)[v@.take(i + 1).len() - 2] == v@[i - 1]);
                        assert(is_space(v@[i - 1]));
                    }
                    assert(now == tokens_of(v@.take(i as int)).push(seq![c]));
                    assert(seq![c] =~= cur@);
                    assert(out.deep_view().push(cur@) =~~= now);
                }
            }
        }
        i += 1;
    }
    proof {
        assert(v@.take(n as int) =~= v@);
    }
    if cur.len() > 0 {
        let ghost prev_out = out.deep_view();
        let ghost prev_cur = cur@;
        out.push(cur);
        proof {
            assert(out.deep_view() =~~= prev_out.push(prev_cur));
        }
    }
    out
}

/// The given sequences joined with single spaces, as `[_]::join(" ")` does.
pub open spec fn joined(ts: Seq<Seq<char>>) -> Seq<char>
    decreases ts.len(),
{
    if ts.len() == 0 {
        Seq::empty()
    } else if ts.len() == 1 {
        ts[0]
    } else {
        joined(ts.drop_last()) + seq![' '] + ts.last()
    }
}

/// Appends the tokens of `ts` from position `from` on, joined with spaces.
pub fn push_joined(out: &mut Vec<char>, ts: &Vec<Vec<char>>, from: usize)
    requires
        from <= ts@.len(),
    ensures
        final(out)@ == old(out)@ + joined(ts.deep_view().skip(from as int)),
{
    let ghost whole = ts.deep_view().skip(from as int);
    let n = ts.len();
    let mut i: usize = from;
    while i < n
        invariant
            from <= i <= n,
            n == ts@.len(),
            whole == ts.deep_view().skip(from as int),
            out@ == old(out)@ + joined(whole.take(i - from)),
        decreases n - i,
    {
        if i > from {
            out.push(' ');
        }
        let t = &ts[i];
        let m = t.len();
        let mut j: usize = 0;
        while j < m
            invariant
                j <= m,
                m == t@.len(),
                i < n == ts@.len(),
                t == &ts[i as int],
                whole == ts.deep_view().skip(from as int),
                from <= i,
                i == from ==> out@ == old(out)@ + joined(whole.take(i - from)) + t@.take(
                    j as int,
                ),
                i > from ==> out@ == old(out)@ + joined(whole.take(i - from)) + seq![' ']
                    + t@.take(j as int),
            decreases m - j,
        {
            out.push(t[j]);
            proof {
                assert(t@.take(j + 1) =~= t@.take(j as int).push(t@[j as int]));
                assert(out@ =~= (out@.drop_last()).push(t@[j as int]));
            }
            j += 1;
        }
        proof {
            assert(t@.take(m as int) =~= t@);
            assert(whole[i - from] == t@);
            let k = i - from;
            assert(whole.take(k + 1).drop_last() =~= whole.take(k));
            assert(whole.take(k + 1).last() == whole[k]);
            if k == 0 {
                assert(whole.take(1).len() == 1);
                assert(joined(whole.take(1)) == whole[0]);
                assert(out@ =~= old(out)@ + joined(whole.take(k + 1)));
            } else {
                assert(whole.take(k + 1).len() >= 2);
                assert(joined(whole.take(k + 1)) == joined(whole.take(k)) + seq![' ']
                    + whole[k]);
                assert(out@ =~= old(out)@ + joined(whole.take(k + 1)));
            }
        }
        i += 1;
    }
    proof {
        assert(whole.take(n - from) =~= whole);
        if from == n {
            assert(out@ =~= old(out)@ + joined(whole));
        }
    }
}

/// Compares the characters of `v` between `from` and `to` with those of `s`.
pub fn eq_range(v: &Vec<char>, from: usize, to: usize, s: &str) -> (r: bool)
    requires
        from <= to <= v@.len(),
    ensures
        r == (v@.subrange(from as int, to as int) == s@),
{
    let ghost w = v@.subrange(from as int, to as int);
    let n = s.unicode_len();
    if to - from != n {
        proof {
            if w == s@ {
                assert(w.len() == s@.len());
            }
        }
        return false;
    }
    let mut i: usize = 0;
    while i < n
        invariant
            i <= n,
            n == s@.len(),
            from + n <= to <= v@.len(),
            to - from == n,
            w == v@.subrange(from as int, to as int),
            forall|j: int| 0 <= j < i ==> w[j] == s@[j],
        decreases n - i,
    {
        if v[from + i] != s.get_char(i) {
            proof {
                assert(w[i as int] != s@[i as int]);
            }
            return false;
        }
        i += 1;
    }
    proof {
        assert(w =~= s@);
    }
    true
}

/// The first occurrence of `c` in `f + [c] + rest` is right after `f` when
/// `f` itself is free of `c`.
pub proof fn lemma_first_in_concat(f: Seq<char>, rest: Seq<char>, c: char)
    requires
        forall|i: int| 0 <= i < f.len() ==> f[i] != c,
    ensures
        first_index_of(f + seq![c] + rest, c) == f.len(),
        (f + seq![c] + rest).take(f.len() as int) =~= f,
        (f + seq![c] + rest).skip(f.len() as int + 1) =~= rest,
{
    let s = f + seq![c] + rest;
    lemma_first_index_of(s, c);
    assert(s[f.len() as int] == c);
    let k = first_index_of(s, c);
    if k < 0 {
        assert(false);
    } else if k < f.len() {
        assert(s[k] == f[k]);
        assert(false);
    } else if k > f.len() {
        assert(s[f.len() as int] != c);
        assert(false);
    }
}

} // verus!
