//! Conversation memory: an append-ordered log of user and assistant turns.
//! Storage is unbounded; only the most recent five turns are ever read when
//! a prompt context is rendered.

use vstd::prelude::*;
use crate::text::{push_str_chars, string_of};

verus! {

/// How many stored turns a rendered context may draw on.
pub const CONTEXT_WINDOW: usize = 5;

#[derive(Clone, Copy, Debug, PartialEq, Eq, Structural)]
pub enum Role {
    User,
    Assistant,
}

#[derive(Debug)]
pub struct Entry {
    pub role: Role,
    pub content: String,
}

/// The mathematical image of one stored turn.
pub ghost struct TurnModel {
    pub role: Role,
    pub content: Seq<char>,
}

impl View for Entry {
    type V = TurnModel;

    open spec fn view(&self) -> TurnModel {
        TurnModel { role: self.role, content: self.content@ }
    }
}

pub open spec fn role_chars(r: Role) -> Seq<char> {
    match r {
        Role::User => "User"@,
        Role::Assistant => "Assistant"@,
    }
}

/// One rendered turn: `Role: content` and a newline.
pub open spec fn turn_line(t: TurnModel) -> Seq<char> {
    role_chars(t.role) + ": "@ + t.content + "\n"@
}

/// The turns a rendered context draws on: the whole log when it holds at
/// most five turns, its last five otherwise.
pub open spec fn window(s: Seq<TurnModel>) -> Seq<TurnModel> {
    if s.len() <= CONTEXT_WINDOW {
        s
    } else {
        s.skip(s.len() - CONTEXT_WINDOW)
    }
}

/// The rendered lines of a sequence of turns, in order.
pub open spec fn turn_lines(q: Seq<TurnModel>) -> Seq<char>
    decreases q.len(),
{
    if q.len() == 0 {
        Seq::empty()
    } else {
        turn_line(q[0]) + turn_lines(q.drop_first())
    }
}

/// A rendered context: the windowed turns, then the new prompt as a user
/// line, then the bare assistant marker that elicits a completion.
pub open spec fn context_of(s: Seq<TurnModel>, prompt: Seq<char>) -> Seq<char> {
    turn_lines(window(s)) + "User: "@ + prompt + "\nAssistant:"@
}

/// A rendered context depends only on the windowed turns: two logs that
/// agree on their last five turns render the same context for any prompt.
pub proof fn lemma_context_window_only(m1: Seq<TurnModel>, m2: Seq<TurnModel>, prompt: Seq<char>)
    requires
        window(m1) == window(m2),
    ensures
        context_of(m1, prompt) == context_of(m2, prompt),
{
}

/// The window is exactly the tail of the log: `min(5, len)` turns, the one
/// at position `i` of the window being the one stored at `len - wlen + i`.
pub proof fn lemma_window_shape(s: Seq<TurnModel>)
    ensures
        window(s).len() == if s.len() <= CONTEXT_WINDOW {
            s.len() as int
        } else {
            CONTEXT_WINDOW as int
        },
        forall|i: int| 0 <= i < window(s).len() ==> window(s)[i] == s[s.len() - window(s).len()
            + i],
{
}

proof fn lemma_turn_lines_push(q: Seq<TurnModel>, t: TurnModel)
    ensures
        turn_lines(q.push(t)) == turn_lines(q) + turn_line(t),
    decreases q.len(),
{
    if q.len() == 0 {
        assert(q.push(t)[0] == t);
        assert(q.push(t).drop_first() =~= Seq::<TurnModel>::empty());
        assert(turn_lines(Seq::<TurnModel>::empty()) == Seq::<char>::empty());
        assert(turn_lines(q.push(t)) == turn_line(t) + Seq::<char>::empty());
        assert(turn_line(t) + Seq::<char>::empty() =~= Seq::<char>::empty() + turn_line(t));
    } else {
        assert(q.push(t).drop_first() =~= q.drop_first().push(t));
        lemma_turn_lines_push(q.drop_first(), t);
        assert(q.push(t)[0] == q[0]);
        assert(turn_lines(q.push(t)) == turn_line(q[0]) + (turn_lines(q.drop_first())
            + turn_line(t)));
        assert(turn_line(q[0]) + (turn_lines(q.drop_first()) + turn_line(t)) =~= (turn_line(q[0])
            + turn_lines(q.drop_first())) + turn_line(t));
    }
}

pub struct Memory {
    entries: Vec<Entry>,
}

impl View for Memory {
    type V = Seq<TurnModel>;

    closed spec fn view(&self) -> Seq<TurnModel> {
        self.entries@.map(|i: int, e: Entry| e@)
    }
}

impl Memory {
    /// Creates an empty log.
    pub fn new() -> (r: Memory)
        ensures
            r@ == Seq::<TurnModel>::empty(),
    {
        let r = Memory { entries: Vec::new() };
        proof {
            assert(r@ =~= Seq::<TurnModel>::empty());
        }
        r
    }

    /// How many turns are stored.
    pub fn len(&self) -> (r: usize)
        ensures
            r == self@.len(),
    {
        proof {
            assert(self.entries.len() == self.entries@.len());
        }
        self.entries.len()
    }

    /// Appends one user turn.
    pub fn add_user(&mut self, content: &str)
        ensures
            final(self)@ == old(self)@.push(TurnModel { role: Role::User, content: content@ }),
    {
        let e = Entry { role: Role::User, content: String::from_str(content) };
        self.entries.push(e);
        proof {
            assert(final(self)@ =~= old(self)@.push(e@));
        }
    }

    /// Appends one assistant turn.
    pub fn add_assistant(&mut self, content: &str)
        ensures
            final(self)@ == old(self)@.push(
                TurnModel { role: Role::Assistant, content: content@ },
            ),
    {
        let e = Entry { role: Role::Assistant, content: String::from_str(content) };
        self.entries.push(e);
        proof {
            assert(final(self)@ =~= old(self)@.push(e@));
        }
    }

    /// Renders the most recent five turns (or all, when fewer are stored),
    /// one `Role: content` line each, then the new prompt as a user line and
    /// the assistant marker. The log itself is not changed; the prompt is
    /// not stored.
    pub fn recent_context(&self, prompt: &str) -> (r: String)
        ensures
            r@ == context_of(self@, prompt@),
    {
        let ghost s = self@;
        let ghost w = window(s);
        let n = self.entries.len();
        proof {
            assert(self.entries.len() == self.entries@.len());
            assert(s.len() == self.entries@.len());
        }
        let start: usize = if n > CONTEXT_WINDOW {
            n - CONTEXT_WINDOW
        } else {
            0
        };
        proof {
            assert(w =~= s.skip(start as int));
        }
        let mut out: Vec<char> = Vec::new();
        let mut i: usize = start;
        proof {
            assert(w.take(0) =~= Seq::<TurnModel>::empty());
            assert(out@ =~= turn_lines(w.take(0)));
        }
        while i < n
            invariant
                start <= i <= n,
                n == s.len(),
                s == self@,
                w == window(s),
                w =~= s.skip(start as int),
                out@ == turn_lines(w.take(i - start)),
            decreases n - i,
        {
            let e = &self.entries[i];
            proof {
                assert(self.entries@[i as int]@ == s[i as int]);
                assert(w[i - start] == s[i as int]);
            }
            match e.role {
                Role::User => push_str_chars(&mut out, "User"),
                Role::Assistant => push_str_chars(&mut out, "Assistant"),
            }
            push_str_chars(&mut out, ": ");
            push_str_chars(&mut out, e.content.as_str());
            push_str_chars(&mut out, "\n");
            proof {
                assert(w.take(i - start + 1) =~= w.take(i - start).push(w[i - start]));
                lemma_turn_lines_push(w.take(i - start), w[i - start]);
                assert(out@ =~= turn_lines(w.take(i - start)) + turn_line(w[i - start]));
            }
            i += 1;
        }
        proof {
            assert(w.take(n - start) =~= w);
        }
        push_str_chars(&mut out, "User: ");
        push_str_chars(&mut out, prompt);
        push_str_chars(&mut out, "\nAssistant:");
        proof {
            assert(out@ =~= context_of(s, prompt@));
        }
        string_of(&out)
    }
}

} // verus!
