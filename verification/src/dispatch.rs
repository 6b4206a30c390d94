//! The dispatcher: for each inbound message it decides between termination,
//! a structured ledger command, and free conversation. A message equal to
//! the termination token ends the session at once; one that starts with the
//! command marker is executed directly; any other text is handed to an
//! external classifier, whose verdict then picks execution, conversation, or
//! termination. Every executed command's reply is recorded as an assistant
//! turn, and a completed conversation records both the user's text and the
//! model's reply; so later turns keep their context either way.

use vstd::prelude::*;
use crate::accountant::AccountantBot;
use crate::command::{handle_command, interp};
use crate::date::{Date, date_valid};
use crate::memory::{context_of, Memory, Role, TurnModel};
use crate::text::{chars_of, eq_str, trim_chars, trimmed};

verus! {

/// One inbound chat message, as the transport hands it over.
pub struct IncomingMessage {
    pub text: String,
    pub chat_id: i64,
    pub user_id: i64,
}

/// The classifier's verdict on a free-text message.
pub enum Classification {
    Command(String),
    NoCommand,
    Terminate,
}

/// Where a session stands between calls.
pub enum DispatchState {
    Idle,
    Classifying { text: String },
    Conversing { text: String },
    Terminated,
}

/// What the caller must do after an inbound message was taken.
pub enum InboundOutcome {
    End,
    Send(String),
    Classify(String),
}

/// What the caller must do after a classifier verdict was taken.
pub enum ClassifiedOutcome {
    End,
    Send(String),
    Complete(String),
}

/// The verdict read off the classifier's reply: a failed call (`None`)
/// and the literal sentinel `none` both mean no applicable command, the
/// termination token ends the session, and anything else is a command.
pub fn interpret_classifier(raw: Option<&str>) -> (c: Classification)
    ensures
        match raw {
            None => c is NoCommand,
            Some(s) => {
                let t = trimmed(s@);
                if t == "/end"@ {
                    c is Terminate
                } else if t == "none"@ {
                    c is NoCommand
                } else {
                    c matches Classification::Command(cmd) && cmd@ == s@
                }
            },
        },
{
    match raw {
        None => Classification::NoCommand,
        Some(s) => {
            let v = chars_of(s);
            let t = trim_chars(&v);
            if eq_str(&t, "/end") {
                Classification::Terminate
            } else if eq_str(&t, "none") {
                Classification::NoCommand
            } else {
                Classification::Command(String::from_str(s))
            }
        },
    }
}

/// One session's state: the ledger and the conversation memory it owns, and
/// where the dispatch protocol stands.
pub struct Dispatcher {
    pub ledger: AccountantBot,
    pub memory: Memory,
    pub state: DispatchState,
}

impl Dispatcher {
    pub open spec fn wf(&self) -> bool {
        self.ledger.wf()
    }

    /// A fresh idle session around the given ledger and memory.
    pub fn new(ledger: AccountantBot, memory: Memory) -> (r: Dispatcher)
        requires
            ledger.wf(),
        ensures
            r.ledger == ledger,
            r.memory == memory,
            r.state is Idle,
            r.wf(),
    {
        Dispatcher { ledger, memory, state: DispatchState::Idle }
    }

    /// Takes one inbound message. The termination token ends the session
    /// with the ledger and the memory untouched and without consulting the
    /// classifier. Text starting with the command marker is executed at
    /// once, its reply recorded as an assistant turn and handed back to be
    /// sent. Anything else is handed out for classification, changing
    /// nothing yet.
    pub fn on_message(&mut self, text: &str, today: Date) -> (o: InboundOutcome)
        requires
            old(self).state is Idle,
            old(self).wf(),
            date_valid(today),
        ensures
            final(self).wf(),
            ({
                let t = trimmed(text@);
                if t == "/end"@ {
                    final(self).state is Terminated && final(self).ledger@ == old(self).ledger@
                        && final(self).memory@ == old(self).memory@ && o is End
                } else if t.len() > 0 && t[0] == '/' {
                    let effect = interp(old(self).ledger@, text@, today);
                    final(self).state is Idle && final(self).ledger@ == effect.0
                        && final(self).memory@ == old(self).memory@.push(
                        TurnModel { role: Role::Assistant, content: effect.1 },
                    ) && (o matches InboundOutcome::Send(reply) && reply@ == effect.1)
                } else {
                    (final(self).state matches DispatchState::Classifying { text: pending }
                        && pending@ == text@) && final(self).ledger@ == old(self).ledger@
                        && final(self).memory@ == old(self).memory@ && (o
                        matches InboundOutcome::Classify(q) && q@ == text@)
                }
            }),
    {
        let v = chars_of(text);
        let t = trim_chars(&v);
        if eq_str(&t, "/end") {
            self.state = DispatchState::Terminated;
            InboundOutcome::End
        } else if t.len() > 0 && t[0] == '/' {
            let reply = handle_command(&mut self.ledger, text, today);
            self.memory.add_assistant(reply.as_str());
            self.state = DispatchState::Idle;
            InboundOutcome::Send(reply)
        } else {
            self.state = DispatchState::Classifying { text: String::from_str(text) };
            InboundOutcome::Classify(String::from_str(text))
        }
    }

    /// Takes the classifier's verdict on the pending message. Termination
    /// ends the session with nothing recorded. A command is executed as on
    /// the direct path. No applicable command moves to conversation: the
    /// rendered context is handed back for completion, and nothing is
    /// recorded yet.
    pub fn on_classified(&mut self, c: Classification, today: Date) -> (o: ClassifiedOutcome)
        requires
            old(self).state matches DispatchState::Classifying { .. },
            old(self).wf(),
            date_valid(today),
        ensures
            final(self).wf(),
            ({
                let pending = (match old(self).state {
                    DispatchState::Classifying { text } => text,
                    _ => arbitrary(),
                })@;
                match c {
                    Classification::Terminate => final(self).state is Terminated
                        && final(self).ledger@ == old(self).ledger@
                        && final(self).memory@ == old(self).memory@ && o is End,
                    Classification::Command(cmd) => {
                        let effect = interp(old(self).ledger@, cmd@, today);
                        final(self).state is Idle && final(self).ledger@ == effect.0
                            && final(self).memory@ == old(self).memory@.push(
                            TurnModel { role: Role::Assistant, content: effect.1 },
                        ) && (o matches ClassifiedOutcome::Send(reply) && reply@ == effect.1)
                    },
                    Classification::NoCommand => (final(self).state
                        matches DispatchState::Conversing { text: still } && still@ == pending)
                        && final(self).ledger@ == old(self).ledger@
                        && final(self).memory@ == old(self).memory@
                        && (o matches ClassifiedOutcome::Complete(p) && p@ == context_of(
                        old(self).memory@,
                        pending,
                    )),
                }
            }),
    {
        let pending = match &self.state {
            DispatchState::Classifying { text } => text.clone(),
            _ => String::new(),
        };
        match c {
            Classification::Terminate => {
                self.state = DispatchState::Terminated;
                ClassifiedOutcome::End
            },
            Classification::Command(cmd) => {
                let reply = handle_command(&mut self.ledger, cmd.as_str(), today);
                self.memory.add_assistant(reply.as_str());
                self.state = DispatchState::Idle;
                ClassifiedOutcome::Send(reply)
            },
            Classification::NoCommand => {
                let prompt = self.memory.recent_context(pending.as_str());
                self.state = DispatchState::Conversing { text: pending };
                ClassifiedOutcome::Complete(prompt)
            },
        }
    }

    /// Takes the language model's reply for the pending conversation turn.
    /// On success both the user's text and the reply are recorded, in that
    /// order; on a failed completion nothing is recorded and no reply is
    /// owed for this turn. Either way the session is idle again.
    pub fn on_completion(&mut self, reply: Option<&str>)
        requires
            old(self).state matches DispatchState::Conversing { .. },
            old(self).wf(),
        ensures
            final(self).wf(),
            final(self).state is Idle,
            final(self).ledger@ == old(self).ledger@,
            ({
                let pending = (match old(self).state {
                    DispatchState::Conversing { text } => text,
                    _ => arbitrary(),
                })@;
                match reply {
                    Some(r) => final(self).memory@ == old(self).memory@.push(
                        TurnModel { role: Role::User, content: pending },
                    ).push(TurnModel { role: Role::Assistant, content: r@ }),
                    None => final(self).memory@ == old(self).memory@,
                }
            }),
    {
        let pending = match &self.state {
            DispatchState::Conversing { text } => text.clone(),
            _ => String::new(),
        };
        match reply {
            Some(r) => {
                self.memory.add_user(pending.as_str());
                self.memory.add_assistant(r);
            },
            None => {},
        }
        self.state = DispatchState::Idle;
    }
}

} // verus!
