use ledgerbot::accountant::AccountantBot;
use ledgerbot::date::Date;
use ledgerbot::dispatch::{
    Classification, ClassifiedOutcome, DispatchState, Dispatcher, InboundOutcome,
    interpret_classifier,
};
use ledgerbot::memory::Memory;

fn today() -> Date {
    Date::from_ymd(2024, 5, 1).unwrap()
}

fn fresh() -> Dispatcher {
    Dispatcher::new(AccountantBot::new(), Memory::new())
}

#[test]
fn context_window_holds_the_last_five_turns() {
    let mut m = Memory::new();
    m.add_user("t1");
    m.add_assistant("t2");
    m.add_user("t3");
    m.add_assistant("t4");
    m.add_user("t5");
    m.add_assistant("t6");
    m.add_user("t7");
    assert_eq!(m.len(), 7);
    assert_eq!(
        m.recent_context("hi"),
        "User: t3\nAssistant: t4\nUser: t5\nAssistant: t6\nUser: t7\nUser: hi\nAssistant:"
    );
}

#[test]
fn short_history_is_rendered_whole() {
    let mut m = Memory::new();
    m.add_user("hello");
    m.add_assistant("hi there");
    assert_eq!(
        m.recent_context("how are you"),
        "User: hello\nAssistant: hi there\nUser: how are you\nAssistant:"
    );
}

#[test]
fn rendering_does_not_store_the_prompt() {
    let mut m = Memory::new();
    m.add_user("one");
    let _ = m.recent_context("two");
    assert_eq!(m.len(), 1);
}

#[test]
fn empty_memory_renders_only_the_sentinel() {
    let m = Memory::new();
    assert_eq!(m.recent_context("hi"), "User: hi\nAssistant:");
}

#[test]
fn termination_token_ends_the_session_untouched() {
    let mut d = fresh();
    let o = d.on_message("/end", today());
    assert!(matches!(o, InboundOutcome::End));
    assert!(matches!(d.state, DispatchState::Terminated));
    assert_eq!(d.memory.len(), 0);
    assert_eq!(d.ledger.balance(), 0);
}

#[test]
fn termination_token_is_trimmed_before_comparison() {
    let mut d = fresh();
    let o = d.on_message("  /end  ", today());
    assert!(matches!(o, InboundOutcome::End));
    assert!(matches!(d.state, DispatchState::Terminated));
}

#[test]
fn explicit_command_skips_classification() {
    let mut d = fresh();
    let o = d.on_message("/in 5 coffee", today());
    match o {
        InboundOutcome::Send(reply) => assert_eq!(reply, "Logged income: 5.00 - coffee"),
        _ => panic!("expected a reply to send"),
    }
    assert!(matches!(d.state, DispatchState::Idle));
    // the reply was recorded as an assistant turn
    assert_eq!(d.memory.len(), 1);
    assert_eq!(d.ledger.balance(), 500);
}

#[test]
fn free_text_is_handed_to_the_classifier() {
    let mut d = fresh();
    let o = d.on_message("what did I spend", today());
    match o {
        InboundOutcome::Classify(q) => assert_eq!(q, "what did I spend"),
        _ => panic!("expected a classification request"),
    }
    assert!(matches!(d.state, DispatchState::Classifying { .. }));
    assert_eq!(d.memory.len(), 0);
}

#[test]
fn classified_command_is_executed_and_recorded() {
    let mut d = fresh();
    d.on_message("log five for coffee", today());
    let o = d.on_classified(Classification::Command("/in 5 coffee".to_string()), today());
    match o {
        ClassifiedOutcome::Send(reply) => assert_eq!(reply, "Logged income: 5.00 - coffee"),
        _ => panic!("expected a reply to send"),
    }
    assert!(matches!(d.state, DispatchState::Idle));
    assert_eq!(d.memory.len(), 1);
    assert_eq!(d.ledger.balance(), 500);
}

#[test]
fn classifier_terminate_ends_without_executing() {
    let mut d = fresh();
    d.on_message("please stop now", today());
    let o = d.on_classified(Classification::Terminate, today());
    assert!(matches!(o, ClassifiedOutcome::End));
    assert!(matches!(d.state, DispatchState::Terminated));
    assert_eq!(d.memory.len(), 0);
    assert_eq!(d.ledger.balance(), 0);
}

#[test]
fn conversation_records_prompt_and_reply_in_order() {
    let mut d = fresh();
    d.on_message("hello there", today());
    let o = d.on_classified(Classification::NoCommand, today());
    match o {
        ClassifiedOutcome::Complete(prompt) => {
            assert_eq!(prompt, "User: hello there\nAssistant:")
        },
        _ => panic!("expected a completion request"),
    }
    // nothing recorded until the model answers
    assert_eq!(d.memory.len(), 0);
    d.on_completion(Some("hi!"));
    assert!(matches!(d.state, DispatchState::Idle));
    assert_eq!(d.memory.len(), 2);
    assert_eq!(
        d.memory.recent_context("next"),
        "User: hello there\nAssistant: hi!\nUser: next\nAssistant:"
    );
}

#[test]
fn failed_completion_drops_the_turn() {
    let mut d = fresh();
    d.on_message("hello there", today());
    d.on_classified(Classification::NoCommand, today());
    d.on_completion(None);
    assert!(matches!(d.state, DispatchState::Idle));
    assert_eq!(d.memory.len(), 0);
}

#[test]
fn command_replies_give_later_conversation_turns_context() {
    let mut d = fresh();
    d.on_message("/in 5 coffee", today());
    d.on_message("thanks", today());
    let o = d.on_classified(Classification::NoCommand, today());
    match o {
        ClassifiedOutcome::Complete(prompt) => assert_eq!(
            prompt,
            "Assistant: Logged income: 5.00 - coffee\nUser: thanks\nAssistant:"
        ),
        _ => panic!("expected a completion request"),
    }
}

#[test]
fn classifier_verdict_mapping() {
    assert!(matches!(interpret_classifier(None), Classification::NoCommand));
    assert!(matches!(interpret_classifier(Some("none")), Classification::NoCommand));
    assert!(matches!(interpret_classifier(Some(" none \n")), Classification::NoCommand));
    assert!(matches!(interpret_classifier(Some("/end")), Classification::Terminate));
    assert!(matches!(interpret_classifier(Some("  /end")), Classification::Terminate));
    match interpret_classifier(Some("/balance")) {
        Classification::Command(c) => assert_eq!(c, "/balance"),
        _ => panic!("expected a command"),
    }
}

#[test]
fn exactly_five_turns_fill_the_window() {
    let mut m = Memory::new();
    m.add_user("a1");
    m.add_assistant("a2");
    m.add_user("a3");
    m.add_assistant("a4");
    m.add_user("a5");
    assert_eq!(
        m.recent_context("p"),
        "User: a1\nAssistant: a2\nUser: a3\nAssistant: a4\nUser: a5\nUser: p\nAssistant:"
    );
}
