use gemini_chat::request::{Chat, CodeExecuteResult, ExecutableCode, InlineData, Language, Outcome, Part, Role};
use gemini_chat::session::Session;

fn text_of(part: &Part) -> &str {
    match part {
        Part::text(t) => t.as_str(),
        _ => panic!("not a text part"),
    }
}

#[test]
fn capacity_two_evicts_oldest_turn() {
    let mut s = Session::new(2);
    s.ask_string("hi".to_string());
    s.reply_string("hello".to_string());
    s.ask_string("bye".to_string());
    assert_eq!(s.get_history_length(), 2);
    assert_eq!(s.get_chat_no(), 3);
    let h = s.get_history();
    assert_eq!(text_of(&h[0].parts()[0]), "hello");
    assert_eq!(text_of(&h[1].parts()[0]), "bye");
    assert!(matches!(h[1].role(), Role::user));
}

#[test]
fn same_speaker_turns_merge() {
    let mut s = Session::new(10);
    s.ask_string("a".to_string());
    s.ask_string("b".to_string());
    assert_eq!(s.get_history_length(), 1);
    assert_eq!(s.get_chat_no(), 1);
    let last = s.get_last_message().unwrap();
    assert_eq!(last.len(), 1);
    assert_eq!(text_of(&last[0]), "ab");
}

#[test]
fn speakers_alternate_after_many_appends() {
    let mut s = Session::new(3);
    s.ask_string("q1".to_string());
    s.reply_string("r1".to_string());
    s.reply_string("r2".to_string());
    s.ask_string("q2".to_string());
    s.ask_string("q3".to_string());
    s.reply_string("r3".to_string());
    let h = s.get_history();
    assert!(h.len() <= 3);
    for i in 1..h.len() {
        assert_ne!(*h[i - 1].role() == Role::user, *h[i].role() == Role::user);
    }
    assert_eq!(s.get_chat_no(), 4);
    assert_eq!(text_of(&h[0].parts()[0]), "r1r2");
    assert_eq!(text_of(&h[1].parts()[0]), "q2q3");
}

#[test]
fn empty_history_has_no_last_message() {
    let s = Session::new(4);
    assert!(s.get_last_message().is_none());
    assert!(s.get_last_message_text("\n").is_none());
    assert_eq!(s.get_history_limit(), 4);
    assert!(s.get_remember_reply());
}

#[test]
fn zero_capacity_keeps_nothing() {
    let mut s = Session::new(0);
    s.ask_string("hi".to_string());
    assert_eq!(s.get_history_length(), 0);
    assert_eq!(s.get_chat_no(), 1);
}

#[test]
fn last_message_text_joins_text_parts_with_separator() {
    let mut s = Session::new(10);
    s.reply(vec![Part::text("one".to_string())]);
    let parts = s.get_last_message_mut().unwrap();
    parts.push(Part::inline_data(InlineData::new("image/png".to_string(), "AAAA".to_string())));
    parts.push(Part::text("two".to_string()));
    assert_eq!(s.get_last_message_text(" | ").unwrap(), "one | two | ");
    assert_eq!(s.get_last_message_text("").unwrap(), "onetwo");
}

#[test]
fn parts_mut_counts_from_the_end() {
    let mut s = Session::new(10);
    s.ask_string("q".to_string());
    s.reply_string("r".to_string());
    assert!(s.get_parts_mut(0).is_none());
    assert!(s.get_parts_mut(3).is_none());
    s.get_parts_mut(2).unwrap().push(Part::text("!".to_string()));
    let h = s.get_history();
    assert_eq!(h[0].parts().len(), 2);
    assert_eq!(text_of(&h[0].parts()[1]), "!");
    assert_eq!(s.get_parts_mut(1).unwrap().len(), 1);
}

#[test]
fn forget_removes_question_and_answer() {
    let mut s = Session::new(10);
    s.ask_string("q1".to_string());
    s.reply_string("r1".to_string());
    s.ask_string("q2".to_string());
    s.reply_string("r2".to_string());
    s.forget_last_conversation();
    assert_eq!(s.get_history_length(), 2);
    assert_eq!(text_of(&s.get_last_message().unwrap()[0]), "r1");
    s.ask_string("dangling".to_string());
    s.forget_last_conversation();
    assert_eq!(s.get_history_length(), 2);
    s.forget_last_conversation();
    assert_eq!(s.get_history_length(), 0);
    s.forget_last_conversation();
    assert_eq!(s.get_history_length(), 0);
}

#[test]
fn update_remembers_reply() {
    let mut s = Session::new(10);
    s.ask_string("q".to_string());
    assert!(s.update(vec![Part::text("part 1".to_string())]).is_some());
    let merged = s.update(vec![Part::text(", part 2".to_string())]).unwrap();
    assert_eq!(text_of(&merged[0]), "part 1, part 2");
    assert_eq!(s.get_history_length(), 2);
    assert_eq!(s.get_chat_no(), 2);
    assert_eq!(s.get_last_message_text("").unwrap(), "part 1, part 2");
}

#[test]
fn update_without_remembering_drops_question() {
    let mut s = Session::new(10);
    s.ask_string("q1".to_string());
    s.reply_string("r1".to_string());
    s.set_remember_reply(false);
    s.ask_string("q2".to_string());
    assert!(s.update(vec![Part::text("r2".to_string())]).is_none());
    assert_eq!(s.get_history_length(), 2);
    assert_eq!(text_of(&s.get_last_message().unwrap()[0]), "r1");
    assert_eq!(s.get_chat_no(), 3);
}

#[test]
fn streamed_code_and_results_merge() {
    let mut s = Session::new(10);
    s.reply(vec![Part::executable_code(ExecutableCode::new(Language::PYTHON, "print(".to_string()))]);
    s.reply(vec![Part::executable_code(ExecutableCode::new(Language::PYTHON, "1)".to_string()))]);
    s.reply(vec![Part::code_execution_result(CodeExecuteResult::new(Outcome::OUTCOME_OK, None))]);
    s.reply(vec![Part::code_execution_result(CodeExecuteResult::new(Outcome::OUTCOME_OK, Some("1".to_string())))]);
    s.reply(vec![Part::code_execution_result(CodeExecuteResult::new(Outcome::OUTCOME_OK, Some("\n".to_string())))]);
    let parts = s.get_last_message().unwrap();
    assert_eq!(parts.len(), 2);
    match &parts[0] {
        Part::executable_code(c) => assert_eq!(c.code(), "print(1)"),
        _ => panic!("expected code"),
    }
    match &parts[1] {
        Part::code_execution_result(r) => assert_eq!(r.output().as_deref(), Some("1\n")),
        _ => panic!("expected result"),
    }
}

#[test]
fn operations_chain() {
    let mut s = Session::new(4);
    s.ask_string("q".to_string()).reply_string("r".to_string()).set_remember_reply(false);
    assert_eq!(s.get_history_length(), 2);
    assert!(!s.get_remember_reply());
    s.forget_last_conversation().ask_string("again".to_string());
    assert_eq!(s.get_history_length(), 1);
}

#[test]
fn default_session_is_empty_and_forgetful() {
    let s = Session::default();
    assert_eq!(s.get_history_length(), 0);
    assert_eq!(s.get_history_limit(), 0);
    assert_eq!(s.get_chat_no(), 0);
    assert!(!s.get_remember_reply());
}

#[test]
fn cloned_session_is_independent() {
    let mut s = Session::new(4);
    s.ask_string("q".to_string());
    let c = s.clone();
    s.reply_string("r".to_string());
    assert_eq!(c.get_history_length(), 1);
    assert_eq!(s.get_history_length(), 2);
}

#[test]
fn rebuilt_history_is_checked() {
    let turn = |role: Role, t: &str| Chat::new(role, vec![Part::text(t.to_string())]);
    let ok: std::collections::VecDeque<Chat> = vec![turn(Role::user, "q"), turn(Role::model, "r")].into();
    let s = Session::from_history(ok.clone(), 2, 5, true).unwrap();
    assert_eq!(s.get_history_length(), 2);
    assert_eq!(s.get_chat_no(), 5);
    assert!(Session::from_history(ok, 1, 5, true).is_none());
    let twice: std::collections::VecDeque<Chat> = vec![turn(Role::user, "q"), turn(Role::user, "q")].into();
    assert!(Session::from_history(twice, 4, 2, true).is_none());
    assert!(Session::from_history(std::collections::VecDeque::new(), 0, 0, false).is_some());
}
