use session_store::SessionError;
use session_store::session::Session;

#[test]
fn fresh_session_is_empty() {
    let s = Session::new(10);
    assert_eq!(s.window(), 10);
    assert_eq!(s.turn_count(), 0);
}

#[test]
fn ask_appends_user_turn() {
    let mut s = Session::new(10);
    s.ask("hello there");
    assert_eq!(s.turn_count(), 1);
    assert_eq!(s.display_text("\n").unwrap(), "hello there");
}

#[test]
fn reply_appends_model_turn() {
    let mut s = Session::new(10);
    s.reply("greetings");
    assert_eq!(s.turn_count(), 1);
    assert_eq!(s.display_text("\n").unwrap(), "greetings");
}

#[test]
fn window_keeps_most_recent_turns() {
    let mut s = Session::new(2);
    s.ask("a");
    s.ask("b");
    s.ask("c");
    assert_eq!(s.turn_count(), 2);
    // exactly the two most recent turns, in original order
    assert_eq!(s.serialize(), "S2:Tut1:bETut1:cEE");
}

#[test]
fn window_count_is_min_of_calls_and_capacity() {
    let mut s = Session::new(3);
    let texts = ["one", "two", "three", "four", "five"];
    for (i, t) in texts.iter().enumerate() {
        s.ask(t);
        let expected = if i + 1 <= 3 { i + 1 } else { 3 };
        assert_eq!(s.turn_count(), expected);
    }
    assert_eq!(s.display_text(" ").unwrap(), "five");
}

#[test]
fn window_of_one_keeps_only_the_last() {
    let mut s = Session::new(1);
    s.ask("a");
    s.reply("b");
    assert_eq!(s.turn_count(), 1);
    assert_eq!(s.display_text("\n").unwrap(), "b");
}

#[test]
fn serialize_canonical_form() {
    let mut s = Session::new(10);
    s.ask("hi");
    assert_eq!(s.serialize(), "S10:Tut2:hiEE");
}

#[test]
fn round_trip_preserves_session() {
    let mut s = Session::new(5);
    s.ask("question");
    s.reply("answer");
    s.ask_structured("h7:ponder.t5:helloc15:flights_between2:{}E");
    let text = s.serialize();
    let s2 = Session::deserialize(&text).unwrap();
    assert_eq!(s2.window(), s.window());
    assert_eq!(s2.turn_count(), s.turn_count());
    assert_eq!(s2.serialize(), text);
    assert_eq!(
        s2.display_text("\n").unwrap(),
        s.display_text("\n").unwrap()
    );
}

#[test]
fn round_trip_of_empty_session() {
    let s = Session::new(7);
    let s2 = Session::deserialize(&s.serialize()).unwrap();
    assert_eq!(s2.window(), 7);
    assert_eq!(s2.turn_count(), 0);
}

#[test]
fn deserialize_rejects_garbage() {
    assert!(matches!(
        Session::deserialize("not a session"),
        Err(SessionError::ParseError)
    ));
    assert!(matches!(Session::deserialize(""), Err(SessionError::ParseError)));
}

#[test]
fn deserialize_rejects_truncated_input() {
    assert!(matches!(
        Session::deserialize("S2:Tut1:bE"),
        Err(SessionError::ParseError)
    ));
}

#[test]
fn deserialize_rejects_trailing_garbage() {
    assert!(matches!(
        Session::deserialize("S1:EE"),
        Err(SessionError::ParseError)
    ));
}

#[test]
fn deserialize_rejects_zero_capacity() {
    assert!(matches!(Session::deserialize("S0:E"), Err(SessionError::ParseError)));
}

#[test]
fn deserialize_rejects_oversized_capacity() {
    assert!(matches!(
        Session::deserialize("S99999999999999999999999:E"),
        Err(SessionError::ParseError)
    ));
}

#[test]
fn deserialize_rejects_more_turns_than_capacity() {
    assert!(matches!(
        Session::deserialize("S1:Tut1:aETmt1:bEE"),
        Err(SessionError::ParseError)
    ));
}

#[test]
fn ask_structured_appends_parsed_blocks() {
    let mut s = Session::new(10);
    s.ask_structured("t5:helloE");
    assert_eq!(s.turn_count(), 1);
    assert_eq!(s.display_text("\n").unwrap(), "hello");
}

#[test]
fn ask_structured_malformed_reports_in_band() {
    let mut s = Session::new(10);
    s.ask_structured("not json");
    assert_eq!(s.turn_count(), 1);
    let text = s.display_text("\n").unwrap();
    assert!(text.starts_with("INVALID_RESPONSE:"));
}

#[test]
fn ask_structured_rejects_empty_block_list() {
    let mut s = Session::new(10);
    s.ask_structured("E");
    assert_eq!(s.turn_count(), 1);
    assert!(s.display_text("\n").unwrap().starts_with("INVALID_RESPONSE:"));
}

#[test]
fn ask_structured_rejects_empty_function_name() {
    let mut s = Session::new(10);
    s.ask_structured("c0:2:{}E");
    assert_eq!(s.turn_count(), 1);
    assert!(s.display_text("\n").unwrap().starts_with("INVALID_RESPONSE:"));
}

#[test]
fn reply_structured_appends_parsed_blocks() {
    let mut s = Session::new(10);
    assert!(s.reply_structured("t4:doneE").is_ok());
    assert_eq!(s.turn_count(), 1);
    assert_eq!(s.display_text("\n").unwrap(), "done");
}

#[test]
fn reply_structured_malformed_surfaces_error() {
    let mut s = Session::new(10);
    assert_eq!(s.reply_structured("}{"), Err(SessionError::ParseError));
    assert_eq!(s.turn_count(), 0);
}

#[test]
fn append_turn_replays_valid_history() {
    let mut s = Session::new(10);
    s.append_turn("Tut2:hiE");
    assert_eq!(s.turn_count(), 1);
    assert_eq!(s.display_text("\n").unwrap(), "hi");
}

#[test]
fn append_turn_malformed_appends_format_diagnostic() {
    let mut s = Session::new(5);
    s.ask("q");
    s.append_turn("garbage");
    assert_eq!(s.turn_count(), 2);
    let text = s.display_text("\n").unwrap();
    assert!(text.starts_with("ERROR: INVALID RESPONSE FORMAT"));
    // the prior turn is untouched
    assert!(s.serialize().starts_with("S5:Tut1:qE"));
}

#[test]
fn append_turn_protocol_violation_appends_history_diagnostic() {
    let mut s = Session::new(5);
    s.ask("q");
    // a second user turn in a row breaks role alternation
    s.append_turn("Tut2:okE");
    assert_eq!(s.turn_count(), 2);
    let text = s.display_text("\n").unwrap();
    assert!(text.starts_with("ERROR: INVALID SESSION HISTORY"));
    assert!(s.serialize().starts_with("S5:Tut1:qE"));
}

#[test]
fn append_turn_alternating_roles_pass_the_check() {
    let mut s = Session::new(10);
    s.append_turn("Tut1:aE");
    s.append_turn("Tmt1:bE");
    s.append_turn("Tut1:cE");
    assert_eq!(s.turn_count(), 3);
    assert_eq!(s.display_text("\n").unwrap(), "c");
}

#[test]
fn thought_blocks_are_excluded_from_display() {
    let mut s = Session::new(10);
    s.ask_structured("h6:secrett5:helloE");
    assert_eq!(s.display_text("\n").unwrap(), "hello");
}

#[test]
fn function_blocks_contribute_no_display_text() {
    let mut s = Session::new(10);
    s.ask_structured("c15:flights_between2:{}r15:flights_between2:[]E");
    assert_eq!(s.display_text("\n").unwrap(), "");
}

#[test]
fn display_joins_text_blocks_with_separator() {
    let mut s = Session::new(10);
    s.ask_structured("t1:at1:bt1:cE");
    assert_eq!(s.display_text("\n").unwrap(), "a\nb\nc");
    assert_eq!(s.display_text(" | ").unwrap(), "a | b | c");
}

#[test]
fn empty_session_reads_fail() {
    let s = Session::new(10);
    assert_eq!(s.display_text("\n"), Err(SessionError::EmptySession));
    assert_eq!(s.pending_labels(), Err(SessionError::EmptySession));
    assert_eq!(s.pending_labels_joined(), Err(SessionError::EmptySession));
    assert!(matches!(s.last_turn(), Err(SessionError::EmptySession)));
}

#[test]
fn text_with_colons_and_digits_round_trips() {
    let mut s = Session::new(4);
    s.ask("5:E't\\T m10:");
    let s2 = Session::deserialize(&s.serialize()).unwrap();
    assert_eq!(s2.display_text("\n").unwrap(), "5:E't\\T m10:");
}
