use prettifier::{escape_bytes, escape_str, prettify, spaces, Event, PrettyError, Prettifier};

fn ev(e: Event) -> (Event, Option<String>) {
    (e, None)
}

fn member(key: &str, e: Event) -> (Event, Option<String>) {
    (e, Some(key.to_string()))
}

fn text(events: Vec<(Event, Option<String>)>) -> String {
    String::from_utf8(prettify(&events).unwrap()).unwrap()
}

fn failure(events: Vec<(Event, Option<String>)>) -> PrettyError {
    prettify(&events).unwrap_err()
}

#[test]
fn nested_document_layout() {
    let events = vec![
        ev(Event::ObjectStart),
        member("a", Event::U64(1)),
        member("b", Event::ArrayStart),
        ev(Event::Bool(true)),
        ev(Event::Null),
        ev(Event::ArrayEnd),
        ev(Event::ObjectEnd),
    ];
    assert_eq!(
        text(events),
        "{\n  \"a\": 1,\n  \"b\": [\n    true,\n    null\n  ]\n}"
    );
}

#[test]
fn empty_array_is_inline() {
    assert_eq!(text(vec![ev(Event::ArrayStart), ev(Event::ArrayEnd)]), "[]");
}

#[test]
fn empty_object_is_inline() {
    assert_eq!(text(vec![ev(Event::ObjectStart), ev(Event::ObjectEnd)]), "{}");
}

#[test]
fn nested_empty_composites_stay_inline() {
    let events = vec![
        ev(Event::ArrayStart),
        ev(Event::ArrayStart),
        ev(Event::ArrayEnd),
        ev(Event::ObjectStart),
        ev(Event::ObjectEnd),
        ev(Event::ArrayEnd),
    ];
    assert_eq!(text(events), "[\n  [],\n  {}\n]");
}

#[test]
fn closing_lines_match_opening_context() {
    let events = vec![
        ev(Event::ArrayStart),
        ev(Event::ArrayStart),
        ev(Event::ObjectStart),
        member("k", Event::I64(-3)),
        ev(Event::ObjectEnd),
        ev(Event::ArrayEnd),
        ev(Event::ArrayEnd),
    ];
    assert_eq!(
        text(events),
        "[\n  [\n    {\n      \"k\": -3\n    }\n  ]\n]"
    );
}

#[test]
fn quote_backslash_newline_are_escaped() {
    let mut out = Vec::new();
    escape_str(&mut out, "\"\\\n");
    assert_eq!(String::from_utf8(out).unwrap(), "\"\\\"\\\\\\n\"");
}

#[test]
fn control_escapes_and_passthrough() {
    let mut out = Vec::new();
    escape_bytes(&mut out, b"a\x08b\x0cc\rd\te\x01");
    assert_eq!(out, b"\"a\\bb\\fc\\rd\\te\x01\"".to_vec());
    let mut out = Vec::new();
    escape_str(&mut out, "caf\u{e9}");
    assert_eq!(String::from_utf8(out).unwrap(), "\"caf\u{e9}\"");
}

#[test]
fn escape_appends_to_existing_output() {
    let mut out = b"x".to_vec();
    escape_bytes(&mut out, b"");
    assert_eq!(out, b"x\"\"".to_vec());
}

#[test]
fn spaces_writes_exact_width() {
    let mut out = b"|".to_vec();
    spaces(&mut out, 0);
    assert_eq!(out, b"|".to_vec());
    spaces(&mut out, 37);
    assert_eq!(out.len(), 38);
    assert!(out[1..].iter().all(|b| *b == b' '));
}

#[test]
fn string_values_and_keys_are_escaped() {
    let events = vec![
        ev(Event::ObjectStart),
        member("a\"b", Event::Str("line\nbreak".to_string())),
        ev(Event::ObjectEnd),
    ];
    assert_eq!(text(events), "{\n  \"a\\\"b\": \"line\\nbreak\"\n}");
}

#[test]
fn numbers_are_written_in_decimal() {
    assert_eq!(text(vec![ev(Event::I64(0))]), "0");
    assert_eq!(text(vec![ev(Event::I64(-42))]), "-42");
    assert_eq!(text(vec![ev(Event::I64(i64::MIN))]), "-9223372036854775808");
    assert_eq!(text(vec![ev(Event::U64(u64::MAX))]), "18446744073709551615");
    assert_eq!(text(vec![ev(Event::Float("1.5".to_string()))]), "1.5");
    assert_eq!(text(vec![ev(Event::Bool(false))]), "false");
}

#[test]
fn two_top_level_scalars_are_rejected() {
    assert_eq!(
        failure(vec![ev(Event::I64(1)), ev(Event::I64(2))]),
        PrettyError::TrailingContent
    );
}

#[test]
fn source_error_after_value_is_passed_on() {
    assert_eq!(
        failure(vec![ev(Event::Null), ev(Event::Error("late".to_string()))]),
        PrettyError::Source("late".to_string())
    );
}

#[test]
fn truncated_array_is_detected() {
    assert_eq!(failure(vec![ev(Event::ArrayStart)]), PrettyError::EofWhileParsingArray);
    assert_eq!(
        failure(vec![ev(Event::ArrayStart), ev(Event::Null)]),
        PrettyError::EofWhileParsingArray
    );
}

#[test]
fn truncated_object_is_detected() {
    assert_eq!(failure(vec![ev(Event::ObjectStart)]), PrettyError::EofWhileParsingObject);
    assert_eq!(
        failure(vec![ev(Event::ObjectStart), member("a", Event::Null)]),
        PrettyError::EofWhileParsingObject
    );
}

#[test]
fn empty_stream_is_rejected() {
    assert_eq!(failure(vec![]), PrettyError::EofWhileParsingValue);
}

#[test]
fn close_where_value_expected_is_rejected() {
    assert_eq!(failure(vec![ev(Event::ArrayEnd)]), PrettyError::UnexpectedClose);
    assert_eq!(
        failure(vec![ev(Event::ArrayStart), ev(Event::ObjectEnd)]),
        PrettyError::UnexpectedClose
    );
}

#[test]
fn source_error_inside_composite_is_passed_on() {
    assert_eq!(
        failure(vec![ev(Event::ArrayStart), ev(Event::Error("bad".to_string()))]),
        PrettyError::Source("bad".to_string())
    );
    assert_eq!(
        failure(vec![ev(Event::ObjectStart), ev(Event::Error("bad".to_string()))]),
        PrettyError::Source("bad".to_string())
    );
}

#[test]
fn member_values_expect_their_key() {
    let mut p = Prettifier::new();
    let mut out = Vec::new();
    assert!(!p.expects_key(&Event::ObjectStart));
    p.push(&Event::ObjectStart, &None, &mut out).unwrap();
    assert!(p.expects_key(&Event::Null));
    assert!(p.expects_key(&Event::ArrayStart));
    assert!(!p.expects_key(&Event::ObjectEnd));
    assert!(!p.expects_key(&Event::Error("e".to_string())));
    p.push(&Event::ArrayStart, &Some("a".to_string()), &mut out).unwrap();
    assert!(!p.expects_key(&Event::Null));
}

#[test]
fn stream_starts_afresh_for_each_document() {
    let mut p = Prettifier::new();
    let mut out = Vec::new();
    p.stream(&vec![ev(Event::Null)], &mut out).unwrap();
    p.stream(&vec![ev(Event::Bool(true))], &mut out).unwrap();
    assert_eq!(out, b"nulltrue".to_vec());
    assert_eq!(p.stream(&vec![ev(Event::ArrayStart)], &mut out), Err(PrettyError::EofWhileParsingArray));
    p.stream(&vec![ev(Event::U64(5))], &mut out).unwrap();
    assert_eq!(out, b"nulltrue5".to_vec());
}

#[test]
fn stream_keeps_text_written_before_failure() {
    let mut p = Prettifier::new();
    let mut out = b">".to_vec();
    let r = p.stream(&vec![ev(Event::I64(1)), ev(Event::I64(2))], &mut out);
    assert_eq!(r, Err(PrettyError::TrailingContent));
    assert_eq!(out, b">1".to_vec());
}

#[test]
fn pushing_events_matches_whole_stream() {
    let mut p = Prettifier::new();
    let mut out = Vec::new();
    p.push(&Event::ArrayStart, &None, &mut out).unwrap();
    assert!(out.is_empty());
    p.push(&Event::U64(7), &None, &mut out).unwrap();
    assert_eq!(out, b"[\n  7".to_vec());
    assert_eq!(p.finish(), Err(PrettyError::EofWhileParsingArray));
    assert_eq!(p.push(&Event::ObjectEnd, &None, &mut out), Err(PrettyError::UnexpectedClose));
    assert_eq!(out, b"[\n  7".to_vec());
    p.push(&Event::ArrayEnd, &None, &mut out).unwrap();
    assert!(p.is_done());
    assert_eq!(p.finish(), Ok(()));
    assert_eq!(out, b"[\n  7\n]".to_vec());
}

#[test]
fn nesting_beyond_the_limit_is_rejected() {
    let mut p = Prettifier::new();
    let mut out = Vec::new();
    for _ in 0..prettifier::printer::MAX_DEPTH {
        p.push(&Event::ArrayStart, &None, &mut out).unwrap();
        out.clear();
    }
    assert_eq!(p.push(&Event::ArrayStart, &None, &mut out), Err(PrettyError::TooDeep));
}
