use cursor_core::filter::{Rule, BEGIN_SENTINEL, END_SENTINEL};
use cursor_core::response::ResponseState;
use cursor_core::wire::{ENVELOPE, FIELD_LEN};

const BEGIN_LINE: &str = r#"data: "<|BEGIN_message|>""#;
const END_LINE: &str = r#"data: "<|END_message|>""#;

fn owned(items: &[&str]) -> Vec<String> {
    items.iter().map(|s| s.to_string()).collect()
}

fn chunk_of(lines: &[&str]) -> String {
    lines.join("\n")
}

fn nothing() -> Vec<String> {
    Vec::new()
}

#[test]
fn begin_blank_hello_end_ignored_emits_hello() {
    let mut state = ResponseState::new(true);
    let chunk = chunk_of(&[
        BEGIN_LINE,
        r#"data: "  ""#,
        r#"data: "hello""#,
        END_LINE,
        r#"data: "ignored""#,
    ]);
    assert_eq!(state.filter_chunk(&chunk), owned(&["hello"]));
    assert!(state.started());
    assert!(state.ended());
    assert!(state.first_newline_dropped());
}

#[test]
fn begin_blank_hello_end_ignored_one_line_per_chunk() {
    let mut state = ResponseState::new(true);
    let chunks = owned(&[
        BEGIN_LINE,
        r#"data: "  ""#,
        r#"data: "hello""#,
        END_LINE,
        r#"data: "ignored""#,
    ]);
    assert_eq!(state.data_stream(&chunks), owned(&["hello"]));
}

#[test]
fn world_without_sentinels_is_emitted_and_completes() {
    let mut state = ResponseState::new(false);
    assert_eq!(state.data_stream(&owned(&[r#"data: "world""#])), owned(&["world"]));
    assert!(!state.ended());
    let outcome: Result<(), String> = Ok(());
    assert_eq!(state.complete(outcome), Ok(()));
}

#[test]
fn completion_failure_is_the_transports() {
    let mut state = ResponseState::new(true);
    let emitted = state.filter_chunk(&chunk_of(&[BEGIN_LINE, r#"data: "partial""#]));
    assert_eq!(emitted, owned(&["partial"]));
    let outcome: Result<(), String> = Err("connection reset".to_string());
    assert_eq!(state.complete(outcome), Err("connection reset".to_string()));
}

#[test]
fn completion_succeeds_after_end_sentinel_too() {
    let mut state = ResponseState::new(false);
    state.filter_chunk(END_LINE);
    assert!(state.ended());
    let outcome: Result<(), u8> = Ok(());
    assert_eq!(state.complete(outcome), Ok(()));
}

#[test]
fn fresh_filter_flags() {
    let waiting = ResponseState::new(true);
    assert!(!waiting.started());
    assert!(!waiting.ended());
    assert!(!waiting.first_newline_dropped());
    assert!(waiting.expect_begin_message());
    let open = ResponseState::new(false);
    assert!(open.started());
    assert!(!open.ended());
    assert!(!open.first_newline_dropped());
    assert!(!open.expect_begin_message());
}

#[test]
fn sentinels_are_never_emitted() {
    for expect in [true, false] {
        let mut state = ResponseState::new(expect);
        let chunks = vec![
            chunk_of(&[BEGIN_LINE, r#"data: "a""#, BEGIN_LINE]),
            chunk_of(&[r#"data: "b""#, END_LINE, END_LINE]),
            chunk_of(&[BEGIN_LINE, r#"data: "c""#]),
        ];
        let out = state.data_stream(&chunks);
        assert_eq!(out, owned(&["a", "b"]));
        assert!(!out.iter().any(|p| p == BEGIN_SENTINEL || p == END_SENTINEL));
    }
}

#[test]
fn sentinel_match_is_exact() {
    let mut state = ResponseState::new(true);
    let out = state.filter_chunk(&chunk_of(&[
        r#"data: "<|BEGIN_message|> ""#,
        r#"data: "x<|BEGIN_message|>""#,
        r#"data: "<|begin_message|>""#,
    ]));
    assert_eq!(out, nothing());
    assert!(!state.started());
    assert_eq!(state.filter_chunk(BEGIN_LINE), nothing());
    assert!(state.started());
    let out = state.filter_chunk(&chunk_of(&[
        r#"data: "<|END_message|>!""#,
        r#"data: " <|END_message|>""#,
    ]));
    assert_eq!(out, owned(&["<|END_message|>!", " <|END_message|>"]));
    assert!(!state.ended());
}

#[test]
fn nothing_is_emitted_before_begin() {
    let mut state = ResponseState::new(true);
    let out = state.data_stream(&vec![
        chunk_of(&[r#"data: "early""#, r#"data: "also early""#]),
        chunk_of(&[r#"data: "still early""#]),
    ]);
    assert_eq!(out, nothing());
    assert!(!state.started());
    let out = state.data_stream(&vec![chunk_of(&[r#"data: "x""#, BEGIN_LINE, r#"data: "y""#])]);
    assert_eq!(out, owned(&["y"]));
}

#[test]
fn without_begin_payloads_flow_at_once_and_end_halts() {
    let mut state = ResponseState::new(false);
    let out = state.data_stream(&vec![
        chunk_of(&[r#"data: "one""#, r#"data: "two""#]),
        chunk_of(&[END_LINE, r#"data: "three""#]),
        chunk_of(&[r#"data: "four""#]),
    ]);
    assert_eq!(out, owned(&["one", "two"]));
    assert!(state.ended());
}

#[test]
fn nothing_is_emitted_after_end() {
    let mut state = ResponseState::new(true);
    let out = state.filter_chunk(&chunk_of(&[
        BEGIN_LINE,
        r#"data: "a""#,
        END_LINE,
        r#"data: "b""#,
    ]));
    assert_eq!(out, owned(&["a"]));
    assert_eq!(state.filter_chunk(r#"data: "c""#), nothing());
    assert_eq!(state.filter_chunk(BEGIN_LINE), nothing());
    assert_eq!(state.filter_chunk(r#"data: "d""#), nothing());
    assert!(state.ended());
}

#[test]
fn premature_end_closes_the_filter_for_good() {
    let mut state = ResponseState::new(true);
    let out = state.data_stream(&owned(&[END_LINE, BEGIN_LINE, r#"data: "late""#]));
    assert_eq!(out, nothing());
    assert!(state.ended());
    assert!(!state.started());
}

#[test]
fn only_the_first_blank_is_absorbed() {
    let mut state = ResponseState::new(true);
    let out = state.filter_chunk(&chunk_of(&[
        BEGIN_LINE,
        r#"data: "\n""#,
        r#"data: "\n""#,
        r#"data: "text""#,
        r#"data: "  ""#,
    ]));
    assert_eq!(out, owned(&["\n", "text", "  "]));
    assert!(state.first_newline_dropped());
}

#[test]
fn first_blank_is_absorbed_even_after_content() {
    let mut state = ResponseState::new(true);
    let out = state.filter_chunk(&chunk_of(&[
        BEGIN_LINE,
        r#"data: "text""#,
        r#"data: " \t""#,
        r#"data: " ""#,
    ]));
    assert_eq!(out, owned(&["text", " "]));
}

#[test]
fn empty_payload_counts_as_blank() {
    let mut state = ResponseState::new(true);
    let out = state.filter_chunk(&chunk_of(&[BEGIN_LINE, r#"data: """#, r#"data: """#]));
    assert_eq!(out, owned(&[""]));
}

#[test]
fn blank_before_begin_does_not_use_up_the_rule() {
    let mut state = ResponseState::new(true);
    let out = state.filter_chunk(&chunk_of(&[
        r#"data: " ""#,
        BEGIN_LINE,
        r#"data: " ""#,
        r#"data: " ""#,
    ]));
    assert_eq!(out, owned(&[" "]));
    assert!(state.first_newline_dropped());
}

#[test]
fn without_begin_no_blank_is_absorbed() {
    let mut state = ResponseState::new(false);
    let out = state.filter_chunk(&chunk_of(&[r#"data: "\n""#, r#"data: " ""#, r#"data: "x""#]));
    assert_eq!(out, owned(&["\n", " ", "x"]));
    assert!(!state.first_newline_dropped());
}

#[test]
fn malformed_json_is_noise() {
    let mut state = ResponseState::new(false);
    let out = state.filter_chunk(&chunk_of(&[
        r#"data: "unterminated"#,
        r#"data: "bad \q escape""#,
        r#"data: "trailing" junk"#,
        r#"data: "lone \ud800 surrogate""#,
        r#"data: "ok""#,
    ]));
    assert_eq!(out, owned(&["ok"]));
    assert!(!state.ended());
    assert_eq!(state.filter_chunk(r#"data: "next""#), owned(&["next"]));
}

#[test]
fn malformed_line_leaves_the_flags_alone() {
    let mut with = ResponseState::new(true);
    let mut without = ResponseState::new(true);
    let a = with.filter_chunk(&chunk_of(&[
        BEGIN_LINE,
        r#"data: "oops"#,
        r#"data: " ""#,
        r#"data: "x""#,
    ]));
    let b = without.filter_chunk(&chunk_of(&[BEGIN_LINE, r#"data: " ""#, r#"data: "x""#]));
    assert_eq!(a, b);
    assert_eq!(a, owned(&["x"]));
    assert_eq!(with.started(), without.started());
    assert_eq!(with.ended(), without.ended());
    assert_eq!(with.first_newline_dropped(), without.first_newline_dropped());
}

#[test]
fn lines_that_are_no_candidates_are_skipped() {
    let mut state = ResponseState::new(false);
    let out = state.filter_chunk(&chunk_of(&[
        "",
        "",
        "event: message",
        r#"data:"nospace""#,
        r#" data: "indented""#,
        r#"DATA: "upper""#,
        "data: 42",
        "data: ",
        r#"data: "yes""#,
        ": comment",
        "",
    ]));
    assert_eq!(out, owned(&["yes"]));
}

#[test]
fn empty_chunk_emits_nothing() {
    let mut state = ResponseState::new(false);
    assert_eq!(state.filter_chunk(""), nothing());
    assert_eq!(state.filter_chunk("\n"), nothing());
    assert_eq!(state.data_stream(&Vec::new()), nothing());
    assert!(state.started());
    assert!(!state.ended());
}

#[test]
fn json_escapes_are_decoded() {
    let mut state = ResponseState::new(false);
    let out = state.filter_chunk(&chunk_of(&[
        r#"data: "a\nb""#,
        r#"data: "tab\there""#,
        r#"data: "quote \" slash \\ \/""#,
        r#"data: "\u00e9\u4e2d""#,
        r#"data: "\ud83d\ude00""#,
    ]));
    let expected =
        owned(&["a\nb", "tab\there", "quote \" slash \\ /", "\u{e9}\u{4e2d}", "\u{1F600}"]);
    assert_eq!(out, expected);
}

#[test]
fn decoded_payload_agrees_with_serde_json() {
    let texts = [r#""plain""#, r#""\u0041\r\n""#, "\"caf\u{e9}\"", r#""""#, "\"x\"  "];
    for text in texts {
        let mut state = ResponseState::new(false);
        let line = format!("data: {}", text);
        let expected: String = serde_json::from_str(text).unwrap();
        assert_eq!(state.filter_chunk(&line), vec![expected]);
    }
}

#[test]
fn escaped_sentinel_is_a_sentinel() {
    let mut state = ResponseState::new(true);
    let out = state.filter_chunk(&chunk_of(&[
        r#"data: "\u003c|BEGIN_message|>""#,
        r#"data: "x""#,
        r#"data: "<|END_message|\u003e""#,
        r#"data: "y""#,
    ]));
    assert_eq!(out, owned(&["x"]));
    assert!(state.ended());
}

#[test]
fn text_after_the_closing_quote() {
    let mut state = ResponseState::new(false);
    let out = state.filter_chunk("data: \"cr\"\r\ndata: \"spaces\"   \ndata: \"two\" \"strings\"");
    assert_eq!(out, owned(&["cr", "spaces"]));
}

#[test]
fn non_ascii_text_passes_through() {
    let mut state = ResponseState::new(false);
    let out = state.filter_chunk(&chunk_of(&[
        "data: \"\u{4f60}\u{597d}\"",
        "\u{e9}\u{e9}",
        "data: \"\u{1F600} ok\"",
    ]));
    assert_eq!(out, owned(&["\u{4f60}\u{597d}", "\u{1F600} ok"]));
}

#[test]
fn split_next_to_a_newline_changes_nothing() {
    let whole = chunk_of(&[
        BEGIN_LINE,
        r#"data: " ""#,
        r#"data: "a""#,
        r#"data: "b""#,
        END_LINE,
        r#"data: "c""#,
        "",
    ]);
    let mut reference = ResponseState::new(true);
    let expected = reference.data_stream(&[whole.clone()]);
    assert_eq!(expected, owned(&["a", "b"]));
    for (at, c) in whole.char_indices() {
        if c != '\n' {
            continue;
        }
        let after = owned(&[&whole[..at + 1], &whole[at + 1..]]);
        let mut state = ResponseState::new(true);
        assert_eq!(state.data_stream(&after), expected);
        assert_eq!(state.ended(), reference.ended());
        let before = owned(&[&whole[..at], &whole[at..]]);
        let mut state = ResponseState::new(true);
        assert_eq!(state.data_stream(&before), expected);
        let dropped = owned(&[&whole[..at], &whole[at + 1..]]);
        let mut state = ResponseState::new(true);
        assert_eq!(state.data_stream(&dropped), expected);
    }
}

#[test]
fn split_at_either_end_changes_nothing() {
    let whole = chunk_of(&[BEGIN_LINE, r#"data: "a""#]);
    let mut state = ResponseState::new(true);
    assert_eq!(state.data_stream(&owned(&["", &whole])), owned(&["a"]));
    let mut state = ResponseState::new(true);
    assert_eq!(state.data_stream(&owned(&[&whole, ""])), owned(&["a"]));
}

#[test]
fn split_inside_a_line_loses_the_line() {
    let mut state = ResponseState::new(false);
    let out = state.data_stream(&owned(&["data: \"a\"\ndata: \"hel", "lo\"\ndata: \"b\""]));
    assert_eq!(out, owned(&["a", "b"]));
}

#[test]
fn data_stream_is_chunk_by_chunk() {
    let chunks = vec![
        chunk_of(&[r#"data: "x""#, BEGIN_LINE]),
        String::new(),
        chunk_of(&[r#"data: "\n""#, r#"data: "one""#, "noise"]),
        chunk_of(&[r#"data: "two""#, END_LINE]),
        chunk_of(&[r#"data: "three""#]),
    ];
    let mut whole = ResponseState::new(true);
    let all = whole.data_stream(&chunks);
    let mut stepwise = ResponseState::new(true);
    let mut collected = Vec::new();
    for chunk in &chunks {
        collected.extend(stepwise.filter_chunk(chunk));
    }
    assert_eq!(all, collected);
    assert_eq!(all, owned(&["one", "two"]));
    assert_eq!(whole.ended(), stepwise.ended());
    assert_eq!(whole.started(), stepwise.started());
}

#[test]
fn data_stream_goes_on_from_where_the_filter_stands() {
    let mut state = ResponseState::new(true);
    assert_eq!(state.data_stream(&owned(&[BEGIN_LINE, r#"data: "a""#])), owned(&["a"]));
    assert_eq!(state.data_stream(&owned(&[r#"data: "b""#])), owned(&["b"]));
    assert_eq!(state.data_stream(&owned(&[END_LINE, r#"data: "c""#])), nothing());
    assert_eq!(state.data_stream(&owned(&[BEGIN_LINE, r#"data: "d""#])), nothing());
}

#[test]
fn filter_payload_follows_the_rules_in_order() {
    let mut state = ResponseState::new(true);
    assert_eq!(state.filter_payload("early".to_string()), None);
    assert!(!state.started());
    assert_eq!(state.filter_payload(BEGIN_SENTINEL.to_string()), None);
    assert!(state.started());
    assert_eq!(state.filter_payload("\n".to_string()), None);
    assert!(state.first_newline_dropped());
    assert_eq!(state.filter_payload("\n".to_string()), Some("\n".to_string()));
    assert_eq!(state.filter_payload("hello".to_string()), Some("hello".to_string()));
    assert_eq!(state.filter_payload(BEGIN_SENTINEL.to_string()), None);
    assert_eq!(state.filter_payload("again".to_string()), Some("again".to_string()));
    assert_eq!(state.filter_payload(END_SENTINEL.to_string()), None);
    assert!(state.ended());
    assert_eq!(state.filter_payload("late".to_string()), None);
    assert_eq!(state.filter_payload(BEGIN_SENTINEL.to_string()), None);
    assert_eq!(state.filter_payload("later".to_string()), None);
}

#[test]
fn filter_payload_takes_the_payload_as_it_is() {
    let mut state = ResponseState::new(false);
    let raw = r#"data: "raw""#.to_string();
    assert_eq!(state.filter_payload(raw.clone()), Some(raw));
    assert_eq!(state.filter_payload(r"a\nb".to_string()), Some(r"a\nb".to_string()));
}

#[test]
fn wire_constants() {
    assert_eq!(BEGIN_SENTINEL, "<|BEGIN_message|>");
    assert_eq!(END_SENTINEL, "<|END_message|>");
    assert_eq!(ENVELOPE, "data: \"");
    assert_eq!(FIELD_LEN, "data: ".len());
    assert_eq!(&ENVELOPE[..FIELD_LEN], "data: ");
}

#[test]
fn rule_names_what_decides() {
    let mut state = ResponseState::new(true);
    assert_eq!(state.rule("x"), Rule::NotStarted);
    assert_eq!(state.rule(" "), Rule::NotStarted);
    assert_eq!(state.rule(BEGIN_SENTINEL), Rule::Begin);
    assert_eq!(state.rule(END_SENTINEL), Rule::End);
    assert_eq!(state.filter_payload(BEGIN_SENTINEL.to_string()), None);
    assert_eq!(state.rule(BEGIN_SENTINEL), Rule::Begin);
    assert_eq!(state.rule(" \n"), Rule::LeadingBlank);
    assert_eq!(state.rule(""), Rule::LeadingBlank);
    assert_eq!(state.rule("x"), Rule::Emit);
    assert_eq!(state.filter_payload("\n".to_string()), None);
    assert_eq!(state.rule(" \n"), Rule::Emit);
    assert_eq!(state.rule("x"), Rule::Emit);
    assert_eq!(state.filter_payload(END_SENTINEL.to_string()), None);
    assert_eq!(state.rule("x"), Rule::Closed);
    assert_eq!(state.rule(BEGIN_SENTINEL), Rule::Closed);
    assert_eq!(state.rule(END_SENTINEL), Rule::Closed);
    assert_eq!(state.rule(" "), Rule::Closed);
}

#[test]
fn rule_does_not_change_the_state() {
    let state = ResponseState::new(true);
    assert_eq!(state.rule(BEGIN_SENTINEL), Rule::Begin);
    assert!(!state.started());
    assert_eq!(state.rule(END_SENTINEL), Rule::End);
    assert!(!state.ended());
}

#[test]
fn rule_without_begin() {
    let state = ResponseState::new(false);
    assert_eq!(state.rule("x"), Rule::Emit);
    assert_eq!(state.rule(" "), Rule::Emit);
    assert_eq!(state.rule(""), Rule::Emit);
    assert_eq!(state.rule(BEGIN_SENTINEL), Rule::Begin);
    assert_eq!(state.rule(END_SENTINEL), Rule::End);
}
