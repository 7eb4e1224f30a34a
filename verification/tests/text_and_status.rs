use cursor_core::request::{open_conversation, StatusError, STATUS_OK};
use cursor_core::text::{is_blank_text, is_whitespace_char, same_text};

#[test]
fn status_500_fails_with_that_status() {
    match open_conversation(500, true) {
        Ok(_) => panic!("a filter was made for status 500"),
        Err(error) => {
            assert_eq!(error, StatusError { status_code: 500 });
            assert_eq!(error.status_code, 500);
            assert_eq!(error.message(), "Server returned status code 500");
            assert!(error.message().contains("500"));
        }
    }
}

#[test]
fn status_200_makes_a_fresh_filter() {
    assert_eq!(STATUS_OK, 200);
    let waiting = open_conversation(200, true).unwrap();
    assert!(!waiting.started());
    assert!(waiting.expect_begin_message());
    assert!(!waiting.ended());
    assert!(!waiting.first_newline_dropped());
    let open = open_conversation(200, false).unwrap();
    assert!(open.started());
    assert!(!open.expect_begin_message());
}

#[test]
fn every_other_status_fails() {
    for status in [0u16, 100, 199, 201, 204, 301, 404, 429, 503, 65535] {
        for expect in [true, false] {
            match open_conversation(status, expect) {
                Ok(_) => panic!("a filter was made for status {}", status),
                Err(error) => assert_eq!(error.status_code, status),
            }
        }
    }
}

#[test]
fn status_message_is_decimal() {
    assert_eq!(StatusError { status_code: 0 }.message(), "Server returned status code 0");
    assert_eq!(StatusError { status_code: 7 }.message(), "Server returned status code 7");
    assert_eq!(StatusError { status_code: 10 }.message(), "Server returned status code 10");
    assert_eq!(StatusError { status_code: 404 }.message(), "Server returned status code 404");
    assert_eq!(StatusError { status_code: 1000 }.message(), "Server returned status code 1000");
    assert_eq!(StatusError { status_code: 65535 }.message(), "Server returned status code 65535");
}

#[test]
fn status_message_agrees_with_format_for_every_status() {
    for status in 0..=u16::MAX {
        let error = StatusError { status_code: status };
        assert_eq!(error.message(), format!("Server returned status code {}", status));
    }
}

#[test]
fn whitespace_is_what_std_says() {
    for code in 0..=0x10FFFFu32 {
        if let Some(c) = char::from_u32(code) {
            assert_eq!(is_whitespace_char(c), c.is_whitespace(), "U+{:04X}", code);
        }
    }
}

#[test]
fn whitespace_samples() {
    for c in [' ', '\t', '\n', '\r', '\u{0B}', '\u{0C}', '\u{85}', '\u{A0}', '\u{3000}'] {
        assert!(is_whitespace_char(c));
    }
    for c in ['a', '0', '<', '\u{200B}', '\u{180E}', '\u{FEFF}', '\0'] {
        assert!(!is_whitespace_char(c));
    }
}

#[test]
fn blank_is_trim_is_empty() {
    let samples = [
        "", " ", "\n", "  \t\r\n", "\u{3000}\u{A0}", "a", " a ", "\n.", "\u{200B}", " \u{e9}",
        "<|BEGIN_message|>",
    ];
    for text in samples {
        assert_eq!(is_blank_text(text), text.trim().is_empty(), "{:?}", text);
    }
    assert!(is_blank_text(""));
    assert!(is_blank_text(" \n\t"));
    assert!(!is_blank_text(" x "));
}

#[test]
fn same_text_is_equality() {
    let samples =
        ["", "a", "ab", "ba", "<|BEGIN_message|>", "<|END_message|>", "\u{e9}", "e\u{301}"];
    for a in samples {
        for b in samples {
            assert_eq!(same_text(a, b), a == b, "{:?} {:?}", a, b);
        }
    }
}
