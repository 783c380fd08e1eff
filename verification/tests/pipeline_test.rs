use srt_linter::lexer::LexError;
use srt_linter::logging::LogEvent;
use srt_linter::logging::LogLevel;
use srt_linter::render::flatten;
use srt_linter::render::humanize;
use srt_linter::render::Pager;
use srt_linter::Lexer;
use srt_linter::Parser;
use srt_linter::Token;

fn lines(raw: &[&str]) -> Vec<String> {
    raw.iter().map(|s| s.to_string()).collect()
}

fn lex_all(raw: &[&str], verbose: bool, strict: bool) -> Result<(Vec<Token>, usize), LexError> {
    let mut lexer = Lexer::new(lines(raw), verbose, strict)?;
    lexer.lex()
}

fn sub_tokens(text_lines: &[&str], strict_start_end: (u64, u64)) -> Vec<Token> {
    vec![
        Token::Count(1, 1),
        Token::StartTime(strict_start_end.0, 2),
        Token::EndTime(strict_start_end.1, 2),
        Token::Subtitle((text_lines.iter().map(|s| s.to_string()).collect(), 3)),
        Token::Eof,
    ]
}

#[test]
fn timestamp_decodes_to_milliseconds() {
    // hours=0, minutes=2, seconds=16, ms=612 must give 136612 milliseconds
    let (tokens, issues) =
        lex_all(&["1", "00:02:16,612 --> 00:02:16,612", "x", ""], false, false).unwrap();
    assert_eq!(issues, 0);
    assert_eq!(tokens[1], Token::StartTime(136612, 2));
    assert_eq!(tokens[2], Token::EndTime(136612, 2));
}

#[test]
fn empty_input_is_refused() {
    match Lexer::new(Vec::new(), false, false) {
        Ok(_) => panic!("an empty line sequence must be refused"),
        Err(e) => assert_eq!(e, LexError::EmptyInput),
    }
}

#[test]
fn balanced_markup_has_no_issue() {
    let mut parser = Parser::new(sub_tokens(&["<i>text</i>"], (0, 1000)), true);
    let (subs, total, issues) = parser.parse();
    assert_eq!(subs.len(), 1);
    assert_eq!(total, 1);
    assert_eq!(issues, 0);
}

#[test]
fn unclosed_markup_counts_one_issue() {
    let mut parser = Parser::new(sub_tokens(&["<i>text"], (0, 1000)), true);
    let (_, _, issues) = parser.parse();
    assert_eq!(issues, 1);
    assert!(parser
        .logs()
        .iter()
        .any(|e| *e == LogEvent::UnclosedMarkup { line: 3 }));
}

#[test]
fn stray_closing_tag_counts_one_issue_where_found() {
    let mut parser = Parser::new(sub_tokens(&["</i>"], (0, 1000)), true);
    let (_, _, issues) = parser.parse();
    assert_eq!(issues, 1);
    assert_eq!(parser.logs()[0], LogEvent::StrayClosingTag { line: 3 });
}

#[test]
fn markup_checker_is_off_without_strictness() {
    let mut parser = Parser::new(sub_tokens(&["</i>"], (0, 1000)), false);
    let (_, _, issues) = parser.parse();
    assert_eq!(issues, 0);
}

#[test]
fn markup_pairing_is_not_letter_aware() {
    // an open <i> may be closed by </b>: the stack is by design permissive
    let mut parser = Parser::new(sub_tokens(&["<i>text</b>"], (0, 1000)), true);
    let (_, _, issues) = parser.parse();
    assert_eq!(issues, 0);
}

#[test]
fn pipeline_runs_are_identical() {
    let raw = &["1", "00:00:01,000 --> 00:00:02,000", "hello", "", "2", "00:00:03,000 --> 00:00:04,000", "world", ""];
    let (tokens1, lex_issues1) = lex_all(raw, true, true).unwrap();
    let (tokens2, lex_issues2) = lex_all(raw, true, true).unwrap();
    assert_eq!(tokens1, tokens2);
    assert_eq!(lex_issues1, lex_issues2);
    let mut p1 = Parser::new(tokens1, true);
    let (subs1, total1, issues1) = p1.parse();
    let mut p2 = Parser::new(tokens2, true);
    let (subs2, total2, issues2) = p2.parse();
    assert_eq!(total1, total2);
    assert_eq!(issues1, issues2);
    assert_eq!(subs1.len(), subs2.len());
    for (a, b) in subs1.iter().zip(subs2.iter()) {
        assert_eq!(a.id, b.id);
        assert_eq!(a.start, b.start);
        assert_eq!(a.end, b.end);
        assert_eq!(a.text, b.text);
    }
}

#[test]
fn sample_file_is_clean_end_to_end() {
    let raw = &[
        "1",
        "00:02:16,612 --> 00:02:19,376",
        "Senator, we're making",
        "our final approach into Coruscant.",
        "",
        "2",
        "00:02:19,482 --> 00:02:21,609",
        "Very good, Lieutenant.",
        "",
        "3",
        "00:03:13,336 --> 00:03:15,167",
        "We made it.",
        "",
        "4",
        "00:03:18,608 --> 00:03:20,371",
        "I guess I was wrong.",
        "",
        "5",
        "00:03:20,476 --> 00:03:22,671",
        "There was no danger at all.",
    ];
    let (tokens, lex_issues) = lex_all(raw, true, true).unwrap();
    assert_eq!(lex_issues, 0);
    assert_eq!(tokens.len(), 4 * 5 + 1);
    assert_eq!(tokens[0], Token::Count(1, 1));
    assert_eq!(tokens[1], Token::StartTime(136612, 2));
    assert_eq!(tokens[2], Token::EndTime(139376, 2));
    assert_eq!(tokens[20], Token::Eof);
    let mut parser = Parser::new(tokens, true);
    let (subs, total, issues) = parser.parse();
    assert_eq!(issues, 0);
    assert_eq!(subs.len(), 5);
    assert_eq!(total, 6);
    assert_eq!(subs[0].id, Some(1));
    assert_eq!(subs[0].start, Some(136612));
    assert_eq!(subs[0].end, Some(139376));
    assert!(subs.iter().all(|s| s.is_complete()));
}

#[test]
fn counter_gap_is_one_issue_but_not_fatal() {
    let raw = &[
        "1",
        "00:00:01,000 --> 00:00:02,000",
        "a",
        "",
        "2",
        "00:00:03,000 --> 00:00:04,000",
        "b",
        "",
        "4",
        "00:00:05,000 --> 00:00:06,000",
        "c",
        "",
    ];
    let (tokens, issues) = lex_all(raw, false, false).unwrap();
    assert!(issues >= 1);
    assert_eq!(issues, 1);
    assert_eq!(tokens.len(), 13);
    assert_eq!(tokens[8], Token::Count(4, 9));
}

#[test]
fn counter_jump_is_logged_with_both_values() {
    let raw = &["1", "00:00:01,000 --> 00:00:02,000", "a", "", "3", "00:00:03,000 --> 00:00:04,000", "b", ""];
    let mut lexer = Lexer::new(lines(raw), false, false).unwrap();
    let (_, issues) = lexer.lex().unwrap();
    assert_eq!(issues, 1);
    assert_eq!(
        lexer.logs()[0],
        LogEvent::CounterJump { line: 5, last_value: 1, last_line: 1, value: 3 }
    );
}

#[test]
fn first_counter_not_one_warns_under_strictness() {
    let raw = &["2", "00:00:01,000 --> 00:00:02,000", "a", ""];
    let mut lexer = Lexer::new(lines(raw), false, true).unwrap();
    let (_, issues) = lexer.lex().unwrap();
    // the discontinuity check counts the issue; the first-counter note is a
    // warning only
    assert_eq!(issues, 1);
    assert!(lexer
        .logs()
        .iter()
        .any(|e| *e == LogEvent::FirstCounterNotOne { line: 1, value: 2 }));
}

#[test]
fn malformed_counter_is_fatal() {
    match lex_all(&["abc", "00:00:01,000 --> 00:00:02,000", "a", ""], false, false) {
        Ok(_) => panic!("a counter that is not a clean integer must be fatal"),
        Err(e) => assert_eq!(e, LexError::MalformedCounter(1)),
    }
}

#[test]
fn missing_arrow_is_fatal() {
    match lex_all(&["1", "00:00:01,000 00:00:02,000", "a", ""], false, false) {
        Ok(_) => panic!("a time-range line without the arrow must be fatal"),
        Err(e) => assert_eq!(e, LexError::MalformedTimeRange(2)),
    }
}

#[test]
fn wrong_colon_count_is_fatal() {
    match lex_all(&["1", "00:01,000 --> 00:00:02,000", "a", ""], false, false) {
        Ok(_) => panic!("a timestamp without three colon fields must be fatal"),
        Err(e) => assert_eq!(e, LexError::InvalidTimestampShape(2)),
    }
}

#[test]
fn missing_comma_is_fatal() {
    match lex_all(&["1", "00:00:01 --> 00:00:02,000", "a", ""], false, false) {
        Ok(_) => panic!("a timestamp without the comma sub-fields must be fatal"),
        Err(e) => assert_eq!(e, LexError::InvalidTimestampShape(2)),
    }
}

#[test]
fn unparseable_numeric_field_is_fatal() {
    match lex_all(&["1", "aa:00:01,000 --> 00:00:02,000", "a", ""], false, false) {
        Ok(_) => panic!("a non-numeric timestamp field must be fatal"),
        Err(e) => assert_eq!(e, LexError::InvalidTimestampNumber(2)),
    }
}

#[test]
fn bad_padding_counts_issues_under_strictness() {
    let raw = &["1", "0:00:01,000 --> 00:00:02,00", "a", ""];
    let (_, strict_issues) = lex_all(raw, false, true).unwrap();
    assert_eq!(strict_issues, 2);
    let (_, lax_issues) = lex_all(raw, false, false).unwrap();
    assert_eq!(lax_issues, 0);
}

#[test]
fn bad_padding_warning_is_recorded_under_strictness_alone() {
    // the padding warning follows the counted issue, not verbosity
    let raw = &["1", "0:00:01,000 --> 00:00:02,000", "a", ""];
    let mut lexer = Lexer::new(lines(raw), false, true).unwrap();
    let (_, issues) = lexer.lex().unwrap();
    assert_eq!(issues, 1);
    assert_eq!(lexer.logs()[0], LogEvent::PaddingIssue { line: 2 });
}

#[test]
fn bom_is_stripped_and_noted() {
    let raw = &["\u{feff}1", "00:00:01,000 --> 00:00:02,000", "a", ""];
    let mut lexer = Lexer::new(lines(raw), true, false).unwrap();
    assert!(lexer.logs().iter().any(|e| *e == LogEvent::BomDetected));
    let (tokens, issues) = lexer.lex().unwrap();
    assert_eq!(issues, 0);
    assert_eq!(tokens[0], Token::Count(1, 1));
}

#[test]
fn missing_trailing_blank_line_is_re_added() {
    let raw = &["1", "00:00:01,000 --> 00:00:02,000", "a"];
    let mut lexer = Lexer::new(lines(raw), true, false).unwrap();
    assert!(lexer.logs().iter().any(|e| *e == LogEvent::ExtraBlankLine));
    let (tokens, issues) = lexer.lex().unwrap();
    assert_eq!(issues, 0);
    assert_eq!(tokens[3], Token::Subtitle((vec!["a".to_string()], 3)));
}

#[test]
fn equal_timestamps_warn_under_strictness_without_counting() {
    let mut parser = Parser::new(sub_tokens(&["x"], (5000, 5000)), true);
    let (_, _, issues) = parser.parse();
    assert_eq!(issues, 0);
    assert!(parser
        .logs()
        .iter()
        .any(|e| *e == LogEvent::EqualTimestamps { id: 1, line: 2 }));
}

#[test]
fn info_notes_are_gated_by_verbosity() {
    let raw = &["\u{feff}1", "00:00:01,000 --> 00:00:02,000", "a"];
    let lexer = Lexer::new(lines(raw), false, false).unwrap();
    assert!(lexer.logs().is_empty());
}

#[test]
fn log_levels_route_by_event() {
    assert_eq!(LogEvent::BomDetected.level(), LogLevel::Info);
    assert_eq!(LogEvent::ExtraBlankLine.level(), LogLevel::Info);
    assert_eq!(LogEvent::StrayClosingTag { line: 1 }.level(), LogLevel::Warning);
    assert_eq!(
        LogEvent::CounterJump { line: 1, last_value: 0, last_line: 0, value: 2 }.level(),
        LogLevel::Warning
    );
}

#[test]
fn humanize_pads_each_dial() {
    assert_eq!(humanize(0), "00:00:00");
    assert_eq!(humanize(3723), "01:02:03");
    assert_eq!(humanize(136), "00:02:16");
    // hours wrap at one day
    assert_eq!(humanize(86400 + 61), "00:01:01");
}

#[test]
fn flatten_prefixes_each_text_line_with_its_start_time() {
    let raw = &["1", "00:02:16,612 --> 00:02:19,376", "one", "two", ""];
    let (tokens, _) = lex_all(raw, false, false).unwrap();
    let mut parser = Parser::new(tokens, false);
    let (subs, _, _) = parser.parse();
    let flat = flatten(subs);
    assert_eq!(flat, vec!["00:02:16  one".to_string(), "00:02:16  two".to_string()]);
}

#[test]
fn pager_stays_within_bounds() {
    let mut p = Pager::new(3);
    assert_eq!(p.scroll_pos, 0);
    p.sub();
    assert_eq!(p.scroll_pos, 0);
    p.add();
    assert_eq!(p.scroll_pos, 1);
    p.add();
    assert_eq!(p.scroll_pos, 2);
    p.add();
    assert_eq!(p.scroll_pos, 2);
    p.sub();
    assert_eq!(p.scroll_pos, 1);
}
