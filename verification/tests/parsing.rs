use pgn_parser::parser::{get_value, parse_lines, strip_line};

#[test]
fn it_strips_correctly() {
    let target = strip_line(&"[White \"Fischer, Robert J.\"]".to_string());
    let right_output = "White Fischer, Robert J.";
    assert_eq!(target, right_output);
}

#[test]
fn it_gets_the_value_correctly() {
    let target = strip_line(&"[White \"Fischer, Robert J.\"]".to_string());
    let right_output = "White Fischer, Robert J.";
    assert_eq!(target, right_output);
}

#[test]
fn stripping_is_idempotent() {
    let once = strip_line(&"[White \"Fischer, Robert J.\"]".to_string());
    let twice = strip_line(&once);
    assert_eq!(twice, once);
}

#[test]
fn strip_removes_all_three_characters_everywhere() {
    let target = strip_line(&"\"a\"[b]c[[]]\"".to_string());
    assert_eq!(target, "abc");
}

#[test]
fn strip_of_plain_text_is_identity() {
    let line = "1. e4 c5 2. Nf3 d6".to_string();
    assert_eq!(strip_line(&line), line);
}

#[test]
fn get_value_joins_the_tail_with_spaces() {
    let split = vec!["White", "Fischer,", "Robert", "J."];
    assert_eq!(get_value(split), "Fischer, Robert J.");
}

#[test]
fn get_value_of_key_only_line_is_empty() {
    let split = vec!["White"];
    assert_eq!(get_value(split), "");
}

fn chars(s: &str) -> Vec<char> {
    s.chars().collect()
}

#[test]
fn recognized_tags_fill_their_fields() {
    let content = chars(
        "[Event \"F/S Return Match\"]\n[Date \"1992.11.04\"]\n[White \"Fischer, Robert J.\"]\n[Black \"Spassky, Boris V.\"]\n[Result \"1/2-1/2\"]\n[WhiteElo \"2785\"]\n[BlackElo \"2660\"]\n[TimeControl \"40/7200\"]\n[Termination \"Normal\"]\n\n1. e4 e5 2. Nf3 1/2-1/2\n\n",
    );
    let (_, pgn) = parse_lines(&content, 0, content.len());
    let pgn = pgn.unwrap();
    assert_eq!(pgn.date, "1992.11.04");
    assert_eq!(pgn.white, "Fischer, Robert J.");
    assert_eq!(pgn.black, "Spassky, Boris V.");
    assert_eq!(pgn.game_result, "1/2-1/2");
    assert_eq!(pgn.white_elo, "2785");
    assert_eq!(pgn.black_elo, "2660");
    assert_eq!(pgn.time_control, "40/7200");
    assert_eq!(pgn.termination, "Normal");
    assert_eq!(pgn.moves, "1. e4 e5 2. Nf3 1/2-1/2");
}

#[test]
fn utc_date_is_an_alias_for_date() {
    let content = chars("[UTCDate \"2020.01.02\"]\n\n1. d4 d5\n\n");
    let (_, pgn) = parse_lines(&content, 0, content.len());
    let pgn = pgn.unwrap();
    assert_eq!(pgn.date, "2020.01.02");
}

#[test]
fn unrecognized_tag_does_not_touch_typed_fields() {
    let content = chars("[Opening \"Sicilian\"]\n[White \"A\"]\n\n1. e4 c5\n\n");
    let (_, pgn) = parse_lines(&content, 0, content.len());
    let pgn = pgn.unwrap();
    assert_eq!(pgn.white, "A");
    assert_eq!(pgn.date, "");
    assert_eq!(pgn.moves, "1. e4 c5");
}

#[test]
fn line_stripping_to_nothing_is_skipped() {
    let content = chars("[]\n[White \"A\"]\n\n1. e4\n\n");
    let (_, pgn) = parse_lines(&content, 0, content.len());
    let pgn = pgn.unwrap();
    assert_eq!(pgn.white, "A");
    assert_eq!(pgn.moves, "1. e4");
}

#[test]
fn carriage_return_line_endings_are_handled() {
    let content = chars("[White \"A\"]\r\n[Black \"B\"]\r\n\r\n1. e4 e5 1-0\r\n\r\n");
    let (_, pgn) = parse_lines(&content, 0, content.len());
    let pgn = pgn.unwrap();
    assert_eq!(pgn.white, "A");
    assert_eq!(pgn.black, "B");
    assert_eq!(pgn.moves, "1. e4 e5 1-0");
}

#[test]
fn empty_input_yields_nothing() {
    let content: Vec<char> = Vec::new();
    let (offset, pgn) = parse_lines(&content, 0, 0);
    assert_eq!(offset, 0);
    assert!(pgn.is_none());
}

#[test]
fn whitespace_only_input_yields_nothing() {
    let content = chars("   \n\t\n\r\n\n");
    let (offset, pgn) = parse_lines(&content, 0, content.len());
    assert_eq!(offset, content.len());
    assert!(pgn.is_none());
}
