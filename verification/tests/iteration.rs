use pgn_parser::parser::{parse_file, parse_lines};
use pgn_parser::pgn_iterator::PGNIterator;

const TWO_GAMES: &str = "[White \"Robert James Fischer\"]\n[Black \"Pal Benko\"]\n\n1. e4 c5 2. Nf3 0-1\n\n[White \"Fischer, Robert J.\"]\n[Black \"Spassky, Boris V.\"]\n\n1. d4 Nf6 1-0\n";

#[test]
fn test_new_line_parser_for_multiple_pgns() {
    let mut pgn_handler = parse_file(TWO_GAMES.to_string(), 1);
    let mut iter = pgn_handler.chunks.pop().unwrap();

    let first_pgn = iter.next().unwrap();
    let second_pgn = iter.next().unwrap();
    let third = iter.next();

    assert_eq!(first_pgn.white, "Robert James Fischer");
    assert_eq!(first_pgn.black, "Pal Benko");

    assert_eq!(second_pgn.white, "Fischer, Robert J.");
    assert_eq!(second_pgn.black, "Spassky, Boris V.");

    assert!(third.is_none());
}

#[test]
fn single_record_carries_tags_and_full_movetext() {
    let content = "[White \"Robert James Fischer\"]\n[Black \"Pal Benko\"]\n\n1. e4 c5 2. Nf3 d6 3. d4 cxd4\n";
    let mut iter = PGNIterator::new(content.to_string());
    let pgn = iter.next().unwrap();
    assert_eq!(pgn.white, "Robert James Fischer");
    assert_eq!(pgn.black, "Pal Benko");
    assert_eq!(pgn.moves, "1. e4 c5 2. Nf3 d6 3. d4 cxd4");
    assert!(iter.next().is_none());
}

#[test]
fn record_without_trailing_blank_line_is_flushed() {
    let content = "[White \"A\"]\n\n1. e4 e5 2. Nf3";
    let mut iter = PGNIterator::new(content.to_string());
    let pgn = iter.next().unwrap();
    assert_eq!(pgn.white, "A");
    assert_eq!(pgn.moves, "1. e4 e5 2. Nf3");
    assert!(iter.next().is_none());
}

#[test]
fn movetext_without_tags_yields_record_with_default_tag_fields() {
    // The pinned policy: a record whose tag block is absent still
    // yields a record; its movetext is populated and every tag field
    // keeps its default empty value.
    let content = "1. e4 c5 2. Nf3 d6\n";
    let mut iter = PGNIterator::new(content.to_string());
    let pgn = iter.next().unwrap();
    assert_eq!(pgn.moves, "1. e4 c5 2. Nf3 d6");
    assert_eq!(pgn.date, "");
    assert_eq!(pgn.white, "");
    assert_eq!(pgn.black, "");
    assert_eq!(pgn.game_result, "");
    assert!(iter.next().is_none());
}

#[test]
fn resuming_from_a_returned_offset_reproduces_the_next_record() {
    let content: Vec<char> = TWO_GAMES.chars().collect();

    // uninterrupted sequential consumption
    let (first_end, first) = parse_lines(&content, 0, content.len());
    let (second_end, second) = parse_lines(&content, first_end, content.len());
    let first = first.unwrap();
    let second = second.unwrap();

    // a second scan re-invoked from the previously returned offset
    let (resumed_end, resumed) = parse_lines(&content, first_end, content.len());
    let resumed = resumed.unwrap();
    assert_eq!(resumed, second);
    assert_eq!(resumed_end, second_end);

    assert_eq!(first.white, "Robert James Fischer");
    assert_eq!(second.white, "Fischer, Robert J.");
}

#[test]
fn extra_blank_lines_between_records_are_skipped() {
    let content = "[White \"A\"]\n\n1. e4 e5 1-0\n\n\n\n[White \"B\"]\n\n1. d4 d5 0-1\n\n";
    let mut iter = PGNIterator::new(content.to_string());
    let first = iter.next().unwrap();
    let second = iter.next().unwrap();
    assert_eq!(first.white, "A");
    assert_eq!(second.white, "B");
    assert!(iter.next().is_none());
}

#[test]
fn offsets_are_monotone_across_calls() {
    let mut iter = PGNIterator::new(TWO_GAMES.to_string());
    let mut previous = iter.min_offset;
    while let Some(_) = iter.next() {
        assert!(iter.min_offset > previous);
        previous = iter.min_offset;
    }
    assert!(iter.min_offset >= previous);
    assert!(iter.max_offset == iter.total_size);
}
