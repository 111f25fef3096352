use pgn_parser::parser::parse_file;
use pgn_parser::pgn::{header_row, record_row, PGN};
use pgn_parser::pgn_iterator::PGNIterator;

const TWO_GAMES: &str = "[White \"Robert James Fischer\"]\n[Black \"Pal Benko\"]\n\n1. e4 c5 2. Nf3 0-1\n\n[White \"Fischer, Robert J.\"]\n[Black \"Spassky, Boris V.\"]\n\n1. d4 Nf6 1-0\n";

#[test]
fn handler_builds_one_window_spanning_the_whole_input() {
    let handler = parse_file(TWO_GAMES.to_string(), 4);
    let total: usize = TWO_GAMES.chars().count();
    assert_eq!(handler.total_size, total);
    assert_eq!(handler.thread_count, 4);
    assert_eq!(handler.chunks.len(), 1);
    assert_eq!(handler.chunks[0].min_offset, 0);
    assert_eq!(handler.chunks[0].max_offset, total);
    assert_eq!(handler.chunks[0].total_size, total);
}

#[test]
fn two_contiguous_windows_recover_all_records() {
    let total: usize = TWO_GAMES.chars().count();

    // find the first record boundary with a whole-file scan
    let mut whole = PGNIterator::new(TWO_GAMES.to_string());
    let first_whole = whole.next().unwrap();
    let boundary = whole.min_offset;
    let second_whole = whole.next().unwrap();
    assert!(whole.next().is_none());

    // a partition cut exactly at that boundary
    let mut front = PGNIterator::with_window(TWO_GAMES.to_string(), 0, boundary);
    let mut back = PGNIterator::with_window(TWO_GAMES.to_string(), boundary, total);

    let first = front.next().unwrap();
    assert!(front.next().is_none());
    let second = back.next().unwrap();
    assert!(back.next().is_none());

    assert_eq!(first, first_whole);
    assert_eq!(second, second_whole);
}

#[test]
fn window_end_mid_record_yields_the_partial_record() {
    // the window admits only the first tag line; the scan stops at the
    // boundary and surfaces what it accumulated as a best-effort record
    let content = "[White \"A\"]\n[Black \"B\"]\n\n1. e4 e5\n\n";
    let mut iter = PGNIterator::with_window(content.to_string(), 0, 3);
    let pgn = iter.next().unwrap();
    assert_eq!(pgn.white, "A");
    assert_eq!(pgn.black, "");
    assert_eq!(pgn.moves, "");
    assert!(iter.next().is_none());
    assert_eq!(iter.min_offset, "[White \"A\"]\n".chars().count());
}

#[test]
fn default_record_equals_fresh_default() {
    assert_eq!(PGN::default(), PGN::default());
    let mut iter = PGNIterator::new("[White \"A\"]\n\n1. e4\n\n".to_string());
    let pgn = iter.next().unwrap();
    assert!(!(pgn == PGN::default()));
}

#[test]
fn tag_lookup_is_representation_agnostic() {
    let mut iter = PGNIterator::new(TWO_GAMES.to_string());
    let pgn = iter.next().unwrap();
    assert_eq!(pgn.get("White"), Some(&"Robert James Fischer".to_string()));
    assert_eq!(pgn.get("Black"), Some(&"Pal Benko".to_string()));
    assert_eq!(pgn.get("Date"), Some(&"".to_string()));
    assert_eq!(pgn.get("UTCDate"), Some(&"".to_string()));
    assert_eq!(pgn.get("Result"), Some(&"".to_string()));
    assert!(pgn.get("Opening").is_none());
    assert!(pgn.get("moves").is_none());
}

#[test]
fn row_projection_matches_the_header() {
    let header = header_row();
    assert_eq!(header, vec!["white", "black", "game_result", "moves"]);

    let mut iter = PGNIterator::new(TWO_GAMES.to_string());
    let pgn = iter.next().unwrap();
    let row = record_row(pgn);
    assert_eq!(
        row,
        vec!["Robert James Fischer", "Pal Benko", "", "1. e4 c5 2. Nf3 0-1"]
    );
}
