//! Incremental parser for the PGN chess-game archive format.
//!
//! The library reads an archive as a sequence of characters, recognizes
//! record boundaries with a small line-oriented state machine, extracts
//! typed fields from tag lines, and reports the offset at which the next
//! parse may resume.  Offset-bounded windows allow one archive to be
//! scanned in independent chunks.
//!
//! Offsets count characters of the input sequence; a consumed line
//! contributes its content and its terminating newline, so a returned
//! offset is always the exact position of the first unconsumed line.

pub mod parser;
pub mod pgn;
pub mod pgn_handler;
pub mod pgn_iterator;
