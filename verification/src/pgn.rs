//! The in-memory representation of one parsed game record.

use vstd::prelude::*;
use vstd::string::{StrSliceExecFns, StringExecFns};

verus! {

/// Mathematical content of one game record: each field as a sequence of
/// characters.
pub struct PgnView {
    pub date: Seq<char>,
    pub white: Seq<char>,
    pub black: Seq<char>,
    pub game_result: Seq<char>,
    pub white_elo: Seq<char>,
    pub black_elo: Seq<char>,
    pub time_control: Seq<char>,
    pub termination: Seq<char>,
    pub moves: Seq<char>,
}

impl PgnView {
    /// The record no line has contributed to: every field empty.
    pub open spec fn unset() -> PgnView {
        (PgnView {
            date: Seq::empty(),
            white: Seq::empty(),
            black: Seq::empty(),
            game_result: Seq::empty(),
            white_elo: Seq::empty(),
            black_elo: Seq::empty(),
            time_control: Seq::empty(),
            termination: Seq::empty(),
            moves: Seq::empty(),
        })
    }
}

/// One parsed game: the recognized tag fields plus the movetext line.
#[derive(Debug, Clone)]
pub struct PGN {
    pub date: String,
    pub white: String,
    pub black: String,
    pub game_result: String,
    pub white_elo: String,
    pub black_elo: String,
    pub time_control: String,
    pub termination: String,
    pub moves: String,
}

impl View for PGN {
    type V = PgnView;

    open spec fn view(&self) -> PgnView {
        (PgnView {
            date: self.date@,
            white: self.white@,
            black: self.black@,
            game_result: self.game_result@,
            white_elo: self.white_elo@,
            black_elo: self.black_elo@,
            time_control: self.time_control@,
            termination: self.termination@,
            moves: self.moves@,
        })
    }
}

impl Default for PGN {
    /// A record with every field empty; a parse attempt starts from it,
    /// and a scan that contributed nothing still equals it.
    fn default() -> (r: PGN)
        ensures
            r@ == PgnView::unset(),
    {
        let r = PGN {
            date: String::new(),
            white: String::new(),
            black: String::new(),
            game_result: String::new(),
            white_elo: String::new(),
            black_elo: String::new(),
            time_control: String::new(),
            termination: String::new(),
            moves: String::new(),
        };
        proof {
            assert(r@ =~= PgnView::unset());
        }
        r
    }
}

/// The field stored for a recognized tag key, `None` for any other
/// key.  `Date` and its alias `UTCDate` share one field; `Result` is
/// stored as `game_result`.
pub open spec fn spec_get(p: PgnView, tag: Seq<char>) -> Option<Seq<char>> {
    if tag == "UTCDate"@ || tag == "Date"@ {
        Some(p.date)
    } else if tag == "White"@ {
        Some(p.white)
    } else if tag == "Black"@ {
        Some(p.black)
    } else if tag == "Result"@ {
        Some(p.game_result)
    } else if tag == "WhiteElo"@ {
        Some(p.white_elo)
    } else if tag == "BlackElo"@ {
        Some(p.black_elo)
    } else if tag == "TimeControl"@ {
        Some(p.time_control)
    } else if tag == "Termination"@ {
        Some(p.termination)
    } else {
        None
    }
}

/// Whether two string slices hold the same characters.
fn str_eq(a: &str, b: &str) -> (r: bool)
    ensures
        r == (a@ == b@),
{
    let n = a.unicode_len();
    if n != b.unicode_len() {
        return false;
    }
    let mut i: usize = 0;
    while i < n
        invariant
            i <= n,
            n == a@.len(),
            n == b@.len(),
            forall|k: int| 0 <= k < i ==> a@[k] == b@[k],
        decreases n - i,
    {
        if a.get_char(i) != b.get_char(i) {
            return false;
        }
        i += 1;
    }
    proof {
        assert(a@ =~= b@);
    }
    true
}

impl PGN {
    /// Representation-agnostic access: the value stored for a
    /// recognized tag key, `None` for an unrecognized one.
    pub fn get(&self, tag: &str) -> (r: Option<&String>)
        ensures
            (match r {
                Some(v) => spec_get(self@, tag@) == Some(v@),
                None => spec_get(self@, tag@) is None,
            }),
    {
        if str_eq(tag, "UTCDate") || str_eq(tag, "Date") {
            Some(&self.date)
        } else if str_eq(tag, "White") {
            Some(&self.white)
        } else if str_eq(tag, "Black") {
            Some(&self.black)
        } else if str_eq(tag, "Result") {
            Some(&self.game_result)
        } else if str_eq(tag, "WhiteElo") {
            Some(&self.white_elo)
        } else if str_eq(tag, "BlackElo") {
            Some(&self.black_elo)
        } else if str_eq(tag, "TimeControl") {
            Some(&self.time_control)
        } else if str_eq(tag, "Termination") {
            Some(&self.termination)
        } else {
            None
        }
    }
}

/// The fixed header of the tabular four-column projection.
pub fn header_row() -> (r: Vec<String>)
    ensures
        r@.len() == 4,
        r@[0]@ == "white"@,
        r@[1]@ == "black"@,
        r@[2]@ == "game_result"@,
        r@[3]@ == "moves"@,
{
    let mut v: Vec<String> = Vec::new();
    v.push(String::from_str("white"));
    v.push(String::from_str("black"));
    v.push(String::from_str("game_result"));
    v.push(String::from_str("moves"));
    v
}

/// The tabular four-column projection of one record:
/// `white, black, game_result, moves`, in header order.
pub fn record_row(pgn: PGN) -> (r: Vec<String>)
    ensures
        r@.len() == 4,
        r@[0]@ == pgn.white@,
        r@[1]@ == pgn.black@,
        r@[2]@ == pgn.game_result@,
        r@[3]@ == pgn.moves@,
{
    let mut v: Vec<String> = Vec::new();
    v.push(pgn.white);
    v.push(pgn.black);
    v.push(pgn.game_result);
    v.push(pgn.moves);
    v
}

impl PartialEq for PGN {
    fn eq(&self, other: &PGN) -> (r: bool) {
        self.date == other.date && self.white == other.white && self.black == other.black
            && self.game_result == other.game_result && self.white_elo == other.white_elo
            && self.black_elo == other.black_elo && self.time_control == other.time_control
            && self.termination == other.termination && self.moves == other.moves
    }
}

impl vstd::std_specs::cmp::PartialEqSpecImpl for PGN {
    open spec fn obeys_eq_spec() -> bool {
        true
    }

    open spec fn eq_spec(&self, other: &PGN) -> bool {
        self@ == other@
    }
}

} // verus!
