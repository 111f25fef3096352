//! The incremental record parser: line normalization, tag
//! classification, and the offset-tracked scanning state machine.

use crate::pgn::{PGN, PgnView};
use crate::pgn_handler::PGNHandler;
use vstd::prelude::*;
use vstd::string::{StrSliceExecFns, StringExecFns};

verus! {

/// Characters that survive normalization: everything but the structural
/// punctuation `[`, `]` and `"` of a tag line.
pub open spec fn kept_char(c: char) -> bool {
    c != '[' && c != ']' && c != '"'
}

/// The normalized form of a line: every `[`, `]` and `"` removed, all
/// other characters kept in order.
pub open spec fn strip_spec(s: Seq<char>) -> Seq<char>
    decreases s.len(),
{
    if s.len() == 0 {
        Seq::empty()
    } else {
        let rest = strip_spec(s.drop_last());
        if kept_char(s.last()) {
            rest.push(s.last())
        } else {
            rest
        }
    }
}

/// Whitespace inside a line (a line never contains a newline itself).
pub open spec fn is_space_char(c: char) -> bool {
    c == ' ' || c == '\t' || c == '\r'
}

/// A line that ends a tag block or a record: nothing but whitespace.
pub open spec fn is_blank(l: Seq<char>) -> bool {
    forall|j: int| 0 <= j < l.len() ==> is_space_char(#[trigger] l[j])
}

/// Position of the first occurrence of `c` in `s` at or after `i`, or
/// `s.len()` if there is none.
pub open spec fn char_pos(s: Seq<char>, c: char, i: int) -> int
    decreases s.len() - i when 0 <= i <= s.len()
{
    if i >= s.len() {
        i
    } else if s[i] == c {
        i
    } else {
        char_pos(s, c, i + 1)
    }
}

pub proof fn lemma_char_pos(s: Seq<char>, c: char, i: int)
    requires
        0 <= i <= s.len(),
    ensures
        i <= char_pos(s, c, i) <= s.len(),
        char_pos(s, c, i) < s.len() ==> s[char_pos(s, c, i)] == c,
        forall|j: int| i <= j < char_pos(s, c, i) ==> s[j] != c,
    decreases s.len() - i,
{
    if i < s.len() && s[i] != c {
        lemma_char_pos(s, c, i + 1);
    }
}

/// Every character of a normalized line survives normalization.
proof fn lemma_strip_kept(s: Seq<char>)
    ensures
        forall|j: int|
            0 <= j < strip_spec(s).len() ==> kept_char(#[trigger] strip_spec(s)[j]),
    decreases s.len(),
{
    if s.len() > 0 {
        lemma_strip_kept(s.drop_last());
        let rest = strip_spec(s.drop_last());
        if kept_char(s.last()) {
            assert forall|j: int|
                0 <= j < strip_spec(s).len() implies kept_char(#[trigger] strip_spec(s)[j]) by {
                if j < rest.len() {
                    assert(strip_spec(s)[j] == rest[j]);
                } else {
                    assert(strip_spec(s)[j] == s.last());
                }
            }
        }
    }
}

/// A line without structural punctuation is unchanged by normalization.
proof fn lemma_strip_of_kept(s: Seq<char>)
    requires
        forall|j: int| 0 <= j < s.len() ==> kept_char(#[trigger] s[j]),
    ensures
        strip_spec(s) == s,
    decreases s.len(),
{
    if s.len() > 0 {
        lemma_strip_of_kept(s.drop_last());
        assert(strip_spec(s.drop_last()).push(s.last()) =~= s);
    }
}

/// Law: normalization is idempotent; re-normalizing a normalized line
/// is a no-op.
pub proof fn lemma_strip_idempotent(s: Seq<char>)
    ensures
        strip_spec(strip_spec(s)) == strip_spec(s),
{
    lemma_strip_kept(s);
    lemma_strip_of_kept(strip_spec(s));
}

/// The characters of a `&str`, in order, as a vector.
pub(crate) fn str_to_chars(s: &str) -> (v: Vec<char>)
    ensures
        v@ == s@,
{
    let n = s.unicode_len();
    let mut v: Vec<char> = Vec::new();
    let mut i: usize = 0;
    while i < n
        invariant
            n == s@.len(),
            i <= n,
            v@ == s@.take(i as int),
        decreases n - i,
    {
        let c = s.get_char(i);
        v.push(c);
        i += 1;
        proof {
            assert(v@ =~= s@.take(i as int));
        }
    }
    proof {
        assert(s@.take(n as int) =~= s@);
    }
    v
}

/// Relies on `String`'s `FromIterator` over `char`: collecting
/// characters builds the string of exactly those characters.
#[verifier::external_body]
fn chars_to_string(v: &[char]) -> (s: String)
    ensures
        s@ == v@,
{
    v.iter().collect()
}

/// First occurrence of `c` in `s[from..]`, or `s.len()` if none.
fn find_char(s: &[char], c: char, from: usize) -> (e: usize)
    requires
        from <= s@.len(),
    ensures
        e as int == char_pos(s@, c, from as int),
{
    let n = s.len();
    let mut i = from;
    while i < n && s[i] != c
        invariant
            from <= i <= n,
            n == s@.len(),
            char_pos(s@, c, from as int) == char_pos(s@, c, i as int),
        decreases n - i,
    {
        i += 1;
    }
    i
}

/// Whether the line `s[from..to]` is blank: whitespace only.
fn is_blank_range(s: &[char], from: usize, to: usize) -> (b: bool)
    requires
        from <= to <= s@.len(),
    ensures
        b == is_blank(s@.subrange(from as int, to as int)),
{
    let ghost line = s@.subrange(from as int, to as int);
    let mut i = from;
    while i < to
        invariant
            from <= i <= to <= s@.len(),
            line == s@.subrange(from as int, to as int),
            forall|j: int| 0 <= j < i - from ==> is_space_char(#[trigger] line[j]),
        decreases to - i,
    {
        let c = s[i];
        if !(c == ' ' || c == '\t' || c == '\r') {
            assert(!is_space_char(line[i - from]));
            return false;
        }
        i += 1;
    }
    true
}

/// The normalized form of the line `s[from..to]`.
fn strip_range(s: &[char], from: usize, to: usize) -> (v: Vec<char>)
    requires
        from <= to <= s@.len(),
    ensures
        v@ == strip_spec(s@.subrange(from as int, to as int)),
{
    let mut v: Vec<char> = Vec::new();
    let mut i = from;
    while i < to
        invariant
            from <= i <= to <= s@.len(),
            v@ == strip_spec(s@.subrange(from as int, i as int)),
        decreases to - i,
    {
        let c = s[i];
        proof {
            assert(s@.subrange(from as int, i + 1).drop_last() =~= s@.subrange(
                from as int,
                i as int,
            ));
            assert(s@.subrange(from as int, i + 1).last() == s@[i as int]);
        }
        if !(c == '[' || c == ']' || c == '"') {
            v.push(c);
        }
        i += 1;
    }
    v
}

/// Normalizes one raw line: strips every `[`, `]` and `"`.
pub fn strip_line(line: &String) -> (r: String)
    ensures
        r@ == strip_spec(line@),
{
    let chars = str_to_chars(line.as_str());
    proof {
        assert(chars@.subrange(0, chars@.len() as int) =~= line@);
    }
    let kept = strip_range(chars.as_slice(), 0, chars.len());
    chars_to_string(kept.as_slice())
}

/// The candidate tag key of a normalized line: everything before the
/// first space (the whole line if it has no space).
pub open spec fn tag_key(t: Seq<char>) -> Seq<char> {
    t.take(char_pos(t, ' ', 0))
}

/// The value of a normalized tag line: everything after the first
/// space, empty if the line has no space.
pub open spec fn tag_value(t: Seq<char>) -> Seq<char> {
    let p = char_pos(t, ' ', 0);
    if p < t.len() {
        t.skip(p + 1)
    } else {
        Seq::empty()
    }
}

/// One line merged into an in-progress record: the line is normalized,
/// a recognized key updates its field with the line's value, any other
/// non-empty line is folded into the movetext field, and a line whose
/// normalized form is empty is skipped.
pub open spec fn classify_spec(p: PgnView, line: Seq<char>) -> PgnView {
    let t = strip_spec(line);
    if t.len() == 0 {
        p
    } else {
        let key = tag_key(t);
        let v = tag_value(t);
        if key == "UTCDate"@ || key == "Date"@ {
            (PgnView { date: v, ..p })
        } else if key == "White"@ {
            (PgnView { white: v, ..p })
        } else if key == "Black"@ {
            (PgnView { black: v, ..p })
        } else if key == "Result"@ {
            (PgnView { game_result: v, ..p })
        } else if key == "WhiteElo"@ {
            (PgnView { white_elo: v, ..p })
        } else if key == "BlackElo"@ {
            (PgnView { black_elo: v, ..p })
        } else if key == "TimeControl"@ {
            (PgnView { time_control: v, ..p })
        } else if key == "Termination"@ {
            (PgnView { termination: v, ..p })
        } else {
            (PgnView { moves: t, ..p })
        }
    }
}

/// Whether the first `to` characters of `t` spell exactly `lit`.
fn range_eq_str(t: &Vec<char>, to: usize, lit: &str) -> (b: bool)
    requires
        to <= t@.len(),
    ensures
        b == (t@.take(to as int) == lit@),
{
    let n = lit.unicode_len();
    if n != to {
        proof {
            assert(t@.take(to as int).len() != lit@.len());
        }
        return false;
    }
    let mut j: usize = 0;
    while j < to
        invariant
            j <= to <= t@.len(),
            n == to,
            n == lit@.len(),
            forall|k: int| 0 <= k < j ==> t@[k] == lit@[k],
        decreases to - j,
    {
        if t[j] != lit.get_char(j) {
            proof {
                assert(t@.take(to as int)[j as int] != lit@[j as int]);
            }
            return false;
        }
        j += 1;
    }
    proof {
        assert(t@.take(to as int) =~= lit@);
    }
    true
}

/// Classifies the raw line `s[from..to]` and merges it into `pgn`.
fn classify_line(pgn: &mut PGN, s: &[char], from: usize, to: usize)
    requires
        from <= to <= s@.len(),
    ensures
        final(pgn)@ == classify_spec(old(pgn)@, s@.subrange(from as int, to as int)),
{
    let t = strip_range(s, from, to);
    if t.len() == 0 {
        return;
    }
    let sp = find_char(t.as_slice(), ' ', 0);
    proof {
        lemma_char_pos(t@, ' ', 0);
    }
    let value = if sp < t.len() {
        chars_to_string(&t.as_slice()[sp + 1..t.len()])
    } else {
        String::new()
    };
    if range_eq_str(&t, sp, "UTCDate") || range_eq_str(&t, sp, "Date") {
        pgn.date = value;
    } else if range_eq_str(&t, sp, "White") {
        pgn.white = value;
    } else if range_eq_str(&t, sp, "Black") {
        pgn.black = value;
    } else if range_eq_str(&t, sp, "Result") {
        pgn.game_result = value;
    } else if range_eq_str(&t, sp, "WhiteElo") {
        pgn.white_elo = value;
    } else if range_eq_str(&t, sp, "BlackElo") {
        pgn.black_elo = value;
    } else if range_eq_str(&t, sp, "TimeControl") {
        pgn.time_control = value;
    } else if range_eq_str(&t, sp, "Termination") {
        pgn.termination = value;
    } else {
        pgn.moves = chars_to_string(t.as_slice());
    }
}

/// The parser's position within one record scan.
#[derive(Clone, Copy, Debug)]
pub enum ScanState {
    /// Reading tag lines; a blank line ends the tag block.
    ScanningTags,
    /// The tag block has ended; the next line is the movetext.
    SawBlankLine,
    /// The movetext has been captured; a blank line completes the
    /// record.
    MovesTaken,
}

/// The content of the line that starts at `off`: the characters up to
/// the next newline, without a trailing carriage return.
pub open spec fn line_at(s: Seq<char>, off: int) -> Seq<char> {
    let e = char_pos(s, '\n', off);
    if e > off && s[e - 1] == '\r' {
        s.subrange(off, e - 1)
    } else {
        s.subrange(off, e)
    }
}

/// One scan step after another, from `off`, stopping at `max`, at the
/// end of `s`, or when the record in progress is complete.  Returns the
/// resumption offset and the completed record, or `None` when nothing
/// was accumulated.  A line read while the offset is inside the window
/// is consumed whole, even past `max`; a line that would only begin at
/// or past `max` is left for a later window.
pub open spec fn scan_spec(s: Seq<char>, off: int, max: int, p: PgnView, st: ScanState) -> (
    int,
    Option<PgnView>,
)
    decreases s.len() - off
        when 0 <= off
        via scan_spec_dec
{
    if off >= max || off >= s.len() {
        (off, if p == PgnView::unset() { None } else { Some(p) })
    } else {
        let e = char_pos(s, '\n', off);
        let line = line_at(s, off);
        let nxt = if e < s.len() { e + 1 } else { e };
        if is_blank(line) {
            match st {
                ScanState::ScanningTags => {
                    if p == PgnView::unset() {
                        scan_spec(s, nxt, max, p, ScanState::ScanningTags)
                    } else {
                        scan_spec(s, nxt, max, p, ScanState::SawBlankLine)
                    }
                },
                ScanState::SawBlankLine => scan_spec(s, nxt, max, p, ScanState::SawBlankLine),
                ScanState::MovesTaken => (nxt, Some(p)),
            }
        } else {
            match st {
                ScanState::ScanningTags => scan_spec(
                    s,
                    nxt,
                    max,
                    classify_spec(p, line),
                    ScanState::ScanningTags,
                ),
                ScanState::SawBlankLine => scan_spec(
                    s,
                    nxt,
                    max,
                    (PgnView { moves: strip_spec(line), ..p }),
                    ScanState::MovesTaken,
                ),
                ScanState::MovesTaken => (off, Some(p)),
            }
        }
    }
}

#[via_fn]
proof fn scan_spec_dec(s: Seq<char>, off: int, max: int, p: PgnView, st: ScanState) {
    if off < max && off < s.len() {
        lemma_char_pos(s, '\n', off);
    }
}

/// One full parse attempt: scan from `min` with a fresh record.
pub open spec fn parse_spec(s: Seq<char>, min: int, max: int) -> (int, Option<PgnView>) {
    scan_spec(s, min, max, PgnView::unset(), ScanState::ScanningTags)
}

/// The scan never moves backwards, never runs past the end of the
/// stream, and a fresh scan that yields a record has consumed at least
/// one line.
pub proof fn lemma_scan_bounds(s: Seq<char>, off: int, max: int, p: PgnView, st: ScanState)
    requires
        0 <= off,
    ensures
        off <= scan_spec(s, off, max, p, st).0,
        off <= s.len() ==> scan_spec(s, off, max, p, st).0 <= s.len(),
        (st == ScanState::ScanningTags && p == PgnView::unset() && scan_spec(
            s,
            off,
            max,
            p,
            st,
        ).1 is Some) ==> scan_spec(s, off, max, p, st).0 > off,
    decreases s.len() - off,
{
    if off < max && off < s.len() {
        lemma_char_pos(s, '\n', off);
        let e = char_pos(s, '\n', off);
        let line = line_at(s, off);
        let nxt = if e < s.len() {
            e + 1
        } else {
            e
        };
        if is_blank(line) {
            match st {
                ScanState::ScanningTags => {
                    if p == PgnView::unset() {
                        lemma_scan_bounds(s, nxt, max, p, ScanState::ScanningTags);
                    } else {
                        lemma_scan_bounds(s, nxt, max, p, ScanState::SawBlankLine);
                    }
                },
                ScanState::SawBlankLine => {
                    lemma_scan_bounds(s, nxt, max, p, ScanState::SawBlankLine);
                },
                ScanState::MovesTaken => {},
            }
        } else {
            match st {
                ScanState::ScanningTags => {
                    lemma_scan_bounds(s, nxt, max, classify_spec(p, line), ScanState::ScanningTags);
                },
                ScanState::SawBlankLine => {
                    lemma_scan_bounds(
                        s,
                        nxt,
                        max,
                        (PgnView { moves: strip_spec(line), ..p }),
                        ScanState::MovesTaken,
                    );
                },
                ScanState::MovesTaken => {},
            }
        }
    }
}

/// Law: a window boundary never splits a record that lies inside the
/// window.  If the scan of the whole stream stops at or before `max`,
/// the window-bounded scan stops at the very same offset and returns
/// the same record -- unless that record is the all-empty one, which
/// the bounded scan may report as nothing at all.
pub proof fn lemma_window_agrees(s: Seq<char>, off: int, max: int, p: PgnView, st: ScanState)
    requires
        0 <= off,
        scan_spec(s, off, s.len() as int, p, st).0 <= max,
    ensures
        scan_spec(s, off, max, p, st).0 == scan_spec(s, off, s.len() as int, p, st).0,
        scan_spec(s, off, s.len() as int, p, st).1 is None ==> scan_spec(s, off, max, p, st).1 is None,
        (match scan_spec(s, off, s.len() as int, p, st).1 {
            Some(r) => r != PgnView::unset() ==> scan_spec(s, off, max, p, st) == scan_spec(
                s,
                off,
                s.len() as int,
                p,
                st,
            ),
            None => true,
        }),
    decreases s.len() - off,
{
    lemma_scan_bounds(s, off, s.len() as int, p, st);
    if off >= s.len() {
        // both scans flush the same record at `off`
    } else {
        lemma_char_pos(s, '\n', off);
        let e = char_pos(s, '\n', off);
        let line = line_at(s, off);
        let nxt = if e < s.len() {
            e + 1
        } else {
            e
        };
        if off >= max {
            // the whole-stream scan stops at or before `max <= off`, so
            // it cannot have consumed this line: every consuming branch
            // contradicts the premise, and what remains returns the
            // record in progress exactly where the bounded scan
            // flushes.
            if is_blank(line) {
                match st {
                    ScanState::ScanningTags => {
                        if p == PgnView::unset() {
                            lemma_scan_bounds(s, nxt, s.len() as int, p, ScanState::ScanningTags);
                        } else {
                            lemma_scan_bounds(s, nxt, s.len() as int, p, ScanState::SawBlankLine);
                        }
                        assert(false);
                    },
                    ScanState::SawBlankLine => {
                        lemma_scan_bounds(s, nxt, s.len() as int, p, ScanState::SawBlankLine);
                        assert(false);
                    },
                    ScanState::MovesTaken => {
                        assert(false);
                    },
                }
            } else {
                match st {
                    ScanState::ScanningTags => {
                        lemma_scan_bounds(
                            s,
                            nxt,
                            s.len() as int,
                            classify_spec(p, line),
                            ScanState::ScanningTags,
                        );
                        assert(false);
                    },
                    ScanState::SawBlankLine => {
                        lemma_scan_bounds(
                            s,
                            nxt,
                            s.len() as int,
                            (PgnView { moves: strip_spec(line), ..p }),
                            ScanState::MovesTaken,
                        );
                        assert(false);
                    },
                    ScanState::MovesTaken => {},
                }
            }
        } else {
            // both scans consume this line the same way
            if is_blank(line) {
                match st {
                    ScanState::ScanningTags => {
                        if p == PgnView::unset() {
                            lemma_window_agrees(s, nxt, max, p, ScanState::ScanningTags);
                        } else {
                            lemma_window_agrees(s, nxt, max, p, ScanState::SawBlankLine);
                        }
                    },
                    ScanState::SawBlankLine => {
                        lemma_window_agrees(s, nxt, max, p, ScanState::SawBlankLine);
                    },
                    ScanState::MovesTaken => {},
                }
            } else {
                match st {
                    ScanState::ScanningTags => {
                        lemma_window_agrees(
                            s,
                            nxt,
                            max,
                            classify_spec(p, line),
                            ScanState::ScanningTags,
                        );
                    },
                    ScanState::SawBlankLine => {
                        lemma_window_agrees(
                            s,
                            nxt,
                            max,
                            (PgnView { moves: strip_spec(line), ..p }),
                            ScanState::MovesTaken,
                        );
                    },
                    ScanState::MovesTaken => {},
                }
            }
        }
    }
}

/// Appending one more character never moves an earlier occurrence of
/// that character, and the appended character itself is found where
/// the search used to run out.
proof fn lemma_char_pos_push(s: Seq<char>, c: char, i: int)
    requires
        0 <= i <= s.len(),
    ensures
        char_pos(s.push(c), c, i) == char_pos(s, c, i),
    decreases s.len() - i,
{
    if i < s.len() && s[i] != c {
        lemma_char_pos_push(s, c, i + 1);
    }
}

/// The scan of `s` compared with the scan of `s` with one newline
/// appended: the yielded record is the same, except that a terminating
/// blank line may turn an all-empty record in progress into a yielded
/// all-empty record.
proof fn lemma_scan_trailing_newline(s: Seq<char>, off: int, p: PgnView, st: ScanState)
    requires
        0 <= off <= s.len(),
    ensures
        ({
            let t = s.push('\n');
            let u = scan_spec(s, off, s.len() as int, p, st);
            let w = scan_spec(t, off, t.len() as int, p, st);
            &&& (u.1 is Some ==> w.1 == u.1)
            &&& (w.1 is None ==> u.1 is None)
            &&& (match w.1 {
                Some(r) => r != PgnView::unset() ==> u.1 == w.1,
                None => true,
            })
        }),
    decreases s.len() - off,
{
    let t = s.push('\n');
    if off == s.len() {
        // the scan of `s` flushes here; the scan of `t` reads one
        // blank line and then flushes, or completes the record
        assert(t[off] == '\n');
        assert(char_pos(t, '\n', off) == off);
        let line = line_at(t, off);
        assert(line =~= Seq::<char>::empty());
        assert(is_blank(line));
        let nxt = off + 1;
        assert(nxt == t.len());
        match st {
            ScanState::ScanningTags => {
                if p == PgnView::unset() {
                    assert(scan_spec(t, off, t.len() as int, p, st) == scan_spec(
                        t,
                        nxt,
                        t.len() as int,
                        p,
                        ScanState::ScanningTags,
                    ));
                } else {
                    assert(scan_spec(t, off, t.len() as int, p, st) == scan_spec(
                        t,
                        nxt,
                        t.len() as int,
                        p,
                        ScanState::SawBlankLine,
                    ));
                }
            },
            ScanState::SawBlankLine => {
                assert(scan_spec(t, off, t.len() as int, p, st) == scan_spec(
                    t,
                    nxt,
                    t.len() as int,
                    p,
                    ScanState::SawBlankLine,
                ));
            },
            ScanState::MovesTaken => {
                assert(scan_spec(t, off, t.len() as int, p, st) == (nxt, Some(p)));
            },
        }
    } else {
        lemma_char_pos(s, '\n', off);
        lemma_char_pos_push(s, '\n', off);
        let e = char_pos(s, '\n', off);
        assert(t.subrange(off, e) =~= s.subrange(off, e));
        if e > off {
            assert(t.subrange(off, e - 1) =~= s.subrange(off, e - 1));
            assert(t[e - 1] == s[e - 1]);
        }
        let line = line_at(s, off);
        assert(line_at(t, off) == line);
        let nxt = if e < s.len() {
            e + 1
        } else {
            e
        };
        if e == s.len() {
            // the last line of `s` has no newline; after it, both
            // scans are at the end of their streams and flush alike
            let nxt_s = e;
            let nxt_t = e + 1;
            assert(nxt_t == t.len());
            assert(char_pos(t, '\n', off) == e);
            if is_blank(line) {
                match st {
                    ScanState::ScanningTags => {
                        if p == PgnView::unset() {
                            assert(scan_spec(s, off, s.len() as int, p, st) == scan_spec(
                                s,
                                nxt_s,
                                s.len() as int,
                                p,
                                ScanState::ScanningTags,
                            ));
                            assert(scan_spec(t, off, t.len() as int, p, st) == scan_spec(
                                t,
                                nxt_t,
                                t.len() as int,
                                p,
                                ScanState::ScanningTags,
                            ));
                        } else {
                            assert(scan_spec(s, off, s.len() as int, p, st) == scan_spec(
                                s,
                                nxt_s,
                                s.len() as int,
                                p,
                                ScanState::SawBlankLine,
                            ));
                            assert(scan_spec(t, off, t.len() as int, p, st) == scan_spec(
                                t,
                                nxt_t,
                                t.len() as int,
                                p,
                                ScanState::SawBlankLine,
                            ));
                        }
                    },
                    ScanState::SawBlankLine => {
                        assert(scan_spec(s, off, s.len() as int, p, st) == scan_spec(
                            s,
                            nxt_s,
                            s.len() as int,
                            p,
                            ScanState::SawBlankLine,
                        ));
                        assert(scan_spec(t, off, t.len() as int, p, st) == scan_spec(
                            t,
                            nxt_t,
                            t.len() as int,
                            p,
                            ScanState::SawBlankLine,
                        ));
                    },
                    ScanState::MovesTaken => {},
                }
            } else {
                match st {
                    ScanState::ScanningTags => {
                        assert(scan_spec(s, off, s.len() as int, p, st) == scan_spec(
                            s,
                            nxt_s,
                            s.len() as int,
                            classify_spec(p, line),
                            ScanState::ScanningTags,
                        ));
                        assert(scan_spec(t, off, t.len() as int, p, st) == scan_spec(
                            t,
                            nxt_t,
                            t.len() as int,
                            classify_spec(p, line),
                            ScanState::ScanningTags,
                        ));
                    },
                    ScanState::SawBlankLine => {
                        assert(scan_spec(s, off, s.len() as int, p, st) == scan_spec(
                            s,
                            nxt_s,
                            s.len() as int,
                            (PgnView { moves: strip_spec(line), ..p }),
                            ScanState::MovesTaken,
                        ));
                        assert(scan_spec(t, off, t.len() as int, p, st) == scan_spec(
                            t,
                            nxt_t,
                            t.len() as int,
                            (PgnView { moves: strip_spec(line), ..p }),
                            ScanState::MovesTaken,
                        ));
                    },
                    ScanState::MovesTaken => {},
                }
            }
        } else {
            if is_blank(line) {
                match st {
                    ScanState::ScanningTags => {
                        if p == PgnView::unset() {
                            lemma_scan_trailing_newline(s, nxt, p, ScanState::ScanningTags);
                        } else {
                            lemma_scan_trailing_newline(s, nxt, p, ScanState::SawBlankLine);
                        }
                    },
                    ScanState::SawBlankLine => {
                        lemma_scan_trailing_newline(s, nxt, p, ScanState::SawBlankLine);
                    },
                    ScanState::MovesTaken => {},
                }
            } else {
                match st {
                    ScanState::ScanningTags => {
                        lemma_scan_trailing_newline(
                            s,
                            nxt,
                            classify_spec(p, line),
                            ScanState::ScanningTags,
                        );
                    },
                    ScanState::SawBlankLine => {
                        lemma_scan_trailing_newline(
                            s,
                            nxt,
                            (PgnView { moves: strip_spec(line), ..p }),
                            ScanState::MovesTaken,
                        );
                    },
                    ScanState::MovesTaken => {},
                }
            }
        }
    }
}

/// Law: flush on end of stream.  An archive that ends right after its
/// last contributing line -- no terminating blank line -- yields the
/// same record that the properly terminated archive yields; a record
/// in progress at end of stream is never lost.  (The one exception is
/// the record with every field empty: the terminated archive may yield
/// it where the unterminated one yields nothing.)
pub proof fn lemma_flush_on_eof(s: Seq<char>, min: int)
    requires
        0 <= min <= s.len(),
    ensures
        ({
            let t = s.push('\n');
            let u = parse_spec(s, min, s.len() as int);
            let w = parse_spec(t, min, t.len() as int);
            &&& (u.1 is Some ==> w.1 == u.1)
            &&& (w.1 is None ==> u.1 is None)
            &&& (match w.1 {
                Some(r) => r != PgnView::unset() ==> u.1 == w.1,
                None => true,
            })
        }),
{
    lemma_scan_trailing_newline(s, min, PgnView::unset(), ScanState::ScanningTags);
}

/// Consumes one record's worth of lines from `input`, starting at
/// `min_offset` and not starting any line at or past `max_offset`.
/// Returns the offset at which a later call may resume, and the parsed
/// record; `None` means the scanned range contributed nothing.  A
/// partial record cut off by the window end or the end of the stream is
/// still returned.
pub fn parse_lines(input: &[char], min_offset: usize, max_offset: usize) -> (r: (
    usize,
    Option<PGN>,
))
    ensures
        ({
            let (o, rec) = parse_spec(input@, min_offset as int, max_offset as int);
            &&& r.0 as int == o
            &&& (match r.1 {
                Some(p) => rec == Some(p@),
                None => rec is None,
            })
        }),
        min_offset <= r.0,
{
    proof {
        lemma_scan_bounds(
            input@,
            min_offset as int,
            max_offset as int,
            PgnView::unset(),
            ScanState::ScanningTags,
        );
    }
    let n = input.len();
    let mut off = min_offset;
    let mut pgn = PGN::default();
    let mut state = ScanState::ScanningTags;
    while off < max_offset && off < n
        invariant
            off <= n || off == min_offset,
            n == input@.len(),
            scan_spec(input@, off as int, max_offset as int, pgn@, state) == parse_spec(
                input@,
                min_offset as int,
                max_offset as int,
            ),
            min_offset as int <= parse_spec(input@, min_offset as int, max_offset as int).0,
        decreases n - off,
    {
        let e = find_char(input, '\n', off);
        proof {
            lemma_char_pos(input@, '\n', off as int);
        }
        let nxt = if e < n {
            e + 1
        } else {
            e
        };
        // a trailing carriage return is not part of the line's content
        let ce = if e > off && input[e - 1] == '\r' {
            e - 1
        } else {
            e
        };
        proof {
            assert(input@.subrange(off as int, ce as int) == line_at(input@, off as int));
        }
        if is_blank_range(input, off, ce) {
            match state {
                ScanState::ScanningTags => {
                    if !(pgn == PGN::default()) {
                        state = ScanState::SawBlankLine;
                    }
                },
                ScanState::SawBlankLine => {},
                ScanState::MovesTaken => {
                    return (nxt, Some(pgn));
                },
            }
            off = nxt;
        } else {
            match state {
                ScanState::ScanningTags => {
                    classify_line(&mut pgn, input, off, ce);
                },
                ScanState::SawBlankLine => {
                    let t = strip_range(input, off, ce);
                    pgn.moves = chars_to_string(t.as_slice());
                    state = ScanState::MovesTaken;
                },
                ScanState::MovesTaken => {
                    return (off, Some(pgn));
                },
            }
            off = nxt;
        }
    }
    if pgn == PGN::default() {
        (off, None)
    } else {
        (off, Some(pgn))
    }
}

/// Opens a whole input for scanning: partitions it into windows and
/// returns the handler that owns the per-window iterators.
pub fn parse_file(input: String, thread_count: i8) -> (h: PGNHandler)
    ensures
        h.total_size == input@.len(),
        h.thread_count == thread_count,
        h.chunks@.len() == 1,
        h.chunks@[0].input@ == input@,
        h.chunks@[0].total_size == input@.len(),
        h.chunks@[0].min_offset == 0,
        h.chunks@[0].max_offset == input@.len(),
{
    PGNHandler::new(input, thread_count)
}

/// The tokens of a split line, joined back with single spaces.
pub open spec fn join_spaced(parts: Seq<Seq<char>>) -> Seq<char>
    decreases parts.len(),
{
    if parts.len() == 0 {
        Seq::empty()
    } else if parts.len() == 1 {
        parts[0]
    } else {
        join_spaced(parts.drop_last()) + seq![' '] + parts.last()
    }
}

/// A line split at every single space: the tokens, in order.  Two
/// adjacent spaces produce an empty token, as does a line that starts
/// or ends with a space; an empty line is one empty token.
pub open spec fn split_on_space(t: Seq<char>) -> Seq<Seq<char>>
    decreases t.len()
        via split_on_space_dec
{
    let p = char_pos(t, ' ', 0);
    if p == t.len() {
        seq![t]
    } else {
        seq![t.take(p)] + split_on_space(t.skip(p + 1))
    }
}

#[via_fn]
proof fn split_on_space_dec(t: Seq<char>) {
    lemma_char_pos(t, ' ', 0);
}

/// Joining one more token in front inserts one separating space.
proof fn lemma_join_cons(a: Seq<char>, r: Seq<Seq<char>>)
    requires
        r.len() >= 1,
    ensures
        join_spaced(seq![a] + r) == a + seq![' '] + join_spaced(r),
    decreases r.len(),
{
    let whole = seq![a] + r;
    assert(whole.len() == 1 + r.len());
    assert(whole.last() == r.last());
    assert(join_spaced(whole) == join_spaced(whole.drop_last()) + seq![' '] + whole.last());
    if r.len() == 1 {
        assert(whole.drop_last() =~= seq![a]);
        assert(join_spaced(seq![a]) == a);
        assert(join_spaced(r) == r[0]);
        assert(r.last() == r[0]);
        assert(join_spaced(whole) =~= a + seq![' '] + join_spaced(r));
    } else {
        lemma_join_cons(a, r.drop_last());
        assert(whole.drop_last() =~= seq![a] + r.drop_last());
        assert(join_spaced(whole.drop_last()) == a + seq![' '] + join_spaced(r.drop_last()));
        assert(join_spaced(r) == join_spaced(r.drop_last()) + seq![' '] + r.last());
        assert(join_spaced(whole) =~= a + seq![' '] + join_spaced(r));
    }
}

/// Splitting at single spaces and rejoining with single spaces is the
/// identity.
proof fn lemma_split_join(u: Seq<char>)
    ensures
        split_on_space(u).len() >= 1,
        join_spaced(split_on_space(u)) == u,
    decreases u.len(),
{
    lemma_char_pos(u, ' ', 0);
    let p = char_pos(u, ' ', 0);
    if p < u.len() {
        let rest = u.skip(p + 1);
        lemma_split_join(rest);
        lemma_join_cons(u.take(p), split_on_space(rest));
        assert(u.take(p) + seq![' '] + rest =~= u);
    }
}

/// Law: `get_value` and the parser's classification agree.  Splitting
/// a normalized line at single spaces makes its first token the tag
/// key, and rejoining every later token with single spaces reproduces
/// exactly the value that classification stores for that key.
pub proof fn lemma_get_value_matches_classification(t: Seq<char>)
    ensures
        split_on_space(t).len() >= 1,
        split_on_space(t)[0] == tag_key(t),
        join_spaced(split_on_space(t).skip(1)) == tag_value(t),
{
    lemma_char_pos(t, ' ', 0);
    let p = char_pos(t, ' ', 0);
    if p == t.len() {
        assert(t.take(p) =~= t);
        assert(split_on_space(t).skip(1) =~= Seq::<Seq<char>>::empty());
    } else {
        let rest = t.skip(p + 1);
        lemma_split_join(rest);
        assert(split_on_space(t)[0] == t.take(p));
        assert(split_on_space(t).skip(1) =~= split_on_space(rest));
    }
}

/// The value carried by a split tag line: every token after the key,
/// rejoined with single spaces.
pub fn get_value(split: Vec<&str>) -> (r: String)
    requires
        split.len() >= 1,
    ensures
        r@ == join_spaced(split.deep_view().skip(1)),
{
    let ghost parts = split.deep_view().skip(1);
    let mut r = String::new();
    let mut i: usize = 1;
    while i < split.len()
        invariant
            1 <= i <= split.len(),
            parts == split.deep_view().skip(1),
            split.deep_view().len() == split.len(),
            r@ == join_spaced(parts.subrange(0, i - 1)),
        decreases split.len() - i,
    {
        proof {
            reveal_strlit(" ");
            assert(parts.subrange(0, i as int).drop_last() =~= parts.subrange(0, i - 1));
            assert(parts.subrange(0, i as int).last() == split.deep_view()[i as int]);
        }
        if i > 1 {
            r.append(" ");
            proof {
                assert(" "@ =~= seq![' ']);
            }
        }
        r.append(split[i]);
        i += 1;
    }
    proof {
        assert(parts.subrange(0, split.len() - 1) =~= parts);
    }
    r
}

} // verus!
