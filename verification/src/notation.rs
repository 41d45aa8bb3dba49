use vstd::prelude::*;

verus! {

use crate::errors::MoveError;
use crate::geometry::{file_of, rank_of};
use crate::moves;
use crate::moves::{spec_departure, spec_is_en_passant, spec_target, Move};
use crate::utils::spec_file_letter;
use vstd::string::{StrSliceExecFns, StringExecFns};

// Human move notation: a move is written as its departure and target
// squares ("e2e4"), with a trailing star for an en-passant capture, and
// the two castles are written in the usual O-O forms.

/// The digit of a rank number between 1 and 8.
pub open spec fn spec_rank_digit(n: int) -> char {
    if n == 1 {
        '1'
    } else if n == 2 {
        '2'
    } else if n == 3 {
        '3'
    } else if n == 4 {
        '4'
    } else if n == 5 {
        '5'
    } else if n == 6 {
        '6'
    } else if n == 7 {
        '7'
    } else {
        '8'
    }
}

/// The text a move word is shown as.
pub open spec fn spec_repr_move(m: u16) -> Seq<char> {
    if moves::spec_is_short_castling(m) {
        "O-O"@
    } else if moves::spec_is_long_castling(m) {
        "O-O-O"@
    } else {
        let d = spec_departure(m);
        let t = spec_target(m);
        seq![
            spec_file_letter(file_of(d)),
            spec_rank_digit(rank_of(d) + 1),
            spec_file_letter(file_of(t)),
            spec_rank_digit(rank_of(t) + 1),
        ] + if spec_is_en_passant(m) {
            "*"@
        } else {
            ""@
        }
    }
}

/// The move word a text names: a castle form, or a departure square, a
/// target square and an optional en-passant star; file errors are
/// reported before rank errors, and characters past the star are ignored.
pub open spec fn spec_process_move(s: Seq<char>) -> Result<u16, MoveError> {
    if s == "o-o"@ || s == "O-O"@ || s == "0-0"@ {
        Ok(moves::SHORT_CASTLE)
    } else if s == "o-o-o"@ || s == "O-O-O"@ || s == "0-0-0"@ {
        Ok(moves::LONG_CASTLE)
    } else if !(s.len() >= 1 && 97 <= s[0] as int <= 104) {
        Err(MoveError::InvalidFile)
    } else if !(s.len() >= 3 && 97 <= s[2] as int <= 104) {
        Err(MoveError::InvalidFile)
    } else if !(s.len() >= 2 && 49 <= s[1] as int <= 56) {
        Err(MoveError::InvalidRank)
    } else if !(s.len() >= 4 && 49 <= s[3] as int <= 56) {
        Err(MoveError::InvalidRank)
    } else {
        let d = (s[1] as int - 49) * 8 + (s[0] as int - 97);
        let t = (s[3] as int - 49) * 8 + (s[2] as int - 97);
        let f: int = if s.len() >= 5 && s[4] == '*' {
            1
        } else {
            0
        };
        Ok(moves::spec_encode(d, t, f))
    }
}

/// The one-letter string of a board file.
fn file_str(f: u16) -> (r: &'static str)
    requires
        f < 8,
    ensures
        r@ == seq![spec_file_letter(f as int)],
{
    proof {
        reveal_strlit("a");
        reveal_strlit("b");
        reveal_strlit("c");
        reveal_strlit("d");
        reveal_strlit("e");
        reveal_strlit("f");
        reveal_strlit("g");
        reveal_strlit("h");
    }
    match f {
        0 => "a",
        1 => "b",
        2 => "c",
        3 => "d",
        4 => "e",
        5 => "f",
        6 => "g",
        _ => "h",
    }
}

/// The one-digit string of a rank number between 1 and 8.
fn rank_str(n: u16) -> (r: &'static str)
    requires
        1 <= n <= 8,
    ensures
        r@ == seq![spec_rank_digit(n as int)],
{
    proof {
        reveal_strlit("1");
        reveal_strlit("2");
        reveal_strlit("3");
        reveal_strlit("4");
        reveal_strlit("5");
        reveal_strlit("6");
        reveal_strlit("7");
        reveal_strlit("8");
    }
    match n {
        1 => "1",
        2 => "2",
        3 => "3",
        4 => "4",
        5 => "5",
        6 => "6",
        7 => "7",
        _ => "8",
    }
}

/// Shows a move word in human notation.
pub fn repr_move(v_move: u16) -> (r: String)
    ensures
        r@ == spec_repr_move(v_move),
{
    if Move::is_short_castling(v_move) {
        let r = String::from_str("O-O");
        return r;
    }
    if Move::is_long_castling(v_move) {
        let r = String::from_str("O-O-O");
        return r;
    }

    let departure_square = Move::departure_square(v_move) as u16;
    let target_square = Move::target_square(v_move) as u16;
    proof {
        moves::lemma_decode_encode(v_move);
    }
    let (departure_file, departure_rank) = crate::utils::square_to_coods(departure_square);
    let (target_file, target_rank) = crate::utils::square_to_coods(target_square);

    let mut r = String::new();
    r.append(file_str(departure_file));
    r.append(rank_str(departure_rank + 1));
    r.append(file_str(target_file));
    r.append(rank_str(target_rank + 1));
    if Move::is_en_passant(v_move) {
        r.append("*");
    }
    proof {
        reveal_strlit("*");
        reveal_strlit("");
        assert(r@ =~= spec_repr_move(v_move));
    }
    r
}

/// Compares a character vector against a short literal.
fn chars_eq(cs: &Vec<char>, lit: &str) -> (r: bool)
    ensures
        r == (cs@ == lit@),
{
    let n = lit.unicode_len();
    if cs.len() != n {
        proof {
            assert(cs@ != lit@);
        }
        return false;
    }
    let mut i: usize = 0;
    while i < n
        invariant
            i <= n,
            n as int == lit@.len(),
            cs@.len() == n as int,
            forall|j: int| 0 <= j < i as int ==> cs@[j] == lit@[j],
        decreases n - i,
    {
        if cs[i] != lit.get_char(i) {
            proof {
                assert(cs@[i as int] != lit@[i as int]);
            }
            return false;
        }
        i += 1;
    }
    proof {
        assert(cs@ =~= lit@);
    }
    true
}

/// Reads a move written in human notation.
pub fn process_move(string: &str) -> (r: Result<u16, MoveError>)
    ensures
        r == spec_process_move(string@),
{
    let cs = crate::utils::chars_of(string);
    if chars_eq(&cs, "o-o") || chars_eq(&cs, "O-O") || chars_eq(&cs, "0-0") {
        return Ok(moves::SHORT_CASTLE);
    }
    if chars_eq(&cs, "o-o-o") || chars_eq(&cs, "O-O-O") || chars_eq(&cs, "0-0-0") {
        return Ok(moves::LONG_CASTLE);
    }

    if !(cs.len() >= 1 && cs[0] >= 'a' && cs[0] <= 'h') {
        return Err(MoveError::InvalidFile);
    }
    if !(cs.len() >= 3 && cs[2] >= 'a' && cs[2] <= 'h') {
        return Err(MoveError::InvalidFile);
    }
    if !(cs.len() >= 2 && cs[1] >= '1' && cs[1] <= '8') {
        return Err(MoveError::InvalidRank);
    }
    if !(cs.len() >= 4 && cs[3] >= '1' && cs[3] <= '8') {
        return Err(MoveError::InvalidRank);
    }

    let departure_file = match crate::utils::get_file_number(cs[0]) {
        Ok(f) => f,
        Err(_) => {
            return Err(MoveError::InvalidFile);
        },
    };
    let target_file = match crate::utils::get_file_number(cs[2]) {
        Ok(f) => f,
        Err(_) => {
            return Err(MoveError::InvalidFile);
        },
    };
    let departure_rank = rank_of_digit(cs[1]);
    let target_rank = rank_of_digit(cs[3]);

    let departure_square = departure_rank * 8 + departure_file;
    let target_square = target_rank * 8 + target_file;

    let base = Move::new(departure_square, target_square);
    proof {
        moves::lemma_encode_decode(departure_square as int, target_square as int, 0);
        moves::lemma_encode_decode(departure_square as int, target_square as int, 1);
        moves::lemma_or_flag(base, moves::EN_PASSANT);
    }
    if cs.len() >= 5 && cs[4] == '*' {
        Ok(base | moves::EN_PASSANT)
    } else {
        Ok(base)
    }
}

/// The zero-based rank a digit between '1' and '8' names.
fn rank_of_digit(c: char) -> (n: u16)
    requires
        49 <= c as int <= 56,
    ensures
        n as int == c as int - 49,
{
    match c {
        '1' => 0,
        '2' => 1,
        '3' => 2,
        '4' => 3,
        '5' => 4,
        '6' => 5,
        '7' => 6,
        _ => 7,
    }
}

/// A command line split into its command word and arguments: the text up
/// to the first plain blank is the command, trimmed of separators; when a
/// blank exists, the rest splits into separator-free argument fields.
pub open spec fn spec_process_line(s: Seq<char>) -> (Seq<char>, Option<Seq<Seq<char>>>) {
    let p = crate::utils::spec_first_space(s, 0);
    if p == s.len() {
        (crate::utils::spec_trim(s), None)
    } else {
        (
            crate::utils::spec_trim(s.subrange(0, p)),
            Some(crate::utils::spec_tokens(s, p + 1)),
        )
    }
}

/// Trims the separators off both ends of a text.
fn trim_str(s: &str) -> (r: String)
    ensures
        r@ == crate::utils::spec_trim(s@),
{
    let cs = crate::utils::chars_of(s);
    let a = crate::utils::skip_ws(&cs, 0);
    let b = crate::utils::rtrim(&cs, cs.len());
    if a >= b {
        String::new()
    } else {
        s.substring_char(a, b).to_owned()
    }
}

/// Collects the separator-free fields of the text from index i on.
fn collect_tokens(s: &str, cs: &Vec<char>, i: usize) -> (v: Vec<String>)
    requires
        cs@ == s@,
        i <= s@.len(),
    ensures
        v@.len() == crate::utils::spec_tokens(s@, i as int).len(),
        forall|j: int|
            0 <= j < v@.len() ==> (#[trigger] v@[j])@ == crate::utils::spec_tokens(
                s@,
                i as int,
            )[j],
    decreases s@.len() - i,
{
    let a = crate::utils::skip_ws(cs, i);
    if a == cs.len() {
        Vec::new()
    } else {
        let e = crate::utils::token_end(cs, a);
        proof {
            crate::utils::lemma_skip_ws_bounds(s@, i as int);
            crate::utils::lemma_token_end_bounds(s@, a as int);
        }
        let token = s.substring_char(a, e).to_owned();
        let mut v = Vec::new();
        v.push(token);
        let mut rest = collect_tokens(s, cs, e);
        v.append(&mut rest);
        proof {
            assert(crate::utils::spec_tokens(s@, i as int) == seq![
                s@.subrange(a as int, e as int),
            ] + crate::utils::spec_tokens(s@, e as int));
        }
        v
    }
}

/// Splits a command line into its command word and arguments, as the
/// console front end hands them on.
pub fn process_line(line: String) -> (r: (String, Option<Vec<String>>))
    ensures
        r.0@ == spec_process_line(line@).0,
        match r.1 {
            None => spec_process_line(line@).1 is None,
            Some(v) => {
                &&& spec_process_line(line@).1 matches Some(ts)
                &&& v@.len() == ts.len()
                &&& forall|j: int| 0 <= j < ts.len() ==> (#[trigger] v@[j])@ == ts[j]
            },
        },
{
    let s = line.as_str();
    let cs = crate::utils::chars_of(s);
    let p = crate::utils::first_space(&cs, 0);
    if p == cs.len() {
        let command = trim_str(s);
        (command, None)
    } else {
        let head = s.substring_char(0, p);
        let command = trim_str(head);
        let args = collect_tokens(s, &cs, p + 1);
        (command, Some(args))
    }
}

} // verus!
