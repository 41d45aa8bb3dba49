use vstd::prelude::*;

verus! {

use crate::errors::{MoveError, SquareParsingError};
use crate::geometry::{file_of, rank_of};

/// Splits a flat square index into its (file, rank) pair.
pub fn square_to_coods(square: u16) -> (r: (u16, u16))
    ensures
        r.0 as int == file_of(square as int),
        r.1 as int == rank_of(square as int),
{
    let rank = square / 8;
    let file = square % 8;
    (file, rank)
}

/// The separators that split a record into fields.
pub open spec fn is_ws_char(c: char) -> bool {
    c == ' ' || c == '\t' || c == '\n' || c == '\r'
}

/// Index of the first non-separator character at or after i.
pub open spec fn spec_skip_ws(s: Seq<char>, i: int) -> int
    decreases s.len() - i,
{
    if i < 0 || i >= s.len() {
        s.len() as int
    } else if is_ws_char(s[i]) {
        spec_skip_ws(s, i + 1)
    } else {
        i
    }
}

/// Index of the first separator at or after i.
pub open spec fn spec_token_end(s: Seq<char>, i: int) -> int
    decreases s.len() - i,
{
    if i < 0 || i >= s.len() {
        s.len() as int
    } else if is_ws_char(s[i]) {
        i
    } else {
        spec_token_end(s, i + 1)
    }
}

/// Is the character one of the field separators?
pub fn is_ws(c: char) -> (r: bool)
    ensures
        r == is_ws_char(c),
{
    c == ' ' || c == '\t' || c == '\n' || c == '\r'
}

/// Advances past separators.
pub fn skip_ws(cs: &Vec<char>, i: usize) -> (r: usize)
    requires
        i <= cs@.len(),
    ensures
        r as int == spec_skip_ws(cs@, i as int),
        i <= r <= cs@.len(),
    decreases cs@.len() - i,
{
    if i == cs.len() {
        i
    } else if is_ws(cs[i]) {
        skip_ws(cs, i + 1)
    } else {
        i
    }
}

/// Advances to the end of the current field.
pub fn token_end(cs: &Vec<char>, i: usize) -> (r: usize)
    requires
        i <= cs@.len(),
    ensures
        r as int == spec_token_end(cs@, i as int),
        i <= r <= cs@.len(),
    decreases cs@.len() - i,
{
    if i == cs.len() {
        i
    } else if is_ws(cs[i]) {
        i
    } else {
        token_end(cs, i + 1)
    }
}

/// A nonempty run of decimal digits.
pub open spec fn spec_all_digits(s: Seq<char>, i: int, e: int) -> bool {
    &&& i < e
    &&& forall|j: int| i <= j < e ==> 48 <= (#[trigger] s[j]) as int <= 57
}

/// Checks for a nonempty run of decimal digits.
pub fn all_digits(cs: &Vec<char>, i: usize, e: usize) -> (r: bool)
    requires
        i <= e <= cs@.len(),
    ensures
        r == spec_all_digits(cs@, i as int, e as int),
{
    if i == e {
        return false;
    }
    let mut j = i;
    while j < e
        invariant
            i <= j <= e <= cs@.len(),
            forall|x: int| i <= x < j as int ==> 48 <= (#[trigger] cs@[x]) as int <= 57,
        decreases e - j,
    {
        let c = cs[j];
        if !(c >= '0' && c <= '9') {
            proof {
                assert(!(48 <= cs@[j as int] as int <= 57));
            }
            return false;
        }
        j += 1;
    }
    true
}

/// Collects a string's characters for index-based scanning.
pub fn chars_of(s: &str) -> (cs: Vec<char>)
    ensures
        cs@ == s@,
{
    let n = s.unicode_len();
    let mut cs: Vec<char> = Vec::new();
    let mut i: usize = 0;
    while i < n
        invariant
            i <= n,
            n as int == s@.len(),
            cs@ == s@.subrange(0, i as int),
        decreases n - i,
    {
        let c = s.get_char(i);
        cs.push(c);
        proof {
            assert(cs@ =~= s@.subrange(0, i as int + 1));
        }
        i += 1;
    }
    proof {
        assert(cs@ =~= s@);
    }
    cs
}

/// The letter of a board file.
pub open spec fn spec_file_letter(f: int) -> char {
    if f == 0 {
        'a'
    } else if f == 1 {
        'b'
    } else if f == 2 {
        'c'
    } else if f == 3 {
        'd'
    } else if f == 4 {
        'e'
    } else if f == 5 {
        'f'
    } else if f == 6 {
        'g'
    } else {
        'h'
    }
}

/// The outcome of reading a square written as a file letter and a rank
/// digit: the flat index, or the first offending character.
pub open spec fn spec_string_to_square(s: Seq<char>) -> Result<u8, SquareParsingError> {
    if s.len() < 2 {
        Err(SquareParsingError::NotEnoughParts)
    } else {
        let fc = s[0];
        let rc = s[1];
        if !(97 <= fc as int <= 104) {
            Err(SquareParsingError::BadFile(fc))
        } else if !(49 <= rc as int <= 56) {
            Err(SquareParsingError::BadRank(rc))
        } else {
            Ok((((rc as int - 49) * 8) + (fc as int - 97)) as u8)
        }
    }
}

/// Reads a square written as a file letter and a rank digit; characters
/// past the first two are ignored.
pub fn string_to_square(string: &str) -> (r: Result<u8, SquareParsingError>)
    ensures
        r == spec_string_to_square(string@),
{
    let cs = chars_of(string);
    if cs.len() < 2 {
        return Err(SquareParsingError::NotEnoughParts);
    }
    let fc = cs[0];
    let rc = cs[1];
    let file = match get_file_number(fc) {
        Ok(f) => f,
        Err(err) => {
            return Err(err);
        },
    };
    if rc >= '1' && rc <= '8' {
        let rank: u8 = match rc {
            '1' => 0,
            '2' => 1,
            '3' => 2,
            '4' => 3,
            '5' => 4,
            '6' => 5,
            '7' => 6,
            _ => 7,
        };
        Ok(rank * 8 + file as u8)
    } else {
        Err(SquareParsingError::BadRank(rc))
    }
}

/// The letter of a board file, or an error beyond the h-file.
pub fn get_file_letter(file: u16) -> (r: Result<char, MoveError>)
    ensures
        file < 8 ==> r == Ok::<char, MoveError>(spec_file_letter(file as int)),
        file >= 8 ==> r == Err::<char, MoveError>(MoveError::InvalidFile),
{
    match file {
        0 => Ok('a'),
        1 => Ok('b'),
        2 => Ok('c'),
        3 => Ok('d'),
        4 => Ok('e'),
        5 => Ok('f'),
        6 => Ok('g'),
        7 => Ok('h'),
        _ => Err(MoveError::InvalidFile),
    }
}

/// The index of a board file letter, or an error off the a..h range.
pub fn get_file_number(file: char) -> (r: Result<u16, SquareParsingError>)
    ensures
        97 <= file as int <= 104 ==> r == Ok::<u16, SquareParsingError>(
            (file as int - 97) as u16,
        ),
        !(97 <= file as int <= 104) ==> r == Err::<u16, SquareParsingError>(
            SquareParsingError::BadFile(file),
        ),
{
    match file {
        'a' => Ok(0),
        'b' => Ok(1),
        'c' => Ok(2),
        'd' => Ok(3),
        'e' => Ok(4),
        'f' => Ok(5),
        'g' => Ok(6),
        'h' => Ok(7),
        _ => Err(SquareParsingError::BadFile(file)),
    }
}

/// Skipping separators never moves backwards nor past the end.
pub proof fn lemma_skip_ws_bounds(s: Seq<char>, i: int)
    requires
        0 <= i <= s.len(),
    ensures
        i <= spec_skip_ws(s, i) <= s.len(),
        spec_skip_ws(s, i) < s.len() ==> !is_ws_char(s[spec_skip_ws(s, i)]),
    decreases s.len() - i,
{
    if i < s.len() && is_ws_char(s[i]) {
        lemma_skip_ws_bounds(s, i + 1);
    }
}

/// Scanning a field never moves backwards nor past the end, and moves at
/// least one step off a non-separator.
pub proof fn lemma_token_end_bounds(s: Seq<char>, i: int)
    requires
        0 <= i <= s.len(),
    ensures
        i <= spec_token_end(s, i) <= s.len(),
        i < s.len() && !is_ws_char(s[i]) ==> spec_token_end(s, i) > i,
    decreases s.len() - i,
{
    if i < s.len() && !is_ws_char(s[i]) {
        lemma_token_end_bounds(s, i + 1);
    }
}

/// The index of the first plain blank at or after i.
pub open spec fn spec_first_space(s: Seq<char>, i: int) -> int
    decreases s.len() - i,
{
    if i < 0 || i >= s.len() {
        s.len() as int
    } else if s[i] == ' ' {
        i
    } else {
        spec_first_space(s, i + 1)
    }
}

/// Finds the first plain blank at or after i.
pub fn first_space(cs: &Vec<char>, i: usize) -> (r: usize)
    requires
        i <= cs@.len(),
    ensures
        r as int == spec_first_space(cs@, i as int),
        i <= r <= cs@.len(),
    decreases cs@.len() - i,
{
    if i == cs.len() {
        i
    } else if cs[i] == ' ' {
        i
    } else {
        first_space(cs, i + 1)
    }
}

/// The end of a text once trailing separators are dropped.
pub open spec fn spec_rtrim(s: Seq<char>, e: int) -> int
    decreases e,
{
    if e <= 0 {
        0
    } else if is_ws_char(s[e - 1]) {
        spec_rtrim(s, e - 1)
    } else {
        e
    }
}

/// A text with its leading and trailing separators dropped.
pub open spec fn spec_trim(s: Seq<char>) -> Seq<char> {
    let a = spec_skip_ws(s, 0);
    let b = spec_rtrim(s, s.len() as int);
    if a >= b {
        Seq::empty()
    } else {
        s.subrange(a, b)
    }
}

/// Finds the end of a text once trailing separators are dropped.
pub fn rtrim(cs: &Vec<char>, e: usize) -> (r: usize)
    requires
        e <= cs@.len(),
    ensures
        r as int == spec_rtrim(cs@, e as int),
        r <= e,
    decreases e,
{
    if e == 0 {
        0
    } else if is_ws(cs[e - 1]) {
        rtrim(cs, e - 1)
    } else {
        e
    }
}

/// The separator-free fields of the text from index i on.
pub open spec fn spec_tokens(s: Seq<char>, i: int) -> Seq<Seq<char>>
    decreases s.len() - i,
    when 0 <= i <= s.len()
    via spec_tokens_decreases
{
    let a = spec_skip_ws(s, i);
    if a >= s.len() {
        Seq::empty()
    } else {
        seq![s.subrange(a, spec_token_end(s, a))] + spec_tokens(s, spec_token_end(s, a))
    }
}

#[via_fn]
proof fn spec_tokens_decreases(s: Seq<char>, i: int) {
    lemma_skip_ws_bounds(s, i);
    let a = spec_skip_ws(s, i);
    if a < s.len() {
        lemma_token_end_bounds(s, a);
    }
}

} // verus!
