//! The textual vocabulary the surrounding notation layer exchanges with the
//! core: piece letters, file and rank letters, and algebraic square names.
//! Nothing here parses or renders whole board descriptions; these are the
//! per-piece and per-square conversions only.

use vstd::prelude::*;
use vstd::string::StringExecFns;
use vstd::string::StrSliceExecFns;
use crate::geometry::{Sq, sq_ok, file_of, rank_of, sq_from, sq_to_filerank, fr_to_sq};
use crate::board::{Piece, piece_ok};

verus! {

/// An algebraic square name, split into its file letter and rank digit.
pub struct AlgSq {
    pub file: String,
    pub rank: String,
}

pub open spec fn spec_file_char(f: int) -> char {
    if f == 0 { 'a' } else if f == 1 { 'b' } else if f == 2 { 'c' } else if f == 3 { 'd' }
    else if f == 4 { 'e' } else if f == 5 { 'f' } else if f == 6 { 'g' } else { 'h' }
}

pub open spec fn spec_rank_char(r: int) -> char {
    if r == 0 { '1' } else if r == 1 { '2' } else if r == 2 { '3' } else if r == 3 { '4' }
    else if r == 4 { '5' } else if r == 5 { '6' } else if r == 6 { '7' } else { '8' }
}

/// The file index of a file letter, or -1 for any other character.
pub open spec fn spec_char_file(c: char) -> int {
    if c == 'a' { 0 } else if c == 'b' { 1 } else if c == 'c' { 2 } else if c == 'd' { 3 }
    else if c == 'e' { 4 } else if c == 'f' { 5 } else if c == 'g' { 6 } else if c == 'h' { 7 }
    else { -1 }
}

/// The rank index of a rank digit, or -1 for any other character.
pub open spec fn spec_char_rank(c: char) -> int {
    if c == '1' { 0 } else if c == '2' { 1 } else if c == '3' { 2 } else if c == '4' { 3 }
    else if c == '5' { 4 } else if c == '6' { 5 } else if c == '7' { 6 } else if c == '8' { 7 }
    else { -1 }
}

/// The piece code a letter denotes, or 0 for any other character.
pub open spec fn spec_char_piece(c: char) -> int {
    if c == 'P' { 1 } else if c == 'R' { 2 } else if c == 'N' { 3 } else if c == 'B' { 4 }
    else if c == 'Q' { 5 } else if c == 'K' { 6 } else if c == 'p' { -1 } else if c == 'r' { -2 }
    else if c == 'n' { -3 } else if c == 'b' { -4 } else if c == 'q' { -5 } else if c == 'k' { -6 }
    else { 0 }
}

/// The letter denoting a piece code (upper case for one side, lower for the
/// other).
pub open spec fn spec_piece_char(p: int) -> char {
    if p == 1 { 'P' } else if p == 2 { 'R' } else if p == 3 { 'N' } else if p == 4 { 'B' }
    else if p == 5 { 'Q' } else if p == 6 { 'K' } else if p == -1 { 'p' } else if p == -2 { 'r' }
    else if p == -3 { 'n' } else if p == -4 { 'b' } else if p == -5 { 'q' } else { 'k' }
}

/// The piece code a board-description letter denotes.
pub fn char_to_piece(c: char) -> (p: Piece)
    requires
        spec_char_piece(c) != 0,
    ensures
        p as int == spec_char_piece(c),
{
    match c {
        'R' => 2,
        'N' => 3,
        'B' => 4,
        'Q' => 5,
        'K' => 6,
        'P' => 1,
        'r' => -2,
        'n' => -3,
        'b' => -4,
        'q' => -5,
        'k' => -6,
        _ => -1,
    }
}

/// The board-description letter of a piece code.
pub fn piece_to_char(piece: Piece) -> (c: char)
    requires
        piece_ok(piece as int),
        piece != 0,
    ensures
        c == spec_piece_char(piece as int),
{
    match piece {
        2 => 'R',
        3 => 'N',
        4 => 'B',
        5 => 'Q',
        6 => 'K',
        1 => 'P',
        -2 => 'r',
        -3 => 'n',
        -4 => 'b',
        -5 => 'q',
        -6 => 'k',
        _ => 'p',
    }
}

/// The file letter of a file index.
pub fn f_to_string(f: i8) -> (r: String)
    requires
        0 <= f < 8,
    ensures
        r@.len() == 1,
        r@[0] == spec_file_char(f as int),
{
    let s: &str = match f {
        0 => "a",
        1 => "b",
        2 => "c",
        3 => "d",
        4 => "e",
        5 => "f",
        6 => "g",
        _ => "h",
    };
    proof {
        reveal_strlit("a");
        reveal_strlit("b");
        reveal_strlit("c");
        reveal_strlit("d");
        reveal_strlit("e");
        reveal_strlit("f");
        reveal_strlit("g");
        reveal_strlit("h");
    }
    String::from_str(s)
}

/// The rank digit of a rank index.
pub fn r_to_string(r: i8) -> (s: String)
    requires
        0 <= r < 8,
    ensures
        s@.len() == 1,
        s@[0] == spec_rank_char(r as int),
{
    let t: &str = match r {
        0 => "1",
        1 => "2",
        2 => "3",
        3 => "4",
        4 => "5",
        5 => "6",
        6 => "7",
        _ => "8",
    };
    proof {
        reveal_strlit("1");
        reveal_strlit("2");
        reveal_strlit("3");
        reveal_strlit("4");
        reveal_strlit("5");
        reveal_strlit("6");
        reveal_strlit("7");
        reveal_strlit("8");
    }
    String::from_str(t)
}

/// The algebraic name of a square, split into file letter and rank digit.
pub fn sq_to_algsq(sq: Sq) -> (r: AlgSq)
    requires
        sq_ok(sq as int),
    ensures
        r.file@.len() == 1,
        r.file@[0] == spec_file_char(file_of(sq as int)),
        r.rank@.len() == 1,
        r.rank@[0] == spec_rank_char(rank_of(sq as int)),
{
    let filerank = sq_to_filerank(sq);
    AlgSq { file: f_to_string(filerank.f), rank: r_to_string(filerank.r) }
}

/// The two-character algebraic name of a square.
pub fn sq_to_algstring(sq: Sq) -> (r: String)
    requires
        sq_ok(sq as int),
    ensures
        r@.len() == 2,
        r@[0] == spec_file_char(file_of(sq as int)),
        r@[1] == spec_rank_char(rank_of(sq as int)),
{
    let algsq = sq_to_algsq(sq);
    algsq.file.concat(algsq.rank.as_str())
}

/// The square an algebraic name denotes.
pub fn algsq_to_sq(algsq: AlgSq) -> (sq: Sq)
    requires
        algsq.file@.len() == 1,
        spec_char_file(algsq.file@[0]) >= 0,
        algsq.rank@.len() == 1,
        spec_char_rank(algsq.rank@[0]) >= 0,
    ensures
        sq as int == sq_from(spec_char_file(algsq.file@[0]), spec_char_rank(algsq.rank@[0])),
        sq_ok(sq as int),
{
    let fc = algsq.file.as_str().get_char(0);
    let rc = algsq.rank.as_str().get_char(0);
    let f: i8 = match fc {
        'a' => 0,
        'b' => 1,
        'c' => 2,
        'd' => 3,
        'e' => 4,
        'f' => 5,
        'g' => 6,
        _ => 7,
    };
    let r: i8 = match rc {
        '1' => 0,
        '2' => 1,
        '3' => 2,
        '4' => 3,
        '5' => 4,
        '6' => 5,
        '7' => 6,
        _ => 7,
    };
    fr_to_sq(f, r)
}

} // verus!
