//! The position value type: a 64-square placement of signed piece codes
//! (magnitudes 1 to 6 encode pawn, rook, knight, bishop, queen, king; the
//! sign is the colour; 0 is an empty square), the side to move, castling rights,
//! an en-passant target, move counters, and write-once derived fields.

use vstd::prelude::*;
use crate::geometry::{Sq, sq_ok};

verus! {

pub type Piece = i8;
pub type Color = i8;
pub type Ply = u32;
pub type Val = i64;

pub const COLOR_WHITE: Color = 1;
pub const COLOR_BLACK: Color = -1;
pub const COLOR_EMPTY: Color = 0;

pub const P_BASE: Piece = 1;
pub const R_BASE: Piece = 2;
pub const N_BASE: Piece = 3;
pub const B_BASE: Piece = 4;
pub const Q_BASE: Piece = 5;
pub const K_BASE: Piece = 6;

pub const EMPTY: Piece = 0;
pub const P_WHITE: Piece = P_BASE;
pub const R_WHITE: Piece = R_BASE;
pub const N_WHITE: Piece = N_BASE;
pub const B_WHITE: Piece = B_BASE;
pub const Q_WHITE: Piece = Q_BASE;
pub const K_WHITE: Piece = K_BASE;
pub const P_BLACK: Piece = -P_BASE;
pub const R_BLACK: Piece = -R_BASE;
pub const N_BLACK: Piece = -N_BASE;
pub const B_BLACK: Piece = -B_BASE;
pub const Q_BLACK: Piece = -Q_BASE;
pub const K_BLACK: Piece = -K_BASE;

/// A candidate or legal move: the piece moved, its origin and destination,
/// and, once attached, the position the move leads to.
pub struct Move {
    pub piece: Piece,
    pub from: Sq,
    pub to: Sq,
    pub leads_to: Option<Position>,
}

/// One entry of a single search expansion: a candidate move, the static
/// value attached to it, whether it was recognised as mating, and the
/// position it leads to.
pub struct MoveVal {
    pub mov: Option<Move>,
    pub val: Val,
    pub checkmate: bool,
    pub leads_to: Option<Position>,
}

/// A board position.  `placement` always holds 64 piece codes.  The derived
/// fields `moves`, `is_king_in_check`, `is_king_in_checkmate` and
/// `is_king_in_stalemate` are memo cells: each starts as `None` and is
/// written exactly once by the corresponding `set_...` operation.
pub struct Position {
    pub placement: Vec<Piece>,
    pub active_color: Color,
    pub castling: [bool; 4],
    pub en_passant: Option<Sq>,
    pub halfmoves: i32,
    pub fullmoves: i32,
    pub moves: Option<Vec<Move>>,
    pub is_king_in_check: Option<bool>,
    pub is_king_in_checkmate: Option<bool>,
    pub is_king_in_stalemate: Option<bool>,
}

/// A piece code is 0 (empty) or has magnitude 1 to 6.
pub open spec fn piece_ok(p: int) -> bool {
    -6 <= p <= 6
}

pub open spec fn board_ok(b: Seq<i8>) -> bool {
    b.len() == 64 && forall|i: int| 0 <= i < 64 ==> piece_ok(#[trigger] b[i] as int)
}

pub open spec fn color_ok(c: int) -> bool {
    c == 1 || c == -1
}

/// The structural invariant of every position this library works on.
pub open spec fn position_wf(p: Position) -> bool {
    board_ok(p.placement@) && color_ok(p.active_color as int)
}

pub open spec fn spec_piece_color(p: int) -> int {
    if p > 0 {
        1
    } else if p < 0 {
        -1
    } else {
        0
    }
}

pub open spec fn spec_piece_base(p: int) -> int {
    if p >= 0 {
        p
    } else {
        -p
    }
}

/// All fields of `b` except the placement equal those of `a`.
pub open spec fn same_except_placement(a: Position, b: Position) -> bool {
    &&& b.active_color == a.active_color
    &&& b.castling == a.castling
    &&& b.en_passant == a.en_passant
    &&& b.halfmoves == a.halfmoves
    &&& b.fullmoves == a.fullmoves
    &&& b.moves == a.moves
    &&& b.is_king_in_check == a.is_king_in_check
    &&& b.is_king_in_checkmate == a.is_king_in_checkmate
    &&& b.is_king_in_stalemate == a.is_king_in_stalemate
}

pub fn empty_position() -> (p: Position)
    ensures
        position_wf(p),
        p.placement@.len() == 64,
        forall|i: int| 0 <= i < 64 ==> p.placement@[i] == 0,
        p.active_color == COLOR_WHITE,
        forall|i: int| 0 <= i < 4 ==> !(#[trigger] p.castling@[i]),
        p.en_passant is None,
        p.halfmoves == 0,
        p.fullmoves == 0,
        p.moves is None,
        p.is_king_in_check is None,
        p.is_king_in_checkmate is None,
        p.is_king_in_stalemate is None,
{
    let mut placement: Vec<Piece> = Vec::new();
    let mut i: usize = 0;
    while i < 64
        invariant
            i <= 64,
            placement@.len() == i as int,
            forall|j: int| 0 <= j < i as int ==> placement@[j] == 0,
        decreases 64 - i,
    {
        placement.push(EMPTY);
        i = i + 1;
    }
    Position {
        placement,
        active_color: COLOR_WHITE,
        castling: [false, false, false, false],
        en_passant: None,
        halfmoves: 0,
        fullmoves: 0,
        moves: None,
        is_king_in_check: None,
        is_king_in_checkmate: None,
        is_king_in_stalemate: None,
    }
}

pub fn piece_at_sq(pos: &Position, sq: Sq) -> (p: Piece)
    requires
        position_wf(*pos),
        sq_ok(sq as int),
    ensures
        p == pos.placement@[sq as int],
{
    pos.placement[sq as usize]
}

pub fn set_piece_at_sq(pos: &mut Position, sq: Sq, piece: Piece)
    requires
        position_wf(*old(pos)),
        sq_ok(sq as int),
        piece_ok(piece as int),
    ensures
        final(pos).placement@ == old(pos).placement@.update(sq as int, piece),
        same_except_placement(*old(pos), *final(pos)),
        position_wf(*final(pos)),
{
    pos.placement[sq as usize] = piece;
}

pub fn is_there_piece_at_sq(pos: &Position, sq: Sq) -> (r: bool)
    requires
        position_wf(*pos),
        sq_ok(sq as int),
    ensures
        r == (pos.placement@[sq as int] != 0),
{
    piece_at_sq(pos, sq) != EMPTY
}

pub fn is_move_capture(pos: &Position, mov: &Move) -> (r: bool)
    requires
        position_wf(*pos),
        sq_ok(mov.to as int),
    ensures
        r == (pos.placement@[mov.to as int] != 0),
{
    is_there_piece_at_sq(pos, mov.to)
}

pub fn is_piece_white(piece: Piece) -> (r: bool)
    ensures
        r == (piece > 0),
{
    piece > EMPTY
}

pub fn is_piece_black(piece: Piece) -> (r: bool)
    ensures
        r == (piece < 0),
{
    piece < EMPTY
}

pub fn piece_color(piece: Piece) -> (c: Color)
    ensures
        c as int == spec_piece_color(piece as int),
{
    if is_piece_white(piece) {
        COLOR_WHITE
    } else if is_piece_black(piece) {
        COLOR_BLACK
    } else {
        COLOR_EMPTY
    }
}

pub fn piece_base(piece: Piece) -> (b: Piece)
    requires
        piece != i8::MIN,
    ensures
        b as int == spec_piece_base(piece as int),
{
    if piece >= 0 {
        piece
    } else {
        -piece
    }
}

pub fn toggled_color(color: Color) -> (c: Color)
    requires
        color_ok(color as int),
    ensures
        c == -color,
{
    if color == COLOR_WHITE {
        COLOR_BLACK
    } else {
        COLOR_WHITE
    }
}

} // verus!
