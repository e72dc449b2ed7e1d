//! Cross-cutting laws of the rules core, each proved from the public
//! contracts: legal moves never leave the mover's king attacked, movement
//! geometry is reversible, and checkmate and stalemate exclude each other
//! and any position with a legal move.

use vstd::prelude::*;
use crate::geometry::{
    sq_ok, on_board, file_of, rank_of, sq_from, dir_df, dir_dr, ray_steps, lemma_sq_decompose,
    lemma_sq_from_inverse, lemma_sq_from_injective, lemma_ray_line, lemma_ray_update_start,
};
use crate::board::{color_ok, spec_piece_base, spec_piece_color};
use crate::movegen::{
    geo_reaches, pawn_capture_geo, quiet_dest, capture_dest, move_dest, dir_lo, dir_hi, slides,
    dir_reaches, fwd_dr,
};
use crate::attack::{
    sq_attacked, king_square, lemma_geo_reaches_symmetric, lemma_pawn_capture_symmetric,
};
use crate::state::{
    board_after, legal_move_at, no_legal_moves, is_checkmate_pos, is_stalemate_pos,
    is_legal_move_list, lemma_empty_move_list,
};
use crate::board::Move;

verus! {

/// Applying any legal move yields a successor position in which the
/// mover's king, wherever it stands, is not attacked by the opponent.
pub proof fn lemma_legal_move_keeps_king_safe(
    b: Seq<i8>,
    active: int,
    piece: i8,
    from: int,
    to: int,
)
    requires
        legal_move_at(b, active, piece, from, to),
    ensures
        ({
            let nb = board_after(b, piece, from, to);
            king_square(nb, active) >= 0 ==> !sq_attacked(nb, -active, king_square(nb, active))
        }),
{
}

/// Movement symmetry for every direction-symmetric piece kind (rook,
/// knight, bishop, queen, king): the piece at `a` geometrically reaches `t`
/// exactly when the same piece at `t` reaches `a`.  Pawns are the one kind
/// this does not hold for as stated; see the colour-swapped law below.
pub proof fn lemma_movement_symmetry(b: Seq<i8>, piece: int, a: int, t: int)
    requires
        2 <= spec_piece_base(piece) <= 6,
        sq_ok(a),
        sq_ok(t),
    ensures
        geo_reaches(b, piece, a, t) <==> geo_reaches(b, piece, t, a),
{
    if geo_reaches(b, piece, a, t) {
        lemma_geo_reaches_symmetric(b, piece, a, t);
    }
    if geo_reaches(b, piece, t, a) {
        lemma_geo_reaches_symmetric(b, piece, t, a);
    }
}

/// The symmetry seen at the generator's level: between two empty squares,
/// a piece of a direction-symmetric kind may quietly move one way exactly
/// when it may move back.
pub proof fn lemma_quiet_move_symmetry(b: Seq<i8>, piece: int, a: int, t: int)
    requires
        2 <= spec_piece_base(piece) <= 6,
        sq_ok(a),
        sq_ok(t),
        b[a] == 0,
        b[t] == 0,
    ensures
        quiet_dest(b, piece, a, t) <==> quiet_dest(b, piece, t, a),
{
    lemma_movement_symmetry(b, piece, a, t);
}

/// Pawn capture geometry is symmetric once the colour is swapped: a pawn
/// of colour `c` at `a` bears on `t` exactly when a pawn of the opposite
/// colour at `t` bears on `a`.
pub proof fn lemma_pawn_capture_symmetry(c: int, a: int, t: int)
    requires
        color_ok(c),
        sq_ok(a),
        sq_ok(t),
    ensures
        pawn_capture_geo(c, a, t) <==> pawn_capture_geo(-c, t, a),
{
    if pawn_capture_geo(c, a, t) {
        lemma_pawn_capture_symmetric(c, a, t);
    }
    if pawn_capture_geo(-c, t, a) {
        lemma_pawn_capture_symmetric(-c, t, a);
    }
}

/// No position is both checkmate and stalemate.
pub proof fn lemma_checkmate_stalemate_exclusive(b: Seq<i8>, active: int)
    ensures
        !(is_checkmate_pos(b, active) && is_stalemate_pos(b, active)),
{
}

/// A position with at least one legal move is neither checkmate nor
/// stalemate.
pub proof fn lemma_legal_move_not_terminal(b: Seq<i8>, active: int, piece: i8, from: int, to: int)
    requires
        legal_move_at(b, active, piece, from, to),
    ensures
        !is_checkmate_pos(b, active),
        !is_stalemate_pos(b, active),
{
    assert(!no_legal_moves(b, active));
}

/// The occupant of the probed square is purely hypothetical: what a piece
/// standing on `sq` could do never depends on what actually occupies `sq`,
/// so the generator may be asked about any piece there without that piece
/// being on the board.
pub proof fn lemma_dests_ignore_probed_square(b: Seq<i8>, p: int, sq: int, q: i8, t: int)
    requires
        b.len() == 64,
        sq_ok(sq),
    ensures
        quiet_dest(b.update(sq, q), p, sq, t) == quiet_dest(b, p, sq, t),
        capture_dest(b.update(sq, q), p, sq, t) == capture_dest(b, p, sq, t),
        move_dest(b.update(sq, q), p, sq, t) == move_dest(b, p, sq, t),
{
    let b2 = b.update(sq, q);
    lemma_sq_decompose(sq);
    let f = file_of(sq);
    let r = rank_of(sq);
    let base = spec_piece_base(p);
    if base == 1 {
        let c = spec_piece_color(p);
        if on_board(f, r + fwd_dr(c)) {
            lemma_sq_from_inverse(f, r + fwd_dr(c));
            if sq_from(f, r + fwd_dr(c)) == sq {
                lemma_sq_from_injective(f, r + fwd_dr(c), f, r);
            }
        }
        if on_board(f, r + 2 * fwd_dr(c)) {
            lemma_sq_from_inverse(f, r + 2 * fwd_dr(c));
            if sq_from(f, r + 2 * fwd_dr(c)) == sq {
                lemma_sq_from_injective(f, r + 2 * fwd_dr(c), f, r);
            }
        }
        if on_board(f + 1, r + fwd_dr(c)) {
            lemma_sq_from_inverse(f + 1, r + fwd_dr(c));
            if sq_from(f + 1, r + fwd_dr(c)) == sq {
                lemma_sq_from_injective(f + 1, r + fwd_dr(c), f, r);
            }
        }
        if on_board(f - 1, r + fwd_dr(c)) {
            lemma_sq_from_inverse(f - 1, r + fwd_dr(c));
            if sq_from(f - 1, r + fwd_dr(c)) == sq {
                lemma_sq_from_injective(f - 1, r + fwd_dr(c), f, r);
            }
        }
    } else {
        assert forall|d: int|
            dir_lo(base) <= d < dir_hi(base) implies #[trigger] dir_reaches(b2, base, sq, d, t)
                == dir_reaches(b, base, sq, d, t) by {
            if slides(base) {
                assert(0 * dir_df(d) == 0) by (nonlinear_arith);
                assert(0 * dir_dr(d) == 0) by (nonlinear_arith);
                lemma_ray_update_start(b, f, r, dir_df(d), dir_dr(d), t, 8, sq, q, 0);
            }
        }
        assert(geo_reaches(b2, p, sq, t) == geo_reaches(b, p, sq, t)) by {
            if geo_reaches(b2, p, sq, t) {
                let d = choose|d: int|
                    dir_lo(base) <= d < dir_hi(base) && #[trigger] dir_reaches(b2, base, sq, d, t);
                assert(dir_reaches(b, base, sq, d, t));
            }
            if geo_reaches(b, p, sq, t) {
                let d = choose|d: int|
                    dir_lo(base) <= d < dir_hi(base) && #[trigger] dir_reaches(b, base, sq, d, t);
                assert(dir_reaches(b2, base, sq, d, t));
            }
        }
        if geo_reaches(b, p, sq, t) {
            let d = choose|d: int|
                dir_lo(base) <= d < dir_hi(base) && #[trigger] dir_reaches(b, base, sq, d, t);
            assert(!(dir_df(d) == 0 && dir_dr(d) == 0));
            if slides(base) {
                lemma_ray_line(b, f, r, dir_df(d), dir_dr(d), t, 8);
                let k = ray_steps(b, f, r, dir_df(d), dir_dr(d), t, 8);
                if t == sq {
                    assert(dir_df(d) == 0 && dir_dr(d) == 0) by (nonlinear_arith)
                        requires
                            k >= 1,
                            k * dir_df(d) == 0,
                            k * dir_dr(d) == 0,
                    ;
                }
            } else {
                if t == sq {
                    lemma_sq_from_injective(f + dir_df(d), r + dir_dr(d), f, r);
                }
            }
            assert(t != sq);
        }
    }
}

/// Checkmate and stalemate both require the computed legal move list to be
/// empty.
pub proof fn lemma_terminal_requires_empty_list(v: Seq<Move>, b: Seq<i8>, active: int)
    requires
        is_legal_move_list(v, b, active),
        is_checkmate_pos(b, active) || is_stalemate_pos(b, active),
    ensures
        v.len() == 0,
{
    lemma_empty_move_list(v, b, active);
}

} // verus!
