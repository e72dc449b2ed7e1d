//! Position evolution and classification: the functional position mutator,
//! the pseudo-legal move list of a position, the legality filter that
//! simulates each candidate and rejects any that leaves the mover's own
//! king attacked, the write-once expansion of the derived fields, the
//! terminal classifiers, and the static material value.

use vstd::prelude::*;
use crate::geometry::sq_ok;
use crate::board::{
    Piece, Position, Move, MoveVal, Ply, Val, EMPTY, piece_ok, position_wf, spec_piece_color,
    piece_at_sq, piece_color, set_piece_at_sq,
};
use crate::movegen::{move_dest, pseudo_legal_sqs_from_sq, lemma_move_dest_ok};
use crate::attack::{in_check, is_king_in_check};

verus! {

/// The placement after moving `piece` from `from` to `to`: the origin is
/// cleared and the destination overwritten.
pub open spec fn board_after(b: Seq<i8>, piece: i8, from: int, to: int) -> Seq<i8> {
    b.update(from, EMPTY).update(to, piece)
}

/// `piece` stands on `from`, belongs to the side to move, and can reach
/// `to` under pure movement geometry.
pub open spec fn pseudo_move_at(b: Seq<i8>, active: int, piece: i8, from: int, to: int) -> bool {
    sq_ok(from) && b[from] == piece && spec_piece_color(piece as int) == active && move_dest(
        b,
        piece as int,
        from,
        to,
    )
}

/// Simulating the move leaves the mover's own king attacked.
pub open spec fn exposes_own_king(b: Seq<i8>, active: int, piece: i8, from: int, to: int) -> bool {
    in_check(board_after(b, piece, from, to), active)
}

/// A legal move: pseudo-legal, and it does not leave the mover's own king
/// attacked afterwards.
pub open spec fn legal_move_at(b: Seq<i8>, active: int, piece: i8, from: int, to: int) -> bool {
    pseudo_move_at(b, active, piece, from, to) && !exposes_own_king(b, active, piece, from, to)
}

pub open spec fn no_legal_moves(b: Seq<i8>, active: int) -> bool {
    forall|piece: i8, from: int, to: int| !(#[trigger] legal_move_at(b, active, piece, from, to))
}

/// No legal moves and the king attacked.
pub open spec fn is_checkmate_pos(b: Seq<i8>, active: int) -> bool {
    no_legal_moves(b, active) && in_check(b, active)
}

/// No legal moves and the king not attacked.
pub open spec fn is_stalemate_pos(b: Seq<i8>, active: int) -> bool {
    no_legal_moves(b, active) && !in_check(b, active)
}

/// The underived part of two positions agrees: placement, side to move,
/// castling rights, en-passant target and counters.
pub open spec fn same_core(a: Position, b: Position) -> bool {
    &&& b.placement@ == a.placement@
    &&& b.active_color == a.active_color
    &&& b.castling == a.castling
    &&& b.en_passant == a.en_passant
    &&& b.halfmoves == a.halfmoves
    &&& b.fullmoves == a.fullmoves
}

/// The list `v` is exactly the set of legal moves of `(b, active)`: every
/// entry is a legal move with nothing attached, every legal move occurs as
/// an entry, and no move occurs twice.
pub open spec fn is_legal_move_list(v: Seq<Move>, b: Seq<i8>, active: int) -> bool {
    &&& forall|i: int|
        0 <= i < v.len() ==> (#[trigger] v[i]).leads_to is None && legal_move_at(
            b,
            active,
            v[i].piece,
            v[i].from as int,
            v[i].to as int,
        )
    &&& forall|piece: i8, from: int, to: int|
        #[trigger] legal_move_at(b, active, piece, from, to) ==> exists|i: int|
            0 <= i < v.len() && (#[trigger] v[i]).piece == piece && v[i].from as int == from
                && v[i].to as int == to
    &&& distinct_moves(v)
}

/// The successor position of `pos` under `mov`: the placement updated, the
/// side to move flipped, rights and counters carried over unchanged, and
/// all derived fields unset.
pub fn position_after_move(pos: &Position, mov: &Move) -> (res: Position)
    requires
        position_wf(*pos),
        sq_ok(mov.from as int),
        sq_ok(mov.to as int),
        piece_ok(mov.piece as int),
    ensures
        res.placement@ == board_after(pos.placement@, mov.piece, mov.from as int, mov.to as int),
        res.active_color == -pos.active_color,
        res.castling == pos.castling,
        res.en_passant == pos.en_passant,
        res.halfmoves == pos.halfmoves,
        res.fullmoves == pos.fullmoves,
        res.moves is None,
        res.is_king_in_check is None,
        res.is_king_in_checkmate is None,
        res.is_king_in_stalemate is None,
        position_wf(res),
{
    let mut new_placement: Vec<Piece> = Vec::new();
    let mut i: usize = 0;
    while i < 64
        invariant
            position_wf(*pos),
            i <= 64,
            new_placement@.len() == i as int,
            forall|j: int| 0 <= j < i as int ==> new_placement@[j] == pos.placement@[j],
        decreases 64 - i,
    {
        new_placement.push(pos.placement[i]);
        i = i + 1;
    }
    proof {
        assert(new_placement@ =~= pos.placement@);
    }
    let mut res = Position {
        placement: new_placement,
        active_color: -pos.active_color,
        castling: pos.castling,
        en_passant: pos.en_passant,
        halfmoves: pos.halfmoves,
        fullmoves: pos.fullmoves,
        moves: None,
        is_king_in_check: None,
        is_king_in_checkmate: None,
        is_king_in_stalemate: None,
    };
    set_piece_at_sq(&mut res, mov.from, EMPTY);
    set_piece_at_sq(&mut res, mov.to, mov.piece);
    res
}

/// Whether simulating `mov` leaves the mover's own king attacked in the
/// successor position.
pub fn does_move_lead_to_own_king_in_check(pos: &Position, mov: &Move) -> (r: bool)
    requires
        position_wf(*pos),
        sq_ok(mov.from as int),
        sq_ok(mov.to as int),
        piece_ok(mov.piece as int),
    ensures
        r == exposes_own_king(
            pos.placement@,
            pos.active_color as int,
            mov.piece,
            mov.from as int,
            mov.to as int,
        ),
{
    is_king_in_check(&position_after_move(pos, mov), true)
}

/// No two entries of `v` describe the same move (same piece, origin and
/// destination).
pub open spec fn distinct_moves(v: Seq<Move>) -> bool {
    forall|i: int, j: int|
        0 <= i < j < v.len() ==> !((#[trigger] v[i]).piece == (#[trigger] v[j]).piece && v[i].from
            == v[j].from && v[i].to == v[j].to)
}

/// Every pseudo-legal move of the side to move, each exactly once: each
/// occupied square of the active colour is expanded through the generator,
/// king safety ignored.
pub fn for_each_legal_move_from_position(pos: &Position) -> (v: Vec<Move>)
    requires
        position_wf(*pos),
    ensures
        forall|i: int|
            0 <= i < v@.len() ==> (#[trigger] v@[i]).leads_to is None && pseudo_move_at(
                pos.placement@,
                pos.active_color as int,
                v@[i].piece,
                v@[i].from as int,
                v@[i].to as int,
            ),
        forall|piece: i8, from: int, to: int|
            #[trigger] pseudo_move_at(pos.placement@, pos.active_color as int, piece, from, to)
                ==> exists|i: int|
                0 <= i < v@.len() && (#[trigger] v@[i]).piece == piece && v@[i].from as int == from
                    && v@[i].to as int == to,
        distinct_moves(v@),
{
    let ghost b = pos.placement@;
    let ghost active = pos.active_color as int;
    let mut v: Vec<Move> = Vec::new();
    let mut sq: i8 = 0;
    while sq < 64
        invariant
            position_wf(*pos),
            b == pos.placement@,
            active == pos.active_color as int,
            0 <= sq <= 64,
            forall|i: int|
                0 <= i < v@.len() ==> (#[trigger] v@[i]).leads_to is None && pseudo_move_at(
                    b,
                    active,
                    v@[i].piece,
                    v@[i].from as int,
                    v@[i].to as int,
                ),
            forall|piece: i8, from: int, to: int|
                #[trigger] pseudo_move_at(b, active, piece, from, to) && from < sq as int
                    ==> exists|i: int|
                    0 <= i < v@.len() && (#[trigger] v@[i]).piece == piece && v@[i].from as int
                        == from && v@[i].to as int == to,
            forall|i: int| 0 <= i < v@.len() ==> ((#[trigger] v@[i]).from as int) < sq as int,
            distinct_moves(v@),
        decreases 64 - sq,
    {
        let piece_found = piece_at_sq(pos, sq);
        let piece_found_color = piece_color(piece_found);
        if piece_found_color == pos.active_color {
            let (targets, _caps) = pseudo_legal_sqs_from_sq(pos, sq, None);
            let ghost batch_start = v@.len();
            let mut j: usize = 0;
            while j < targets.len()
                invariant
                    position_wf(*pos),
                    b == pos.placement@,
                    active == pos.active_color as int,
                    0 <= sq < 64,
                    piece_found == b[sq as int],
                    spec_piece_color(piece_found as int) == active,
                    0 <= j <= targets.len(),
                    forall|t: i8| #[trigger] targets@.contains(t) <==> move_dest(
                        b,
                        piece_found as int,
                        sq as int,
                        t as int,
                    ),
                    forall|i: int|
                        0 <= i < v@.len() ==> (#[trigger] v@[i]).leads_to is None
                            && pseudo_move_at(
                            b,
                            active,
                            v@[i].piece,
                            v@[i].from as int,
                            v@[i].to as int,
                        ),
                    forall|piece: i8, from: int, to: int|
                        #[trigger] pseudo_move_at(b, active, piece, from, to) && from < sq as int
                            ==> exists|i: int|
                            0 <= i < v@.len() && (#[trigger] v@[i]).piece == piece && v@[i].from
                                as int == from && v@[i].to as int == to,
                    forall|i: int, j2: int| 0 <= i < j2 < targets@.len() ==> targets@[i]
                        != targets@[j2],
                    v@.len() == batch_start + j as int,
                    forall|i: int|
                        0 <= i < batch_start ==> ((#[trigger] v@[i]).from as int) < sq as int,
                    forall|jj: int|
                        0 <= jj < j as int ==> (#[trigger] v@[batch_start + jj]).piece
                            == piece_found && v@[batch_start + jj].from == sq && v@[batch_start
                            + jj].to == targets@[jj],
                    distinct_moves(v@),
                decreases targets.len() - j,
            {
                let to_sq = targets[j];
                proof {
                    assert(targets@.contains(targets@[j as int]));
                }
                let ghost v_before = v@;
                v.push(Move { piece: piece_found, from: sq, to: to_sq, leads_to: None });
                proof {
                    assert forall|piece: i8, from: int, to: int|
                        #[trigger] pseudo_move_at(b, active, piece, from, to) && from
                            < sq as int implies exists|i: int|
                        0 <= i < v@.len() && (#[trigger] v@[i]).piece == piece && v@[i].from as int
                            == from && v@[i].to as int == to by {
                        let ii = choose|ii: int|
                            0 <= ii < v_before.len() && (#[trigger] v_before[ii]).piece == piece
                                && v_before[ii].from as int == from && v_before[ii].to as int
                                == to;
                        assert(v@[ii] == v_before[ii]);
                    }
                    assert forall|jj: int|
                        0 <= jj < j as int + 1 implies (#[trigger] v@[batch_start + jj]).piece
                            == piece_found && v@[batch_start + jj].from == sq && v@[batch_start
                            + jj].to == targets@[jj] by {
                        if jj < j as int {
                            assert(v@[batch_start + jj] == v_before[batch_start + jj]);
                        } else {
                            assert(v@[batch_start + jj] == (Move {
                                piece: piece_found,
                                from: sq,
                                to: to_sq,
                                leads_to: None,
                            }));
                        }
                    }
                    assert forall|i1: int, j1: int|
                        0 <= i1 < j1 < v@.len() implies !((#[trigger] v@[i1]).piece
                            == (#[trigger] v@[j1]).piece && v@[i1].from == v@[j1].from && v@[i1].to == v@[j1].to) by {
                        if j1 < v_before.len() {
                            assert(v@[i1] == v_before[i1]);
                            assert(v@[j1] == v_before[j1]);
                        } else {
                            assert(v@[j1].from == sq && v@[j1].to == targets@[j as int]);
                            if i1 < batch_start {
                                assert(v@[i1] == v_before[i1]);
                                assert((v@[i1].from as int) < sq as int);
                            } else {
                                assert(v@[i1] == v_before[i1]);
                                let jj = i1 - batch_start;
                                assert((#[trigger] v@[batch_start + jj]).to == targets@[jj]);
                                assert(targets@[jj] != targets@[j as int]);
                            }
                        }
                    }
                }
                j = j + 1;
            }
            proof {
                assert forall|i: int| 0 <= i < v@.len() implies ((#[trigger] v@[i]).from as int)
                    < sq as int + 1 by {
                    if i >= batch_start {
                        let jj = i - batch_start;
                        assert((#[trigger] v@[batch_start + jj]).from == sq);
                    }
                }
                assert forall|piece: i8, from: int, to: int|
                    #[trigger] pseudo_move_at(b, active, piece, from, to) && from < sq as int
                        + 1 implies exists|i: int|
                    0 <= i < v@.len() && (#[trigger] v@[i]).piece == piece && v@[i].from as int
                        == from && v@[i].to as int == to by {
                    if from == sq as int {
                        lemma_move_dest_ok(b, piece as int, from, to);
                        assert(targets@.contains(to as i8));
                        let jj = choose|jj: int|
                            0 <= jj < targets@.len() && targets@[jj] == to as i8;
                        assert((#[trigger] v@[batch_start + jj]).piece == piece_found
                            && v@[batch_start + jj].from == sq
                            && v@[batch_start + jj].to == targets@[jj]);
                    }
                }
            }
        } else {
            proof {
                assert forall|piece: i8, from: int, to: int|
                    #[trigger] pseudo_move_at(b, active, piece, from, to) && from < sq as int
                        + 1 implies exists|i: int|
                    0 <= i < v@.len() && (#[trigger] v@[i]).piece == piece && v@[i].from as int
                        == from && v@[i].to as int == to by {
                    if from == sq as int {
                        assert(b[from] == piece);
                        assert(false);
                    }
                }
            }
        }
        sq = sq + 1;
    }
    v
}

/// Computes the legal move list: each pseudo-legal move is simulated and
/// kept exactly when it does not leave the mover's own king attacked.
/// Writes the `moves` memo cell, which must still be unset.
#[verifier::rlimit(50)]
pub fn set_moves_to_position(pos: &mut Position)
    requires
        position_wf(*old(pos)),
        old(pos).moves is None,
    ensures
        position_wf(*final(pos)),
        same_core(*old(pos), *final(pos)),
        final(pos).is_king_in_check == old(pos).is_king_in_check,
        final(pos).is_king_in_checkmate == old(pos).is_king_in_checkmate,
        final(pos).is_king_in_stalemate == old(pos).is_king_in_stalemate,
        final(pos).moves is Some,
        is_legal_move_list(
            final(pos).moves->Some_0@,
            old(pos).placement@,
            old(pos).active_color as int,
        ),
{
    let ghost b = pos.placement@;
    let ghost active = pos.active_color as int;
    let pmoves = for_each_legal_move_from_position(pos);
    let mut v: Vec<Move> = Vec::new();
    let mut i: usize = 0;
    while i < pmoves.len()
        invariant
            position_wf(*pos),
            b == pos.placement@,
            active == pos.active_color as int,
            0 <= i <= pmoves.len(),
            forall|ii: int|
                0 <= ii < pmoves@.len() ==> (#[trigger] pmoves@[ii]).leads_to is None
                    && pseudo_move_at(
                    b,
                    active,
                    pmoves@[ii].piece,
                    pmoves@[ii].from as int,
                    pmoves@[ii].to as int,
                ),
            forall|ii: int|
                0 <= ii < v@.len() ==> (#[trigger] v@[ii]).leads_to is None && legal_move_at(
                    b,
                    active,
                    v@[ii].piece,
                    v@[ii].from as int,
                    v@[ii].to as int,
                ),
            forall|jj: int|
                0 <= jj < i as int && legal_move_at(
                    b,
                    active,
                    (#[trigger] pmoves@[jj]).piece,
                    pmoves@[jj].from as int,
                    pmoves@[jj].to as int,
                ) ==> exists|ii: int|
                    0 <= ii < v@.len() && (#[trigger] v@[ii]).piece == pmoves@[jj].piece
                        && v@[ii].from == pmoves@[jj].from && v@[ii].to == pmoves@[jj].to,
            distinct_moves(pmoves@),
            distinct_moves(v@),
            forall|ii: int|
                0 <= ii < v@.len() ==> exists|jj: int|
                    0 <= jj < i as int && (#[trigger] v@[ii]).piece == (#[trigger] pmoves@[jj]).piece
                        && v@[ii].from == pmoves@[jj].from && v@[ii].to == pmoves@[jj].to,
        decreases pmoves.len() - i,
    {
        let piece = pmoves[i].piece;
        let from = pmoves[i].from;
        let to = pmoves[i].to;
        proof {
            assert(pseudo_move_at(b, active, piece, from as int, to as int));
            lemma_move_dest_ok(b, piece as int, from as int, to as int);
        }
        let cand = Move { piece, from, to, leads_to: None };
        let ghost v_before = v@;
        if !does_move_lead_to_own_king_in_check(pos, &cand) {
            v.push(cand);
            proof {
                assert forall|jj: int|
                    0 <= jj < i as int + 1 && legal_move_at(
                        b,
                        active,
                        (#[trigger] pmoves@[jj]).piece,
                        pmoves@[jj].from as int,
                        pmoves@[jj].to as int,
                    ) implies exists|ii: int|
                    0 <= ii < v@.len() && (#[trigger] v@[ii]).piece == pmoves@[jj].piece
                        && v@[ii].from == pmoves@[jj].from && v@[ii].to == pmoves@[jj].to by {
                    if jj < i as int {
                        let ii = choose|ii: int|
                            0 <= ii < v_before.len() && (#[trigger] v_before[ii]).piece
                                == pmoves@[jj].piece && v_before[ii].from == pmoves@[jj].from
                                && v_before[ii].to == pmoves@[jj].to;
                        assert(v@[ii] == v_before[ii]);
                    } else {
                        assert((#[trigger] v@[v_before.len() as int]).piece == piece);
                    }
                }
                assert forall|ii: int|
                    0 <= ii < v@.len() implies exists|jj: int|
                    0 <= jj < i as int + 1 && (#[trigger] v@[ii]).piece == (#[trigger] pmoves@[
                        jj
                    ]).piece && v@[ii].from == pmoves@[jj].from && v@[ii].to
                        == pmoves@[jj].to by {
                    if ii < v_before.len() {
                        assert(v@[ii] == v_before[ii]);
                        let jj = choose|jj: int|
                            0 <= jj < i as int && (#[trigger] v_before[ii]).piece == (
                            #[trigger] pmoves@[jj]).piece && v_before[ii].from == pmoves@[jj].from
                                && v_before[ii].to == pmoves@[jj].to;
                        assert(pmoves@[jj].piece == v@[ii].piece);
                    } else {
                        assert(v@[ii] == cand);
                        assert((#[trigger] pmoves@[i as int]).piece == piece);
                    }
                }
                assert forall|i1: int, j1: int|
                    0 <= i1 < j1 < v@.len() implies !((#[trigger] v@[i1]).piece
                        == (#[trigger] v@[j1]).piece && v@[i1].from == v@[j1].from && v@[i1].to
                        == v@[j1].to) by {
                    if j1 < v_before.len() {
                        assert(v@[i1] == v_before[i1]);
                        assert(v@[j1] == v_before[j1]);
                    } else {
                        assert(v@[j1] == cand);
                        assert(v@[i1] == v_before[i1]);
                        let jj = choose|jj: int|
                            0 <= jj < i as int && (#[trigger] v_before[i1]).piece == (
                            #[trigger] pmoves@[jj]).piece && v_before[i1].from == pmoves@[jj].from
                                && v_before[i1].to == pmoves@[jj].to;
                        assert(!(pmoves@[jj].piece == pmoves@[i as int].piece && pmoves@[jj].from
                            == pmoves@[i as int].from && pmoves@[jj].to == pmoves@[i as int].to));
                    }
                }
            }
        } else {
            proof {
                assert forall|jj: int|
                    0 <= jj < i as int + 1 && legal_move_at(
                        b,
                        active,
                        (#[trigger] pmoves@[jj]).piece,
                        pmoves@[jj].from as int,
                        pmoves@[jj].to as int,
                    ) implies exists|ii: int|
                    0 <= ii < v@.len() && (#[trigger] v@[ii]).piece == pmoves@[jj].piece
                        && v@[ii].from == pmoves@[jj].from && v@[ii].to == pmoves@[jj].to by {
                    if jj == i as int {
                        assert(!legal_move_at(b, active, piece, from as int, to as int));
                    }
                }
            }
        }
        i = i + 1;
    }
    proof {
        assert forall|piece: i8, from: int, to: int|
            #[trigger] legal_move_at(b, active, piece, from, to) implies exists|ii: int|
            0 <= ii < v@.len() && (#[trigger] v@[ii]).piece == piece && v@[ii].from as int == from
                && v@[ii].to as int == to by {
            assert(pseudo_move_at(b, active, piece, from, to));
            let jj = choose|jj: int|
                0 <= jj < pmoves@.len() && (#[trigger] pmoves@[jj]).piece == piece && pmoves@[jj].from
                    as int == from && pmoves@[jj].to as int == to;
            assert(legal_move_at(
                b,
                active,
                pmoves@[jj].piece,
                pmoves@[jj].from as int,
                pmoves@[jj].to as int,
            ));
        }
    }
    pos.moves = Some(v);
}

/// Whether the position is checkmate: the legal move list (which must
/// already be computed) is empty and the side to move is in check.
pub fn is_king_in_checkmate(pos: &Position) -> (r: bool)
    requires
        position_wf(*pos),
        pos.moves is Some,
    ensures
        r == (pos.moves->Some_0@.len() == 0 && in_check(
            pos.placement@,
            pos.active_color as int,
        )),
{
    if let Some(moves) = &pos.moves {
        if moves.len() == 0 {
            return is_king_in_check(pos, false);
        }
        return false;
    }
    false
}

/// Whether the position is stalemate: the legal move list (which must
/// already be computed) is empty and the side to move is not in check.
pub fn is_king_in_stalemate(pos: &Position) -> (r: bool)
    requires
        position_wf(*pos),
        pos.moves is Some,
    ensures
        r == (pos.moves->Some_0@.len() == 0 && !in_check(
            pos.placement@,
            pos.active_color as int,
        )),
{
    if let Some(moves) = &pos.moves {
        if moves.len() == 0 {
            return !is_king_in_check(pos, false);
        }
        return false;
    }
    false
}

/// Writes the check memo cell, which must still be unset.
pub fn set_is_king_in_check(pos: &mut Position)
    requires
        position_wf(*old(pos)),
        old(pos).is_king_in_check is None,
    ensures
        position_wf(*final(pos)),
        same_core(*old(pos), *final(pos)),
        final(pos).moves == old(pos).moves,
        final(pos).is_king_in_checkmate == old(pos).is_king_in_checkmate,
        final(pos).is_king_in_stalemate == old(pos).is_king_in_stalemate,
        final(pos).is_king_in_check == Some(
            in_check(old(pos).placement@, old(pos).active_color as int),
        ),
{
    let r = is_king_in_check(pos, false);
    pos.is_king_in_check = Some(r);
}

/// Writes the checkmate memo cell, which must still be unset; the legal
/// move list must already be computed.
pub fn set_is_king_in_checkmate(pos: &mut Position)
    requires
        position_wf(*old(pos)),
        old(pos).moves is Some,
        old(pos).is_king_in_checkmate is None,
    ensures
        position_wf(*final(pos)),
        same_core(*old(pos), *final(pos)),
        final(pos).moves == old(pos).moves,
        final(pos).is_king_in_check == old(pos).is_king_in_check,
        final(pos).is_king_in_stalemate == old(pos).is_king_in_stalemate,
        final(pos).is_king_in_checkmate == Some(
            old(pos).moves->Some_0@.len() == 0 && in_check(
                old(pos).placement@,
                old(pos).active_color as int,
            ),
        ),
{
    let r = is_king_in_checkmate(pos);
    pos.is_king_in_checkmate = Some(r);
}

/// Writes the stalemate memo cell, which must still be unset; the legal
/// move list must already be computed.
pub fn set_is_king_in_stalemate(pos: &mut Position)
    requires
        position_wf(*old(pos)),
        old(pos).moves is Some,
        old(pos).is_king_in_stalemate is None,
    ensures
        position_wf(*final(pos)),
        same_core(*old(pos), *final(pos)),
        final(pos).moves == old(pos).moves,
        final(pos).is_king_in_check == old(pos).is_king_in_check,
        final(pos).is_king_in_checkmate == old(pos).is_king_in_checkmate,
        final(pos).is_king_in_stalemate == Some(
            old(pos).moves->Some_0@.len() == 0 && !in_check(
                old(pos).placement@,
                old(pos).active_color as int,
            ),
        ),
{
    let r = is_king_in_stalemate(pos);
    pos.is_king_in_stalemate = Some(r);
}

/// An empty legal move list means exactly that no legal move exists.
pub proof fn lemma_empty_move_list(v: Seq<Move>, b: Seq<i8>, active: int)
    requires
        is_legal_move_list(v, b, active),
    ensures
        v.len() == 0 <==> no_legal_moves(b, active),
{
    if v.len() == 0 {
        assert forall|piece: i8, from: int, to: int|
            !(#[trigger] legal_move_at(b, active, piece, from, to)) by {
            if legal_move_at(b, active, piece, from, to) {
                let i = choose|i: int|
                    0 <= i < v.len() && (#[trigger] v[i]).piece == piece && v[i].from as int
                        == from && v[i].to as int == to;
                assert(false);
            }
        }
    } else {
        let m = v[0];
        assert(legal_move_at(b, active, m.piece, m.from as int, m.to as int));
    }
}

/// Expands a freshly built position: computes, in this order, the check
/// flag, the legal move list, the checkmate flag and the stalemate flag,
/// writing each memo cell exactly once.
pub fn expand_position(pos: &mut Position)
    requires
        position_wf(*old(pos)),
        old(pos).moves is None,
        old(pos).is_king_in_check is None,
        old(pos).is_king_in_checkmate is None,
        old(pos).is_king_in_stalemate is None,
    ensures
        position_wf(*final(pos)),
        same_core(*old(pos), *final(pos)),
        final(pos).is_king_in_check == Some(
            in_check(old(pos).placement@, old(pos).active_color as int),
        ),
        final(pos).moves is Some,
        is_legal_move_list(
            final(pos).moves->Some_0@,
            old(pos).placement@,
            old(pos).active_color as int,
        ),
        final(pos).is_king_in_checkmate == Some(
            is_checkmate_pos(old(pos).placement@, old(pos).active_color as int),
        ),
        final(pos).is_king_in_stalemate == Some(
            is_stalemate_pos(old(pos).placement@, old(pos).active_color as int),
        ),
{
    let ghost b = pos.placement@;
    let ghost active = pos.active_color as int;
    set_is_king_in_check(pos);
    set_moves_to_position(pos);
    set_is_king_in_checkmate(pos);
    set_is_king_in_stalemate(pos);
    proof {
        lemma_empty_move_list(pos.moves->Some_0@, b, active);
    }
}

/// The conventional material worth of a piece code, positive for one side
/// and negative for the other: pawn 1, knight and bishop 3, rook 5,
/// queen 9, king 9999.
pub open spec fn piece_value(p: int) -> int {
    if p == 1 {
        1
    } else if p == -1 {
        -1
    } else if p == 2 {
        5
    } else if p == -2 {
        -5
    } else if p == 3 || p == 4 {
        3
    } else if p == -3 || p == -4 {
        -3
    } else if p == 5 {
        9
    } else if p == -5 {
        -9
    } else if p == 6 {
        9999
    } else if p == -6 {
        -9999
    } else {
        0
    }
}

/// The summed material worth of the first `n` squares.
pub open spec fn material(b: Seq<i8>, n: int) -> int
    decreases n,
{
    if n <= 0 {
        0
    } else {
        material(b, n - 1) + piece_value(b[n - 1] as int)
    }
}

pub proof fn lemma_material_bound(b: Seq<i8>, n: int)
    requires
        0 <= n,
    ensures
        -9999 * n <= material(b, n) <= 9999 * n,
    decreases n,
{
    if n > 0 {
        lemma_material_bound(b, n - 1);
    }
}

/// The static material value of the position: the piece values of all 64
/// squares summed.
pub fn position_static_value(pos: &Position) -> (v: Val)
    requires
        position_wf(*pos),
    ensures
        v as int == material(pos.placement@, 64),
{
    let ghost b = pos.placement@;
    let mut result: i64 = 0;
    let mut i: usize = 0;
    while i < 64
        invariant
            position_wf(*pos),
            b == pos.placement@,
            0 <= i <= 64,
            result as int == material(b, i as int),
            -9999 * (i as int) <= result as int <= 9999 * (i as int),
        decreases 64 - i,
    {
        let piece_found = pos.placement[i];
        let worth: i64 = if piece_found == 1 {
            1
        } else if piece_found == -1 {
            -1
        } else if piece_found == 2 {
            5
        } else if piece_found == -2 {
            -5
        } else if piece_found == 3 || piece_found == 4 {
            3
        } else if piece_found == -3 || piece_found == -4 {
            -3
        } else if piece_found == 5 {
            9
        } else if piece_found == -5 {
            -9
        } else if piece_found == 6 {
            9999
        } else if piece_found == -6 {
            -9999
        } else {
            0
        };
        result = result + worth;
        i = i + 1;
    }
    result
}

/// One level of search expansion.  At ply 0 the result is a single entry
/// carrying the static material value of the position itself; at any deeper
/// ply it is one entry per pseudo-legal move, each carrying the successor
/// position that move leads to.
pub fn position_val_at_ply(pos: &Position, ply: Ply) -> (v: Vec<MoveVal>)
    requires
        position_wf(*pos),
    ensures
        ply == 0 ==> v@.len() == 1 && v@[0].mov is None && v@[0].val as int == material(
            pos.placement@,
            64,
        ) && !v@[0].checkmate && v@[0].leads_to is None,
        ply != 0 ==> (forall|i: int|
            0 <= i < v@.len() ==> ((#[trigger] v@[i]).mov is Some && pseudo_move_at(
                pos.placement@,
                pos.active_color as int,
                v@[i].mov->Some_0.piece,
                v@[i].mov->Some_0.from as int,
                v@[i].mov->Some_0.to as int,
            ) && v@[i].mov->Some_0.leads_to is None && v@[i].val == 0 && !v@[i].checkmate && v@[i].leads_to is Some && v@[i].leads_to->Some_0.placement@ == board_after(
                pos.placement@,
                v@[i].mov->Some_0.piece,
                v@[i].mov->Some_0.from as int,
                v@[i].mov->Some_0.to as int,
            ) && v@[i].leads_to->Some_0.active_color == -pos.active_color
                && v@[i].leads_to->Some_0.castling == pos.castling
                && v@[i].leads_to->Some_0.en_passant == pos.en_passant
                && v@[i].leads_to->Some_0.halfmoves == pos.halfmoves
                && v@[i].leads_to->Some_0.fullmoves == pos.fullmoves
                && v@[i].leads_to->Some_0.moves is None
                && v@[i].leads_to->Some_0.is_king_in_check is None
                && v@[i].leads_to->Some_0.is_king_in_checkmate is None
                && v@[i].leads_to->Some_0.is_king_in_stalemate is None)),
        ply != 0 ==> (forall|piece: i8, from: int, to: int|
            #[trigger] pseudo_move_at(pos.placement@, pos.active_color as int, piece, from, to)
                ==> exists|i: int|
                0 <= i < v@.len() && (#[trigger] v@[i]).mov is Some && v@[i].mov->Some_0.piece
                    == piece && v@[i].mov->Some_0.from as int == from && v@[i].mov->Some_0.to
                    as int == to),
        ply != 0 ==> (forall|i: int, j: int|
            0 <= i < j < v@.len() ==> !((#[trigger] v@[i]).mov->Some_0.piece
                == (#[trigger] v@[j]).mov->Some_0.piece && v@[i].mov->Some_0.from
                == v@[j].mov->Some_0.from && v@[i].mov->Some_0.to == v@[j].mov->Some_0.to)),
{
    let ghost b = pos.placement@;
    let ghost active = pos.active_color as int;
    let mut v: Vec<MoveVal> = Vec::new();
    if ply == 0 {
        let worth = position_static_value(pos);
        v.push(MoveVal { mov: None, val: worth, checkmate: false, leads_to: None });
        return v;
    }
    let pmoves = for_each_legal_move_from_position(pos);
    let mut i: usize = 0;
    while i < pmoves.len()
        invariant
            position_wf(*pos),
            b == pos.placement@,
            active == pos.active_color as int,
            0 <= i <= pmoves.len(),
            v@.len() == i as int,
            forall|ii: int|
                0 <= ii < pmoves@.len() ==> (#[trigger] pmoves@[ii]).leads_to is None
                    && pseudo_move_at(
                    b,
                    active,
                    pmoves@[ii].piece,
                    pmoves@[ii].from as int,
                    pmoves@[ii].to as int,
                ),
            forall|ii: int|
                0 <= ii < i as int ==> ((#[trigger] v@[ii]).mov is Some && v@[ii].mov->Some_0.piece
                    == pmoves@[ii].piece && v@[ii].mov->Some_0.from == pmoves@[ii].from && v@[ii].mov->Some_0.to == pmoves@[ii].to && v@[ii].mov->Some_0.leads_to is None && v@[ii].val == 0 && !v@[ii].checkmate && v@[ii].leads_to is Some && v@[ii].leads_to->Some_0.placement@ == board_after(
                    b,
                    pmoves@[ii].piece,
                    pmoves@[ii].from as int,
                    pmoves@[ii].to as int,
                ) && v@[ii].leads_to->Some_0.active_color == -pos.active_color
                    && v@[ii].leads_to->Some_0.castling == pos.castling
                    && v@[ii].leads_to->Some_0.en_passant == pos.en_passant
                    && v@[ii].leads_to->Some_0.halfmoves == pos.halfmoves
                    && v@[ii].leads_to->Some_0.fullmoves == pos.fullmoves
                    && v@[ii].leads_to->Some_0.moves is None
                    && v@[ii].leads_to->Some_0.is_king_in_check is None
                    && v@[ii].leads_to->Some_0.is_king_in_checkmate is None
                    && v@[ii].leads_to->Some_0.is_king_in_stalemate is None),
        decreases pmoves.len() - i,
    {
        let piece = pmoves[i].piece;
        let from = pmoves[i].from;
        let to = pmoves[i].to;
        proof {
            assert(pseudo_move_at(b, active, piece, from as int, to as int));
            lemma_move_dest_ok(b, piece as int, from as int, to as int);
        }
        let cand = Move { piece, from, to, leads_to: None };
        let new_pos = position_after_move(pos, &cand);
        v.push(
            MoveVal { mov: Some(cand), val: 0, checkmate: false, leads_to: Some(new_pos) },
        );
        i = i + 1;
    }
    proof {
        assert forall|piece: i8, from: int, to: int|
            #[trigger] pseudo_move_at(b, active, piece, from, to) implies exists|i: int|
            0 <= i < v@.len() && (#[trigger] v@[i]).mov is Some && v@[i].mov->Some_0.piece == piece
                && v@[i].mov->Some_0.from as int == from && v@[i].mov->Some_0.to as int == to by {
            let jj = choose|jj: int|
                0 <= jj < pmoves@.len() && (#[trigger] pmoves@[jj]).piece == piece && pmoves@[jj].from
                    as int == from && pmoves@[jj].to as int == to;
            assert((#[trigger] v@[jj]).mov is Some);
        }
        assert forall|i1: int, j1: int|
            0 <= i1 < j1 < v@.len() implies !((#[trigger] v@[i1]).mov->Some_0.piece
                == (#[trigger] v@[j1]).mov->Some_0.piece && v@[i1].mov->Some_0.from
                == v@[j1].mov->Some_0.from && v@[i1].mov->Some_0.to
                == v@[j1].mov->Some_0.to) by {
            assert(!((#[trigger] pmoves@[i1]).piece == (#[trigger] pmoves@[j1]).piece
                && pmoves@[i1].from == pmoves@[j1].from && pmoves@[i1].to == pmoves@[j1].to));
        }
    }
    v
}

} // verus!
