use chess_rules::board::{empty_position, set_piece_at_sq, Position};
use chess_rules::state::{
    expand_position, for_each_legal_move_from_position, position_after_move,
    position_static_value, position_val_at_ply, set_is_king_in_check,
};
use chess_rules::attack::{is_king_in_check, is_king_in_specific_sq_in_check};
use chess_rules::movegen::pseudo_legal_sqs_from_sq;
use chess_rules::geometry::fr_to_sq;

fn place(pos: &mut Position, f: i8, r: i8, piece: i8) {
    assert!((0..8).contains(&f) && (0..8).contains(&r));
    set_piece_at_sq(pos, fr_to_sq(f, r), piece);
}

/// The standard starting position, built square by square.
fn starting_position() -> Position {
    let mut pos = empty_position();
    let back: [i8; 8] = [2, 3, 4, 5, 6, 4, 3, 2];
    for f in 0..8i8 {
        place(&mut pos, f, 0, back[f as usize]);
        place(&mut pos, f, 1, 1);
        place(&mut pos, f, 6, -1);
        place(&mut pos, f, 7, -back[f as usize]);
    }
    pos
}

#[test]
fn starting_position_has_twenty_legal_moves() {
    let mut pos = starting_position();
    expand_position(&mut pos);
    let moves = pos.moves.as_ref().unwrap();
    assert_eq!(moves.len(), 20);
    assert_eq!(pos.is_king_in_check, Some(false));
    assert_eq!(pos.is_king_in_checkmate, Some(false));
    assert_eq!(pos.is_king_in_stalemate, Some(false));
}

#[test]
fn legal_moves_never_leave_own_king_attacked() {
    // Not just by construction of the filter: re-apply every legal move and
    // probe the successor directly.
    let mut pos = starting_position();
    expand_position(&mut pos);
    let moves = pos.moves.as_ref().unwrap();
    for mov in moves.iter() {
        let next = position_after_move(&pos, mov);
        assert!(!is_king_in_check(&next, true));
    }
}

#[test]
fn movement_symmetry_sampled() {
    // For each direction-symmetric kind, on an empty board: B is reachable
    // from A exactly when A is reachable from B.
    let pos = empty_position();
    let samples: [i8; 8] = [0, 7, 9, 27, 28, 36, 56, 63];
    for kind in [2i8, 3, 4, 5, 6] {
        for &a in samples.iter() {
            let (from_a, _) = pseudo_legal_sqs_from_sq(&pos, a, Some(kind));
            for &b in samples.iter() {
                if a == b {
                    continue;
                }
                let (from_b, _) = pseudo_legal_sqs_from_sq(&pos, b, Some(kind));
                assert_eq!(
                    from_a.contains(&b),
                    from_b.contains(&a),
                    "kind {kind} squares {a} {b}"
                );
            }
        }
    }
}

#[test]
fn pawn_capture_symmetry_sampled() {
    // A white pawn bears on B from A exactly when a black pawn bears on A
    // from B: with an enemy piece on the target, the capture list shows it.
    for (a_f, a_r, b_f, b_r) in [(0i8, 1i8, 1i8, 2i8), (4, 3, 3, 4), (6, 5, 7, 6)] {
        let a = fr_to_sq(a_f, a_r);
        let b = fr_to_sq(b_f, b_r);
        let mut pos = empty_position();
        set_piece_at_sq(&mut pos, b, -2);
        let (_, caps_white) = pseudo_legal_sqs_from_sq(&pos, a, Some(1));
        let mut pos2 = empty_position();
        set_piece_at_sq(&mut pos2, a, 2);
        let (_, caps_black) = pseudo_legal_sqs_from_sq(&pos2, b, Some(-1));
        assert_eq!(
            caps_white.iter().any(|e| e.0 == b),
            caps_black.iter().any(|e| e.0 == a)
        );
    }
}

#[test]
fn lone_pawn_and_rook_pseudo_targets() {
    // Active colour white, lone white pawn on a1, lone black rook on b2:
    // pseudo-legal targets from a1 are exactly a2 (quiet) and b2 (capture);
    // no double step, since a1 is not on the pawn's starting rank.
    let mut pos = empty_position();
    set_piece_at_sq(&mut pos, 0, 1);
    set_piece_at_sq(&mut pos, 9, -2);
    let (targets, caps) = pseudo_legal_sqs_from_sq(&pos, 0, None);
    assert_eq!(targets.len(), 2);
    assert!(targets.contains(&8));
    assert!(targets.contains(&9));
    assert_eq!(caps.len(), 1);
    assert_eq!(caps[0], (9, -2));
}

#[test]
fn pawn_double_step_requires_clear_path() {
    // From its starting rank a pawn may step two only when both the
    // intervening and the destination squares are empty.
    let mut pos = empty_position();
    set_piece_at_sq(&mut pos, fr_to_sq(4, 1), 1);
    set_piece_at_sq(&mut pos, fr_to_sq(4, 2), -3);
    let (targets, _) = pseudo_legal_sqs_from_sq(&pos, fr_to_sq(4, 1), None);
    assert!(targets.is_empty());
    let mut pos2 = empty_position();
    set_piece_at_sq(&mut pos2, fr_to_sq(4, 1), 1);
    set_piece_at_sq(&mut pos2, fr_to_sq(4, 3), -3);
    let (targets2, _) = pseudo_legal_sqs_from_sq(&pos2, fr_to_sq(4, 1), None);
    assert_eq!(targets2, vec![fr_to_sq(4, 2)]);
    let mut pos3 = empty_position();
    set_piece_at_sq(&mut pos3, fr_to_sq(4, 1), 1);
    let (targets3, _) = pseudo_legal_sqs_from_sq(&pos3, fr_to_sq(4, 1), None);
    assert_eq!(targets3, vec![fr_to_sq(4, 2), fr_to_sq(4, 3)]);
}

#[test]
fn pawn_on_last_rank_has_no_moves() {
    // Promotion is not modelled: a pawn standing on its last rank simply
    // has nowhere to go.
    let mut pos = empty_position();
    set_piece_at_sq(&mut pos, fr_to_sq(2, 7), 1);
    let (targets, caps) = pseudo_legal_sqs_from_sq(&pos, fr_to_sq(2, 7), None);
    assert!(targets.is_empty());
    assert!(caps.is_empty());
    let mut pos2 = empty_position();
    pos2.active_color = -1;
    set_piece_at_sq(&mut pos2, fr_to_sq(2, 0), -1);
    let (targets2, _) = pseudo_legal_sqs_from_sq(&pos2, fr_to_sq(2, 0), None);
    assert!(targets2.is_empty());
}

#[test]
fn distant_kings_are_not_attacked() {
    // Only a white king on a1 and a black king on h8: neither is attacked,
    // and the position is neither checkmate nor stalemate.
    let mut pos = empty_position();
    set_piece_at_sq(&mut pos, 0, 6);
    set_piece_at_sq(&mut pos, 63, -6);
    assert!(!is_king_in_specific_sq_in_check(&pos, 0, false));
    assert!(!is_king_in_specific_sq_in_check(&pos, 63, true));
    expand_position(&mut pos);
    assert!(pos.moves.as_ref().unwrap().len() > 0);
    assert_eq!(pos.is_king_in_check, Some(false));
    assert_eq!(pos.is_king_in_checkmate, Some(false));
    assert_eq!(pos.is_king_in_stalemate, Some(false));
}

#[test]
fn adjacent_kings_attack_each_other() {
    // A king bears on its neighbouring squares like a queen at distance
    // one: with the kings adjacent, each king's square is attacked.
    let mut pos = empty_position();
    set_piece_at_sq(&mut pos, 0, 6);
    set_piece_at_sq(&mut pos, 9, -6);
    assert!(is_king_in_specific_sq_in_check(&pos, 0, false));
    assert!(is_king_in_specific_sq_in_check(&pos, 9, true));
    assert!(is_king_in_check(&pos, false));
}

#[test]
fn king_may_not_step_next_to_enemy_king() {
    // White king a1 against black king c2: b1 and b2 adjoin the enemy king
    // and are rejected by the legality filter; a2 is the one legal move.
    let mut pos = empty_position();
    set_piece_at_sq(&mut pos, 0, 6);
    set_piece_at_sq(&mut pos, fr_to_sq(2, 1), -6);
    expand_position(&mut pos);
    assert_eq!(pos.is_king_in_check, Some(false));
    let moves = pos.moves.as_ref().unwrap();
    assert_eq!(moves.len(), 1);
    assert_eq!((moves[0].from, moves[0].to), (0, fr_to_sq(0, 1)));
}

#[test]
fn cornered_king_with_adjacent_queen_is_checkmate() {
    // Black king a8, white queen b7 guarded by a knight on d8: the king has
    // no legal move and is attacked, so the position is checkmate.
    let mut pos = empty_position();
    pos.active_color = -1;
    set_piece_at_sq(&mut pos, 56, -6);
    set_piece_at_sq(&mut pos, 49, 5);
    set_piece_at_sq(&mut pos, 59, 3);
    expand_position(&mut pos);
    assert_eq!(pos.moves.as_ref().unwrap().len(), 0);
    assert_eq!(pos.is_king_in_check, Some(true));
    assert_eq!(pos.is_king_in_checkmate, Some(true));
    assert_eq!(pos.is_king_in_stalemate, Some(false));
}

#[test]
fn boxed_king_without_attacker_is_stalemate() {
    // Black king a8 boxed in by its own pawn on a7 (itself blocked by a
    // white pawn on a6) while a white rook sweeps the b-file: no legal move
    // and no check, so the position is stalemate.
    let mut pos = empty_position();
    pos.active_color = -1;
    set_piece_at_sq(&mut pos, 56, -6);
    set_piece_at_sq(&mut pos, 48, -1);
    set_piece_at_sq(&mut pos, 40, 1);
    set_piece_at_sq(&mut pos, 1, 2);
    expand_position(&mut pos);
    assert_eq!(pos.moves.as_ref().unwrap().len(), 0);
    assert_eq!(pos.is_king_in_check, Some(false));
    assert_eq!(pos.is_king_in_checkmate, Some(false));
    assert_eq!(pos.is_king_in_stalemate, Some(true));
}

#[test]
fn checkmate_and_stalemate_stay_mutually_exclusive() {
    // Over a batch of positions, the two terminal flags never both hold,
    // and any position with a legal move has neither.
    let mut boards: Vec<Position> = Vec::new();
    boards.push(starting_position());
    let mut mate = empty_position();
    mate.active_color = -1;
    set_piece_at_sq(&mut mate, 56, -6);
    set_piece_at_sq(&mut mate, 49, 5);
    set_piece_at_sq(&mut mate, 59, 3);
    boards.push(mate);
    let mut stale = empty_position();
    stale.active_color = -1;
    set_piece_at_sq(&mut stale, 56, -6);
    set_piece_at_sq(&mut stale, 48, -1);
    set_piece_at_sq(&mut stale, 40, 1);
    set_piece_at_sq(&mut stale, 1, 2);
    boards.push(stale);
    for mut pos in boards {
        expand_position(&mut pos);
        let mate_flag = pos.is_king_in_checkmate.unwrap();
        let stale_flag = pos.is_king_in_stalemate.unwrap();
        assert!(!(mate_flag && stale_flag));
        if pos.moves.as_ref().unwrap().len() > 0 {
            assert!(!mate_flag && !stale_flag);
        }
    }
}

#[test]
fn sparse_board_king_in_check_still_has_escape_squares() {
    // A scenario once reported as yielding no valid moves: black king e7
    // against white knights d6 and f6, queen e5, bishop b4, king b2.  The
    // queen checks from e5, and d8 and f8 are genuine escapes.
    let mut pos = empty_position();
    pos.active_color = -1;
    set_piece_at_sq(&mut pos, 52, -6);
    set_piece_at_sq(&mut pos, 43, 3);
    set_piece_at_sq(&mut pos, 45, 3);
    set_piece_at_sq(&mut pos, 36, 5);
    set_piece_at_sq(&mut pos, 25, 4);
    set_piece_at_sq(&mut pos, 9, 6);
    expand_position(&mut pos);
    assert_eq!(pos.is_king_in_check, Some(true));
    let moves = pos.moves.as_ref().unwrap();
    assert_eq!(moves.len(), 2);
    assert!(moves.iter().any(|m| m.to == 59));
    assert!(moves.iter().any(|m| m.to == 61));
    assert_eq!(pos.is_king_in_checkmate, Some(false));
    assert_eq!(pos.is_king_in_stalemate, Some(false));
}

#[test]
fn static_value_counts_material() {
    let pos = empty_position();
    assert_eq!(position_static_value(&pos), 0);
    let mut start = starting_position();
    assert_eq!(position_static_value(&start), 0);
    // Remove black's queen: white is up exactly 9.
    set_piece_at_sq(&mut start, fr_to_sq(3, 7), 0);
    assert_eq!(position_static_value(&start), 9);
    let mut pos2 = empty_position();
    set_piece_at_sq(&mut pos2, 0, 5);
    set_piece_at_sq(&mut pos2, 63, -1);
    assert_eq!(position_static_value(&pos2), 8);
    let mut pos3 = empty_position();
    set_piece_at_sq(&mut pos3, 0, 6);
    assert_eq!(position_static_value(&pos3), 9999);
}

#[test]
fn position_after_move_updates_board_functionally() {
    let pos = starting_position();
    let mut expanded = starting_position();
    expand_position(&mut expanded);
    let moves = expanded.moves.as_ref().unwrap();
    let mov = moves
        .iter()
        .find(|m| m.from == fr_to_sq(4, 1) && m.to == fr_to_sq(4, 3))
        .expect("double pawn push from e2 must be legal");
    let next = position_after_move(&pos, mov);
    assert_eq!(next.placement[fr_to_sq(4, 1) as usize], 0);
    assert_eq!(next.placement[fr_to_sq(4, 3) as usize], 1);
    assert_eq!(next.active_color, -1);
    assert_eq!(next.halfmoves, pos.halfmoves);
    assert_eq!(next.fullmoves, pos.fullmoves);
    assert!(next.moves.is_none());
    // The parent is untouched.
    assert_eq!(pos.placement[fr_to_sq(4, 1) as usize], 1);
}

#[test]
fn pseudo_move_list_ignores_king_safety() {
    // A pin: white king a1, white rook a2, black queen a8.  Stepping the
    // rook off the a-file is pseudo-legal but exposes the king, so the
    // legality filter drops it and keeps the moves along the file.
    let mut pos = empty_position();
    set_piece_at_sq(&mut pos, 0, 6);
    set_piece_at_sq(&mut pos, 8, 2);
    set_piece_at_sq(&mut pos, 56, -5);
    let pseudo = for_each_legal_move_from_position(&pos);
    assert!(pseudo.iter().any(|m| m.from == 8 && m.to == 9));
    expand_position(&mut pos);
    let legal = pos.moves.as_ref().unwrap();
    assert!(!legal.iter().any(|m| m.from == 8 && m.to == 9));
    assert!(legal.iter().any(|m| m.from == 8 && m.to == 16));
}

#[test]
fn val_at_ply_zero_is_the_static_value() {
    let mut pos = empty_position();
    set_piece_at_sq(&mut pos, 0, 5);
    let vals = position_val_at_ply(&pos, 0);
    assert_eq!(vals.len(), 1);
    assert!(vals[0].mov.is_none());
    assert_eq!(vals[0].val, 9);
    assert!(!vals[0].checkmate);
    assert!(vals[0].leads_to.is_none());
}

#[test]
fn val_at_ply_one_expands_every_pseudo_move() {
    let mut pos = empty_position();
    set_piece_at_sq(&mut pos, 0, 6);
    let vals = position_val_at_ply(&pos, 1);
    // A lone king on a1 has three pseudo-legal steps.
    assert_eq!(vals.len(), 3);
    for entry in vals.iter() {
        let mov = entry.mov.as_ref().unwrap();
        assert_eq!(mov.from, 0);
        let next = entry.leads_to.as_ref().unwrap();
        assert_eq!(next.active_color, -1);
        assert_eq!(next.placement[mov.to as usize], 6);
        assert_eq!(next.placement[0], 0);
    }
}

#[test]
fn check_memo_cell_is_written_once() {
    let mut pos = starting_position();
    assert!(pos.is_king_in_check.is_none());
    set_is_king_in_check(&mut pos);
    assert_eq!(pos.is_king_in_check, Some(false));
}
