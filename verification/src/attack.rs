//! Attack detection.  A square is attacked by a side when one of that
//! side's pieces — rook, knight, bishop, queen, pawn or king — could
//! capture onto it under pure movement geometry.  The detector reuses the
//! pseudo-legal generator in reverse: it probes from the threatened square
//! with each piece kind of the defender's own colour and looks for the
//! matching enemy kind among the capture targets — sound because every
//! movement relation used here is symmetric (for pawns, symmetric up to
//! swapping the colour).

use vstd::prelude::*;
use crate::geometry::{
    Sq, sq_ok, on_board, file_of, rank_of, sq_from, dir_df, dir_dr, opp_dir, step_ok, step_sq,
    lemma_sq_from_inverse, lemma_sq_decompose, lemma_opp_dir, lemma_ray_reverse,
};
use crate::board::{
    Piece, Position, COLOR_WHITE, P_BASE, R_BASE, N_BASE, B_BASE, Q_BASE, K_BASE, K_WHITE,
    K_BLACK, piece_ok, board_ok, color_ok, position_wf, spec_piece_color, spec_piece_base,
    piece_at_sq,
};
use crate::movegen::{
    dir_lo, dir_hi, slides, dir_reaches, geo_reaches, fwd_dr, pawn_capture_geo, capture_dest,
    pseudo_legal_sqs_from_sq,
};

verus! {

/// The piece on square `a` bears on square `t` under capture geometry.
pub open spec fn attacks_from(b: Seq<i8>, a: int, t: int) -> bool {
    if spec_piece_base(b[a] as int) == 1 {
        pawn_capture_geo(spec_piece_color(b[a] as int), a, t)
    } else {
        geo_reaches(b, b[a] as int, a, t)
    }
}

/// Some piece of colour `by_color` — a king included — bears on square
/// `t` under capture geometry.
pub open spec fn sq_attacked(b: Seq<i8>, by_color: int, t: int) -> bool {
    exists|a: int|
        sq_ok(a) && spec_piece_color(b[a] as int) == by_color && #[trigger] attacks_from(b, a, t)
}

/// The colour whose king is under discussion: the side to move, or its
/// opponent when probing a hypothetical successor position.
pub open spec fn probe_color(active: int, toggled: bool) -> int {
    if toggled {
        -active
    } else {
        active
    }
}

/// Movement symmetry for the direction-symmetric kinds (rook, knight,
/// bishop, queen, king): a piece at `a` geometrically reaches `t` exactly
/// when the same piece at `t` reaches `a`, over the same squares between.
pub proof fn lemma_geo_reaches_symmetric(b: Seq<i8>, piece: int, a: int, t: int)
    requires
        2 <= spec_piece_base(piece) <= 6,
        sq_ok(a),
        sq_ok(t),
        geo_reaches(b, piece, a, t),
    ensures
        geo_reaches(b, piece, t, a),
{
    let base = spec_piece_base(piece);
    let d = choose|d: int|
        dir_lo(base) <= d < dir_hi(base) && #[trigger] dir_reaches(b, base, a, d, t);
    lemma_opp_dir(d);
    lemma_sq_decompose(a);
    lemma_sq_decompose(t);
    if slides(base) {
        lemma_ray_reverse(b, file_of(a), rank_of(a), dir_df(d), dir_dr(d), t, 8);
        assert(sq_from(file_of(a), rank_of(a)) == a);
        assert(dir_reaches(b, base, t, opp_dir(d), a));
    } else {
        lemma_sq_from_inverse(file_of(a) + dir_df(d), rank_of(a) + dir_dr(d));
        assert(file_of(t) == file_of(a) + dir_df(d));
        assert(rank_of(t) == rank_of(a) + dir_dr(d));
        assert(step_ok(t, opp_dir(d)));
        assert(step_sq(t, opp_dir(d)) == a);
        assert(dir_reaches(b, base, t, opp_dir(d), a));
    }
}

/// Pawn capture geometry is symmetric up to swapping the colour: a pawn of
/// colour `c` at `a` bears on `t` exactly when a pawn of the other colour
/// at `t` bears on `a`.
pub proof fn lemma_pawn_capture_symmetric(c: int, a: int, t: int)
    requires
        color_ok(c),
        sq_ok(a),
        sq_ok(t),
        pawn_capture_geo(c, a, t),
    ensures
        pawn_capture_geo(-c, t, a),
{
    lemma_sq_decompose(a);
    lemma_sq_decompose(t);
    if on_board(file_of(a) + 1, rank_of(a) + fwd_dr(c)) && t == sq_from(
        file_of(a) + 1,
        rank_of(a) + fwd_dr(c),
    ) {
        lemma_sq_from_inverse(file_of(a) + 1, rank_of(a) + fwd_dr(c));
        assert(a == sq_from(file_of(t) - 1, rank_of(t) + fwd_dr(-c)));
    } else {
        lemma_sq_from_inverse(file_of(a) - 1, rank_of(a) + fwd_dr(c));
        assert(a == sq_from(file_of(t) + 1, rank_of(t) + fwd_dr(-c)));
    }
}

/// The probe kind visited at step `i` of the detector: rook, knight,
/// bishop, queen, pawn, king.
pub open spec fn kind_at(i: int) -> int {
    if i == 0 {
        2
    } else if i == 1 {
        3
    } else if i == 2 {
        4
    } else if i == 3 {
        5
    } else if i == 4 {
        1
    } else {
        6
    }
}

/// The piece code of a `kind` piece of colour `c`.
pub open spec fn signed_piece(kind: int, c: int) -> int {
    if c >= 0 {
        kind
    } else {
        -kind
    }
}

/// Probing from `sq` with the defender's own kind finds exactly the enemy
/// pieces of that kind that bear on `sq`.
pub proof fn lemma_probe_equiv(b: Seq<i8>, kind: int, c: int, sq: int)
    requires
        board_ok(b),
        color_ok(c),
        1 <= kind <= 6,
        sq_ok(sq),
    ensures
        forall|a: int|
            (#[trigger] capture_dest(b, signed_piece(kind, c), sq, a) && b[a] as int
                == signed_piece(kind, -c)) <==> (sq_ok(a) && b[a] as int == signed_piece(kind, -c)
                && attacks_from(b, a, sq)),
{
    let probe = signed_piece(kind, c);
    let enemy = signed_piece(kind, -c);
    assert forall|a: int|
        (#[trigger] capture_dest(b, probe, sq, a) && b[a] as int == enemy) implies (sq_ok(a)
        && b[a] as int == enemy && attacks_from(b, a, sq)) by {
        if kind == 1 {
            lemma_pawn_capture_symmetric(c, sq, a);
        } else {
            lemma_geo_reaches_symmetric(b, probe, sq, a);
            assert(spec_piece_base(b[a] as int) == spec_piece_base(probe));
            assert(geo_reaches(b, b[a] as int, a, sq) == geo_reaches(b, probe, a, sq));
        }
    }
    assert forall|a: int|
        (sq_ok(a) && b[a] as int == enemy && attacks_from(b, a, sq)) implies (capture_dest(
        b,
        probe,
        sq,
        a,
    ) && b[a] as int == enemy) by {
        if kind == 1 {
            lemma_pawn_capture_symmetric(-c, a, sq);
        } else {
            assert(spec_piece_base(b[a] as int) == spec_piece_base(probe));
            assert(geo_reaches(b, b[a] as int, a, sq) == geo_reaches(b, probe, a, sq));
            lemma_geo_reaches_symmetric(b, probe, a, sq);
        }
    }
}

/// Whether the king of the colour in view, supposed on square `sq`, is
/// attacked there by the opposing side.
pub fn is_king_in_specific_sq_in_check(
    pos: &Position,
    sq: Sq,
    w_toggled_active_color: bool,
) -> (r: bool)
    requires
        position_wf(*pos),
        sq_ok(sq as int),
    ensures
        r == sq_attacked(
            pos.placement@,
            -probe_color(pos.active_color as int, w_toggled_active_color),
            sq as int,
        ),
{
    let ghost b = pos.placement@;
    let sign: i8 = if w_toggled_active_color {
        -1
    } else {
        1
    };
    let c: i8 = pos.active_color * sign;
    let ghost ci = c as int;
    let mut idx: usize = 0;
    while idx < 6
        invariant
            position_wf(*pos),
            b == pos.placement@,
            color_ok(ci),
            ci == probe_color(pos.active_color as int, w_toggled_active_color),
            c as int == ci,
            sq_ok(sq as int),
            0 <= idx <= 6,
            forall|a: int, i: int|
                #![trigger kind_at(i), b[a]]
                0 <= i < idx && sq_ok(a) && spec_piece_color(b[a] as int) == -ci
                    && spec_piece_base(b[a] as int) == kind_at(i) ==> !attacks_from(b, a, sq as int),
        decreases 6 - idx,
    {
        let kind: i8 = if idx == 0 {
            R_BASE
        } else if idx == 1 {
            N_BASE
        } else if idx == 2 {
            B_BASE
        } else if idx == 3 {
            Q_BASE
        } else if idx == 4 {
            P_BASE
        } else {
            K_BASE
        };
        let probe: i8 = if c == 1 {
            kind
        } else {
            -kind
        };
        let enemy: i8 = -probe;
        proof {
            assert(kind as int == kind_at(idx as int));
            assert(probe as int == signed_piece(kind as int, ci));
            assert(enemy as int == signed_piece(kind as int, -ci));
            lemma_probe_equiv(b, kind as int, ci, sq as int);
        }
        let (targets, caps) = pseudo_legal_sqs_from_sq(pos, sq, Some(probe));
        let mut j: usize = 0;
        while j < caps.len()
            invariant
                position_wf(*pos),
                b == pos.placement@,
                sq_ok(sq as int),
                color_ok(ci),
                ci == probe_color(pos.active_color as int, w_toggled_active_color),
                0 <= j <= caps.len(),
                kind as int == kind_at(idx as int),
                probe as int == signed_piece(kind_at(idx as int), ci),
                enemy as int == signed_piece(kind_at(idx as int), -ci),
                piece_ok(probe as int),
                probe != 0,
                forall|e: (i8, i8)| #[trigger] caps@.contains(e) <==> capture_dest(
                    b,
                    probe as int,
                    sq as int,
                    e.0 as int,
                ) && e.1 == b[e.0 as int],
                forall|jj: int| 0 <= jj < j ==> #[trigger] caps@[jj].1 != enemy,
            decreases caps.len() - j,
        {
            let e = caps[j];
            if e.1 == enemy {
                proof {
                    lemma_probe_equiv(b, kind as int, ci, sq as int);
                    assert(caps@.contains(e));
                    assert(capture_dest(b, probe as int, sq as int, e.0 as int));
                    assert(b[e.0 as int] as int == signed_piece(kind_at(idx as int), -ci));
                    assert(attacks_from(b, e.0 as int, sq as int));
                    assert(spec_piece_color(b[e.0 as int] as int) == -ci);
                    assert(spec_piece_base(b[e.0 as int] as int) == kind_at(idx as int));
                    assert(sq_attacked(b, -ci, sq as int));
                }
                return true;
            }
            j = j + 1;
        }
        proof {
            assert forall|a: int|
                sq_ok(a) && spec_piece_color(b[a] as int) == -ci && spec_piece_base(b[a] as int)
                    == kind_at(idx as int) implies !attacks_from(b, a, sq as int) by {
                if attacks_from(b, a, sq as int) {
                    assert(b[a] as int == signed_piece(kind_at(idx as int), -ci));
                    assert(capture_dest(b, probe as int, sq as int, a));
                    let e = (a as i8, b[a]);
                    assert(e.0 as int == a);
                    assert(caps@.contains(e));
                    let jj = choose|jj: int| 0 <= jj < caps@.len() && caps@[jj] == e;
                    assert(caps@[jj].1 != enemy);
                    assert(e.1 as int == signed_piece(kind_at(idx as int), -ci));
                }
            }
        }
        idx = idx + 1;
    }
    proof {
        assert forall|a: int|
            !(sq_ok(a) && spec_piece_color(b[a] as int) == -ci && #[trigger] attacks_from(
                b,
                a,
                sq as int,
            )) by {
            if sq_ok(a) && spec_piece_color(b[a] as int) == -ci && attacks_from(b, a, sq as int) {
                let base = spec_piece_base(b[a] as int);
                assert(piece_ok(b[a] as int));
                assert(1 <= base <= 6);
                if base == 2 {
                    assert(kind_at(0) == 2);
                } else if base == 3 {
                    assert(kind_at(1) == 3);
                } else if base == 4 {
                    assert(kind_at(2) == 4);
                } else if base == 5 {
                    assert(kind_at(3) == 5);
                } else if base == 1 {
                    assert(kind_at(4) == 1);
                } else {
                    assert(kind_at(5) == 6);
                }
            }
        }
    }
    false
}

/// The square visited at step `i` of the king scan (files outermost, as the
/// scan walks file 0 rank 0..8, then file 1, and so on).
pub open spec fn scan_sq(i: int) -> int {
    8 * (i % 8) + i / 8
}

/// The square of the first `king` piece in scan order from step `i` on, or
/// -1 when there is none.
pub open spec fn king_scan(b: Seq<i8>, king: int, i: int) -> int
    decreases 64 - i,
{
    if i < 0 || i >= 64 {
        -1
    } else if b[scan_sq(i)] as int == king {
        scan_sq(i)
    } else {
        king_scan(b, king, i + 1)
    }
}

/// The square of the first king of colour `c` in scan order, or -1.
pub open spec fn king_square(b: Seq<i8>, c: int) -> int {
    king_scan(b, 6 * c, 0)
}

/// The king of colour `c` stands on the board and is attacked by the
/// opposing side.  A position without that king is never in check.
pub open spec fn in_check(b: Seq<i8>, c: int) -> bool {
    king_square(b, c) >= 0 && sq_attacked(b, -c, king_square(b, c))
}

/// Whether the king of the colour in view (the side to move, or its
/// opponent when `w_toggled_active_color` is set) is attacked.
pub fn is_king_in_check(pos: &Position, w_toggled_active_color: bool) -> (r: bool)
    requires
        position_wf(*pos),
    ensures
        r == in_check(
            pos.placement@,
            probe_color(pos.active_color as int, w_toggled_active_color),
        ),
{
    let ghost b = pos.placement@;
    let sign: i8 = if w_toggled_active_color {
        -1
    } else {
        1
    };
    let king: Piece = if pos.active_color == COLOR_WHITE {
        K_WHITE * sign
    } else {
        K_BLACK * sign
    };
    let ghost c = probe_color(pos.active_color as int, w_toggled_active_color);
    proof {
        assert(king as int == 6 * c);
    }
    let mut f: i8 = 0;
    while f < 8
        invariant
            position_wf(*pos),
            b == pos.placement@,
            0 <= f <= 8,
            king as int == 6 * c,
            c == probe_color(pos.active_color as int, w_toggled_active_color),
            color_ok(c),
            king_scan(b, king as int, 0) == king_scan(b, king as int, 8 * (f as int)),
        decreases 8 - f,
    {
        let mut r: i8 = 0;
        while r < 8
            invariant
                position_wf(*pos),
                b == pos.placement@,
                0 <= f < 8,
                0 <= r <= 8,
                king as int == 6 * c,
                c == probe_color(pos.active_color as int, w_toggled_active_color),
                color_ok(c),
                king_scan(b, king as int, 0) == king_scan(b, king as int, 8 * (f as int) + r as int),
            decreases 8 - r,
        {
            let sq = crate::geometry::fr_to_sq(f, r);
            let ghost i = 8 * (f as int) + r as int;
            proof {
                assert(scan_sq(i) == sq as int);
            }
            let piece_found = piece_at_sq(pos, sq);
            if piece_found == king {
                proof {
                    assert(king_scan(b, king as int, i) == sq as int);
                }
                return is_king_in_specific_sq_in_check(pos, sq, w_toggled_active_color);
            }
            proof {
                assert(king_scan(b, king as int, i) == king_scan(b, king as int, i + 1));
            }
            r = r + 1;
        }
        f = f + 1;
    }
    proof {
        assert(king_scan(b, king as int, 64) == -1);
    }
    false
}

} // verus!
