//! Pseudo-legal move generation: for a square and a piece (the one on the
//! board, or a hypothetical override), every square the piece could move or
//! capture to under pure movement geometry, ignoring king safety.  Sliding
//! pieces (rook, bishop, queen) repeat a directional step until they leave
//! the board, meet a piece of their own colour (stop, excluded) or meet an
//! enemy piece (included as a capture, then stop).  Knights and kings step
//! once per direction.  Pawns advance one square onto an empty square, two
//! from their starting rank when both squares ahead are empty, and capture
//! diagonally forward onto enemy-occupied squares only.

use vstd::prelude::*;
use crate::geometry::{
    Sq, Direction, sq_ok, on_board, file_of, rank_of, sq_from, dir_df, dir_dr, ray_reaches,
    ray_steps, step_ok, step_sq, sq_to_filerank, fr_to_sq, dir_delta, lemma_sq_from_inverse,
    lemma_sq_decompose, lemma_sq_from_injective, lemma_ray_line,
};
use crate::board::{
    Piece, Color, Position, COLOR_WHITE, COLOR_EMPTY, EMPTY, P_BASE, R_BASE, N_BASE, B_BASE,
    Q_BASE, piece_ok, color_ok, position_wf, spec_piece_color, spec_piece_base, piece_at_sq,
    piece_color, piece_base,
};

verus! {

/// First direction index a piece kind moves along.
pub open spec fn dir_lo(base: int) -> int {
    if base == 3 {
        8
    } else if base == 4 {
        4
    } else {
        0
    }
}

/// One past the last direction index a piece kind moves along.
pub open spec fn dir_hi(base: int) -> int {
    if base == 2 {
        4
    } else if base == 3 {
        16
    } else {
        8
    }
}

/// Rooks, bishops and queens slide; knights and kings step once.
pub open spec fn slides(base: int) -> bool {
    base == 2 || base == 4 || base == 5
}

/// A piece of kind `base` standing on `from` reaches `t` along direction `d`:
/// by a ray over empty squares for sliders, by a single step otherwise.
pub open spec fn dir_reaches(b: Seq<i8>, base: int, from: int, d: int, t: int) -> bool {
    if slides(base) {
        ray_reaches(b, file_of(from), rank_of(from), dir_df(d), dir_dr(d), t, 8)
    } else {
        step_ok(from, d) && t == step_sq(from, d)
    }
}

/// A non-pawn piece on `from` geometrically reaches `t`, regardless of what
/// occupies `t`.
pub open spec fn geo_reaches(b: Seq<i8>, piece: int, from: int, t: int) -> bool {
    exists|d: int|
        dir_lo(spec_piece_base(piece)) <= d < dir_hi(spec_piece_base(piece))
            && #[trigger] dir_reaches(b, spec_piece_base(piece), from, d, t)
}

/// Rank direction a pawn of colour `c` advances in.
pub open spec fn fwd_dr(c: int) -> int {
    if c == 1 {
        1
    } else {
        -1
    }
}

/// The rank a pawn of colour `c` may double-step from.
pub open spec fn pawn_start_rank(c: int) -> int {
    if c == 1 {
        1
    } else {
        6
    }
}

/// Quiet pawn advance: one square straight ahead onto an empty square, or
/// two from the starting rank when both squares ahead are empty.
pub open spec fn pawn_plain_dest(b: Seq<i8>, c: int, from: int, t: int) -> bool {
    let f = file_of(from);
    let r = rank_of(from);
    ||| (on_board(f, r + fwd_dr(c)) && t == sq_from(f, r + fwd_dr(c)) && b[t] == 0)
    ||| (r == pawn_start_rank(c) && on_board(f, r + 2 * fwd_dr(c)) && b[sq_from(f, r + fwd_dr(c))]
        == 0 && t == sq_from(f, r + 2 * fwd_dr(c)) && b[t] == 0)
}

/// The two diagonal-forward squares a pawn of colour `c` bears on.
pub open spec fn pawn_capture_geo(c: int, from: int, t: int) -> bool {
    let f = file_of(from);
    let r = rank_of(from);
    ||| (on_board(f + 1, r + fwd_dr(c)) && t == sq_from(f + 1, r + fwd_dr(c)))
    ||| (on_board(f - 1, r + fwd_dr(c)) && t == sq_from(f - 1, r + fwd_dr(c)))
}

pub open spec fn pawn_capture_dest(b: Seq<i8>, c: int, from: int, t: int) -> bool {
    pawn_capture_geo(c, from, t) && sq_ok(t) && spec_piece_color(b[t] as int) == -c
}

/// `t` is a quiet (non-capturing) destination of `piece` standing on `from`.
pub open spec fn quiet_dest(b: Seq<i8>, piece: int, from: int, t: int) -> bool {
    if spec_piece_base(piece) == 1 {
        pawn_plain_dest(b, spec_piece_color(piece), from, t)
    } else {
        geo_reaches(b, piece, from, t) && sq_ok(t) && b[t] == 0
    }
}

/// `t` is a capture destination of `piece` standing on `from`: it holds an
/// enemy piece and is geometrically reachable under capture rules.
pub open spec fn capture_dest(b: Seq<i8>, piece: int, from: int, t: int) -> bool {
    if spec_piece_base(piece) == 1 {
        pawn_capture_dest(b, spec_piece_color(piece), from, t)
    } else {
        geo_reaches(b, piece, from, t) && sq_ok(t) && spec_piece_color(b[t] as int)
            == -spec_piece_color(piece)
    }
}

/// `t` is any movement destination of `piece` standing on `from`.
pub open spec fn move_dest(b: Seq<i8>, piece: int, from: int, t: int) -> bool {
    quiet_dest(b, piece, from, t) || capture_dest(b, piece, from, t)
}

/// Movement destination along one fixed direction (non-pawn pieces).
pub open spec fn dir_move_dest(b: Seq<i8>, piece: int, from: int, d: int, t: int) -> bool {
    dir_reaches(b, spec_piece_base(piece), from, d, t) && sq_ok(t) && (b[t] == 0
        || spec_piece_color(b[t] as int) == -spec_piece_color(piece))
}

/// Capture destination along one fixed direction (non-pawn pieces).
pub open spec fn dir_cap_dest(b: Seq<i8>, piece: int, from: int, d: int, t: int) -> bool {
    dir_reaches(b, spec_piece_base(piece), from, d, t) && sq_ok(t) && spec_piece_color(
        b[t] as int,
    ) == -spec_piece_color(piece)
}

/// Two different directions of one piece kind never reach the same square
/// from the same origin: each reached square lies a positive number of
/// steps along its direction's line, and the sixteen direction vectors are
/// pairwise non-parallel over positive multiples.
pub proof fn lemma_dir_reaches_disjoint(
    b: Seq<i8>,
    base: int,
    from: int,
    d1: int,
    d2: int,
    t: int,
)
    requires
        2 <= base <= 6,
        sq_ok(from),
        dir_lo(base) <= d1 < dir_hi(base),
        dir_lo(base) <= d2 < dir_hi(base),
        d1 != d2,
        dir_reaches(b, base, from, d1, t),
    ensures
        !dir_reaches(b, base, from, d2, t),
{
    lemma_sq_decompose(from);
    let f0 = file_of(from);
    let r0 = rank_of(from);
    let a1 = dir_df(d1);
    let b1 = dir_dr(d1);
    let a2 = dir_df(d2);
    let b2 = dir_dr(d2);
    assert(!(a1 == a2 && b1 == b2));
    if dir_reaches(b, base, from, d2, t) {
        if slides(base) {
            lemma_ray_line(b, f0, r0, a1, b1, t, 8);
            lemma_ray_line(b, f0, r0, a2, b2, t, 8);
            let k1 = ray_steps(b, f0, r0, a1, b1, t, 8);
            let k2 = ray_steps(b, f0, r0, a2, b2, t, 8);
            assert(k1 * a1 != k2 * a2 || k1 * b1 != k2 * b2) by (nonlinear_arith)
                requires
                    k1 >= 1,
                    k2 >= 1,
                    -1 <= a1 <= 1,
                    -1 <= b1 <= 1,
                    -1 <= a2 <= 1,
                    -1 <= b2 <= 1,
                    !(a1 == 0 && b1 == 0),
                    !(a2 == 0 && b2 == 0),
                    !(a1 == a2 && b1 == b2),
            ;
        } else {
            lemma_sq_from_injective(f0 + a1, r0 + b1, f0 + a2, r0 + b2);
        }
    }
}

/// Membership in a sequence after a push.
pub proof fn lemma_push_contains<T>(s: Seq<T>, x: T)
    ensures
        forall|y: T| #[trigger] s.push(x).contains(y) <==> s.contains(y) || y == x,
{
    assert forall|y: T| #[trigger] s.push(x).contains(y) implies s.contains(y) || y == x by {
        let i = choose|i: int| 0 <= i < s.push(x).len() && s.push(x)[i] == y;
        if i < s.len() {
            assert(s[i] == y);
        }
    }
    assert forall|y: T| s.contains(y) || y == x implies #[trigger] s.push(x).contains(y) by {
        if s.contains(y) {
            let i = choose|i: int| 0 <= i < s.len() && s[i] == y;
            assert(s.push(x)[i] == y);
        } else {
            assert(s.push(x)[s.len() as int] == y);
        }
    }
}

/// Every square a ray reaches is on the board.
pub proof fn lemma_ray_target_ok(b: Seq<i8>, f: int, r: int, df: int, dr: int, t: int, fuel: nat)
    requires
        ray_reaches(b, f, r, df, dr, t, fuel),
    ensures
        sq_ok(t),
        on_board(file_of(t), rank_of(t)),
    decreases fuel,
{
    let f1 = f + df;
    let r1 = r + dr;
    if on_board(f1, r1) && sq_from(f1, r1) == t {
        lemma_sq_from_inverse(f1, r1);
    } else {
        lemma_ray_target_ok(b, f1, r1, df, dr, t, (fuel - 1) as nat);
    }
}

/// Walks one sliding direction from `sq`, appending every destination to
/// `targets` and every capture to `caps`.
fn walk_slide_dir(
    pos: &Position,
    piece: Piece,
    pcol: Color,
    sq: Sq,
    d: Direction,
    targets: &mut Vec<Sq>,
    caps: &mut Vec<(Sq, Piece)>,
)
    requires
        position_wf(*pos),
        sq_ok(sq as int),
        piece_ok(piece as int),
        slides(spec_piece_base(piece as int)),
        pcol as int == spec_piece_color(piece as int),
        0 <= d < 8,
    ensures
        forall|t: i8| #[trigger] final(targets)@.contains(t) <==> old(targets)@.contains(t)
            || dir_move_dest(pos.placement@, piece as int, sq as int, d as int, t as int),
        forall|e: (i8, i8)| #[trigger] final(caps)@.contains(e) <==> old(caps)@.contains(e) || (
        dir_cap_dest(pos.placement@, piece as int, sq as int, d as int, e.0 as int) && e.1
            == pos.placement@[e.0 as int]),
        old(targets)@.len() <= final(targets)@.len(),
        forall|i: int| 0 <= i < old(targets)@.len() ==> final(targets)@[i] == old(targets)@[i],
        forall|i: int|
            old(targets)@.len() <= i < final(targets)@.len() ==> dir_move_dest(
                pos.placement@,
                piece as int,
                sq as int,
                d as int,
                (#[trigger] final(targets)@[i]) as int,
            ),
        forall|i: int, j: int|
            old(targets)@.len() <= i < j < final(targets)@.len() ==> final(targets)@[i]
                != final(targets)@[j],
        old(caps)@.len() <= final(caps)@.len(),
        forall|i: int| 0 <= i < old(caps)@.len() ==> final(caps)@[i] == old(caps)@[i],
        forall|i: int|
            old(caps)@.len() <= i < final(caps)@.len() ==> dir_cap_dest(
                pos.placement@,
                piece as int,
                sq as int,
                d as int,
                (#[trigger] final(caps)@[i]).0 as int,
            ) && final(caps)@[i].1 == pos.placement@[final(caps)@[i].0 as int],
        forall|i: int, j: int|
            old(caps)@.len() <= i < j < final(caps)@.len() ==> final(caps)@[i].0
                != final(caps)@[j].0,
{
    let ghost b = pos.placement@;
    let ghost p = piece as int;
    let fr0 = sq_to_filerank(sq);
    let (df, dr) = dir_delta(d);
    let mut cf: i8 = fr0.f;
    let mut cr: i8 = fr0.r;
    let ghost mut k: int = 0;
    proof {
        assert(dir_reaches(b, spec_piece_base(p), sq as int, d as int, 0) == ray_reaches(
            b,
            cf as int,
            cr as int,
            df as int,
            dr as int,
            0,
            8,
        ));
    }
    loop
        invariant_except_break
            position_wf(*pos),
            b == pos.placement@,
            p == piece as int,
            piece_ok(p),
            slides(spec_piece_base(p)),
            pcol as int == spec_piece_color(p),
            0 <= d < 8,
            df as int == dir_df(d as int),
            dr as int == dir_dr(d as int),
            sq_ok(sq as int),
            on_board(cf as int, cr as int),
            0 <= k <= 7,
            cf as int == file_of(sq as int) + k * (df as int),
            cr as int == rank_of(sq as int) + k * (dr as int),
            caps@ == old(caps)@,
            old(targets)@.len() <= targets@.len(),
            forall|i: int| 0 <= i < old(targets)@.len() ==> targets@[i] == old(targets)@[i],
            forall|i: int|
                old(targets)@.len() <= i < targets@.len() ==> dir_move_dest(
                    b,
                    p,
                    sq as int,
                    d as int,
                    (#[trigger] targets@[i]) as int,
                ),
            forall|i: int, j: int|
                old(targets)@.len() <= i < j < targets@.len() ==> targets@[i] != targets@[j],
            forall|i: int|
                old(targets)@.len() <= i < targets@.len() ==> !ray_reaches(
                    b,
                    cf as int,
                    cr as int,
                    df as int,
                    dr as int,
                    (#[trigger] targets@[i]) as int,
                    (8 - k) as nat,
                ),
            forall|t: int|
                #[trigger] ray_reaches(b, cf as int, cr as int, df as int, dr as int, t, (8
                    - k) as nat) ==> ray_reaches(
                    b,
                    file_of(sq as int),
                    rank_of(sq as int),
                    df as int,
                    dr as int,
                    t,
                    8,
                ),
            forall|t: i8|
                (#[trigger] targets@.contains(t) || (ray_reaches(
                    b,
                    cf as int,
                    cr as int,
                    df as int,
                    dr as int,
                    t as int,
                    (8 - k) as nat,
                ) && sq_ok(t as int) && (b[t as int] == 0 || spec_piece_color(b[t as int] as int)
                    == -spec_piece_color(p)))) <==> (old(targets)@.contains(t) || dir_move_dest(
                    b,
                    p,
                    sq as int,
                    d as int,
                    t as int,
                )),
            forall|e: (i8, i8)|
                (#[trigger] caps@.contains(e) || (ray_reaches(
                    b,
                    cf as int,
                    cr as int,
                    df as int,
                    dr as int,
                    e.0 as int,
                    (8 - k) as nat,
                ) && sq_ok(e.0 as int) && spec_piece_color(b[e.0 as int] as int)
                    == -spec_piece_color(p) && e.1 == b[e.0 as int])) <==> (old(caps)@.contains(e)
                || (dir_cap_dest(b, p, sq as int, d as int, e.0 as int) && e.1 == b[e.0 as int])),
        ensures
            forall|t: i8| #[trigger] targets@.contains(t) <==> old(targets)@.contains(t)
                || dir_move_dest(b, p, sq as int, d as int, t as int),
            forall|e: (i8, i8)| #[trigger] caps@.contains(e) <==> old(caps)@.contains(e) || (
            dir_cap_dest(b, p, sq as int, d as int, e.0 as int) && e.1 == b[e.0 as int]),
            old(targets)@.len() <= targets@.len(),
            forall|i: int| 0 <= i < old(targets)@.len() ==> targets@[i] == old(targets)@[i],
            forall|i: int|
                old(targets)@.len() <= i < targets@.len() ==> dir_move_dest(
                    b,
                    p,
                    sq as int,
                    d as int,
                    (#[trigger] targets@[i]) as int,
                ),
            forall|i: int, j: int|
                old(targets)@.len() <= i < j < targets@.len() ==> targets@[i] != targets@[j],
            old(caps)@.len() <= caps@.len(),
            forall|i: int| 0 <= i < old(caps)@.len() ==> caps@[i] == old(caps)@[i],
            forall|i: int|
                old(caps)@.len() <= i < caps@.len() ==> dir_cap_dest(
                    b,
                    p,
                    sq as int,
                    d as int,
                    (#[trigger] caps@[i]).0 as int,
                ) && caps@[i].1 == b[caps@[i].0 as int],
            forall|i: int, j: int|
                old(caps)@.len() <= i < j < caps@.len() ==> caps@[i].0 != caps@[j].0,
        decreases 8 - k,
    {
        let nf = cf + df;
        let nr = cr + dr;
        if nf < 0 || nf > 7 || nr < 0 || nr > 7 {
            proof {
                assert forall|t: i8|
                    !(#[trigger] ray_reaches(
                        b,
                        cf as int,
                        cr as int,
                        df as int,
                        dr as int,
                        t as int,
                        (8 - k) as nat,
                    )) by {
                    assert(!on_board(cf as int + df as int, cr as int + dr as int));
                }
            }
            break;
        }
        let nsq = fr_to_sq(nf, nr);
        let found = piece_at_sq(pos, nsq);
        let fcol = piece_color(found);
        proof {
            lemma_sq_from_inverse(nf as int, nr as int);
            // one unfolding of the ray at the current head
            assert forall|t: int|
                #![trigger ray_reaches(b, cf as int, cr as int, df as int, dr as int, t, (8 - k) as nat)]
                #![trigger ray_reaches(b, nf as int, nr as int, df as int, dr as int, t, (8 - (k + 1)) as nat)]
                ray_reaches(
                    b,
                    cf as int,
                    cr as int,
                    df as int,
                    dr as int,
                    t,
                    (8 - k) as nat,
                ) == (t == nsq as int || (b[nsq as int] == 0 && ray_reaches(
                    b,
                    nf as int,
                    nr as int,
                    df as int,
                    dr as int,
                    t,
                    (8 - (k + 1)) as nat,
                ))) by {
                assert(on_board(cf as int + df as int, cr as int + dr as int));
                if t == nsq as int {
                    assert(sq_from(cf as int + df as int, cr as int + dr as int) == t);
                }
            }
            // the head itself is reached in one step, hence from the origin too
            assert(ray_reaches(b, cf as int, cr as int, df as int, dr as int, nsq as int, (8
                - k) as nat));
            assert(ray_reaches(
                b,
                file_of(sq as int),
                rank_of(sq as int),
                df as int,
                dr as int,
                nsq as int,
                8,
            ));
            assert(dir_reaches(b, spec_piece_base(p), sq as int, d as int, nsq as int));
        }
        if fcol == COLOR_EMPTY {
            proof {
                lemma_push_contains(targets@, nsq);
            }
            let ghost targets_before = targets@;
            targets.push(nsq);
            cf = nf;
            cr = nr;
            proof {
                assert((k + 1) * (df as int) == k * (df as int) + (df as int)) by (nonlinear_arith);
                assert((k + 1) * (dr as int) == k * (dr as int) + (dr as int)) by (nonlinear_arith);
                // the head stays on the board, so fewer than 8 steps were taken
                assert(k + 1 <= 7) by (nonlinear_arith)
                    requires
                        on_board(cf as int, cr as int),
                        on_board(file_of(sq as int), rank_of(sq as int)),
                        cf as int == file_of(sq as int) + (k + 1) * (df as int),
                        cr as int == rank_of(sq as int) + (k + 1) * (dr as int),
                        -1 <= df as int <= 1,
                        -1 <= dr as int <= 1,
                        !(df as int == 0 && dr as int == 0),
                        k + 1 >= 1,
                ;
                // a ray from the new head never returns to the new head
                assert forall|i: int|
                    old(targets)@.len() <= i < targets@.len() implies !ray_reaches(
                        b,
                        cf as int,
                        cr as int,
                        df as int,
                        dr as int,
                        (#[trigger] targets@[i]) as int,
                        (8 - (k + 1)) as nat,
                    ) by {
                    if i < targets@.len() - 1 {
                        assert(targets@[i] == targets_before[i]);
                    } else {
                        assert(targets@[i] == nsq);
                        if ray_reaches(b, cf as int, cr as int, df as int, dr as int, nsq as int,
                            (8 - (k + 1)) as nat) {
                            lemma_ray_line(b, cf as int, cr as int, df as int, dr as int,
                                nsq as int, (8 - (k + 1)) as nat);
                            let kk = ray_steps(b, cf as int, cr as int, df as int, dr as int,
                                nsq as int, (8 - (k + 1)) as nat);
                            assert(kk * (df as int) == 0 && kk * (dr as int) == 0);
                            assert(df as int == 0 && dr as int == 0) by (nonlinear_arith)
                                requires
                                    kk >= 1,
                                    kk * (df as int) == 0,
                                    kk * (dr as int) == 0,
                            ;
                        }
                    }
                }
                k = k + 1;
            }
        } else if fcol == pcol {
            break;
        } else {
            proof {
                lemma_push_contains(caps@, (nsq, found));
            }
            caps.push((nsq, found));
            proof {
                lemma_push_contains(targets@, nsq);
            }
            targets.push(nsq);
            break;
        }
    }
}

/// Attempts the single step of one direction from `sq` (knights and kings),
/// appending the destination and any capture found there.
fn walk_step_dir(
    pos: &Position,
    piece: Piece,
    pcol: Color,
    sq: Sq,
    d: Direction,
    targets: &mut Vec<Sq>,
    caps: &mut Vec<(Sq, Piece)>,
)
    requires
        position_wf(*pos),
        sq_ok(sq as int),
        piece_ok(piece as int),
        spec_piece_base(piece as int) == 3 || spec_piece_base(piece as int) == 6,
        pcol as int == spec_piece_color(piece as int),
        0 <= d < 16,
    ensures
        forall|t: i8| #[trigger] final(targets)@.contains(t) <==> old(targets)@.contains(t)
            || dir_move_dest(pos.placement@, piece as int, sq as int, d as int, t as int),
        forall|e: (i8, i8)| #[trigger] final(caps)@.contains(e) <==> old(caps)@.contains(e) || (
        dir_cap_dest(pos.placement@, piece as int, sq as int, d as int, e.0 as int) && e.1
            == pos.placement@[e.0 as int]),
        old(targets)@.len() <= final(targets)@.len(),
        forall|i: int| 0 <= i < old(targets)@.len() ==> final(targets)@[i] == old(targets)@[i],
        forall|i: int|
            old(targets)@.len() <= i < final(targets)@.len() ==> dir_move_dest(
                pos.placement@,
                piece as int,
                sq as int,
                d as int,
                (#[trigger] final(targets)@[i]) as int,
            ),
        forall|i: int, j: int|
            old(targets)@.len() <= i < j < final(targets)@.len() ==> final(targets)@[i]
                != final(targets)@[j],
        old(caps)@.len() <= final(caps)@.len(),
        forall|i: int| 0 <= i < old(caps)@.len() ==> final(caps)@[i] == old(caps)@[i],
        forall|i: int|
            old(caps)@.len() <= i < final(caps)@.len() ==> dir_cap_dest(
                pos.placement@,
                piece as int,
                sq as int,
                d as int,
                (#[trigger] final(caps)@[i]).0 as int,
            ) && final(caps)@[i].1 == pos.placement@[final(caps)@[i].0 as int],
        forall|i: int, j: int|
            old(caps)@.len() <= i < j < final(caps)@.len() ==> final(caps)@[i].0
                != final(caps)@[j].0,
{
    let ghost b = pos.placement@;
    let fr0 = sq_to_filerank(sq);
    let (df, dr) = dir_delta(d);
    let nf = fr0.f + df;
    let nr = fr0.r + dr;
    if nf < 0 || nf > 7 || nr < 0 || nr > 7 {
        proof {
            assert(!step_ok(sq as int, d as int));
        }
        return ;
    }
    let nsq = fr_to_sq(nf, nr);
    let found = piece_at_sq(pos, nsq);
    let fcol = piece_color(found);
    proof {
        lemma_sq_from_inverse(nf as int, nr as int);
        assert(step_ok(sq as int, d as int));
        assert(step_sq(sq as int, d as int) == nsq as int);
    }
    if fcol == COLOR_EMPTY {
        proof {
            lemma_push_contains(targets@, nsq);
        }
        targets.push(nsq);
    } else if fcol != pcol {
        proof {
            lemma_push_contains(caps@, (nsq, found));
        }
        caps.push((nsq, found));
        proof {
            lemma_push_contains(targets@, nsq);
        }
        targets.push(nsq);
    }
}

/// Appends every pseudo-legal pawn destination from `sq` for a pawn of
/// colour `color`: quiet advances to `targets`, diagonal captures to both
/// `caps` and `targets`.
pub fn pseudo_legal_sqs_for_pawn(
    pos: &Position,
    sq: Sq,
    color: Color,
    targets: &mut Vec<Sq>,
    caps: &mut Vec<(Sq, Piece)>,
)
    requires
        position_wf(*pos),
        sq_ok(sq as int),
        color_ok(color as int),
    ensures
        forall|t: i8| #[trigger] final(targets)@.contains(t) <==> old(targets)@.contains(t)
            || pawn_plain_dest(pos.placement@, color as int, sq as int, t as int)
            || pawn_capture_dest(pos.placement@, color as int, sq as int, t as int),
        forall|e: (i8, i8)| #[trigger] final(caps)@.contains(e) <==> old(caps)@.contains(e) || (
        pawn_capture_dest(pos.placement@, color as int, sq as int, e.0 as int) && e.1
            == pos.placement@[e.0 as int]),
        old(targets)@.len() <= final(targets)@.len(),
        forall|i: int| 0 <= i < old(targets)@.len() ==> final(targets)@[i] == old(targets)@[i],
        forall|i: int, j: int|
            old(targets)@.len() <= i < j < final(targets)@.len() ==> final(targets)@[i]
                != final(targets)@[j],
        old(caps)@.len() <= final(caps)@.len(),
        forall|i: int| 0 <= i < old(caps)@.len() ==> final(caps)@[i] == old(caps)@[i],
        forall|i: int, j: int|
            old(caps)@.len() <= i < j < final(caps)@.len() ==> final(caps)@[i].0
                != final(caps)@[j].0,
{
    let ghost b = pos.placement@;
    let ghost c = color as int;
    let fr0 = sq_to_filerank(sq);
    let f = fr0.f;
    let r = fr0.r;
    let fwd: i8 = if color == COLOR_WHITE {
        1
    } else {
        -1
    };
    let start_rank: i8 = if color == COLOR_WHITE {
        1
    } else {
        6
    };
    proof {
        assert(fwd as int == fwd_dr(c));
        assert(start_rank as int == pawn_start_rank(c));
    }
    // One square forward, and two from the starting rank.
    if 0 <= r + fwd && r + fwd <= 7 {
        let one = fr_to_sq(f, r + fwd);
        if piece_at_sq(pos, one) == EMPTY {
            proof {
                lemma_push_contains(targets@, one);
            }
            targets.push(one);
            if r == start_rank {
                let two = fr_to_sq(f, r + 2 * fwd);
                if piece_at_sq(pos, two) == EMPTY {
                    proof {
                        lemma_push_contains(targets@, two);
                    }
                    targets.push(two);
                }
            }
        }
    }
    // Diagonal-forward captures.
    if 0 <= r + fwd && r + fwd <= 7 && f + 1 <= 7 {
        let csq = fr_to_sq(f + 1, r + fwd);
        let found = piece_at_sq(pos, csq);
        if piece_color(found) == -color {
            proof {
                lemma_push_contains(caps@, (csq, found));
            }
            caps.push((csq, found));
            proof {
                lemma_push_contains(targets@, csq);
            }
            targets.push(csq);
        }
    }
    if 0 <= r + fwd && r + fwd <= 7 && f - 1 >= 0 {
        let csq = fr_to_sq(f - 1, r + fwd);
        let found = piece_at_sq(pos, csq);
        if piece_color(found) == -color {
            proof {
                lemma_push_contains(caps@, (csq, found));
            }
            caps.push((csq, found));
            proof {
                lemma_push_contains(targets@, csq);
            }
            targets.push(csq);
        }
    }
}

/// The effective piece the generator moves: the override when given, else
/// the piece standing on the square.
pub open spec fn gen_piece(b: Seq<i8>, sq: int, ovr: Option<i8>) -> int {
    match ovr {
        Some(p) => p as int,
        None => b[sq] as int,
    }
}

pub proof fn lemma_dir_reaches_ok(b: Seq<i8>, base: int, from: int, d: int, t: int)
    requires
        dir_reaches(b, base, from, d, t),
        sq_ok(from),
    ensures
        sq_ok(t),
{
    if slides(base) {
        lemma_ray_target_ok(b, file_of(from), rank_of(from), dir_df(d), dir_dr(d), t, 8);
    } else {
        lemma_sq_decompose(from);
        lemma_sq_from_inverse(file_of(from) + dir_df(d), rank_of(from) + dir_dr(d));
    }
}

/// Every movement destination is on the board.
pub proof fn lemma_move_dest_ok(b: Seq<i8>, p: int, from: int, t: int)
    requires
        move_dest(b, p, from, t),
        sq_ok(from),
    ensures
        sq_ok(t),
{
    if spec_piece_base(p) == 1 {
        let c = spec_piece_color(p);
        let f = file_of(from);
        let r = rank_of(from);
        if on_board(f, r + fwd_dr(c)) {
            lemma_sq_from_inverse(f, r + fwd_dr(c));
        }
        if on_board(f, r + 2 * fwd_dr(c)) {
            lemma_sq_from_inverse(f, r + 2 * fwd_dr(c));
        }
        if on_board(f + 1, r + fwd_dr(c)) {
            lemma_sq_from_inverse(f + 1, r + fwd_dr(c));
        }
        if on_board(f - 1, r + fwd_dr(c)) {
            lemma_sq_from_inverse(f - 1, r + fwd_dr(c));
        }
    } else {
        let base = spec_piece_base(p);
        let d = choose|d: int|
            dir_lo(base) <= d < dir_hi(base) && #[trigger] dir_reaches(b, base, from, d, t);
        lemma_dir_reaches_ok(b, base, from, d, t);
    }
}

/// Generates every square the effective piece on `sq` could move or capture
/// to under pure movement geometry, ignoring king safety.  The first vector
/// holds all destinations (quiet and capturing); the second holds the
/// capture destinations with the piece found there.
pub fn pseudo_legal_sqs_from_sq(
    pos: &Position,
    sq: Sq,
    piece_override: Option<Piece>,
) -> (res: (Vec<Sq>, Vec<(Sq, Piece)>))
    requires
        position_wf(*pos),
        sq_ok(sq as int),
        match piece_override {
            Some(p) => piece_ok(p as int) && p != 0,
            None => pos.placement@[sq as int] != 0,
        },
    ensures
        forall|t: i8| #[trigger] res.0@.contains(t) <==> move_dest(
            pos.placement@,
            gen_piece(pos.placement@, sq as int, piece_override),
            sq as int,
            t as int,
        ),
        forall|e: (i8, i8)| #[trigger] res.1@.contains(e) <==> capture_dest(
            pos.placement@,
            gen_piece(pos.placement@, sq as int, piece_override),
            sq as int,
            e.0 as int,
        ) && e.1 == pos.placement@[e.0 as int],
        forall|i: int, j: int| 0 <= i < j < res.0@.len() ==> res.0@[i] != res.0@[j],
        forall|i: int, j: int| 0 <= i < j < res.1@.len() ==> res.1@[i].0 != res.1@[j].0,
{
    let ghost b = pos.placement@;
    let piece = match piece_override {
        Some(p) => p,
        None => piece_at_sq(pos, sq),
    };
    let ghost p = piece as int;
    let pcol = piece_color(piece);
    let pb = piece_base(piece);
    let mut targets: Vec<Sq> = Vec::new();
    let mut caps: Vec<(Sq, Piece)> = Vec::new();
    if pb == P_BASE {
        pseudo_legal_sqs_for_pawn(pos, sq, pcol, &mut targets, &mut caps);
        return (targets, caps);
    }
    let lo: i8 = if pb == N_BASE {
        8
    } else if pb == B_BASE {
        4
    } else {
        0
    };
    let hi: i8 = if pb == R_BASE {
        4
    } else if pb == N_BASE {
        16
    } else {
        8
    };
    let slide = pb == R_BASE || pb == B_BASE || pb == Q_BASE;
    let mut d: i8 = lo;
    while d < hi
        invariant
            position_wf(*pos),
            b == pos.placement@,
            p == piece as int,
            piece_ok(p),
            2 <= spec_piece_base(p) <= 6,
            pcol as int == spec_piece_color(p),
            lo as int == dir_lo(spec_piece_base(p)),
            hi as int == dir_hi(spec_piece_base(p)),
            slide == slides(spec_piece_base(p)),
            lo <= d <= hi,
            sq_ok(sq as int),
            forall|t: i8| #[trigger] targets@.contains(t) <==> (exists|dd: int|
                lo as int <= dd < d as int && #[trigger] dir_move_dest(b, p, sq as int, dd, t as int)),
            forall|e: (i8, i8)| #[trigger] caps@.contains(e) <==> (exists|dd: int|
                lo as int <= dd < d as int && #[trigger] dir_cap_dest(b, p, sq as int, dd, e.0 as int))
                && e.1 == b[e.0 as int],
            forall|i: int, j: int| 0 <= i < j < targets@.len() ==> targets@[i] != targets@[j],
            forall|i: int, j: int| 0 <= i < j < caps@.len() ==> caps@[i].0 != caps@[j].0,
        decreases hi - d,
    {
        let ghost targets_before = targets@;
        let ghost caps_before = caps@;
        if slide {
            walk_slide_dir(pos, piece, pcol, sq, d, &mut targets, &mut caps);
        } else {
            walk_step_dir(pos, piece, pcol, sq, d, &mut targets, &mut caps);
        }
        proof {
            assert forall|i: int, j: int| 0 <= i < j < targets@.len() implies targets@[i]
                != targets@[j] by {
                if j < targets_before.len() {
                    assert(targets@[i] == targets_before[i]);
                    assert(targets@[j] == targets_before[j]);
                } else if i < targets_before.len() {
                    assert(targets@[i] == targets_before[i]);
                    assert(targets_before.contains(targets_before[i]));
                    if targets@[i] == targets@[j] {
                        let dd = choose|dd: int|
                            lo as int <= dd < d as int && #[trigger] dir_move_dest(
                                b,
                                p,
                                sq as int,
                                dd,
                                targets_before[i] as int,
                            );
                        assert(dir_move_dest(b, p, sq as int, d as int, targets@[j] as int));
                        lemma_dir_reaches_disjoint(
                            b,
                            spec_piece_base(p),
                            sq as int,
                            dd,
                            d as int,
                            targets@[j] as int,
                        );
                    }
                }
            }
            assert forall|i: int, j: int| 0 <= i < j < caps@.len() implies caps@[i].0
                != caps@[j].0 by {
                if j < caps_before.len() {
                    assert(caps@[i] == caps_before[i]);
                    assert(caps@[j] == caps_before[j]);
                } else if i < caps_before.len() {
                    assert(caps@[i] == caps_before[i]);
                    assert(caps_before.contains(caps_before[i]));
                    if caps@[i].0 == caps@[j].0 {
                        let dd = choose|dd: int|
                            lo as int <= dd < d as int && #[trigger] dir_cap_dest(
                                b,
                                p,
                                sq as int,
                                dd,
                                caps_before[i].0 as int,
                            );
                        assert(dir_cap_dest(b, p, sq as int, d as int, caps@[j].0 as int));
                        lemma_dir_reaches_disjoint(
                            b,
                            spec_piece_base(p),
                            sq as int,
                            dd,
                            d as int,
                            caps@[j].0 as int,
                        );
                    }
                }
            }
            assert forall|t: i8| #[trigger] targets@.contains(t) implies (exists|dd: int|
                lo as int <= dd < d as int + 1 && #[trigger] dir_move_dest(
                    b,
                    p,
                    sq as int,
                    dd,
                    t as int,
                )) by {
                if targets_before.contains(t) {
                    let dd = choose|dd: int|
                        lo as int <= dd < d as int && #[trigger] dir_move_dest(
                            b,
                            p,
                            sq as int,
                            dd,
                            t as int,
                        );
                    assert(dir_move_dest(b, p, sq as int, dd, t as int));
                } else {
                    assert(dir_move_dest(b, p, sq as int, d as int, t as int));
                }
            }
            assert forall|t: i8|
                (exists|dd: int|
                    lo as int <= dd < d as int + 1 && #[trigger] dir_move_dest(
                        b,
                        p,
                        sq as int,
                        dd,
                        t as int,
                    )) implies #[trigger] targets@.contains(t) by {
                let dd = choose|dd: int|
                    lo as int <= dd < d as int + 1 && #[trigger] dir_move_dest(
                        b,
                        p,
                        sq as int,
                        dd,
                        t as int,
                    );
                if dd < d as int {
                    assert(targets_before.contains(t));
                }
            }
            assert forall|e: (i8, i8)| #[trigger] caps@.contains(e) implies ((exists|dd: int|
                lo as int <= dd < d as int + 1 && #[trigger] dir_cap_dest(
                    b,
                    p,
                    sq as int,
                    dd,
                    e.0 as int,
                )) && e.1 == b[e.0 as int]) by {
                if caps_before.contains(e) {
                    let dd = choose|dd: int|
                        lo as int <= dd < d as int && #[trigger] dir_cap_dest(
                            b,
                            p,
                            sq as int,
                            dd,
                            e.0 as int,
                        );
                    assert(dir_cap_dest(b, p, sq as int, dd, e.0 as int));
                } else {
                    assert(dir_cap_dest(b, p, sq as int, d as int, e.0 as int));
                }
            }
            assert forall|e: (i8, i8)|
                ((exists|dd: int|
                    lo as int <= dd < d as int + 1 && #[trigger] dir_cap_dest(
                        b,
                        p,
                        sq as int,
                        dd,
                        e.0 as int,
                    )) && e.1 == b[e.0 as int]) implies #[trigger] caps@.contains(e) by {
                let dd = choose|dd: int|
                    lo as int <= dd < d as int + 1 && #[trigger] dir_cap_dest(
                        b,
                        p,
                        sq as int,
                        dd,
                        e.0 as int,
                    );
                if dd < d as int {
                    assert(caps_before.contains(e));
                }
            }
        }
        d = d + 1;
    }
    proof {
        assert forall|t: i8| #[trigger] targets@.contains(t) implies move_dest(
            b,
            p,
            sq as int,
            t as int,
        ) by {
            let dd = choose|dd: int|
                lo as int <= dd < hi as int && #[trigger] dir_move_dest(b, p, sq as int, dd, t as int);
            lemma_dir_reaches_ok(b, spec_piece_base(p), sq as int, dd, t as int);
        }
        assert forall|t: i8| move_dest(b, p, sq as int, t as int) implies #[trigger] targets@.contains(
            t,
        ) by {
            let dd = choose|dd: int|
                dir_lo(spec_piece_base(p)) <= dd < dir_hi(spec_piece_base(p))
                    && #[trigger] dir_reaches(b, spec_piece_base(p), sq as int, dd, t as int);
            assert(dir_move_dest(b, p, sq as int, dd, t as int));
        }
        assert forall|e: (i8, i8)| #[trigger] caps@.contains(e) implies capture_dest(
            b,
            p,
            sq as int,
            e.0 as int,
        ) && e.1 == b[e.0 as int] by {
            let dd = choose|dd: int|
                lo as int <= dd < hi as int && #[trigger] dir_cap_dest(b, p, sq as int, dd, e.0 as int);
            lemma_dir_reaches_ok(b, spec_piece_base(p), sq as int, dd, e.0 as int);
        }
        assert forall|e: (i8, i8)|
            capture_dest(b, p, sq as int, e.0 as int) && e.1 == b[e.0 as int] implies #[trigger] caps@.contains(
            e,
        ) by {
            let dd = choose|dd: int|
                dir_lo(spec_piece_base(p)) <= dd < dir_hi(spec_piece_base(p))
                    && #[trigger] dir_reaches(b, spec_piece_base(p), sq as int, dd, e.0 as int);
            assert(dir_cap_dest(b, p, sq as int, dd, e.0 as int));
        }
    }
    (targets, caps)
}

} // verus!
