//! Board geometry: squares as integers 0..64 (file = square mod 8, rank =
//! square div 8), the sixteen movement directions (four orthogonal, four
//! diagonal, eight knight leaps), single steps of a direction, and rays that
//! repeat a direction over empty squares.

use vstd::prelude::*;

verus! {

pub type Sq = i8;
pub type Direction = i8;
pub type Rank = i8;

pub const DIR_U: Direction = 0;
pub const DIR_R: Direction = 1;
pub const DIR_D: Direction = 2;
pub const DIR_L: Direction = 3;
pub const DIR_UR: Direction = 4;
pub const DIR_DR: Direction = 5;
pub const DIR_DL: Direction = 6;
pub const DIR_UL: Direction = 7;
pub const DIR_NUR: Direction = 8;
pub const DIR_NRU: Direction = 9;
pub const DIR_NRD: Direction = 10;
pub const DIR_NDR: Direction = 11;
pub const DIR_NDL: Direction = 12;
pub const DIR_NLD: Direction = 13;
pub const DIR_NLU: Direction = 14;
pub const DIR_NUL: Direction = 15;

/// A file/rank coordinate pair; on the board both lie in 0..8.
pub struct FileRank {
    pub f: i8,
    pub r: i8,
}

pub open spec fn sq_ok(s: int) -> bool {
    0 <= s < 64
}

pub open spec fn on_board(f: int, r: int) -> bool {
    0 <= f < 8 && 0 <= r < 8
}

pub open spec fn file_of(s: int) -> int {
    s % 8
}

pub open spec fn rank_of(s: int) -> int {
    s / 8
}

pub open spec fn sq_from(f: int, r: int) -> int {
    8 * r + f
}

/// File delta of one step of a direction.
pub open spec fn dir_df(d: int) -> int {
    if d == 0 { 0 } else if d == 1 { 1 } else if d == 2 { 0 } else if d == 3 { -1 }
    else if d == 4 { 1 } else if d == 5 { 1 } else if d == 6 { -1 } else if d == 7 { -1 }
    else if d == 8 { 1 } else if d == 9 { 2 } else if d == 10 { 2 } else if d == 11 { 1 }
    else if d == 12 { -1 } else if d == 13 { -2 } else if d == 14 { -2 } else { -1 }
}

/// Rank delta of one step of a direction.
pub open spec fn dir_dr(d: int) -> int {
    if d == 0 { 1 } else if d == 1 { 0 } else if d == 2 { -1 } else if d == 3 { 0 }
    else if d == 4 { 1 } else if d == 5 { -1 } else if d == 6 { -1 } else if d == 7 { 1 }
    else if d == 8 { 2 } else if d == 9 { 1 } else if d == 10 { -1 } else if d == 11 { -2 }
    else if d == 12 { -2 } else if d == 13 { -1 } else if d == 14 { 1 } else { 2 }
}

pub open spec fn knight_dir(d: int) -> bool {
    8 <= d < 16
}

/// The direction that undoes one step of `d`.
pub open spec fn opp_dir(d: int) -> int {
    if d == 0 { 2 } else if d == 1 { 3 } else if d == 2 { 0 } else if d == 3 { 1 }
    else if d == 4 { 6 } else if d == 5 { 7 } else if d == 6 { 4 } else if d == 7 { 5 }
    else if d == 8 { 12 } else if d == 9 { 13 } else if d == 10 { 14 } else if d == 11 { 15 }
    else if d == 12 { 8 } else if d == 13 { 9 } else if d == 14 { 10 } else { 11 }
}

/// Whether one step of `d` from square `s` stays on the board.
pub open spec fn step_ok(s: int, d: int) -> bool {
    on_board(file_of(s) + dir_df(d), rank_of(s) + dir_dr(d))
}

/// The square one step of `d` away from `s`.
pub open spec fn step_sq(s: int, d: int) -> int {
    sq_from(file_of(s) + dir_df(d), rank_of(s) + dir_dr(d))
}

/// Square `t` lies along direction `(df, dr)` from `(f, r)`, every square
/// strictly between them is on the board and empty, and at most `fuel` steps
/// are taken.  This is the reach of a sliding piece: the first occupied
/// square on the ray is still reached, squares beyond it are not.
pub open spec fn ray_reaches(
    b: Seq<i8>,
    f: int,
    r: int,
    df: int,
    dr: int,
    t: int,
    fuel: nat,
) -> bool
    decreases fuel,
{
    if fuel == 0 {
        false
    } else {
        let f1 = f + df;
        let r1 = r + dr;
        if !on_board(f1, r1) {
            false
        } else if sq_from(f1, r1) == t {
            true
        } else if b[sq_from(f1, r1)] != 0 {
            false
        } else {
            ray_reaches(b, f1, r1, df, dr, t, (fuel - 1) as nat)
        }
    }
}

pub proof fn lemma_sq_from_inverse(f: int, r: int)
    requires
        on_board(f, r),
    ensures
        sq_ok(sq_from(f, r)),
        file_of(sq_from(f, r)) == f,
        rank_of(sq_from(f, r)) == r,
{
}

pub proof fn lemma_sq_decompose(s: int)
    requires
        sq_ok(s),
    ensures
        on_board(file_of(s), rank_of(s)),
        sq_from(file_of(s), rank_of(s)) == s,
{
}

pub proof fn lemma_sq_from_injective(f1: int, r1: int, f2: int, r2: int)
    requires
        on_board(f1, r1),
        on_board(f2, r2),
        sq_from(f1, r1) == sq_from(f2, r2),
    ensures
        f1 == f2,
        r1 == r2,
{
}

pub proof fn lemma_opp_dir(d: int)
    requires
        0 <= d < 16,
    ensures
        dir_df(opp_dir(d)) == -dir_df(d),
        dir_dr(opp_dir(d)) == -dir_dr(d),
        opp_dir(opp_dir(d)) == d,
        0 <= d < 4 ==> 0 <= opp_dir(d) < 4,
        4 <= d < 8 ==> 4 <= opp_dir(d) < 8,
        8 <= d < 16 ==> 8 <= opp_dir(d) < 16,
{
}

/// One step of each direction, as (file delta, rank delta).
pub fn dir_delta(d: Direction) -> (res: (i8, i8))
    requires
        0 <= d < 16,
    ensures
        res.0 as int == dir_df(d as int),
        res.1 as int == dir_dr(d as int),
{
    match d {
        0 => (0, 1),
        1 => (1, 0),
        2 => (0, -1),
        3 => (-1, 0),
        4 => (1, 1),
        5 => (1, -1),
        6 => (-1, -1),
        7 => (-1, 1),
        8 => (1, 2),
        9 => (2, 1),
        10 => (2, -1),
        11 => (1, -2),
        12 => (-1, -2),
        13 => (-2, -1),
        14 => (-2, 1),
        _ => (-1, 2),
    }
}

pub fn sq_to_filerank(sq: Sq) -> (fr: FileRank)
    requires
        sq_ok(sq as int),
    ensures
        fr.f as int == file_of(sq as int),
        fr.r as int == rank_of(sq as int),
        on_board(fr.f as int, fr.r as int),
{
    FileRank { f: sq % 8, r: sq / 8 }
}

pub fn filerank_to_sq(filerank: &FileRank) -> (sq: Sq)
    requires
        on_board(filerank.f as int, filerank.r as int),
    ensures
        sq as int == sq_from(filerank.f as int, filerank.r as int),
        sq_ok(sq as int),
{
    8 * filerank.r + filerank.f
}

pub fn fr_to_sq(f: i8, r: Rank) -> (sq: Sq)
    requires
        on_board(f as int, r as int),
    ensures
        sq as int == sq_from(f as int, r as int),
        sq_ok(sq as int),
{
    8 * r + f
}

/// How many steps of the direction the ray takes from `(f, r)` before it
/// hits `t` (meaningful when the ray reaches `t` at all).
pub open spec fn ray_steps(b: Seq<i8>, f: int, r: int, df: int, dr: int, t: int, fuel: nat) -> int
    decreases fuel,
{
    if fuel == 0 {
        0
    } else {
        let f1 = f + df;
        let r1 = r + dr;
        if !on_board(f1, r1) {
            0
        } else if sq_from(f1, r1) == t {
            1
        } else if b[sq_from(f1, r1)] != 0 {
            0
        } else {
            1 + ray_steps(b, f1, r1, df, dr, t, (fuel - 1) as nat)
        }
    }
}

/// Every square a ray reaches lies on the direction's line: a whole number
/// of steps (at least one) away from the starting point.
pub proof fn lemma_ray_line(b: Seq<i8>, f: int, r: int, df: int, dr: int, t: int, fuel: nat)
    requires
        ray_reaches(b, f, r, df, dr, t, fuel),
    ensures
        1 <= ray_steps(b, f, r, df, dr, t, fuel) <= fuel,
        file_of(t) == f + ray_steps(b, f, r, df, dr, t, fuel) * df,
        rank_of(t) == r + ray_steps(b, f, r, df, dr, t, fuel) * dr,
    decreases fuel,
{
    let f1 = f + df;
    let r1 = r + dr;
    let k = ray_steps(b, f, r, df, dr, t, fuel);
    if sq_from(f1, r1) == t {
        lemma_sq_from_inverse(f1, r1);
        assert(1 * df == df) by (nonlinear_arith);
        assert(1 * dr == dr) by (nonlinear_arith);
    } else {
        lemma_ray_line(b, f1, r1, df, dr, t, (fuel - 1) as nat);
        let k1 = ray_steps(b, f1, r1, df, dr, t, (fuel - 1) as nat);
        assert(k == k1 + 1);
        assert((k1 + 1) * df == k1 * df + df) by (nonlinear_arith);
        assert((k1 + 1) * dr == k1 * dr + dr) by (nonlinear_arith);
    }
}

/// A ray never reads the square it set out from: overwriting a square that
/// lies `m` whole steps behind the ray's current head (the head itself
/// included) changes nothing about what the ray reaches.
pub proof fn lemma_ray_update_start(
    b: Seq<i8>,
    f: int,
    r: int,
    df: int,
    dr: int,
    t: int,
    fuel: nat,
    s0: int,
    q: i8,
    m: int,
)
    requires
        b.len() == 64,
        sq_ok(s0),
        !(df == 0 && dr == 0),
        m >= 0,
        f == file_of(s0) + m * df,
        r == rank_of(s0) + m * dr,
    ensures
        ray_reaches(b.update(s0, q), f, r, df, dr, t, fuel) == ray_reaches(
            b,
            f,
            r,
            df,
            dr,
            t,
            fuel,
        ),
    decreases fuel,
{
    if fuel > 0 {
        let f1 = f + df;
        let r1 = r + dr;
        if on_board(f1, r1) {
            assert((m + 1) * df == m * df + df) by (nonlinear_arith);
            assert((m + 1) * dr == m * dr + dr) by (nonlinear_arith);
            lemma_sq_decompose(s0);
            assert(sq_from(f1, r1) != s0) by {
                if sq_from(f1, r1) == s0 {
                    lemma_sq_from_injective(f1, r1, file_of(s0), rank_of(s0));
                    assert(df == 0 && dr == 0) by (nonlinear_arith)
                        requires
                            m + 1 >= 1,
                            (m + 1) * df == 0,
                            (m + 1) * dr == 0,
                    ;
                }
            }
            lemma_ray_update_start(b, f1, r1, df, dr, t, (fuel - 1) as nat, s0, q, m + 1);
        }
    }
}

/// A ray that reaches an empty square `(fx, rx)` also reaches the square one
/// step beyond it, with one more step of fuel.
pub proof fn lemma_ray_through(
    b: Seq<i8>,
    f: int,
    r: int,
    df: int,
    dr: int,
    fx: int,
    rx: int,
    fuel: nat,
)
    requires
        ray_reaches(b, f, r, df, dr, sq_from(fx, rx), fuel),
        on_board(fx, rx),
        b[sq_from(fx, rx)] == 0,
        on_board(fx + df, rx + dr),
        !(df == 0 && dr == 0),
    ensures
        ray_reaches(b, f, r, df, dr, sq_from(fx + df, rx + dr), fuel + 1),
    decreases fuel,
{
    let f1 = f + df;
    let r1 = r + dr;
    let x = sq_from(fx, rx);
    let y = sq_from(fx + df, rx + dr);
    if sq_from(f1, r1) == x {
        lemma_sq_from_injective(f1, r1, fx, rx);
        assert(y != x) by {
            if y == x {
                lemma_sq_from_injective(fx + df, rx + dr, fx, rx);
            }
        }
        assert(ray_reaches(b, fx, rx, df, dr, y, fuel));
    } else {
        lemma_ray_through(b, f1, r1, df, dr, fx, rx, (fuel - 1) as nat);
    }
}

/// Ray reach is symmetric: if a ray from `(f, r)` reaches `t`, the reversed
/// ray from `t` reaches the square `(f, r)`, with the same fuel.  The squares
/// strictly between the two endpoints are the same either way.
pub proof fn lemma_ray_reverse(
    b: Seq<i8>,
    f: int,
    r: int,
    df: int,
    dr: int,
    t: int,
    fuel: nat,
)
    requires
        ray_reaches(b, f, r, df, dr, t, fuel),
        on_board(f, r),
        !(df == 0 && dr == 0),
    ensures
        sq_ok(t),
        ray_reaches(b, file_of(t), rank_of(t), -df, -dr, sq_from(f, r), fuel),
    decreases fuel,
{
    let f1 = f + df;
    let r1 = r + dr;
    lemma_sq_from_inverse(f1, r1);
    if sq_from(f1, r1) == t {
        assert(ray_reaches(b, f1, r1, -df, -dr, sq_from(f, r), fuel));
    } else {
        lemma_ray_reverse(b, f1, r1, df, dr, t, (fuel - 1) as nat);
        lemma_sq_decompose(t);
        lemma_ray_through(b, file_of(t), rank_of(t), -df, -dr, f1, r1, (fuel - 1) as nat);
    }
}

/// The square one step of `dir` away from `sq`, or `None` when the step
/// leaves the board; knight directions are single-shot and never chain, so
/// they always report `None` here.
pub fn next_sq_in_dir(sq: Sq, dir: Direction) -> (r: Option<Sq>)
    requires
        sq_ok(sq as int),
        0 <= dir < 16,
    ensures
        r is Some <==> !knight_dir(dir as int) && step_ok(sq as int, dir as int),
        r is Some ==> r->Some_0 as int == step_sq(sq as int, dir as int),
{
    let filerank = sq_to_filerank(sq);
    let (df, dr) = dir_delta(dir);
    let f: i8 = filerank.f + df;
    let rk: i8 = filerank.r + dr;
    if dir >= 8 || f < 0 || f > 7 || rk < 0 || rk > 7 {
        None
    } else {
        Some(fr_to_sq(f, rk))
    }
}

pub fn apply_dir_u(fr: &mut FileRank) -> (off: bool)
    requires
        old(fr).r < i8::MAX,
    ensures
        final(fr).f == old(fr).f,
        final(fr).r == old(fr).r + 1,
        off == (old(fr).r + 1 > 7),
{
    fr.r = fr.r + 1;
    fr.r > 7
}

pub fn apply_dir_r(fr: &mut FileRank) -> (off: bool)
    requires
        old(fr).f < i8::MAX,
    ensures
        final(fr).r == old(fr).r,
        final(fr).f == old(fr).f + 1,
        off == (old(fr).f + 1 > 7),
{
    fr.f = fr.f + 1;
    fr.f > 7
}

pub fn apply_dir_d(fr: &mut FileRank) -> (off: bool)
    requires
        old(fr).r > i8::MIN,
    ensures
        final(fr).f == old(fr).f,
        final(fr).r == old(fr).r - 1,
        off == (old(fr).r - 1 < 0),
{
    fr.r = fr.r - 1;
    fr.r < 0
}

pub fn apply_dir_l(fr: &mut FileRank) -> (off: bool)
    requires
        old(fr).f > i8::MIN,
    ensures
        final(fr).r == old(fr).r,
        final(fr).f == old(fr).f - 1,
        off == (old(fr).f - 1 < 0),
{
    fr.f = fr.f - 1;
    fr.f < 0
}

pub fn apply_dir_ur(fr: &mut FileRank) -> (off: bool)
    requires
        old(fr).r < i8::MAX,
        old(fr).f < i8::MAX,
    ensures
        final(fr).r == old(fr).r + 1,
        old(fr).r + 1 > 7 ==> final(fr).f == old(fr).f && off,
        old(fr).r + 1 <= 7 ==> final(fr).f == old(fr).f + 1 && off == (old(fr).f + 1 > 7),
{
    apply_dir_u(fr) || apply_dir_r(fr)
}

pub fn apply_dir_dr(fr: &mut FileRank) -> (off: bool)
    requires
        old(fr).r > i8::MIN,
        old(fr).f < i8::MAX,
    ensures
        final(fr).r == old(fr).r - 1,
        old(fr).r - 1 < 0 ==> final(fr).f == old(fr).f && off,
        old(fr).r - 1 >= 0 ==> final(fr).f == old(fr).f + 1 && off == (old(fr).f + 1 > 7),
{
    apply_dir_d(fr) || apply_dir_r(fr)
}

pub fn apply_dir_dl(fr: &mut FileRank) -> (off: bool)
    requires
        old(fr).r > i8::MIN,
        old(fr).f > i8::MIN,
    ensures
        final(fr).r == old(fr).r - 1,
        old(fr).r - 1 < 0 ==> final(fr).f == old(fr).f && off,
        old(fr).r - 1 >= 0 ==> final(fr).f == old(fr).f - 1 && off == (old(fr).f - 1 < 0),
{
    apply_dir_d(fr) || apply_dir_l(fr)
}

pub fn apply_dir_ul(fr: &mut FileRank) -> (off: bool)
    requires
        old(fr).r < i8::MAX,
        old(fr).f > i8::MIN,
    ensures
        final(fr).r == old(fr).r + 1,
        old(fr).r + 1 > 7 ==> final(fr).f == old(fr).f && off,
        old(fr).r + 1 <= 7 ==> final(fr).f == old(fr).f - 1 && off == (old(fr).f - 1 < 0),
{
    apply_dir_u(fr) || apply_dir_l(fr)
}

pub fn apply_dir_nur(fr: &mut FileRank) -> (off: bool)
    requires
        old(fr).r < i8::MAX - 1,
        old(fr).f < i8::MAX,
    ensures
        old(fr).r + 1 > 7 ==> final(fr).f == old(fr).f && final(fr).r == old(fr).r + 1 && off,
        old(fr).r + 1 <= 7 && old(fr).r + 2 > 7 ==> final(fr).f == old(fr).f && final(fr).r
            == old(fr).r + 2 && off,
        old(fr).r + 2 <= 7 ==> final(fr).f == old(fr).f + 1 && final(fr).r == old(fr).r + 2 && off
            == (old(fr).f + 1 > 7),
{
    apply_dir_u(fr) || apply_dir_u(fr) || apply_dir_r(fr)
}

pub fn apply_dir_nru(fr: &mut FileRank) -> (off: bool)
    requires
        old(fr).f < i8::MAX - 1,
        old(fr).r < i8::MAX,
    ensures
        old(fr).f + 1 > 7 ==> final(fr).r == old(fr).r && final(fr).f == old(fr).f + 1 && off,
        old(fr).f + 1 <= 7 && old(fr).f + 2 > 7 ==> final(fr).r == old(fr).r && final(fr).f
            == old(fr).f + 2 && off,
        old(fr).f + 2 <= 7 ==> final(fr).r == old(fr).r + 1 && final(fr).f == old(fr).f + 2 && off
            == (old(fr).r + 1 > 7),
{
    apply_dir_r(fr) || apply_dir_r(fr) || apply_dir_u(fr)
}

pub fn apply_dir_nrd(fr: &mut FileRank) -> (off: bool)
    requires
        old(fr).f < i8::MAX - 1,
        old(fr).r > i8::MIN,
    ensures
        old(fr).f + 1 > 7 ==> final(fr).r == old(fr).r && final(fr).f == old(fr).f + 1 && off,
        old(fr).f + 1 <= 7 && old(fr).f + 2 > 7 ==> final(fr).r == old(fr).r && final(fr).f
            == old(fr).f + 2 && off,
        old(fr).f + 2 <= 7 ==> final(fr).r == old(fr).r - 1 && final(fr).f == old(fr).f + 2 && off
            == (old(fr).r - 1 < 0),
{
    apply_dir_r(fr) || apply_dir_r(fr) || apply_dir_d(fr)
}

pub fn apply_dir_ndr(fr: &mut FileRank) -> (off: bool)
    requires
        old(fr).r > i8::MIN + 1,
        old(fr).f < i8::MAX,
    ensures
        old(fr).r - 1 < 0 ==> final(fr).f == old(fr).f && final(fr).r == old(fr).r - 1 && off,
        old(fr).r - 1 >= 0 && old(fr).r - 2 < 0 ==> final(fr).f == old(fr).f && final(fr).r
            == old(fr).r - 2 && off,
        old(fr).r - 2 >= 0 ==> final(fr).f == old(fr).f + 1 && final(fr).r == old(fr).r - 2 && off
            == (old(fr).f + 1 > 7),
{
    apply_dir_d(fr) || apply_dir_d(fr) || apply_dir_r(fr)
}

pub fn apply_dir_ndl(fr: &mut FileRank) -> (off: bool)
    requires
        old(fr).r > i8::MIN + 1,
        old(fr).f > i8::MIN,
    ensures
        old(fr).r - 1 < 0 ==> final(fr).f == old(fr).f && final(fr).r == old(fr).r - 1 && off,
        old(fr).r - 1 >= 0 && old(fr).r - 2 < 0 ==> final(fr).f == old(fr).f && final(fr).r
            == old(fr).r - 2 && off,
        old(fr).r - 2 >= 0 ==> final(fr).f == old(fr).f - 1 && final(fr).r == old(fr).r - 2 && off
            == (old(fr).f - 1 < 0),
{
    apply_dir_d(fr) || apply_dir_d(fr) || apply_dir_l(fr)
}

pub fn apply_dir_nld(fr: &mut FileRank) -> (off: bool)
    requires
        old(fr).f > i8::MIN + 1,
        old(fr).r > i8::MIN,
    ensures
        old(fr).f - 1 < 0 ==> final(fr).r == old(fr).r && final(fr).f == old(fr).f - 1 && off,
        old(fr).f - 1 >= 0 && old(fr).f - 2 < 0 ==> final(fr).r == old(fr).r && final(fr).f
            == old(fr).f - 2 && off,
        old(fr).f - 2 >= 0 ==> final(fr).r == old(fr).r - 1 && final(fr).f == old(fr).f - 2 && off
            == (old(fr).r - 1 < 0),
{
    apply_dir_l(fr) || apply_dir_l(fr) || apply_dir_d(fr)
}

pub fn apply_dir_nlu(fr: &mut FileRank) -> (off: bool)
    requires
        old(fr).f > i8::MIN + 1,
        old(fr).r < i8::MAX,
    ensures
        old(fr).f - 1 < 0 ==> final(fr).r == old(fr).r && final(fr).f == old(fr).f - 1 && off,
        old(fr).f - 1 >= 0 && old(fr).f - 2 < 0 ==> final(fr).r == old(fr).r && final(fr).f
            == old(fr).f - 2 && off,
        old(fr).f - 2 >= 0 ==> final(fr).r == old(fr).r + 1 && final(fr).f == old(fr).f - 2 && off
            == (old(fr).r + 1 > 7),
{
    apply_dir_l(fr) || apply_dir_l(fr) || apply_dir_u(fr)
}

pub fn apply_dir_nul(fr: &mut FileRank) -> (off: bool)
    requires
        old(fr).r < i8::MAX - 1,
        old(fr).f > i8::MIN,
    ensures
        old(fr).r + 1 > 7 ==> final(fr).f == old(fr).f && final(fr).r == old(fr).r + 1 && off,
        old(fr).r + 1 <= 7 && old(fr).r + 2 > 7 ==> final(fr).f == old(fr).f && final(fr).r
            == old(fr).r + 2 && off,
        old(fr).r + 2 <= 7 ==> final(fr).f == old(fr).f - 1 && final(fr).r == old(fr).r + 2 && off
            == (old(fr).f - 1 < 0),
{
    apply_dir_u(fr) || apply_dir_u(fr) || apply_dir_l(fr)
}

} // verus!
