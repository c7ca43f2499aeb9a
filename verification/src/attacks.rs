//! The squares each kind of piece reaches from a square.
use vstd::prelude::*;
use crate::bits::{bit, in_bb, is_square};
use crate::board::Colour;

verus! {

/// Rook directions: north, south, east, west.
pub const ROOK_DIRS: [(i32, i32); 4] = [(1, 0), (-1, 0), (0, 1), (0, -1)];

/// Bishop directions: north-east, north-west, south-east, south-west.
pub const BISHOP_DIRS: [(i32, i32); 4] = [(1, 1), (1, -1), (-1, 1), (-1, -1)];

pub open spec fn rook_dirs() -> Seq<(i32, i32)> {
    seq![(1i32, 0i32), (-1i32, 0i32), (0i32, 1i32), (0i32, -1i32)]
}

pub open spec fn bishop_dirs() -> Seq<(i32, i32)> {
    seq![(1i32, 1i32), (1i32, -1i32), (-1i32, 1i32), (-1i32, -1i32)]
}

pub open spec fn on_board(r: int, f: int) -> bool {
    0 <= r < 8 && 0 <= f < 8
}

/// The square `(dr, df)` away from rank `r` and file `f`, as a bitboard;
/// empty where that leaves the board.
pub open spec fn step(r: int, f: int, dr: int, df: int) -> u64 {
    if on_board(r + dr, f + df) {
        bit((r + dr) * 8 + f + df)
    } else {
        0
    }
}

/// The squares a knight on `sq` jumps to.
pub open spec fn knight_attacks(sq: int) -> u64 {
    let r = sq / 8;
    let f = sq % 8;
    step(r, f, -2, 1) | step(r, f, -2, -1) | step(r, f, -1, 2) | step(r, f, -1, -2) | step(r, f, 1, 2)
        | step(r, f, 1, -2) | step(r, f, 2, 1) | step(r, f, 2, -1)
}

/// The squares next to `sq`.
pub open spec fn king_attacks(sq: int) -> u64 {
    let r = sq / 8;
    let f = sq % 8;
    step(r, f, -1, -1) | step(r, f, -1, 0) | step(r, f, -1, 1) | step(r, f, 0, -1) | step(r, f, 0, 1)
        | step(r, f, 1, -1) | step(r, f, 1, 0) | step(r, f, 1, 1)
}

/// The rank a pawn of colour `c` moves towards, one rank at a time.
pub open spec fn forward(c: Colour) -> int {
    match c {
        Colour::W => 1,
        Colour::B => -1,
    }
}

/// The rank from which a pawn of colour `c` may advance two squares.
pub open spec fn pawn_start_rank(c: Colour) -> int {
    match c {
        Colour::W => 1,
        Colour::B => 6,
    }
}

/// The squares a pawn of colour `c` on `sq` advances to: one square forward,
/// and two from its starting rank.
pub open spec fn pawn_pushes(c: Colour, sq: int) -> u64 {
    let r = sq / 8;
    let f = sq % 8;
    let d = forward(c);
    step(r, f, d, 0) | (if r == pawn_start_rank(c) {
        step(r, f, 2 * d, 0)
    } else {
        0
    })
}

/// The squares a pawn of colour `c` on `sq` takes on: one square diagonally forward.
pub open spec fn pawn_captures(c: Colour, sq: int) -> u64 {
    let r = sq / 8;
    let f = sq % 8;
    let d = forward(c);
    step(r, f, d, -1) | step(r, f, d, 1)
}

/// How far a ray from `(r, f)` can still go before it leaves the board.
pub open spec fn ray_room(r: int, f: int, dr: int, df: int) -> int {
    if dr > 0 {
        if r >= 8 {
            0
        } else {
            8 - r
        }
    } else if dr < 0 {
        if r < 0 {
            0
        } else {
            r + 1
        }
    } else if df > 0 {
        if f >= 8 {
            0
        } else {
            8 - f
        }
    } else {
        if f < 0 {
            0
        } else {
            f + 1
        }
    }
}

/// The squares a slider on `(r, f)` reaches in direction `(dr, df)`: each
/// square on the way up to and including the first occupied one. The
/// direction `(0, 0)` stays on `(r, f)`: it reaches that square where it is
/// occupied (elsewhere the walk would never end).
pub open spec fn ray(r: int, f: int, dr: int, df: int, occ: u64) -> u64
    decreases ray_room(r, f, dr, df),
{
    let nr = r + dr;
    let nf = f + df;
    if !on_board(nr, nf) {
        0
    } else if in_bb(occ, nr * 8 + nf) {
        bit(nr * 8 + nf)
    } else if dr == 0 && df == 0 {
        0
    } else {
        bit(nr * 8 + nf) | ray(nr, nf, dr, df, occ)
    }
}

/// The squares a slider on `sq` reaches along the first `n` of `dirs`.
pub open spec fn attacks_along(sq: int, occ: u64, dirs: Seq<(i32, i32)>, n: int) -> u64
    decreases n,
{
    if n <= 0 {
        0
    } else {
        attacks_along(sq, occ, dirs, n - 1) | ray(sq / 8, sq % 8, dirs[n - 1].0 as int, dirs[n - 1].1 as int, occ)
    }
}

pub open spec fn bishop_attacks(sq: int, occ: u64) -> u64 {
    attacks_along(sq, occ, bishop_dirs(), 4)
}

pub open spec fn rook_attacks(sq: int, occ: u64) -> u64 {
    attacks_along(sq, occ, rook_dirs(), 4)
}

/// What the piece with index `p` and colour `c` on `sq` may move to when
/// `occ` is occupied (own pieces not yet taken out).
pub open spec fn piece_moves(p: int, c: Colour, sq: int, occ: u64) -> u64 {
    if p == 0 {
        pawn_pushes(c, sq) | (pawn_captures(c, sq) & occ)
    } else if p == 1 {
        knight_attacks(sq)
    } else if p == 2 {
        bishop_attacks(sq, occ)
    } else if p == 3 {
        rook_attacks(sq, occ)
    } else if p == 4 {
        bishop_attacks(sq, occ) | rook_attacks(sq, occ)
    } else {
        king_attacks(sq)
    }
}

/// The one square of a step, where it stays on the board.
pub proof fn lemma_step_holds(r: int, f: int, dr: int, df: int, q: int)
    requires
        is_square(q),
        on_board(r + dr, f + df),
    ensures
        in_bb(step(r, f, dr, df), q) == (q == (r + dr) * 8 + f + df),
{
    crate::bits::lemma_has_ops();
}

/// Square `t` is a step `(dr, df)` away from square `s`.
pub open spec fn steps_to(s: int, t: int, dr: int, df: int) -> bool {
    t / 8 == s / 8 + dr && t % 8 == s % 8 + df
}

proof fn lemma_step_iff(s: int, t: int, dr: int, df: int)
    requires
        is_square(s),
        is_square(t),
    ensures
        in_bb(step(s / 8, s % 8, dr, df), t) == steps_to(s, t, dr, df),
{
    crate::bits::lemma_has_ops();
    if on_board(s / 8 + dr, s % 8 + df) {
        lemma_step_holds(s / 8, s % 8, dr, df, t);
    }
}

/// A pawn advances to exactly these squares: the next square towards the
/// other side (up for white, down for black), and the square after it from
/// its starting rank (the second for white, the seventh for black).
pub proof fn lemma_pawn_pushes_exact(sq: int, t: int)
    requires
        is_square(sq),
        is_square(t),
    ensures
        in_bb(pawn_pushes(Colour::W, sq), t) == (t == sq + 8 || (sq / 8 == 1 && t == sq + 16)),
        in_bb(pawn_pushes(Colour::B, sq), t) == (t == sq - 8 || (sq / 8 == 6 && t == sq - 16)),
{
    crate::bits::lemma_has_ops();
    lemma_step_iff(sq, t, 1, 0);
    lemma_step_iff(sq, t, 2, 0);
    lemma_step_iff(sq, t, -1, 0);
    lemma_step_iff(sq, t, -2, 0);
}

/// A pawn takes on exactly the two squares diagonally ahead of it that are
/// on the board: up for white, down for black.
pub proof fn lemma_pawn_captures_exact(sq: int, t: int)
    requires
        is_square(sq),
        is_square(t),
    ensures
        in_bb(pawn_captures(Colour::W, sq), t) == ((t == sq + 7 && sq % 8 != 0) || (t == sq + 9 && sq
            % 8 != 7)),
        in_bb(pawn_captures(Colour::B, sq), t) == ((t == sq - 9 && sq % 8 != 0) || (t == sq - 7 && sq
            % 8 != 7)),
{
    crate::bits::lemma_has_ops();
    lemma_step_iff(sq, t, 1, -1);
    lemma_step_iff(sq, t, 1, 1);
    lemma_step_iff(sq, t, -1, -1);
    lemma_step_iff(sq, t, -1, 1);
}

/// A knight reaches exactly the squares two ranks and one file, or one rank
/// and two files, away.
pub proof fn lemma_knight_exact(s: int, t: int)
    requires
        is_square(s),
        is_square(t),
    ensures
        in_bb(knight_attacks(s), t) == ({
            let dr = t / 8 - s / 8;
            let df = t % 8 - s % 8;
            ((dr == 2 || dr == -2) && (df == 1 || df == -1)) || ((dr == 1 || dr == -1) && (df == 2 || df
                == -2))
        }),
{
    crate::bits::lemma_has_ops();
    lemma_step_iff(s, t, -2, 1);
    lemma_step_iff(s, t, -2, -1);
    lemma_step_iff(s, t, -1, 2);
    lemma_step_iff(s, t, -1, -2);
    lemma_step_iff(s, t, 1, 2);
    lemma_step_iff(s, t, 1, -2);
    lemma_step_iff(s, t, 2, 1);
    lemma_step_iff(s, t, 2, -1);
}

/// A king reaches exactly the other squares at most one rank and one file away.
pub proof fn lemma_king_exact(s: int, t: int)
    requires
        is_square(s),
        is_square(t),
    ensures
        in_bb(king_attacks(s), t) == (t != s && -1 <= t / 8 - s / 8 <= 1 && -1 <= t % 8 - s % 8 <= 1),
{
    crate::bits::lemma_has_ops();
    lemma_step_iff(s, t, -1, -1);
    lemma_step_iff(s, t, -1, 0);
    lemma_step_iff(s, t, -1, 1);
    lemma_step_iff(s, t, 0, -1);
    lemma_step_iff(s, t, 0, 1);
    lemma_step_iff(s, t, 1, -1);
    lemma_step_iff(s, t, 1, 0);
    lemma_step_iff(s, t, 1, 1);
}

/// The coordinate `k` steps from `x` in direction `d` (-1, 0 or 1).
pub open spec fn along(x: int, d: int, k: int) -> int {
    if d > 0 {
        x + k
    } else if d < 0 {
        x - k
    } else {
        x
    }
}

/// Square `q` is `k` steps from `(r, f)` in direction `(dr, df)`, on the board,
/// and none of the squares on the way before it is occupied.
pub open spec fn clear_line_to(r: int, f: int, dr: int, df: int, occ: u64, q: int, k: int) -> bool {
    &&& k >= 1
    &&& on_board(along(r, dr, k), along(f, df, k))
    &&& q == along(r, dr, k) * 8 + along(f, df, k)
    &&& forall|j: int| 1 <= j < k ==> !in_bb(occ, #[trigger] along(r, dr, j) * 8 + along(f, df, j))
}

/// A slider on `(r, f)` moving in direction `(dr, df)` reaches exactly the
/// squares some number of steps along that direction, on the board, with no
/// occupied square before them: the first occupied square is the last one
/// reached.
pub proof fn lemma_ray_exact(r: int, f: int, dr: int, df: int, occ: u64, q: int)
    requires
        on_board(r, f),
        -1 <= dr <= 1,
        -1 <= df <= 1,
        !(dr == 0 && df == 0),
        is_square(q),
    ensures
        in_bb(ray(r, f, dr, df, occ), q) == exists|k: int| #[trigger] clear_line_to(r, f, dr, df, occ, q, k),
    decreases ray_room(r, f, dr, df),
{
    crate::bits::lemma_has_ops();
    let nr = r + dr;
    let nf = f + df;
    assert(along(r, dr, 1) == nr && along(f, df, 1) == nf);
    if !on_board(nr, nf) {
        if exists|k: int| #[trigger] clear_line_to(r, f, dr, df, occ, q, k) {
            let k = choose|k: int| #[trigger] clear_line_to(r, f, dr, df, occ, q, k);
            assert(on_board(along(r, dr, k), along(f, df, k)));
        }
    } else {
        let s = nr * 8 + nf;
        if in_bb(occ, s) {
            assert(ray(r, f, dr, df, occ) == bit(s));
            if q == s {
                assert(clear_line_to(r, f, dr, df, occ, q, 1));
            }
            if exists|k: int| #[trigger] clear_line_to(r, f, dr, df, occ, q, k) {
                let k = choose|k: int| #[trigger] clear_line_to(r, f, dr, df, occ, q, k);
                if k > 1 {
                    assert(!in_bb(occ, along(r, dr, 1) * 8 + along(f, df, 1)));
                }
            }
        } else {
            lemma_ray_exact(nr, nf, dr, df, occ, q);
            assert(in_bb(ray(r, f, dr, df, occ), q) == (q == s || in_bb(ray(nr, nf, dr, df, occ), q)));
            if q == s {
                assert(clear_line_to(r, f, dr, df, occ, q, 1));
            }
            if in_bb(ray(nr, nf, dr, df, occ), q) {
                let k = choose|k: int| #[trigger] clear_line_to(nr, nf, dr, df, occ, q, k);
                assert forall|j: int| 1 <= j < k + 1 implies !in_bb(
                    occ,
                    #[trigger] along(r, dr, j) * 8 + along(f, df, j),
                ) by {
                    if j > 1 {
                        assert(along(r, dr, j) == along(nr, dr, j - 1));
                        assert(along(f, df, j) == along(nf, df, j - 1));
                        assert(!in_bb(occ, along(nr, dr, j - 1) * 8 + along(nf, df, j - 1)));
                    }
                }
                assert(clear_line_to(r, f, dr, df, occ, q, k + 1));
            }
            if exists|k: int| #[trigger] clear_line_to(r, f, dr, df, occ, q, k) {
                let k = choose|k: int| #[trigger] clear_line_to(r, f, dr, df, occ, q, k);
                if k > 1 {
                    assert forall|j: int| 1 <= j < k - 1 implies !in_bb(
                        occ,
                        #[trigger] along(nr, dr, j) * 8 + along(nf, df, j),
                    ) by {
                        assert(along(nr, dr, j) == along(r, dr, j + 1));
                        assert(along(nf, df, j) == along(f, df, j + 1));
                        assert(!in_bb(occ, along(r, dr, j + 1) * 8 + along(f, df, j + 1)));
                    }
                    assert(along(nr, dr, k - 1) == along(r, dr, k));
                    assert(along(nf, df, k - 1) == along(f, df, k));
                    assert(clear_line_to(nr, nf, dr, df, occ, q, k - 1));
                } else {
                    assert(q == s);
                }
            }
        }
    }
}

/// A rook on `sq` reaches exactly the squares along its rank or file, up,
/// down, right or left, with no occupied square before them.
pub proof fn lemma_rook_attacks_exact(sq: int, occ: u64, t: int)
    requires
        is_square(sq),
        is_square(t),
    ensures
        in_bb(rook_attacks(sq, occ), t) == ((exists|k: int| #[trigger] clear_line_to(sq / 8, sq % 8, 1, 0, occ, t, k))
            || (exists|k: int| #[trigger] clear_line_to(sq / 8, sq % 8, -1, 0, occ, t, k)) || (exists|k: int|
            #[trigger] clear_line_to(sq / 8, sq % 8, 0, 1, occ, t, k)) || (exists|k: int|
            #[trigger] clear_line_to(sq / 8, sq % 8, 0, -1, occ, t, k))),
{
    crate::bits::lemma_has_ops();
    reveal_with_fuel(attacks_along, 5);
    let r = sq / 8;
    let f = sq % 8;
    lemma_ray_exact(r, f, 1, 0, occ, t);
    lemma_ray_exact(r, f, -1, 0, occ, t);
    lemma_ray_exact(r, f, 0, 1, occ, t);
    lemma_ray_exact(r, f, 0, -1, occ, t);
}

/// A bishop on `sq` reaches exactly the squares along its four diagonals
/// with no occupied square before them.
pub proof fn lemma_bishop_attacks_exact(sq: int, occ: u64, t: int)
    requires
        is_square(sq),
        is_square(t),
    ensures
        in_bb(bishop_attacks(sq, occ), t) == ((exists|k: int| #[trigger] clear_line_to(sq / 8, sq % 8, 1, 1, occ, t, k))
            || (exists|k: int| #[trigger] clear_line_to(sq / 8, sq % 8, 1, -1, occ, t, k)) || (exists|k: int|
            #[trigger] clear_line_to(sq / 8, sq % 8, -1, 1, occ, t, k)) || (exists|k: int|
            #[trigger] clear_line_to(sq / 8, sq % 8, -1, -1, occ, t, k))),
{
    crate::bits::lemma_has_ops();
    reveal_with_fuel(attacks_along, 5);
    let r = sq / 8;
    let f = sq % 8;
    lemma_ray_exact(r, f, 1, 1, occ, t);
    lemma_ray_exact(r, f, 1, -1, occ, t);
    lemma_ray_exact(r, f, -1, 1, occ, t);
    lemma_ray_exact(r, f, -1, -1, occ, t);
}

/// What each kind of piece moves to: a pawn its advances and its captures
/// onto occupied squares; a knight and a king their fixed squares, whatever
/// is occupied; a queen what a bishop and a rook on its square would reach.
pub proof fn lemma_piece_moves_by_kind(c: Colour, sq: int, occ: u64, other_occ: u64)
    ensures
        piece_moves(0, c, sq, occ) == pawn_pushes(c, sq) | (pawn_captures(c, sq) & occ),
        piece_moves(1, c, sq, occ) == knight_attacks(sq),
        piece_moves(1, c, sq, occ) == piece_moves(1, c, sq, other_occ),
        piece_moves(2, c, sq, occ) == bishop_attacks(sq, occ),
        piece_moves(3, c, sq, occ) == rook_attacks(sq, occ),
        piece_moves(4, c, sq, occ) == piece_moves(2, c, sq, occ) | piece_moves(3, c, sq, occ),
        piece_moves(5, c, sq, occ) == king_attacks(sq),
        piece_moves(5, c, sq, occ) == piece_moves(5, c, sq, other_occ),
{
}

/// A knight on `s` reaches `t` exactly when a knight on `t` reaches `s`.
pub proof fn lemma_knight_symmetric(s: int, t: int)
    requires
        is_square(s),
        is_square(t),
    ensures
        in_bb(knight_attacks(s), t) == in_bb(knight_attacks(t), s),
{
    crate::bits::lemma_has_ops();
    lemma_step_iff(s, t, -2, 1);
    lemma_step_iff(s, t, -2, -1);
    lemma_step_iff(s, t, -1, 2);
    lemma_step_iff(s, t, -1, -2);
    lemma_step_iff(s, t, 1, 2);
    lemma_step_iff(s, t, 1, -2);
    lemma_step_iff(s, t, 2, 1);
    lemma_step_iff(s, t, 2, -1);
    lemma_step_iff(t, s, -2, 1);
    lemma_step_iff(t, s, -2, -1);
    lemma_step_iff(t, s, -1, 2);
    lemma_step_iff(t, s, -1, -2);
    lemma_step_iff(t, s, 1, 2);
    lemma_step_iff(t, s, 1, -2);
    lemma_step_iff(t, s, 2, 1);
    lemma_step_iff(t, s, 2, -1);
}

/// A king on `s` reaches `t` exactly when a king on `t` reaches `s`.
pub proof fn lemma_king_symmetric(s: int, t: int)
    requires
        is_square(s),
        is_square(t),
    ensures
        in_bb(king_attacks(s), t) == in_bb(king_attacks(t), s),
{
    crate::bits::lemma_has_ops();
    lemma_step_iff(s, t, -1, -1);
    lemma_step_iff(s, t, -1, 0);
    lemma_step_iff(s, t, -1, 1);
    lemma_step_iff(s, t, 0, -1);
    lemma_step_iff(s, t, 0, 1);
    lemma_step_iff(s, t, 1, -1);
    lemma_step_iff(s, t, 1, 0);
    lemma_step_iff(s, t, 1, 1);
    lemma_step_iff(t, s, -1, -1);
    lemma_step_iff(t, s, -1, 0);
    lemma_step_iff(t, s, -1, 1);
    lemma_step_iff(t, s, 0, -1);
    lemma_step_iff(t, s, 0, 1);
    lemma_step_iff(t, s, 1, -1);
    lemma_step_iff(t, s, 1, 0);
    lemma_step_iff(t, s, 1, 1);
}

/// A ray only holds squares strictly ahead of its start in its direction.
pub proof fn lemma_ray_ahead(r: int, f: int, dr: int, df: int, occ: u64, q: int)
    requires
        !(dr == 0 && df == 0),
        is_square(q),
        in_bb(ray(r, f, dr, df, occ), q),
    ensures
        dr > 0 ==> q / 8 > r,
        dr < 0 ==> q / 8 < r,
        dr == 0 ==> q / 8 == r,
        df > 0 ==> q % 8 > f,
        df < 0 ==> q % 8 < f,
        df == 0 ==> q % 8 == f,
        dr == 0 && df > 0 ==> q / 8 == r && q % 8 > f,
        dr == 0 && df < 0 ==> q / 8 == r && q % 8 < f,
    decreases ray_room(r, f, dr, df),
{
    crate::bits::lemma_has_ops();
    let nr = r + dr;
    let nf = f + df;
    if !on_board(nr, nf) {
    } else {
        let s = nr * 8 + nf;
        assert(s / 8 == nr && s % 8 == nf);
        if in_bb(occ, s) {
            assert(q == s);
        } else if q != s {
            assert(in_bb(ray(nr, nf, dr, df, occ), q));
            lemma_ray_ahead(nr, nf, dr, df, occ, q);
        }
    }
}

/// A slider that moves never reaches its own square.
pub proof fn lemma_attacks_miss_origin(sq: int, occ: u64, dirs: Seq<(i32, i32)>, n: int)
    requires
        is_square(sq),
        0 <= n <= dirs.len(),
        forall|i: int| 0 <= i < n ==> moving(#[trigger] dirs[i]),
    ensures
        !in_bb(attacks_along(sq, occ, dirs, n), sq),
    decreases n,
{
    crate::bits::lemma_has_ops();
    if n > 0 {
        lemma_attacks_miss_origin(sq, occ, dirs, n - 1);
        let d = dirs[n - 1];
        if in_bb(ray(sq / 8, sq % 8, d.0 as int, d.1 as int, occ), sq) {
            lemma_ray_ahead(sq / 8, sq % 8, d.0 as int, d.1 as int, occ, sq);
        }
    }
}

pub proof fn lemma_or_assoc(a: u64, b: u64, c: u64)
    ensures
        (a | b) | c == a | (b | c),
        a | 0 == a,
{
    assert((a | b) | c == a | (b | c)) by (bit_vector);
    assert(a | 0 == a) by (bit_vector);
}

/// Two occupancies that agree on every square of a ray that is not its last
/// square on the board give the ray the same squares.
pub proof fn lemma_ray_agree(r: int, f: int, dr: int, df: int, occ1: u64, occ2: u64)
    requires
        !(dr == 0 && df == 0),
        forall|q: int|
            is_square(q) && #[trigger] in_bb(ray(r, f, dr, df, 0), q) && on_board(q / 8 + dr, q % 8 + df)
                ==> in_bb(occ1, q) == in_bb(occ2, q),
    ensures
        ray(r, f, dr, df, occ1) == ray(r, f, dr, df, occ2),
    decreases ray_room(r, f, dr, df),
{
    crate::bits::lemma_has_ops();
    let nr = r + dr;
    let nf = f + df;
    if on_board(nr, nf) {
        let s = nr * 8 + nf;
        assert(s / 8 == nr && s % 8 == nf);
        assert(in_bb(ray(r, f, dr, df, 0), s));
        if on_board(nr + dr, nf + df) {
            assert(in_bb(occ1, s) == in_bb(occ2, s));
            assert forall|q: int|
                is_square(q) && #[trigger] in_bb(ray(nr, nf, dr, df, 0), q) && on_board(
                    q / 8 + dr,
                    q % 8 + df,
                ) implies in_bb(occ1, q) == in_bb(occ2, q) by {
                assert(in_bb(ray(r, f, dr, df, 0), q));
            }
            lemma_ray_agree(nr, nf, dr, df, occ1, occ2);
        } else {
            assert(ray(nr, nf, dr, df, occ1) == 0);
            assert(ray(nr, nf, dr, df, occ2) == 0);
            lemma_or_assoc(bit(s), 0, 0);
        }
    }
}

/// The ray along the `i`-th of the first `n` directions lies within the
/// slider's attacks.
pub proof fn lemma_attacks_hold_ray(sq: int, occ: u64, dirs: Seq<(i32, i32)>, n: int, i: int, q: int)
    requires
        0 <= i < n,
        is_square(q),
        in_bb(ray(sq / 8, sq % 8, dirs[i].0 as int, dirs[i].1 as int, occ), q),
    ensures
        in_bb(attacks_along(sq, occ, dirs, n), q),
    decreases n,
{
    crate::bits::lemma_has_ops();
    if i < n - 1 {
        lemma_attacks_hold_ray(sq, occ, dirs, n - 1, i, q);
    }
}

/// Two occupancies that give every one of the first `n` rays the same squares
/// give the slider the same attacks.
pub proof fn lemma_attacks_same_rays(sq: int, occ1: u64, occ2: u64, dirs: Seq<(i32, i32)>, n: int)
    requires
        forall|i: int|
            0 <= i < n ==> #[trigger] ray(sq / 8, sq % 8, dirs[i].0 as int, dirs[i].1 as int, occ1)
                == ray(sq / 8, sq % 8, dirs[i].0 as int, dirs[i].1 as int, occ2),
    ensures
        attacks_along(sq, occ1, dirs, n) == attacks_along(sq, occ2, dirs, n),
    decreases n,
{
    if n > 0 {
        lemma_attacks_same_rays(sq, occ1, occ2, dirs, n - 1);
        let d = dirs[n - 1];
        assert(ray(sq / 8, sq % 8, d.0 as int, d.1 as int, occ1) == ray(sq / 8, sq % 8, d.0 as int, d.1 as int, occ2));
    }
}

/// The square `(dr, df)` away from `(r, f)`, as a bitboard.
fn step_bit(r: i32, f: i32, dr: i32, df: i32) -> (b: u64)
    requires
        on_board(r as int, f as int),
        -2 <= dr <= 2,
        -2 <= df <= 2,
    ensures
        b == step(r as int, f as int, dr as int, df as int),
{
    let nr = r + dr;
    let nf = f + df;
    if 0 <= nr && nr < 8 && 0 <= nf && nf < 8 {
        1u64 << ((nr * 8 + nf) as u64)
    } else {
        0
    }
}

/// The squares a knight on `sq` jumps to.
pub fn knight_moves(sq: usize) -> (b: u64)
    requires
        sq < 64,
    ensures
        b == knight_attacks(sq as int),
{
    let r = (sq / 8) as i32;
    let f = (sq % 8) as i32;
    step_bit(r, f, -2, 1) | step_bit(r, f, -2, -1) | step_bit(r, f, -1, 2) | step_bit(r, f, -1, -2)
        | step_bit(r, f, 1, 2) | step_bit(r, f, 1, -2) | step_bit(r, f, 2, 1) | step_bit(r, f, 2, -1)
}

/// The squares next to `sq`.
pub fn king_moves(sq: usize) -> (b: u64)
    requires
        sq < 64,
    ensures
        b == king_attacks(sq as int),
{
    let r = (sq / 8) as i32;
    let f = (sq % 8) as i32;
    step_bit(r, f, -1, -1) | step_bit(r, f, -1, 0) | step_bit(r, f, -1, 1) | step_bit(r, f, 0, -1)
        | step_bit(r, f, 0, 1) | step_bit(r, f, 1, -1) | step_bit(r, f, 1, 0) | step_bit(r, f, 1, 1)
}

/// The squares a pawn of `colour` on `sq` advances to.
pub fn pawn_push_moves(colour: &Colour, sq: usize) -> (b: u64)
    requires
        sq < 64,
    ensures
        b == pawn_pushes(*colour, sq as int),
{
    let r = (sq / 8) as i32;
    let f = (sq % 8) as i32;
    let (d, start): (i32, i32) = match colour {
        Colour::W => (1, 1),
        Colour::B => (-1, 6),
    };
    let double = if r == start {
        step_bit(r, f, 2 * d, 0)
    } else {
        0
    };
    step_bit(r, f, d, 0) | double
}

/// The squares a pawn of `colour` on `sq` takes on.
pub fn pawn_capture_moves(colour: &Colour, sq: usize) -> (b: u64)
    requires
        sq < 64,
    ensures
        b == pawn_captures(*colour, sq as int),
{
    let r = (sq / 8) as i32;
    let f = (sq % 8) as i32;
    let d: i32 = match colour {
        Colour::W => 1,
        Colour::B => -1,
    };
    step_bit(r, f, d, -1) | step_bit(r, f, d, 1)
}

/// A direction whose steps stay within `i32` from any square.
pub open spec fn valid_direction(d: (i32, i32)) -> bool {
    &&& d.0 <= i32::MAX - 7
    &&& d.1 <= i32::MAX - 7
}

/// A direction other than `(0, 0)`.
pub open spec fn moving(d: (i32, i32)) -> bool {
    !(d.0 == 0 && d.1 == 0)
}

/// The squares a slider on `square` reaches along `directions` when `blockers`
/// are occupied: along each direction, every square up to and including the
/// first blocker. A direction `(0, 0)` is walked only where `square` itself
/// is a blocker, which ends the walk at once.
pub fn calculate_attacks(square: usize, blockers: u64, directions: &[(i32, i32)]) -> (attacks: u64)
    requires
        square < 64,
        forall|i: int|
            0 <= i < directions@.len() ==> valid_direction(#[trigger] directions@[i]) && (moving(
                directions@[i],
            ) || in_bb(blockers, square as int)),
    ensures
        attacks == attacks_along(square as int, blockers, directions@, directions@.len() as int),
{
    let mut attacks: u64 = 0;
    let rank = (square / 8) as i32;
    let file = (square % 8) as i32;
    let mut i: usize = 0;
    while i < directions.len()
        invariant
            0 <= i <= directions@.len(),
            square < 64,
            rank as int == square as int / 8,
            file as int == square as int % 8,
            forall|i: int|
                0 <= i < directions@.len() ==> valid_direction(#[trigger] directions@[i]) && (moving(
                    directions@[i],
                ) || in_bb(blockers, square as int)),
            attacks == attacks_along(square as int, blockers, directions@, i as int),
        decreases directions@.len() - i,
    {
        let (dr, df) = directions[i];
        proof {
            assert(valid_direction(directions@[i as int]));
        }
        let ghost start = attacks;
        let mut r = rank + dr;
        let mut f = file + df;
        proof {
            lemma_or_assoc(start, 0, 0);
        }
        while 0 <= r && r < 8 && 0 <= f && f < 8
            invariant_except_break
                attacks | 0u64 == attacks,
                start | ray(rank as int, file as int, dr as int, df as int, blockers) == attacks | ray(
                    r as int - dr as int,
                    f as int - df as int,
                    dr as int,
                    df as int,
                    blockers,
                ),
            invariant
                valid_direction((dr, df)),
                moving((dr, df)) || in_bb(blockers, square as int),
                (dr == 0 && df == 0) ==> r == rank && f == file,
                rank as int == square as int / 8,
                file as int == square as int % 8,
                on_board(r as int - dr as int, f as int - df as int),
            ensures
                start | ray(rank as int, file as int, dr as int, df as int, blockers) == attacks,
            decreases ray_room(r as int, f as int, dr as int, df as int),
        {
            let target = (r * 8 + f) as u64;
            let t = 1u64 << target;
            let ghost before = attacks;
            attacks = attacks | t;
            if blockers & t != 0 {
                proof {
                        crate::bits::lemma_and_bit(blockers, target);
                }
                break;
            }
            proof {
                crate::bits::lemma_and_bit(blockers, target);
                lemma_or_assoc(before, t, ray(r as int, f as int, dr as int, df as int, blockers));
            }
            r = r + dr;
            f = f + df;
            proof {
                lemma_or_assoc(attacks, 0, 0);
            }
        }
        proof {
            lemma_or_assoc(attacks, 0, 0);
        }
        i = i + 1;
    }
    attacks
}

} // verus!
