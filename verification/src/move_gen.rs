//! Move generation: the moves of every piece of the side to move, and the
//! legal ones among them.
use vstd::prelude::*;
use vstd::std_specs::bits::u64_trailing_zeros;
use crate::attacks::{
    bishop_attacks, bishop_dirs, calculate_attacks, king_attacks, king_moves, knight_attacks,
    knight_moves, pawn_capture_moves, pawn_captures, pawn_push_moves, pawn_pushes, piece_moves,
    rook_attacks, rook_dirs, BISHOP_DIRS, ROOK_DIRS,
};
use crate::bits::{
    bit, bits_of, in_bb, is_listed, is_square, lemma_bits_upto_members, lemma_trailing_zeros_bit,
};
use crate::board::{Board, BoardView, Colour, Piece, union_upto};

verus! {

/// The square of the lowest square of a non-empty bitboard.
pub open spec fn lowest(b: u64) -> int {
    u64_trailing_zeros(b) as int
}

/// The moves of a pawn of `colour` on the lowest square of `piece`: its
/// advances, and its captures onto occupied squares.
pub fn get_pawn_moves(piece: u64, colour: &Colour, board: &Board) -> (r: u64)
    requires
        piece != 0,
    ensures
        r == pawn_pushes(*colour, lowest(piece)) | (pawn_captures(*colour, lowest(piece))
            & board@.occupancy()),
{
    let sq_idx = piece.trailing_zeros() as usize;
    proof {
        vstd::std_specs::bits::axiom_u64_trailing_zeros(piece);
    }
    pawn_push_moves(colour, sq_idx) | (pawn_capture_moves(colour, sq_idx) & board.occupancy())
}

/// The squares a pawn of `colour` on the lowest square of `piece` attacks:
/// the two squares diagonally ahead, whether occupied or not.
pub fn get_pawn_attacks(piece: u64, colour: &Colour) -> (r: u64)
    requires
        piece != 0,
    ensures
        r == pawn_captures(*colour, lowest(piece)),
{
    let sq_idx = piece.trailing_zeros() as usize;
    proof {
        vstd::std_specs::bits::axiom_u64_trailing_zeros(piece);
    }
    pawn_capture_moves(colour, sq_idx)
}

/// The squares a knight on the lowest square of `piece` jumps to.
pub fn get_knight_moves(piece: u64) -> (r: u64)
    requires
        piece != 0,
    ensures
        r == knight_attacks(lowest(piece)),
{
    proof {
        vstd::std_specs::bits::axiom_u64_trailing_zeros(piece);
    }
    knight_moves(piece.trailing_zeros() as usize)
}

/// The squares next to the lowest square of `piece`.
pub fn get_king_moves(piece: u64) -> (r: u64)
    requires
        piece != 0,
    ensures
        r == king_attacks(lowest(piece)),
{
    proof {
        vstd::std_specs::bits::axiom_u64_trailing_zeros(piece);
    }
    king_moves(piece.trailing_zeros() as usize)
}

/// The squares a bishop on the lowest square of `piece` reaches.
pub fn get_bishop_moves(piece: u64, board: &Board) -> (r: u64)
    requires
        piece != 0,
    ensures
        r == bishop_attacks(lowest(piece), board@.occupancy()),
{
    let piece_idx = piece.trailing_zeros() as usize;
    proof {
        vstd::std_specs::bits::axiom_u64_trailing_zeros(piece);
        assert(BISHOP_DIRS@ =~= bishop_dirs());
    }
    calculate_attacks(piece_idx, board.occupancy(), &BISHOP_DIRS)
}

/// The squares a rook on the lowest square of `piece` reaches.
pub fn get_rook_moves(piece: u64, board: &Board) -> (r: u64)
    requires
        piece != 0,
    ensures
        r == rook_attacks(lowest(piece), board@.occupancy()),
{
    let piece_idx = piece.trailing_zeros() as usize;
    proof {
        vstd::std_specs::bits::axiom_u64_trailing_zeros(piece);
        assert(ROOK_DIRS@ =~= rook_dirs());
    }
    calculate_attacks(piece_idx, board.occupancy(), &ROOK_DIRS)
}

/// The squares a queen on the lowest square of `piece` reaches.
pub fn get_queen_moves(piece: u64, board: &Board) -> (r: u64)
    requires
        piece != 0,
    ensures
        r == bishop_attacks(lowest(piece), board@.occupancy()) | rook_attacks(
            lowest(piece),
            board@.occupancy(),
        ),
{
    get_bishop_moves(piece, board) | get_rook_moves(piece, board)
}


/// The highest kind index below `n` whose bitboard in `side` holds `sq`; -1 where none does.
pub open spec fn kind_on(side: Seq<u64>, sq: int, n: int) -> int
    decreases n,
{
    if n <= 0 {
        -1
    } else if in_bb(side[n - 1], sq) {
        n - 1
    } else {
        kind_on(side, sq, n - 1)
    }
}

/// The moves of the `turn` piece on `sq`, before legality: what its kind
/// reaches, less the squares of `turn`'s own pieces; nothing where `turn` has
/// no piece on `sq`. Where two kinds claim `sq`, the later kind counts.
pub open spec fn pseudo_at(v: BoardView, turn: Colour, sq: int) -> u64 {
    let k = kind_on(v.side(turn), sq, 6);
    if k < 0 {
        0
    } else {
        piece_moves(k, turn, sq, v.occupancy()) & !v.side_occupancy(turn)
    }
}

/// The moves of every `turn` piece, indexed by the square it stands on.
pub open spec fn pseudo_moves(v: BoardView, turn: Colour) -> Seq<u64> {
    Seq::new(64, |sq: int| pseudo_at(v, turn, sq))
}

/// The squares the piece with index `p` and colour `c` on `sq` attacks when
/// `occ` is occupied: the squares where it could take. A pawn attacks the two
/// squares diagonally ahead (its advances take nothing); every other piece
/// attacks what it moves to.
pub open spec fn piece_attacks(p: int, c: Colour, sq: int, occ: u64) -> u64 {
    if p == 0 {
        pawn_captures(c, sq)
    } else {
        piece_moves(p, c, sq, occ)
    }
}

/// What the piece with index `p` reaches: its attacks where `attacks_only`,
/// else its moves.
pub open spec fn reach(p: int, c: Colour, sq: int, occ: u64, attacks_only: bool) -> u64 {
    if attacks_only {
        piece_attacks(p, c, sq, occ)
    } else {
        piece_moves(p, c, sq, occ)
    }
}

/// The squares the `c` piece on `sq` attacks, less the squares of `c`'s own
/// pieces; nothing where `c` has no piece on `sq`.
pub open spec fn attack_at(v: BoardView, c: Colour, sq: int) -> u64 {
    let k = kind_on(v.side(c), sq, 6);
    if k < 0 {
        0
    } else {
        piece_attacks(k, c, sq, v.occupancy()) & !v.side_occupancy(c)
    }
}

/// The attacks of every `c` piece, indexed by the square it stands on.
pub open spec fn attack_table(v: BoardView, c: Colour) -> Seq<u64> {
    Seq::new(64, |sq: int| attack_at(v, c, sq))
}

/// The moves of the piece of kind `piece` of `turn` standing on the lowest
/// square of `sq`, or its attacks where `attacks_only`.
fn moves_of_kind(piece: &Piece, sq: u64, turn: &Colour, board: &Board, attacks_only: bool) -> (r: u64)
    requires
        sq != 0,
    ensures
        r == reach(piece.idx(), *turn, lowest(sq), board@.occupancy(), attacks_only),
{
    match piece {
        Piece::P => if attacks_only {
            get_pawn_attacks(sq, turn)
        } else {
            get_pawn_moves(sq, turn, board)
        },
        Piece::B => get_bishop_moves(sq, board),
        Piece::N => get_knight_moves(sq),
        Piece::R => get_rook_moves(sq, board),
        Piece::Q => get_queen_moves(sq, board),
        Piece::K => get_king_moves(sq),
    }
}

/// The moves of every piece of `turn`, before legality, indexed by the square
/// the piece stands on.
pub fn gen_pseudolegal_moves(board: &Board, turn: &Colour) -> (moves: [u64; 64])
    ensures
        moves@ == pseudo_moves(board@, *turn),
{
    gen_piece_moves(board, turn, false)
}

/// The attacks of every piece of `turn`, indexed by the square the piece
/// stands on: the squares each could take on, its own side's squares left out.
pub fn gen_attacks(board: &Board, turn: &Colour) -> (attacks: [u64; 64])
    ensures
        attacks@ == attack_table(board@, *turn),
{
    gen_piece_moves(board, turn, true)
}

/// The moves, or where `attacks_only` the attacks, of every piece of `turn`,
/// indexed by the square the piece stands on, less `turn`'s own squares.
fn gen_piece_moves(board: &Board, turn: &Colour, attacks_only: bool) -> (moves: [u64; 64])
    ensures
        moves@ == (if attacks_only {
            attack_table(board@, *turn)
        } else {
            pseudo_moves(board@, *turn)
        }),
{
    let mut moves = [0u64; 64];
    let pieces = Piece::PIECES;
    assert(pieces@ =~= seq![Piece::P, Piece::N, Piece::B, Piece::R, Piece::Q, Piece::K]);
    let exclude = match turn {
        Colour::W => board.white(),
        Colour::B => board.black(),
    };
    let ghost side = board@.side(*turn);
    let ghost occ = board@.occupancy();
    for pi in 0..6
        invariant
            side == board@.side(*turn),
            occ == board@.occupancy(),
            exclude == board@.side_occupancy(*turn),
            forall|i: int| 0 <= i < 6 ==> (#[trigger] pieces@[i]).idx() == i,
            forall|s: int|
                is_square(s) ==> #[trigger] moves@[s] == (if kind_on(side, s, pi as int) < 0 {
                    0
                } else {
                    reach(kind_on(side, s, pi as int), *turn, s, occ, attacks_only) & !exclude
                }),
    {
        let p = pieces[pi];
        let squares = board.squares_by_piece(&p, turn);
        proof {
            lemma_bits_upto_members(side[pi as int], 64);
        }
        let ghost before = moves@;
        for j in 0..squares.len()
            invariant
                side == board@.side(*turn),
                occ == board@.occupancy(),
                exclude == board@.side_occupancy(*turn),
                p.idx() == pi,
                pi < 6,
                squares@ == bits_of(side[pi as int]),
                forall|i: int|
                    0 <= i < squares@.len() ==> is_listed(side[pi as int], 64, #[trigger] squares@[i]),
                forall|s: int|
                    is_square(s) ==> #[trigger] moves@[s] == (if squares@.subrange(0, j as int).contains(
                        bit(s),
                    ) {
                        reach(pi as int, *turn, s, occ, attacks_only) & !exclude
                    } else {
                        before[s]
                    }),
        {
            let sq = squares[j];
            let ghost s0 = choose|s: int| 0 <= s < 64 && in_bb(side[pi as int], s) && sq == bit(s);
            proof {
                assert(is_listed(side[pi as int], 64, squares@[j as int]));
                lemma_trailing_zeros_bit(s0);
                crate::bits::lemma_has_ops();
                assert(in_bb(sq, s0));
            }
            let possible_moves = moves_of_kind(&p, sq, turn, board, attacks_only);
            let idx = sq.trailing_zeros() as usize;
            let ghost prev = moves@;
            moves[idx] = possible_moves & !exclude;
            proof {
                assert forall|s: int| is_square(s) implies #[trigger] moves@[s] == (if squares@.subrange(
                    0,
                    j + 1,
                ).contains(bit(s)) {
                    reach(pi as int, *turn, s, occ, attacks_only) & !exclude
                } else {
                    before[s]
                }) by {
                    assert(squares@.subrange(0, j + 1) =~= squares@.subrange(0, j as int).push(sq));
                    assert(squares@.subrange(0, j + 1)[j as int] == sq);
                    if s != s0 {
                        lemma_trailing_zeros_bit(s);
                        assert(bit(s) != bit(s0));
                        assert(moves@[s] == prev[s]);
                    } else {
                        assert(squares@.subrange(0, j + 1).contains(bit(s)));
                    }
                }
            }
        }
        proof {
            assert(squares@.subrange(0, squares@.len() as int) =~= squares@);
            assert forall|s: int| is_square(s) implies #[trigger] moves@[s] == (if kind_on(
                side,
                s,
                pi + 1,
            ) < 0 {
                0
            } else {
                reach(kind_on(side, s, pi + 1), *turn, s, occ, attacks_only) & !exclude
            }) by {
                if squares@.contains(bit(s)) {
                    let i = choose|i: int| 0 <= i < squares@.len() && squares@[i] == bit(s);
                    assert(is_listed(side[pi as int], 64, squares@[i]));
                    let s1 = choose|s1: int| 0 <= s1 < 64 && in_bb(side[pi as int], s1) && squares@[i] == bit(s1);
                    lemma_trailing_zeros_bit(s);
                    lemma_trailing_zeros_bit(s1);
                    assert(in_bb(side[pi as int], s));
                } else {
                    assert(!in_bb(side[pi as int], s));
                }
            }
        }
    }
    proof {
        if attacks_only {
            assert(moves@ =~= attack_table(board@, *turn));
        } else {
            assert(moves@ =~= pseudo_moves(board@, *turn));
        }
    }
    moves
}


/// The moves from `sq` in the target bitboard `m`, lowest target first.
pub open spec fn moves_from(m: u64, sq: int) -> Seq<(u64, u64)> {
    bits_of(m).map_values(|t: u64| (bit(sq), t))
}

/// The moves of the first `n` squares of `moves`, square by square.
pub open spec fn move_list_upto(moves: Seq<u64>, n: int) -> Seq<(u64, u64)>
    decreases n,
{
    if n <= 0 {
        seq![]
    } else {
        move_list_upto(moves, n - 1) + moves_from(moves[n - 1], n - 1)
    }
}

/// Every move of a move table as a pair of one-square bitboards `(from, to)`,
/// by origin square, then by target square, lowest first.
pub open spec fn move_list(moves: Seq<u64>) -> Seq<(u64, u64)> {
    move_list_upto(moves, 64)
}

/// The move `(from, to)` is from square `s` to square `t` with `t` in `moves[s]`, `s < n`.
pub open spec fn is_table_move(moves: Seq<u64>, n: int, mv: (u64, u64)) -> bool {
    exists|s: int, t: int|
        0 <= s < n && is_square(t) && in_bb(moves[s], t) && mv == (#[trigger] bit(s), #[trigger] bit(
            t,
        ))
}

/// The move list holds exactly the moves of the table.
pub proof fn lemma_move_list_members(moves: Seq<u64>, n: int)
    requires
        0 <= n <= 64,
        moves.len() == 64,
    ensures
        forall|i: int|
            0 <= i < move_list_upto(moves, n).len() ==> is_table_move(
                moves,
                n,
                #[trigger] move_list_upto(moves, n)[i],
            ),
        forall|s: int, t: int|
            0 <= s < n && is_square(t) && in_bb(moves[s], t) ==> #[trigger] move_list_upto(
                moves,
                n,
            ).contains((bit(s), bit(t))),
    decreases n,
{
    if n > 0 {
        lemma_move_list_members(moves, n - 1);
        let prev = move_list_upto(moves, n - 1);
        let row = moves_from(moves[n - 1], n - 1);
        let bs = bits_of(moves[n - 1]);
        lemma_bits_upto_members(moves[n - 1], 64);
        let cur = move_list_upto(moves, n);
        assert(cur == prev + row);
        assert forall|i: int| 0 <= i < cur.len() implies is_table_move(moves, n, #[trigger] cur[i]) by {
            if i < prev.len() {
                assert(is_table_move(moves, n - 1, prev[i]));
                let (s, t) = choose|s: int, t: int|
                    0 <= s < n - 1 && is_square(t) && in_bb(moves[s], t) && prev[i] == (
                        #[trigger] bit(s),
                        #[trigger] bit(t),
                    );
                assert(cur[i] == (bit(s), bit(t)));
            } else {
                let k = i - prev.len();
                assert(is_listed(moves[n - 1], 64, bs[k]));
                let t = choose|t: int| 0 <= t < 64 && in_bb(moves[n - 1], t) && bs[k] == bit(t);
                assert(cur[i] == (bit(n - 1), bit(t)));
            }
        }
        assert forall|s: int, t: int|
            0 <= s < n && is_square(t) && in_bb(moves[s], t) implies #[trigger] cur.contains(
            (bit(s), bit(t)),
        ) by {
            if s < n - 1 {
                assert(prev.contains((bit(s), bit(t))));
                let i = choose|i: int| 0 <= i < prev.len() && prev[i] == (bit(s), bit(t));
                assert(cur[i] == (bit(s), bit(t)));
            } else {
                assert(bs.contains(bit(t)));
                let k = choose|k: int| 0 <= k < bs.len() && bs[k] == bit(t);
                assert(cur[prev.len() + k] == (bit(s), bit(t)));
            }
        }
    }
}

/// Every move of the table `moves`, as pairs of one-square bitboards
/// `(from, to)`, by origin square, then by target square, lowest first.
pub fn iter_moves(moves: &[u64; 64]) -> (r: Vec<(u64, u64)>)
    ensures
        r@ == move_list(moves@),
{
    let mut out: Vec<(u64, u64)> = Vec::new();
    for sq in 0..64
        invariant
            out@ == move_list_upto(moves@, sq as int),
    {
        let from = 1u64 << (sq as u64);
        let targets = crate::bits::square_bits(moves[sq]);
        let ghost start = out@;
        for j in 0..targets.len()
            invariant
                from == bit(sq as int),
                targets@ == bits_of(moves@[sq as int]),
                start == move_list_upto(moves@, sq as int),
                out@ == start + targets@.subrange(0, j as int).map_values(|t: u64| (bit(sq as int), t)),
        {
            out.push((from, targets[j]));
            proof {
                assert(targets@.subrange(0, j + 1) =~= targets@.subrange(0, j as int).push(targets@[j as int]));
                assert(out@ =~= start + targets@.subrange(0, j + 1).map_values(|t: u64| (bit(sq as int), t)));
            }
        }
        proof {
            assert(targets@.subrange(0, targets@.len() as int) =~= targets@);
            assert(out@ =~= move_list_upto(moves@, sq + 1));
        }
    }
    out
}

/// The move list is in strictly increasing order: by origin square, and
/// from the same origin by target square; so no move comes twice.
pub proof fn lemma_move_list_sorted(moves: Seq<u64>, n: int)
    requires
        0 <= n <= 64,
        moves.len() == 64,
    ensures
        forall|i: int, j: int|
            0 <= i < j < move_list_upto(moves, n).len() ==> #[trigger] move_list_upto(moves, n)[i].0
                < #[trigger] move_list_upto(moves, n)[j].0 || (move_list_upto(moves, n)[i].0
                == move_list_upto(moves, n)[j].0 && move_list_upto(moves, n)[i].1 < move_list_upto(
                moves,
                n,
            )[j].1),
    decreases n,
{
    if n > 0 {
        lemma_move_list_sorted(moves, n - 1);
        lemma_move_list_members(moves, n - 1);
        lemma_bits_upto_members(moves[n - 1], 64);
        let prev = move_list_upto(moves, n - 1);
        let row = moves_from(moves[n - 1], n - 1);
        let cur = move_list_upto(moves, n);
        assert(cur == prev + row);
        assert forall|i: int, j: int| 0 <= i < j < cur.len() implies #[trigger] cur[i].0 < #[trigger] cur[j].0
            || (cur[i].0 == cur[j].0 && cur[i].1 < cur[j].1) by {
            if j < prev.len() {
                assert(cur[i] == prev[i] && cur[j] == prev[j]);
            } else if i >= prev.len() {
                assert(cur[i] == row[i - prev.len()]);
                assert(cur[j] == row[j - prev.len()]);
            } else {
                assert(cur[i] == prev[i]);
                assert(cur[j] == row[j - prev.len()]);
                assert(is_table_move(moves, n - 1, prev[i]));
                let (s1, t1) = choose|s1: int, t1: int|
                    0 <= s1 < n - 1 && is_square(t1) && in_bb(moves[s1], t1) && prev[i] == (
                        #[trigger] bit(s1),
                        #[trigger] bit(t1),
                    );
                crate::bits::lemma_bit_lt(s1 as u64, (n - 1) as u64);
            }
        }
    }
}

/// The table that the first `n` moves of `list` make when each move's target
/// is added to the entry of its origin square, starting from an empty table.
pub open spec fn rebuild(list: Seq<(u64, u64)>, n: int) -> Seq<u64>
    decreases n,
{
    if n <= 0 {
        Seq::new(64, |i: int| 0u64)
    } else {
        let prev = rebuild(list, n - 1);
        let s = u64_trailing_zeros(list[n - 1].0) as int;
        prev.update(s, prev[s] | list[n - 1].1)
    }
}

/// A move from one square to one square.
pub open spec fn is_square_move(mv: (u64, u64)) -> bool {
    exists|s: int, t: int| is_square(s) && is_square(t) && mv == (#[trigger] bit(s), #[trigger] bit(t))
}

/// Each of the first `n` moves of `list` goes from one square to one square.
pub open spec fn square_moves(list: Seq<(u64, u64)>, n: int) -> bool {
    forall|i: int| 0 <= i < n ==> is_square_move(#[trigger] list[i])
}

proof fn lemma_rebuild_holds(list: Seq<(u64, u64)>, n: int, s: int, t: int)
    requires
        0 <= n <= list.len(),
        square_moves(list, n),
        is_square(s),
        is_square(t),
    ensures
        rebuild(list, n).len() == 64,
        in_bb(rebuild(list, n)[s], t) == exists|i: int| 0 <= i < n && #[trigger] list[i] == (bit(s), bit(t)),
    decreases n,
{
    crate::bits::lemma_has_ops();
    if n > 0 {
        lemma_rebuild_holds(list, n - 1, s, t);
        assert(is_square_move(list[n - 1]));
        let (s2, t2) = choose|s2: int, t2: int|
            is_square(s2) && is_square(t2) && list[n - 1] == (#[trigger] bit(s2), #[trigger] bit(t2));
        crate::bits::lemma_trailing_zeros_bit(s2);
        assert(in_bb(bit(s), s) && in_bb(bit(t), t));
        if exists|i: int| 0 <= i < n && #[trigger] list[i] == (bit(s), bit(t)) {
            let i = choose|i: int| 0 <= i < n && #[trigger] list[i] == (bit(s), bit(t));
            if i < n - 1 {
                assert(exists|i: int| 0 <= i < n - 1 && #[trigger] list[i] == (bit(s), bit(t)));
            }
        } else {
            assert(!(list[n - 1] == (bit(s), bit(t))));
            assert(!exists|i: int| 0 <= i < n - 1 && #[trigger] list[i] == (bit(s), bit(t)));
        }
    }
}

/// Adding the target of every move of a table's move list back to the entry
/// of its origin square rebuilds the table.
pub proof fn lemma_move_list_rebuilds(moves: Seq<u64>)
    requires
        moves.len() == 64,
    ensures
        rebuild(move_list(moves), move_list(moves).len() as int) == moves,
{
    let list = move_list(moves);
    let n = list.len() as int;
    lemma_move_list_members(moves, 64);
    crate::bits::lemma_has_ops();
    assert forall|i: int| 0 <= i < n implies is_square_move(#[trigger] list[i]) by {
        assert(is_table_move(moves, 64, list[i]));
        let (s, t) = choose|s: int, t: int|
            0 <= s < 64 && is_square(t) && in_bb(moves[s], t) && list[i] == (#[trigger] bit(s), #[trigger] bit(t));
        assert(is_square(s) && is_square(t) && list[i] == (bit(s), bit(t)));
    }
    let r = rebuild(list, n);
    lemma_rebuild_holds(list, n, 0, 0);
    assert forall|s: int| 0 <= s < 64 implies #[trigger] r[s] == moves[s] by {
        assert forall|t: int| is_square(t) implies #[trigger] in_bb(r[s], t) == in_bb(moves[s], t) by {
            lemma_rebuild_holds(list, n, s, t);
            if in_bb(moves[s], t) {
                assert(list.contains((bit(s), bit(t))));
            }
            if exists|i: int| 0 <= i < n && #[trigger] list[i] == (bit(s), bit(t)) {
                let i = choose|i: int| 0 <= i < n && #[trigger] list[i] == (bit(s), bit(t));
                assert(is_table_move(moves, 64, list[i]));
                let (s2, t2) = choose|s2: int, t2: int|
                    0 <= s2 < 64 && is_square(t2) && in_bb(moves[s2], t2) && list[i] == (
                        #[trigger] bit(s2),
                        #[trigger] bit(t2),
                    );
                assert(in_bb(bit(s2), s2) && in_bb(bit(t2), t2));
            }
        }
        crate::bits::lemma_bb_ext(r[s], moves[s]);
    }
    assert(r =~= moves);
}


/// The squares attacked by `c`: the union of the attacks of all its pieces.
pub open spec fn attacked_by(v: BoardView, c: Colour) -> u64 {
    union_upto(attack_table(v, c), 64)
}

/// The king bitboard of `c`.
pub open spec fn king_of(v: BoardView, c: Colour) -> u64 {
    v.side(c)[5]
}

/// Moving from `s` to `t` leaves a `turn` king attacked by the other side.
pub open spec fn exposes_king(v: BoardView, turn: Colour, s: int, t: int) -> bool {
    let post = v.moved(bit(s), bit(t));
    attacked_by(post, turn.opponent()) & king_of(post, turn) != 0
}

/// `turn` may move from `s` to `t`: the piece there reaches `t`, and the move
/// leaves no `turn` king attacked.
pub open spec fn is_legal(v: BoardView, turn: Colour, s: int, t: int) -> bool {
    in_bb(pseudo_at(v, turn, s), t) && !exposes_king(v, turn, s, t)
}

/// Some piece of `turn` has a move, legal or not.
pub open spec fn has_pseudo_move(v: BoardView, turn: Colour) -> bool {
    exists|s: int| is_square(s) && #[trigger] pseudo_at(v, turn, s) != 0
}

/// Where `gen_moves` works: when `turn` has any move at all, no square holds
/// two pieces and `turn` has exactly one king.
pub open spec fn can_generate(v: BoardView, turn: Colour) -> bool {
    has_pseudo_move(v, turn) ==> v.is_valid() && crate::bits::single_bit(king_of(v, turn))
}

/// Whether `gen_moves` can run on `board` with `turn` to move: where `turn`
/// has any move, no square holds two pieces and `turn` has exactly one king.
pub fn can_move_generate(board: &Board, turn: &Colour) -> (r: bool)
    ensures
        r == can_generate(board@, *turn),
{
    let moves = gen_pseudolegal_moves(board, turn);
    let mut any = false;
    for x in 0..64
        invariant
            moves@ == pseudo_moves(board@, *turn),
            any == exists|s: int| 0 <= s < x && #[trigger] pseudo_at(board@, *turn, s) != 0,
    {
        if moves[x] != 0 {
            assert(pseudo_at(board@, *turn, x as int) != 0);
            any = true;
        }
    }
    if !any {
        return true;
    }
    let king = match turn {
        Colour::W => board.w[5],
        Colour::B => board.b[5],
    };
    board.validate() && crate::position::is_single_square(king)
}

/// A square of the union of bitboards is a square of one of them.
pub proof fn lemma_union_has(s: Seq<u64>, n: int, t: int)
    requires
        0 <= n <= s.len(),
        is_square(t),
    ensures
        in_bb(union_upto(s, n), t) == exists|k: int| 0 <= k < n && #[trigger] in_bb(s[k], t),
    decreases n,
{
    crate::bits::lemma_has_ops();
    if n > 0 {
        lemma_union_has(s, n - 1, t);
        if in_bb(s[n - 1], t) {
            assert(in_bb(s[n - 1], t));
        }
    }
}

/// The kind found on a square is one whose bitboard holds the square.
pub proof fn lemma_kind_on(side: Seq<u64>, sq: int, n: int)
    requires
        0 <= n <= side.len(),
    ensures
        kind_on(side, sq, n) < n,
        kind_on(side, sq, n) >= 0 ==> in_bb(side[kind_on(side, sq, n)], sq),
        kind_on(side, sq, n) < 0 <==> forall|k: int| 0 <= k < n ==> !#[trigger] in_bb(side[k], sq),
    decreases n,
{
    if n > 0 {
        lemma_kind_on(side, sq, n - 1);
    }
}

/// A piece never moves onto a square of its own side.
pub proof fn lemma_pseudo_target(v: BoardView, turn: Colour, s: int, t: int)
    requires
        is_square(t),
        in_bb(pseudo_at(v, turn, s), t),
    ensures
        !in_bb(v.side_occupancy(turn), t),
{
    crate::bits::lemma_has_ops();
    let k = kind_on(v.side(turn), s, 6);
    if k >= 0 {
        assert(in_bb(piece_moves(k, turn, s, v.occupancy()) & !v.side_occupancy(turn), t));
    }
}

/// Every legal move is a move of `gen_pseudolegal_moves`.
pub proof fn lemma_legal_within_pseudo(v: BoardView, turn: Colour, s: int)
    requires
        is_square(s),
    ensures
        legal_moves(v, turn)[s] & !pseudo_moves(v, turn)[s] == 0,
{
    crate::bits::lemma_has_ops();
    lemma_legal_targets(v, turn, s, 64);
    let l = legal_moves(v, turn)[s];
    let p = pseudo_moves(v, turn)[s];
    assert forall|t: int| is_square(t) implies #[trigger] in_bb(l & !p, t) == in_bb(0u64, t) by {
        assert(in_bb(l, t) == is_legal(v, turn, s, t));
    }
    crate::bits::lemma_bb_ext(l & !p, 0u64);
}

/// A square is attacked by `c` exactly when some piece of `c` attacks it.
pub proof fn lemma_attacked_by_some_piece(v: BoardView, c: Colour, t: int)
    requires
        is_square(t),
    ensures
        in_bb(attacked_by(v, c), t) == exists|s: int| 0 <= s < 64 && #[trigger] in_bb(attack_at(v, c, s), t),
{
    lemma_union_has(attack_table(v, c), 64, t);
    if in_bb(attacked_by(v, c), t) {
        let k = choose|k: int| 0 <= k < 64 && #[trigger] in_bb(attack_table(v, c)[k], t);
        assert(in_bb(attack_at(v, c, k), t));
    }
    if exists|s: int| 0 <= s < 64 && #[trigger] in_bb(attack_at(v, c, s), t) {
        let s = choose|s: int| 0 <= s < 64 && #[trigger] in_bb(attack_at(v, c, s), t);
        assert(in_bb(attack_table(v, c)[s], t));
    }
}

/// A move of a piece onto `t` that is not a pawn's advance is a move onto a
/// square the piece attacks.
pub proof fn lemma_pseudo_attacks(v: BoardView, c: Colour, s: int, t: int)
    requires
        is_square(s),
        is_square(t),
        in_bb(pseudo_at(v, c, s), t),
        !(kind_on(v.side(c), s, 6) == 0 && in_bb(pawn_pushes(c, s), t)),
    ensures
        in_bb(attack_at(v, c, s), t),
        in_bb(attacked_by(v, c), t),
{
    crate::bits::lemma_has_ops();
    let k = kind_on(v.side(c), s, 6);
    assert(in_bb(piece_moves(k, c, s, v.occupancy()) & !v.side_occupancy(c), t));
    lemma_union_has(attack_table(v, c), 64, t);
    assert(in_bb(attack_table(v, c)[s], t));
}

/// A piece with a move stands on a square of its own side.
pub proof fn lemma_pseudo_origin(v: BoardView, turn: Colour, s: int, t: int)
    requires
        v.w.len() == 6,
        v.b.len() == 6,
        is_square(s),
        is_square(t),
        in_bb(pseudo_at(v, turn, s), t),
    ensures
        in_bb(v.side_occupancy(turn), s),
        in_bb(v.occupancy(), s),
        bit(s) & v.occupancy() != 0,
        pseudo_at(v, turn, s) != 0,
{
    crate::bits::lemma_has_ops();
    lemma_kind_on(v.side(turn), s, 6);
    let k = kind_on(v.side(turn), s, 6);
    lemma_union_has(v.side(turn), 6, s);
    assert(in_bb(v.side(turn)[k], s));
    crate::bits::lemma_and_bit(v.occupancy(), s as u64);
    assert(v.occupancy() & bit(s) == bit(s) & v.occupancy()) by {
        let o = v.occupancy();
        let b = bit(s);
        assert(o & b == b & o) by (bit_vector);
    }
}


/// The legal targets of the `turn` piece on `s` among squares below `n`.
pub open spec fn legal_targets_upto(v: BoardView, turn: Colour, s: int, n: int) -> u64
    decreases n,
{
    if n <= 0 {
        0
    } else {
        legal_targets_upto(v, turn, s, n - 1) | (if is_legal(v, turn, s, n - 1) {
            bit(n - 1)
        } else {
            0
        })
    }
}

/// The legal moves of `turn`, indexed by origin square.
pub open spec fn legal_moves(v: BoardView, turn: Colour) -> Seq<u64> {
    Seq::new(64, |s: int| legal_targets_upto(v, turn, s, 64))
}

/// The legal target bitboard holds exactly the legal targets.
pub proof fn lemma_legal_targets(v: BoardView, turn: Colour, s: int, n: int)
    requires
        0 <= n <= 64,
    ensures
        forall|t: int|
            is_square(t) ==> #[trigger] in_bb(legal_targets_upto(v, turn, s, n), t) == (t < n
                && is_legal(v, turn, s, t)),
    decreases n,
{
    crate::bits::lemma_has_ops();
    if n > 0 {
        lemma_legal_targets(v, turn, s, n - 1);
        let prev = legal_targets_upto(v, turn, s, n - 1);
        if is_legal(v, turn, s, n - 1) {
            assert(legal_targets_upto(v, turn, s, n) == prev | bit(n - 1));
        } else {
            assert(legal_targets_upto(v, turn, s, n) == prev | 0u64);
        }
        assert forall|t: int| is_square(t) implies #[trigger] in_bb(legal_targets_upto(v, turn, s, n), t)
            == (t < n && is_legal(v, turn, s, t)) by {
            assert(in_bb(prev, t) == (t < n - 1 && is_legal(v, turn, s, t)));
        }
    }
}

/// The legal moves of `turn`, indexed by origin square: the moves of
/// `gen_pseudolegal_moves` less those after which a piece of the other side
/// attacks the `turn` king (a pawn's advances attack nothing).
pub fn gen_moves(board: &Board, turn: &Colour) -> (r: [u64; 64])
    requires
        can_generate(board@, *turn),
    ensures
        forall|s: int, t: int|
            is_square(s) && is_square(t) ==> #[trigger] in_bb(r@[s], t) == is_legal(board@, *turn, s, t),
        r@ == legal_moves(board@, *turn),
{
    let mut pseudo = gen_pseudolegal_moves(board, turn);
    let ghost p0 = pseudo@;
    let list = iter_moves(&pseudo);
    proof {
        lemma_move_list_members(p0, 64);
    }
    let opponent = turn.other();
    for i in 0..list.len()
        invariant
            list@ == move_list(p0),
            p0 == pseudo_moves(board@, *turn),
            can_generate(board@, *turn),
            opponent == turn.opponent(),
            forall|k: int| 0 <= k < list@.len() ==> is_table_move(p0, 64, #[trigger] list@[k]),
            forall|s: int, t: int|
                is_square(s) && is_square(t) ==> #[trigger] in_bb(pseudo@[s], t) == (in_bb(p0[s], t)
                    && !(list@.subrange(0, i as int).contains((bit(s), bit(t))) && exposes_king(
                    board@,
                    *turn,
                    s,
                    t,
                ))),
    {
        let (from, to) = list[i];
        let ghost (s0, t0) = choose|s: int, t: int|
            0 <= s < 64 && is_square(t) && in_bb(p0[s], t) && list@[i as int] == (
                #[trigger] bit(s),
                #[trigger] bit(t),
            );
        proof {
            assert(is_table_move(p0, 64, list@[i as int]));
            assert(in_bb(pseudo_at(board@, *turn, s0), t0));
            lemma_pseudo_origin(board@, *turn, s0, t0);
            lemma_trailing_zeros_bit(s0);
            assert(has_pseudo_move(board@, *turn));
        }
        let post_move = board.make_move(from, to);
        let attacks = gen_attacks(&post_move, &opponent);
        let mut atk_set: u64 = 0;
        for x in 0..64
            invariant
                atk_set == union_upto(attacks@, x as int),
        {
            atk_set = atk_set | attacks[x];
        }
        let k_square = match turn {
            Colour::W => post_move.w,
            Colour::B => post_move.b,
        }[Piece::K.index()];
        proof {
            // The king of the side to move is still a single square.
            lemma_pseudo_target(board@, *turn, s0, t0);
            crate::position::lemma_move_keeps_own_king(board@, *turn, s0, t0);
            assert(k_square == king_of(post_move@, *turn));
            assert(crate::bits::single_bit(k_square));
        }
        let ghost prev = pseudo@;
        proof {
            assert(list@.subrange(0, i + 1) =~= list@.subrange(0, i as int).push((from, to)));
        }
        if atk_set & k_square != 0 {
            let sq = from.trailing_zeros() as usize;
            pseudo[sq] = pseudo[sq] & !to;
            proof {
                assert(exposes_king(board@, *turn, s0, t0));
                assert forall|s: int, t: int| is_square(s) && is_square(t) implies #[trigger] in_bb(
                    pseudo@[s],
                    t,
                ) == (in_bb(p0[s], t) && !(list@.subrange(0, i + 1).contains((bit(s), bit(t)))
                    && exposes_king(board@, *turn, s, t))) by {
                    crate::bits::lemma_has_ops();
                    lemma_trailing_zeros_bit(s);
                    lemma_trailing_zeros_bit(t);
                    lemma_trailing_zeros_bit(t0);
                    assert(in_bb(prev[s], t) == (in_bb(p0[s], t) && !(list@.subrange(
                        0,
                        i as int,
                    ).contains((bit(s), bit(t))) && exposes_king(board@, *turn, s, t))));
                    if s == s0 && t == t0 {
                        assert(list@.subrange(0, i + 1)[i as int] == (bit(s), bit(t)));
                    }
                }
            }
        } else {
            proof {
                assert(!exposes_king(board@, *turn, s0, t0));
                assert forall|s: int, t: int| is_square(s) && is_square(t) implies #[trigger] in_bb(
                    pseudo@[s],
                    t,
                ) == (in_bb(p0[s], t) && !(list@.subrange(0, i + 1).contains((bit(s), bit(t)))
                    && exposes_king(board@, *turn, s, t))) by {
                    lemma_trailing_zeros_bit(s);
                    lemma_trailing_zeros_bit(t);
                    assert(in_bb(prev[s], t) == (in_bb(p0[s], t) && !(list@.subrange(
                        0,
                        i as int,
                    ).contains((bit(s), bit(t))) && exposes_king(board@, *turn, s, t))));
                }
            }
        }
    }
    proof {
        assert(list@.subrange(0, list@.len() as int) =~= list@);
        assert forall|s: int, t: int| is_square(s) && is_square(t) implies #[trigger] in_bb(pseudo@[s], t)
            == is_legal(board@, *turn, s, t) by {
            if in_bb(p0[s], t) {
                assert(list@.contains((bit(s), bit(t))));
            }
        }
        assert forall|s: int| 0 <= s < 64 implies #[trigger] pseudo@[s] == legal_moves(board@, *turn)[s] by {
            lemma_legal_targets(board@, *turn, s, 64);
            crate::bits::lemma_bb_ext(pseudo@[s], legal_targets_upto(board@, *turn, s, 64));
        }
        assert(pseudo@ =~= legal_moves(board@, *turn));
    }
    pseudo
}

} // verus!
