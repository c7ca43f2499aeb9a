//! Counting the positions reached by sequences of legal moves.
use vstd::prelude::*;
use crate::bits::{bit, bits_of, in_bb, is_square};
use crate::board::{Board, BoardView, Colour};
use crate::move_gen::{
    can_generate, can_move_generate, gen_moves, is_legal, is_table_move, iter_moves, legal_moves, lemma_legal_targets,
    lemma_move_list_members, lemma_pseudo_origin, move_list, move_list_upto,
};

verus! {

/// The legal moves of `turn` in `v`, in the order `iter_moves` lists them.
pub open spec fn legal_move_list(v: BoardView, turn: Colour) -> Seq<(u64, u64)> {
    move_list(legal_moves(v, turn))
}

/// The position after the `i`-th legal move of `turn`.
pub open spec fn child(v: BoardView, turn: Colour, i: int) -> BoardView {
    let mv = legal_move_list(v, turn)[i];
    v.moved(mv.0, mv.1)
}

/// The number of sequences of `depth` legal moves from `v` with `turn` to move.
pub open spec fn perft_count(v: BoardView, turn: Colour, depth: nat) -> nat
    decreases depth, 1nat, 0nat,
{
    if depth == 0 {
        1
    } else {
        perft_sum(v, turn, (depth - 1) as nat, legal_move_list(v, turn).len())
    }
}

/// The counts of sequences of `d` moves after each of the first `n` legal
/// moves of `turn`, added up.
pub open spec fn perft_sum(v: BoardView, turn: Colour, d: nat, n: nat) -> nat
    decreases d + 1, 0nat, n,
{
    if n == 0 {
        0
    } else {
        perft_sum(v, turn, d, (n - 1) as nat) + perft_count(
            child(v, turn, n - 1),
            turn.opponent(),
            d,
        )
    }
}

/// Every position reached before the last of `depth` moves is one where moves
/// can be generated.
pub open spec fn perft_safe(v: BoardView, turn: Colour, depth: nat) -> bool
    decreases depth, 1nat, 0nat,
{
    depth == 0 || (can_generate(v, turn) && children_safe(
        v,
        turn,
        (depth - 1) as nat,
        legal_move_list(v, turn).len(),
    ))
}

/// The positions after each of the first `n` legal moves are safe for `d` more moves.
pub open spec fn children_safe(v: BoardView, turn: Colour, d: nat, n: nat) -> bool
    decreases d + 1, 0nat, n,
{
    n == 0 || (children_safe(v, turn, d, (n - 1) as nat) && perft_safe(
        child(v, turn, n - 1),
        turn.opponent(),
        d,
    ))
}

/// Safety of the children, one child at a time.
proof fn lemma_children_safe(v: BoardView, turn: Colour, d: nat, n: nat, i: int)
    requires
        children_safe(v, turn, d, n),
        0 <= i < n,
    ensures
        perft_safe(child(v, turn, i), turn.opponent(), d),
    decreases n,
{
    if i < n - 1 {
        lemma_children_safe(v, turn, d, (n - 1) as nat, i);
    }
}

/// Partial sums of counts grow with the number of moves summed.
proof fn lemma_perft_sum_monotone(v: BoardView, turn: Colour, d: nat, i: nat, n: nat)
    requires
        i <= n,
    ensures
        perft_sum(v, turn, d, i) <= perft_sum(v, turn, d, n),
    decreases n - i,
{
    if i < n {
        lemma_perft_sum_monotone(v, turn, d, i, (n - 1) as nat);
    }
}

/// A legal move goes from a square of the mover's pieces, on a board with no
/// square holding two pieces.
proof fn lemma_legal_move_origin(v: BoardView, turn: Colour, k: int)
    requires
        v.w.len() == 6,
        v.b.len() == 6,
        can_generate(v, turn),
        0 <= k < legal_move_list(v, turn).len(),
    ensures
        v.is_valid(),
        legal_move_list(v, turn)[k].0 & v.occupancy() != 0,
{
    let table = legal_moves(v, turn);
    lemma_move_list_members(table, 64);
    assert(is_table_move(table, 64, legal_move_list(v, turn)[k]));
    let (s, t) = choose|s: int, t: int|
        0 <= s < 64 && is_square(t) && in_bb(table[s], t) && legal_move_list(v, turn)[k] == (
            #[trigger] bit(s),
            #[trigger] bit(t),
        );
    lemma_legal_targets(v, turn, s, 64);
    assert(is_legal(v, turn, s, t));
    lemma_pseudo_origin(v, turn, s, t);
}

/// The `i`-th legal move goes from a square `s` to a square `t` that is legal.
pub proof fn lemma_legal_list_entry(v: BoardView, turn: Colour, i: int) -> (st: (int, int))
    requires
        0 <= i < legal_move_list(v, turn).len(),
    ensures
        is_square(st.0),
        is_square(st.1),
        is_legal(v, turn, st.0, st.1),
        legal_move_list(v, turn)[i] == (bit(st.0), bit(st.1)),
        child(v, turn, i) == v.moved(bit(st.0), bit(st.1)),
{
    let table = legal_moves(v, turn);
    lemma_move_list_members(table, 64);
    assert(is_table_move(table, 64, legal_move_list(v, turn)[i]));
    let (s, t) = choose|s: int, t: int|
        0 <= s < 64 && is_square(t) && in_bb(table[s], t) && legal_move_list(v, turn)[i] == (
            #[trigger] bit(s),
            #[trigger] bit(t),
        );
    lemma_legal_targets(v, turn, s, 64);
    (s, t)
}

/// Whether counting `depth` moves from `board` with `turn` to move stays
/// within positions where moves can be generated (`perft_safe`).
pub fn playable_for(board: &Board, turn: &Colour, depth: u32) -> (r: bool)
    ensures
        r == perft_safe(board@, *turn, depth as nat),
    decreases depth,
{
    if depth == 0 {
        return true;
    }
    if !can_move_generate(board, turn) {
        return false;
    }
    let moves = gen_moves(board, turn);
    let list = iter_moves(&moves);
    let next_turn = turn.other();
    let ghost d = (depth - 1) as nat;
    for i in 0..list.len()
        invariant
            list@ == legal_move_list(board@, *turn),
            depth > 0,
            d == depth - 1,
            next_turn == turn.opponent(),
            can_generate(board@, *turn),
            children_safe(board@, *turn, d, i as nat),
    {
        let (from, to) = list[i];
        proof {
            lemma_legal_move_origin(board@, *turn, i as int);
        }
        let next = board.make_move(from, to);
        if !playable_for(&next, &next_turn, depth - 1) {
            proof {
                if children_safe(board@, *turn, d, list@.len() as nat) {
                    lemma_children_safe(board@, *turn, d, list@.len() as nat, i as int);
                }
            }
            return false;
        }
    }
    true
}

/// Counting one move deep counts the legal moves.
pub proof fn lemma_perft_one(v: BoardView, turn: Colour)
    ensures
        perft_count(v, turn, 1) == legal_move_list(v, turn).len(),
{
    lemma_perft_sum_ones(v, turn, legal_move_list(v, turn).len());
}

/// Counting positions: with no move left to make there is one sequence, the
/// empty one; otherwise each legal move, in the order `iter_moves` lists
/// them, adds the count one move shorter from the position it leads to, with
/// the other side to move.
pub proof fn lemma_perft_recursion(v: BoardView, turn: Colour, depth: nat)
    ensures
        depth == 0 ==> perft_count(v, turn, depth) == 1,
        depth >= 1 ==> perft_count(v, turn, depth) == perft_sum(
            v,
            turn,
            (depth - 1) as nat,
            legal_move_list(v, turn).len(),
        ),
        forall|d: nat, n: nat|
            0 < n <= legal_move_list(v, turn).len() ==> #[trigger] perft_sum(v, turn, d, n) == perft_sum(
                v,
                turn,
                d,
                (n - 1) as nat,
            ) + perft_count(
                v.moved(legal_move_list(v, turn)[n - 1].0, legal_move_list(v, turn)[n - 1].1),
                turn.opponent(),
                d,
            ),
{
}

/// The sum of a sequence of counts.
pub open spec fn seq_sum(s: Seq<nat>) -> nat
    decreases s.len(),
{
    if s.len() == 0 {
        0
    } else {
        seq_sum(s.drop_last()) + s.last()
    }
}

/// From a position where the side to move has no legal move, there is no
/// sequence of one or more moves: the count is 0 at every depth from 1 on.
pub proof fn lemma_perft_no_moves(v: BoardView, turn: Colour, depth: nat)
    requires
        depth >= 1,
        legal_move_list(v, turn).len() == 0,
    ensures
        perft_count(v, turn, depth) == 0,
{
}

/// One move deeper, the count is the sum, over the legal moves in the order
/// `iter_moves` lists them, of the counts from the positions they lead to
/// with the other side to move.
pub proof fn lemma_perft_sum_of_children(v: BoardView, turn: Colour, d: nat)
    ensures
        perft_count(v, turn, d + 1) == seq_sum(
            Seq::new(
                legal_move_list(v, turn).len(),
                |i: int|
                    perft_count(
                        v.moved(legal_move_list(v, turn)[i].0, legal_move_list(v, turn)[i].1),
                        turn.opponent(),
                        d,
                    ),
            ),
        ),
{
    let n = legal_move_list(v, turn).len();
    lemma_perft_sum_prefix(v, turn, d, n);
    assert(perft_count(v, turn, d + 1) == perft_sum(v, turn, d, n));
}

proof fn lemma_perft_sum_prefix(v: BoardView, turn: Colour, d: nat, n: nat)
    requires
        n <= legal_move_list(v, turn).len(),
    ensures
        perft_sum(v, turn, d, n) == seq_sum(
            Seq::new(
                n,
                |i: int|
                    perft_count(
                        v.moved(legal_move_list(v, turn)[i].0, legal_move_list(v, turn)[i].1),
                        turn.opponent(),
                        d,
                    ),
            ),
        ),
    decreases n,
{
    let f = |i: int|
        perft_count(
            v.moved(legal_move_list(v, turn)[i].0, legal_move_list(v, turn)[i].1),
            turn.opponent(),
            d,
        );
    if n > 0 {
        lemma_perft_sum_prefix(v, turn, d, (n - 1) as nat);
        assert(Seq::new(n, f).drop_last() =~= Seq::new((n - 1) as nat, f));
    }
}

/// The number of moves in the first `n` entries of a move table: their
/// squares, added up.
pub open spec fn move_count(moves: Seq<u64>, n: int) -> nat
    decreases n,
{
    if n <= 0 {
        0
    } else {
        move_count(moves, n - 1) + bits_of(moves[n - 1]).len()
    }
}

proof fn lemma_move_list_len(moves: Seq<u64>, n: int)
    ensures
        move_list_upto(moves, n).len() == move_count(moves, n),
    decreases n,
{
    if n > 0 {
        lemma_move_list_len(moves, n - 1);
    }
}

/// The count one move deep is the number of legal moves: the number of
/// target squares in the legal move table, added up over the origin squares.
pub proof fn lemma_perft_one_counts_targets(v: BoardView, turn: Colour)
    ensures
        perft_count(v, turn, 1) == move_count(legal_moves(v, turn), 64),
{
    lemma_perft_one(v, turn);
    lemma_move_list_len(legal_moves(v, turn), 64);
}

proof fn lemma_perft_sum_ones(v: BoardView, turn: Colour, n: nat)
    ensures
        perft_sum(v, turn, 0, n) == n,
    decreases n,
{
    if n > 0 {
        lemma_perft_sum_ones(v, turn, (n - 1) as nat);
        assert(perft_count(child(v, turn, n - 1), turn.opponent(), 0) == 1);
    }
}

/// The number of sequences of `depth` legal moves from `board` with `turn` to
/// move; `None` where that number does not fit in a `u64`.
pub fn perft_checked(board: &Board, turn: &Colour, depth: u32) -> (r: Option<u64>)
    requires
        perft_safe(board@, *turn, depth as nat),
    ensures
        r == (if perft_count(board@, *turn, depth as nat) <= u64::MAX {
            Some(perft_count(board@, *turn, depth as nat) as u64)
        } else {
            None
        }),
    decreases depth,
{
    if depth == 0 {
        return Some(1);
    }
    let moves = gen_moves(board, turn);
    let list = iter_moves(&moves);
    let next_turn = turn.other();
    let mut count: u64 = 0;
    let ghost d = (depth - 1) as nat;
    for i in 0..list.len()
        invariant
            list@ == legal_move_list(board@, *turn),
            depth > 0,
            d == depth - 1,
            next_turn == turn.opponent(),
            can_generate(board@, *turn),
            children_safe(board@, *turn, d, list@.len() as nat),
            perft_count(board@, *turn, depth as nat) == perft_sum(board@, *turn, d, list@.len() as nat),
            count == perft_sum(board@, *turn, d, i as nat),
    {
        let (from, to) = list[i];
        proof {
            lemma_legal_move_origin(board@, *turn, i as int);
            lemma_children_safe(board@, *turn, d, list@.len() as nat, i as int);
            lemma_perft_sum_monotone(board@, *turn, d, (i + 1) as nat, list@.len() as nat);
        }
        let next = board.make_move(from, to);
        match perft_checked(&next, &next_turn, depth - 1) {
            None => {
                return None;
            },
            Some(sub) => {
                match count.checked_add(sub) {
                    None => {
                        return None;
                    },
                    Some(total) => {
                        count = total;
                    },
                }
            },
        }
    }
    Some(count)
}

/// The number of sequences of `depth` legal moves from `board` with `turn` to move.
pub fn perft(board: &Board, turn: &Colour, depth: u32) -> (r: u64)
    requires
        perft_safe(board@, *turn, depth as nat),
        perft_count(board@, *turn, depth as nat) <= u64::MAX,
    ensures
        r == perft_count(board@, *turn, depth as nat),
{
    match perft_checked(board, turn, depth) {
        Some(count) => count,
        None => {
            // The count fits, so the checked count is never missing.
            proof {
                assert(false);
            }
            0
        },
    }
}

} // verus!
