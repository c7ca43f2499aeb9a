//! Sound positions, and why legal moves keep them sound.
use vstd::prelude::*;
use crate::attacks::pawn_pushes;
use crate::bits::{
    bit, bits_of, in_bb, is_square, lemma_and_bit, lemma_count_one_change, lemma_bb_ext, lemma_disjoint_iff, lemma_has_ops,
    single_bit,
};
use crate::board::{Board, BoardView, Colour, capture_piece, first_hit, lift_piece, union_upto};
use crate::move_gen::{
    attacked_by, exposes_king, gen_attacks, is_legal, king_of, kind_on, lemma_union_has,
};

verus! {

/// Bitboard `i` of side `c` holds square `q`.
pub open spec fn holds(v: BoardView, c: Colour, i: int, q: int) -> bool {
    in_bb(v.side(c)[i], q)
}

/// Square by square, at most one of the twelve bitboards holds a square.
pub open spec fn one_holder(v: BoardView) -> bool {
    forall|c1: Colour, i: int, c2: Colour, j: int, q: int|
        0 <= i < 6 && 0 <= j < 6 && is_square(q) && !(c1 == c2 && i == j) && #[trigger] holds(
            v,
            c1,
            i,
            q,
        ) ==> !#[trigger] holds(v, c2, j, q)
}

/// A position in which play can go on: no square holds two pieces, each side
/// has exactly one king, and no piece of the side to move attacks the other
/// king.
pub open spec fn is_sound(v: BoardView, turn: Colour) -> bool {
    &&& v.w.len() == 6
    &&& v.b.len() == 6
    &&& v.is_valid()
    &&& single_bit(king_of(v, Colour::W))
    &&& single_bit(king_of(v, Colour::B))
    &&& attacked_by(v, turn) & king_of(v, turn.opponent()) == 0
}

/// Validity, pair of bitboards by pair, is validity square by square.
pub proof fn lemma_valid_iff_one_holder(v: BoardView)
    requires
        v.w.len() == 6,
        v.b.len() == 6,
    ensures
        v.is_valid() == one_holder(v),
{
    if v.is_valid() {
        assert forall|c1: Colour, i: int, c2: Colour, j: int, q: int|
            0 <= i < 6 && 0 <= j < 6 && is_square(q) && !(c1 == c2 && i == j) && #[trigger] holds(
                v,
                c1,
                i,
                q,
            ) implies !#[trigger] holds(v, c2, j, q) by {
            match (c1, c2) {
                (Colour::W, Colour::W) => {
                    lemma_disjoint_iff(v.w[i], v.w[j]);
                },
                (Colour::B, Colour::B) => {
                    lemma_disjoint_iff(v.b[i], v.b[j]);
                },
                (Colour::W, Colour::B) => {
                    lemma_disjoint_iff(v.w[i], v.b[j]);
                },
                (Colour::B, Colour::W) => {
                    lemma_disjoint_iff(v.w[j], v.b[i]);
                },
            }
        }
    }
    if one_holder(v) {
        assert forall|i: int, j: int| 0 <= i < 6 && 0 <= j < 6 && i != j implies #[trigger] (v.w[i]
            & v.w[j]) == 0 by {
            lemma_disjoint_iff(v.w[i], v.w[j]);
            assert forall|t: int| is_square(t) implies !(#[trigger] in_bb(v.w[i], t) && #[trigger] in_bb(
                v.w[j],
                t,
            )) by {
                if holds(v, Colour::W, i, t) {
                    assert(!holds(v, Colour::W, j, t));
                }
            }
        }
        assert forall|i: int, j: int| 0 <= i < 6 && 0 <= j < 6 && i != j implies #[trigger] (v.b[i]
            & v.b[j]) == 0 by {
            lemma_disjoint_iff(v.b[i], v.b[j]);
            assert forall|t: int| is_square(t) implies !(#[trigger] in_bb(v.b[i], t) && #[trigger] in_bb(
                v.b[j],
                t,
            )) by {
                if holds(v, Colour::B, i, t) {
                    assert(!holds(v, Colour::B, j, t));
                }
            }
        }
        assert forall|i: int, j: int| 0 <= i < 6 && 0 <= j < 6 implies #[trigger] (v.w[i] & v.b[j])
            == 0 by {
            lemma_disjoint_iff(v.w[i], v.b[j]);
            assert forall|t: int| is_square(t) implies !(#[trigger] in_bb(v.w[i], t) && #[trigger] in_bb(
                v.b[j],
                t,
            )) by {
                if holds(v, Colour::W, i, t) {
                    assert(!holds(v, Colour::B, j, t));
                }
            }
        }
    }
}

/// `first_hit` finds the first bitboard, from `i` on, that holds square `q`.
pub proof fn lemma_first_hit(sd: Seq<u64>, q: int, i: int)
    requires
        sd.len() == 6,
        is_square(q),
        0 <= i <= 6,
    ensures
        i <= first_hit(sd, bit(q), i) <= 6,
        first_hit(sd, bit(q), i) < 6 ==> in_bb(sd[first_hit(sd, bit(q), i)], q),
        forall|j: int| i <= j < first_hit(sd, bit(q), i) ==> !#[trigger] in_bb(sd[j], q),
    decreases 6 - i,
{
    if i < 6 {
        lemma_and_bit(sd[i], q as u64);
        lemma_first_hit(sd, q, i + 1);
    }
}

/// A square of a side's union is held by one of its bitboards.
proof fn lemma_side_union(v: BoardView, c: Colour, q: int)
    requires
        v.w.len() == 6,
        v.b.len() == 6,
        is_square(q),
    ensures
        in_bb(v.side_occupancy(c), q) == exists|k: int| 0 <= k < 6 && #[trigger] holds(v, c, k, q),
{
    lemma_union_has(v.side(c), 6, q);
    if in_bb(v.side_occupancy(c), q) {
        let k = choose|k: int| 0 <= k < 6 && #[trigger] in_bb(v.side(c)[k], q);
        assert(holds(v, c, k, q));
    }
    if exists|k: int| 0 <= k < 6 && #[trigger] holds(v, c, k, q) {
        let k = choose|k: int| 0 <= k < 6 && #[trigger] holds(v, c, k, q);
        assert(in_bb(v.side(c)[k], q));
    }
}

/// A one-square bitboard that holds `q` is `bit(q)`.
proof fn lemma_single_bit_is(b: u64, q: int)
    requires
        single_bit(b),
        is_square(q),
        in_bb(b, q),
    ensures
        b == bit(q),
{
    lemma_has_ops();
    let s = choose|s: int| is_square(s) && b == #[trigger] bit(s);
    assert(in_bb(bit(s), q));
}

/// The facts about a move of a `turn` piece onto a square `turn` does not
/// hold that the proofs below use: which bitboard holds the piece, and which
/// side the move is made for.
proof fn lemma_move_facts(v: BoardView, turn: Colour, s: int, t: int) -> (k: int)
    requires
        v.w.len() == 6,
        v.b.len() == 6,
        v.is_valid(),
        is_square(s),
        is_square(t),
        in_bb(v.side_occupancy(turn), s),
        !in_bb(v.side_occupancy(turn), t),
    ensures
        0 <= k < 6,
        holds(v, turn, k, s),
        forall|c: Colour, i: int| 0 <= i < 6 && !(c == turn && i == k) ==> !#[trigger] holds(v, c, i, s),
        forall|i: int| 0 <= i < 6 ==> !#[trigger] holds(v, turn, i, t),
        s != t,
        first_hit(v.side(turn), bit(s), 0) == k,
        (bit(s) & v.white() != 0) == (turn == Colour::W),
{
    lemma_has_ops();
    lemma_valid_iff_one_holder(v);
    lemma_side_union(v, turn, s);
    let k = choose|k: int| 0 <= k < 6 && #[trigger] holds(v, turn, k, s);
    // The target is not a square of the mover.
    lemma_side_union(v, turn, t);
    assert forall|i: int| 0 <= i < 6 implies !#[trigger] holds(v, turn, i, t) by {
        if holds(v, turn, i, t) {
            assert(exists|k: int| 0 <= k < 6 && #[trigger] holds(v, turn, k, t));
        }
    }
    lemma_first_hit(v.side(turn), s, 0);
    let r = first_hit(v.side(turn), bit(s), 0);
    if r < k {
        assert(!in_bb(v.side(turn)[k], s) || holds(v, turn, r, s));
        assert(holds(v, turn, r, s));
    } else if r > k {
        assert(!in_bb(v.side(turn)[k], s));
    }
    // Which side's union holds the origin.
    lemma_side_union(v, Colour::W, s);
    lemma_and_bit(v.white(), s as u64);
    let wh = v.white();
    let b = bit(s);
    assert(b & wh == wh & b) by (bit_vector);
    if turn == Colour::W {
        assert(holds(v, Colour::W, k, s));
    } else {
        assert forall|i: int| 0 <= i < 6 implies !#[trigger] holds(v, Colour::W, i, s) by {}
    }
    k
}

/// The new bitboards after a legal move, square by square.
proof fn lemma_moved_holds(v: BoardView, turn: Colour, s: int, t: int, k: int)
    requires
        v.w.len() == 6,
        v.b.len() == 6,
        v.is_valid(),
        is_square(s),
        is_square(t),
        0 <= k < 6,
        s != t,
        holds(v, turn, k, s),
        first_hit(v.side(turn), bit(s), 0) == k,
        (bit(s) & v.white() != 0) == (turn == Colour::W),
    ensures
        ({
            let post = v.moved(bit(s), bit(t));
            &&& post.w.len() == 6
            &&& post.b.len() == 6
            &&& forall|i: int, q: int|
                0 <= i < 6 && is_square(q) ==> #[trigger] holds(post, turn, i, q) == (if i == k {
                    (q != s && holds(v, turn, k, q)) || q == t
                } else {
                    holds(v, turn, i, q)
                })
            &&& forall|i: int, q: int|
                0 <= i < 6 && is_square(q) ==> #[trigger] holds(post, turn.opponent(), i, q) == (
                holds(v, turn.opponent(), i, q) && !(q == t && i == first_hit(
                    v.side(turn.opponent()),
                    bit(t),
                    0,
                )))
        }),
{
    lemma_has_ops();
    let post = v.moved(bit(s), bit(t));
    let own = v.side(turn);
    let opp = v.side(turn.opponent());
    assert(post.side(turn) == lift_piece(own, bit(s), bit(t)));
    assert(post.side(turn.opponent()) == capture_piece(opp, bit(t)));
    lemma_first_hit(opp, t, 0);
    let j = first_hit(opp, bit(t), 0);
    assert forall|i: int, q: int|
        0 <= i < 6 && is_square(q) implies #[trigger] holds(post, turn.opponent(), i, q) == (holds(
        v,
        turn.opponent(),
        i,
        q,
    ) && !(q == t && i == j)) by {
        if i == j {
            assert(post.side(turn.opponent())[i] == opp[i] & !bit(t));
        }
    }
}

/// What a move of a `turn` piece from `s` onto a square `t` that `turn` does
/// not hold does, square by square: the piece on `s` now stands on `t`, `s`
/// is empty, whatever of the other side stood on `t` is gone, and every other
/// square keeps what it held.
pub proof fn lemma_move_square_by_square(v: BoardView, turn: Colour, s: int, t: int)
    requires
        v.is_valid(),
        is_square(s),
        is_square(t),
        in_bb(v.side_occupancy(turn), s),
        !in_bb(v.side_occupancy(turn), t),
    ensures
        forall|i: int, q: int|
            0 <= i < 6 && is_square(q) ==> #[trigger] holds(v.moved(bit(s), bit(t)), turn, i, q) == (if q
                == t {
                holds(v, turn, i, s)
            } else if q == s {
                false
            } else {
                holds(v, turn, i, q)
            }),
        forall|i: int, q: int|
            0 <= i < 6 && is_square(q) ==> #[trigger] holds(v.moved(bit(s), bit(t)), turn.opponent(), i, q)
                == (q != t && holds(v, turn.opponent(), i, q)),
{
    lemma_has_ops();
    let k = lemma_move_facts(v, turn, s, t);
    lemma_moved_holds(v, turn, s, t, k);
    let post = v.moved(bit(s), bit(t));
    let opp = turn.opponent();
    lemma_valid_iff_one_holder(v);
    lemma_first_hit(v.side(opp), t, 0);
    let j = first_hit(v.side(opp), bit(t), 0);
    assert forall|i: int, q: int| 0 <= i < 6 && is_square(q) implies #[trigger] holds(post, opp, i, q) == (q
        != t && holds(v, opp, i, q)) by {
        if q == t && holds(v, opp, i, q) && i != j {
            if i < j {
                assert(!in_bb(v.side(opp)[i], t));
            } else {
                assert(holds(v, opp, j, t));
            }
        }
    }
}

/// Moving a piece of `turn` onto a square that `turn` does not hold keeps
/// every square held by at most one piece.
pub proof fn lemma_move_keeps_valid(v: BoardView, turn: Colour, s: int, t: int)
    requires
        v.w.len() == 6,
        v.b.len() == 6,
        v.is_valid(),
        is_square(s),
        is_square(t),
        in_bb(v.side_occupancy(turn), s),
        !in_bb(v.side_occupancy(turn), t),
    ensures
        v.moved(bit(s), bit(t)).is_valid(),
{
    lemma_has_ops();
    let k = lemma_move_facts(v, turn, s, t);
    lemma_moved_holds(v, turn, s, t, k);
    let post = v.moved(bit(s), bit(t));
    let opp = turn.opponent();
    lemma_valid_iff_one_holder(v);
    lemma_first_hit(v.side(opp), t, 0);
    // No square holds two pieces after the move.
    assert forall|c1: Colour, i: int, c2: Colour, j: int, q: int|
        0 <= i < 6 && 0 <= j < 6 && is_square(q) && !(c1 == c2 && i == j) && #[trigger] holds(
            post,
            c1,
            i,
            q,
        ) implies !#[trigger] holds(post, c2, j, q) by {
        if c1 == turn {
            if c2 == turn {
                assert(holds(post, turn, i, q));
                assert(holds(post, turn, j, q) ==> false) by {
                    if holds(post, turn, j, q) {
                        if q == t {
                            assert(holds(post, turn, i, t) == (if i == k {
                                true
                            } else {
                                holds(v, turn, i, t)
                            }));
                            assert(holds(post, turn, j, t) == (if j == k {
                                true
                            } else {
                                holds(v, turn, j, t)
                            }));
                            assert(false);
                        } else {
                            assert(holds(v, turn, i, q) && holds(v, turn, j, q));
                        }
                    }
                }
            } else {
                assert(c2 == opp);
                if holds(post, opp, j, q) {
                    if q == t {
                        let r = first_hit(v.side(opp), bit(t), 0);
                        assert(holds(v, opp, j, t));
                        if r < j {
                            assert(holds(v, opp, r, t));
                        }
                        assert(false);
                    } else {
                        assert(holds(v, turn, i, q) && holds(v, opp, j, q));
                    }
                }
            }
        } else {
            assert(c1 == opp);
            if c2 == turn {
                if holds(post, turn, j, q) {
                    if q == t {
                        let r = first_hit(v.side(opp), bit(t), 0);
                        assert(holds(v, opp, i, t));
                        if r < i {
                            assert(holds(v, opp, r, t));
                        }
                        assert(false);
                    } else {
                        assert(holds(v, opp, i, q) && holds(v, turn, j, q));
                    }
                }
            } else {
                assert(c2 == opp);
                assert(holds(v, opp, i, q));
            }
        }
    }
    lemma_valid_iff_one_holder(post);
}

/// Moving a piece of `turn` from `s` onto a square `t` that `turn` does not
/// hold: the mover's squares lose `s` and gain `t`, the other side's lose `t`.
pub proof fn lemma_move_occupancy(v: BoardView, turn: Colour, s: int, t: int)
    requires
        v.w.len() == 6,
        v.b.len() == 6,
        v.is_valid(),
        is_square(s),
        is_square(t),
        in_bb(v.side_occupancy(turn), s),
        !in_bb(v.side_occupancy(turn), t),
    ensures
        v.moved(bit(s), bit(t)).side_occupancy(turn) == (v.side_occupancy(turn) & !bit(s)) | bit(t),
        v.moved(bit(s), bit(t)).side_occupancy(turn.opponent()) == v.side_occupancy(turn.opponent())
            & !bit(t),
        v.moved(bit(s), bit(t)).occupancy() == (v.occupancy() & !bit(s)) | bit(t),
{
    lemma_has_ops();
    let k = lemma_move_facts(v, turn, s, t);
    lemma_moved_holds(v, turn, s, t, k);
    let post = v.moved(bit(s), bit(t));
    let opp = turn.opponent();
    lemma_valid_iff_one_holder(v);
    lemma_first_hit(v.side(opp), t, 0);
    let j = first_hit(v.side(opp), bit(t), 0);
    assert forall|q: int| is_square(q) implies #[trigger] in_bb(post.side_occupancy(turn), q) == in_bb(
        (v.side_occupancy(turn) & !bit(s)) | bit(t),
        q,
    ) by {
        lemma_side_union(post, turn, q);
        lemma_side_union(v, turn, q);
        if in_bb(post.side_occupancy(turn), q) {
            let i = choose|i: int| 0 <= i < 6 && #[trigger] holds(post, turn, i, q);
            assert(holds(post, turn, i, q));
        }
        if q == t {
            assert(holds(post, turn, k, q));
        } else if q != s && in_bb(v.side_occupancy(turn), q) {
            let i = choose|i: int| 0 <= i < 6 && #[trigger] holds(v, turn, i, q);
            assert(holds(post, turn, i, q));
        }
    }
    lemma_bb_ext(post.side_occupancy(turn), (v.side_occupancy(turn) & !bit(s)) | bit(t));
    assert forall|q: int| is_square(q) implies #[trigger] in_bb(post.side_occupancy(opp), q) == in_bb(
        v.side_occupancy(opp) & !bit(t),
        q,
    ) by {
        lemma_side_union(post, opp, q);
        lemma_side_union(v, opp, q);
        if in_bb(post.side_occupancy(opp), q) {
            let i = choose|i: int| 0 <= i < 6 && #[trigger] holds(post, opp, i, q);
            assert(holds(post, opp, i, q));
            if q == t {
                assert(holds(v, opp, i, t));
                if j < i {
                    assert(holds(v, opp, j, t));
                }
            }
        }
        if q != t && in_bb(v.side_occupancy(opp), q) {
            let i = choose|i: int| 0 <= i < 6 && #[trigger] holds(v, opp, i, q);
            assert(holds(post, opp, i, q));
        }
    }
    lemma_bb_ext(post.side_occupancy(opp), v.side_occupancy(opp) & !bit(t));
    // The other side does not hold the origin.
    lemma_side_union(v, opp, s);
    if in_bb(v.side_occupancy(opp), s) {
        let i = choose|i: int| 0 <= i < 6 && #[trigger] holds(v, opp, i, s);
        assert(holds(v, opp, i, s));
    }
    assert forall|q: int| is_square(q) implies #[trigger] in_bb(post.occupancy(), q) == in_bb(
        (v.occupancy() & !bit(s)) | bit(t),
        q,
    ) by {
        assert(in_bb(post.side_occupancy(turn), q) == in_bb((v.side_occupancy(turn) & !bit(s)) | bit(t), q));
        assert(in_bb(post.side_occupancy(opp), q) == in_bb(v.side_occupancy(opp) & !bit(t), q));
        match turn {
            Colour::W => {
                assert(post.occupancy() == post.side_occupancy(turn) | post.side_occupancy(opp));
                assert(v.occupancy() == v.side_occupancy(turn) | v.side_occupancy(opp));
            },
            Colour::B => {
                assert(post.occupancy() == post.side_occupancy(opp) | post.side_occupancy(turn));
                assert(v.occupancy() == v.side_occupancy(opp) | v.side_occupancy(turn));
            },
        }
    }
    lemma_bb_ext(post.occupancy(), (v.occupancy() & !bit(s)) | bit(t));
}

/// The number of squares that hold a piece of side `c`.
pub open spec fn piece_count(v: BoardView, c: Colour) -> nat {
    bits_of(v.side_occupancy(c)).len()
}

/// A move of a `turn` piece from `s` onto a square `t` that `turn` does not
/// hold keeps the mover's number of pieces, and takes one piece from the other
/// side exactly when `t` was occupied.
pub proof fn lemma_move_piece_counts(v: BoardView, turn: Colour, s: int, t: int)
    requires
        v.is_valid(),
        is_square(s),
        is_square(t),
        in_bb(v.side_occupancy(turn), s),
        !in_bb(v.side_occupancy(turn), t),
    ensures
        piece_count(v.moved(bit(s), bit(t)), turn) == piece_count(v, turn),
        piece_count(v.moved(bit(s), bit(t)), turn.opponent()) + (if in_bb(v.occupancy(), t) {
            1int
        } else {
            0
        }) == piece_count(v, turn.opponent()),
{
    lemma_has_ops();
    lemma_move_occupancy(v, turn, s, t);
    let post = v.moved(bit(s), bit(t));
    let own = v.side_occupancy(turn);
    let lifted = own & !bit(s);
    lemma_count_one_change(lifted, own, s, 64);
    lemma_count_one_change(lifted | bit(t), lifted, t, 64);
    let opp = v.side_occupancy(turn.opponent());
    lemma_count_one_change(opp & !bit(t), opp, t, 64);
    match turn {
        Colour::W => {
            assert(v.occupancy() == own | opp);
        },
        Colour::B => {
            assert(v.occupancy() == opp | own);
        },
    }
}

/// Moving a piece of `turn` onto a square that `turn` does not hold leaves
/// `turn` with one king if it had one.
pub proof fn lemma_move_keeps_own_king(v: BoardView, turn: Colour, s: int, t: int)
    requires
        v.w.len() == 6,
        v.b.len() == 6,
        v.is_valid(),
        is_square(s),
        is_square(t),
        in_bb(v.side_occupancy(turn), s),
        !in_bb(v.side_occupancy(turn), t),
        single_bit(king_of(v, turn)),
    ensures
        single_bit(king_of(v.moved(bit(s), bit(t)), turn)),
{
    lemma_has_ops();
    let k = lemma_move_facts(v, turn, s, t);
    lemma_moved_holds(v, turn, s, t, k);
    let post = v.moved(bit(s), bit(t));
    // The mover still has one king.
    if k == 5 {
        lemma_single_bit_is(king_of(v, turn), s);
        assert forall|q: int| is_square(q) implies #[trigger] in_bb(king_of(post, turn), q) == in_bb(
            bit(t),
            q,
        ) by {
            assert(holds(post, turn, 5, q) == ((q != s && holds(v, turn, 5, q)) || q == t));
        }
        lemma_bb_ext(king_of(post, turn), bit(t));
        assert(single_bit(king_of(post, turn)));
    } else {
        assert forall|q: int| is_square(q) implies #[trigger] in_bb(king_of(post, turn), q) == in_bb(
            king_of(v, turn),
            q,
        ) by {
            assert(holds(post, turn, 5, q) == holds(v, turn, 5, q));
        }
        lemma_bb_ext(king_of(post, turn), king_of(v, turn));
    }
}

/// From a sound position, no legal move takes a king, except a pawn's
/// advance onto the other king (an advance attacks nothing, and the pawn
/// tables do not stop at occupied squares).
pub proof fn lemma_no_king_capture(v: BoardView, turn: Colour, s: int, t: int)
    requires
        is_sound(v, turn),
        is_square(s),
        is_square(t),
        is_legal(v, turn, s, t),
    ensures
        in_bb(king_of(v, turn.opponent()), t) ==> kind_on(v.side(turn), s, 6) == 0 && in_bb(
            pawn_pushes(turn, s),
            t,
        ),
        !in_bb(king_of(v, turn), t),
{
    if !(kind_on(v.side(turn), s, 6) == 0 && in_bb(pawn_pushes(turn, s), t)) {
        crate::move_gen::lemma_pseudo_attacks(v, turn, s, t);
    }
    lemma_disjoint_iff(attacked_by(v, turn), king_of(v, turn.opponent()));
    crate::move_gen::lemma_pseudo_target(v, turn, s, t);
    lemma_side_union(v, turn, t);
    assert(!holds(v, turn, 5, t));
}

/// A legal move from a sound position that does not land on the other king
/// leaves a sound position with the other side to move. (A legal move can land
/// there only as a pawn's advance, `lemma_no_king_capture`; it then takes the
/// king.)
pub proof fn lemma_legal_move_keeps_sound(v: BoardView, turn: Colour, s: int, t: int)
    requires
        is_sound(v, turn),
        is_square(s),
        is_square(t),
        is_legal(v, turn, s, t),
        !in_bb(king_of(v, turn.opponent()), t),
    ensures
        is_sound(v.moved(bit(s), bit(t)), turn.opponent()),
{
    lemma_has_ops();
    crate::move_gen::lemma_pseudo_origin(v, turn, s, t);
    crate::move_gen::lemma_pseudo_target(v, turn, s, t);
    let k = lemma_move_facts(v, turn, s, t);
    lemma_moved_holds(v, turn, s, t, k);
    let post = v.moved(bit(s), bit(t));
    let opp = turn.opponent();
    lemma_valid_iff_one_holder(v);
    assert(!holds(v, opp, 5, t));
    lemma_first_hit(v.side(opp), t, 0);
    lemma_move_keeps_valid(v, turn, s, t);
    lemma_move_keeps_own_king(v, turn, s, t);
    // The other side keeps its king.
    assert forall|q: int| is_square(q) implies #[trigger] in_bb(king_of(post, opp), q) == in_bb(
        king_of(v, opp),
        q,
    ) by {
        assert(holds(post, opp, 5, q) == holds(v, opp, 5, q));
    }
    lemma_bb_ext(king_of(post, opp), king_of(v, opp));
    assert(opp.opponent() == turn);
    // The mover's king is not left attacked.
    assert(!exposes_king(v, turn, s, t));
    if turn == Colour::W {
        assert(single_bit(king_of(post, Colour::W)));
        assert(single_bit(king_of(post, Colour::B)));
    } else {
        assert(single_bit(king_of(post, Colour::W)));
        assert(single_bit(king_of(post, Colour::B)));
    }
}

/// Whether `k` holds exactly one square.
pub fn is_single_square(k: u64) -> (r: bool)
    ensures
        r == single_bit(k),
{
    let r = k != 0 && k & (k - 1) == 0;
    proof {
        if r {
            vstd::std_specs::bits::axiom_u64_trailing_zeros(k);
            let s = vstd::std_specs::bits::u64_trailing_zeros(k) as u64;
            assert(k == 1u64 << s) by (bit_vector)
                requires
                    k != 0,
                    k & ((k - 1) as u64) == 0,
                    s < 64,
                    (k >> s) & 1u64 == 1u64,
            ;
            assert(k == bit(s as int));
        }
        if single_bit(k) {
            let s = choose|s: int| is_square(s) && k == #[trigger] bit(s);
            let su = s as u64;
            assert((1u64 << su) != 0 && (1u64 << su) & (((1u64 << su) - 1) as u64) == 0) by (bit_vector)
                requires
                    su < 64,
            ;
        }
    }
    r
}

/// Whether play can go on from `board` with `turn` to move: no square holds
/// two pieces, each side has exactly one king, and no piece of `turn` attacks
/// the other king.
pub fn sound_position(board: &Board, turn: &Colour) -> (r: bool)
    ensures
        r == is_sound(board@, *turn),
{
    if !board.validate() {
        return false;
    }
    if !is_single_square(board.w[5]) || !is_single_square(board.b[5]) {
        return false;
    }
    let moves = gen_attacks(board, turn);
    let mut atk_set: u64 = 0;
    for x in 0..64
        invariant
            atk_set == union_upto(moves@, x as int),
    {
        atk_set = atk_set | moves[x];
    }
    let other_king = match turn {
        Colour::W => board.b[5],
        Colour::B => board.w[5],
    };
    atk_set & other_king == 0
}

} // verus!
