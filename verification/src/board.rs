//! The position: one bitboard per piece kind and colour.
use vstd::prelude::*;
use crate::bits::{bits_of, square_bits};
use crate::consts::{A1, A8, B1, B8, C1, C8, D1, D8, E1, E8, F1, F8, G1, G8, H1, H8};

verus! {

/// The kinds of piece, in the order in which a side's bitboards are kept.
#[derive(Clone, Copy, PartialEq, Eq, Structural, Debug)]
pub enum Piece {
    P,
    N,
    B,
    R,
    Q,
    K,
}

impl Piece {
    pub const COUNT: usize = 6;

    pub const PIECES: [Piece; 6] = [Piece::P, Piece::N, Piece::B, Piece::R, Piece::Q, Piece::K];

    /// Where this kind's bitboard stands among a side's bitboards.
    pub open spec fn idx(self) -> int {
        match self {
            Piece::P => 0,
            Piece::N => 1,
            Piece::B => 2,
            Piece::R => 3,
            Piece::Q => 4,
            Piece::K => 5,
        }
    }

    pub fn index(&self) -> (i: usize)
        ensures
            i == self.idx(),
            i < 6,
    {
        match self {
            Piece::P => 0,
            Piece::N => 1,
            Piece::B => 2,
            Piece::R => 3,
            Piece::Q => 4,
            Piece::K => 5,
        }
    }
}

#[derive(PartialEq, Eq, Structural, Clone, Copy, Debug)]
pub enum Colour {
    B,
    W,
}

impl Colour {
    pub open spec fn opponent(self) -> Colour {
        match self {
            Colour::B => Colour::W,
            Colour::W => Colour::B,
        }
    }

    /// Passing the move twice gives it back.
    pub proof fn lemma_opponent_involution(self)
        ensures
            self.opponent().opponent() == self,
            self.opponent() != self,
    {
    }

    /// The side that moves after this one.
    pub fn other(&self) -> (c: Colour)
        ensures
            c == self.opponent(),
    {
        match self {
            Colour::B => Colour::W,
            Colour::W => Colour::B,
        }
    }
}

/// A position: `w[p]` and `b[p]` are the squares of white's and black's pieces
/// of the kind with index `p`.
#[derive(Clone, Copy, Debug)]
pub struct Board {
    pub w: [u64; 6],
    pub b: [u64; 6],
}

/// The mathematical position: the two sides' bitboards in piece order.
pub struct BoardView {
    pub w: Seq<u64>,
    pub b: Seq<u64>,
}

impl View for Board {
    type V = BoardView;

    open spec fn view(&self) -> BoardView {
        BoardView { w: self.w@, b: self.b@ }
    }
}

/// The union of the first `n` bitboards of `s`.
pub open spec fn union_upto(s: Seq<u64>, n: int) -> u64
    decreases n,
{
    if n <= 0 {
        0
    } else {
        union_upto(s, n - 1) | s[n - 1]
    }
}

/// The first of a side's bitboards, from `i` on, that meets `m`; 6 where none does.
pub open spec fn first_hit(s: Seq<u64>, m: u64, i: int) -> int
    decreases 6 - i,
{
    if i >= 6 {
        6
    } else if s[i] & m != 0 {
        i
    } else {
        first_hit(s, m, i + 1)
    }
}

/// The moving side after its piece on `from` goes to `to`: the first of its
/// bitboards that meets `from` loses `from` and gains `to`.
pub open spec fn lift_piece(s: Seq<u64>, from: u64, to: u64) -> Seq<u64> {
    let i = first_hit(s, from, 0);
    if i < 6 {
        s.update(i, (s[i] & !from) | to)
    } else {
        s
    }
}

/// The other side after a move to `to`: the first of its bitboards that meets
/// `to` loses `to`.
pub open spec fn capture_piece(s: Seq<u64>, to: u64) -> Seq<u64> {
    let j = first_hit(s, to, 0);
    if j < 6 {
        s.update(j, s[j] & !to)
    } else {
        s
    }
}

impl BoardView {
    pub open spec fn white(self) -> u64 {
        union_upto(self.w, 6)
    }

    pub open spec fn black(self) -> u64 {
        union_upto(self.b, 6)
    }

    pub open spec fn occupancy(self) -> u64 {
        self.white() | self.black()
    }

    pub open spec fn side(self, c: Colour) -> Seq<u64> {
        match c {
            Colour::W => self.w,
            Colour::B => self.b,
        }
    }

    pub open spec fn side_occupancy(self, c: Colour) -> u64 {
        union_upto(self.side(c), 6)
    }

    /// No square holds two pieces.
    pub open spec fn is_valid(self) -> bool {
        &&& self.w.len() == 6
        &&& self.b.len() == 6
        &&& forall|i: int, j: int|
            0 <= i < 6 && 0 <= j < 6 && i != j ==> #[trigger] (self.w[i] & self.w[j]) == 0
        &&& forall|i: int, j: int|
            0 <= i < 6 && 0 <= j < 6 && i != j ==> #[trigger] (self.b[i] & self.b[j]) == 0
        &&& forall|i: int, j: int| 0 <= i < 6 && 0 <= j < 6 ==> #[trigger] (self.w[i] & self.b[j]) == 0
    }

    /// The position after the piece on `from` goes to `to`, taking what stands there.
    pub open spec fn moved(self, from: u64, to: u64) -> BoardView {
        if from & self.white() != 0 {
            BoardView { w: lift_piece(self.w, from, to), b: capture_piece(self.b, to) }
        } else {
            BoardView { w: capture_piece(self.w, to), b: lift_piece(self.b, from, to) }
        }
    }
}


proof fn lemma_or_disjoint(a: u64, b: u64, x: u64)
    ensures
        ((a | b) & x == 0) == (a & x == 0 && b & x == 0),
        a & b == b & a,
{
    assert(((a | b) & x == 0) == (a & x == 0 && b & x == 0)) by (bit_vector);
    assert(a & b == b & a) by (bit_vector);
}

/// The union of the first `n` bitboards misses `x` exactly when each of them does.
proof fn lemma_union_disjoint(s: Seq<u64>, n: int, x: u64)
    requires
        0 <= n <= s.len(),
    ensures
        (union_upto(s, n) & x == 0) == (forall|k: int| 0 <= k < n ==> #[trigger] (s[k] & x) == 0),
    decreases n,
{
    if n == 0 {
        assert(0u64 & x == 0) by (bit_vector);
    } else {
        lemma_union_disjoint(s, n - 1, x);
        lemma_or_disjoint(union_upto(s, n - 1), s[n - 1], x);
    }
}

proof fn lemma_or_regroup(a: u64, b: u64, c: u64, d: u64)
    ensures
        ((a | b) | c) | d == (a | c) | (b | d),
{
    assert(((a | b) | c) | d == (a | c) | (b | d)) by (bit_vector);
}

/// The union of six bitboards, one after another.
fn union_of(s: &[u64; 6]) -> (r: u64)
    ensures
        r == union_upto(s@, 6),
{
    let mut acc: u64 = 0;
    for x in 0..6
        invariant
            acc == union_upto(s@, x as int),
    {
        acc = acc | s[x];
    }
    acc
}

/// Moves the piece on `from` to `to` within one side's bitboards.
fn lift(side: &mut [u64; 6], from: u64, to: u64)
    ensures
        final(side)@ == lift_piece(old(side)@, from, to),
{
    let mut i: usize = 0;
    while i < 6
        invariant
            0 <= i <= 6,
            side@ == old(side)@,
            first_hit(side@, from, 0) == first_hit(side@, from, i as int),
        decreases 6 - i,
    {
        if side[i] & from != 0 {
            side[i] = (side[i] & !from) | to;
            return;
        }
        i = i + 1;
    }
}

/// Removes what stands on `to` from one side's bitboards.
fn capture(side: &mut [u64; 6], to: u64)
    ensures
        final(side)@ == capture_piece(old(side)@, to),
{
    let mut i: usize = 0;
    while i < 6
        invariant
            0 <= i <= 6,
            side@ == old(side)@,
            first_hit(side@, to, 0) == first_hit(side@, to, i as int),
        decreases 6 - i,
    {
        if side[i] & to != 0 {
            side[i] = side[i] & !to;
            return;
        }
        i = i + 1;
    }
}

impl Board {
    /// The starting position.
    pub fn default() -> (r: Self)
        ensures
            r@.w == seq![0xff00u64, 0x42u64, 0x24u64, 0x81u64, 0x8u64, 0x10u64],
            r@.b == seq![
                0xff000000000000u64,
                0x4200000000000000u64,
                0x2400000000000000u64,
                0x8100000000000000u64,
                0x800000000000000u64,
                0x1000000000000000u64,
            ],
    {
        let r = Self {
            w: [255u64 << 8u64, B1 | G1, C1 | F1, A1 | H1, D1, E1],
            b: [255u64 << 48u64, B8 | G8, C8 | F8, A8 | H8, D8, E8],
        };
        assert(255u64 << 8u64 == 0xff00u64) by (bit_vector);
        assert(255u64 << 48u64 == 0xff000000000000u64) by (bit_vector);
        assert(B1 | G1 == 0x42u64) by (bit_vector);
        assert(C1 | F1 == 0x24u64) by (bit_vector);
        assert(A1 | H1 == 0x81u64) by (bit_vector);
        assert(B8 | G8 == 0x4200000000000000u64) by (bit_vector);
        assert(C8 | F8 == 0x2400000000000000u64) by (bit_vector);
        assert(A8 | H8 == 0x8100000000000000u64) by (bit_vector);
        assert(r@.w =~= seq![0xff00u64, 0x42u64, 0x24u64, 0x81u64, 0x8u64, 0x10u64]);
        assert(r@.b =~= seq![
            0xff000000000000u64,
            0x4200000000000000u64,
            0x2400000000000000u64,
            0x8100000000000000u64,
            0x800000000000000u64,
            0x1000000000000000u64,
        ]);
        r
    }

    /// The squares of white's pieces.
    pub fn white(&self) -> (r: u64)
        ensures
            r == self@.white(),
    {
        union_of(&self.w)
    }

    /// The squares of black's pieces.
    pub fn black(&self) -> (r: u64)
        ensures
            r == self@.black(),
    {
        union_of(&self.b)
    }

    /// The occupied squares.
    pub fn occupancy(&self) -> (r: u64)
        ensures
            r == self@.occupancy(),
    {
        self.white() | self.black()
    }

    /// The position after the piece on `from` goes to `to`.
    pub fn make_move(&self, from: u64, to: u64) -> (r: Self)
        requires
            self@.is_valid(),
            from & self@.occupancy() != 0,
        ensures
            r@ == self@.moved(from, to),
    {
        let mut w = self.w;
        let mut b = self.b;
        let white = self.white();
        if from & white != 0 {
            lift(&mut w, from, to);
            capture(&mut b, to);
        } else {
            capture(&mut w, to);
            lift(&mut b, from, to);
        }
        let new_board = Board { w, b };
        assert(new_board@.w == self@.moved(from, to).w);
        assert(new_board@.b == self@.moved(from, to).b);
        new_board
    }

    /// The squares of the `colour` pieces of kind `piece`, as one-square
    /// bitboards, lowest square first.
    pub fn squares_by_piece(&self, piece: &Piece, colour: &Colour) -> (r: Vec<u64>)
        ensures
            r@ == bits_of(self@.side(*colour)[piece.idx()]),
    {
        let bitboard = match colour {
            Colour::W => self.w,
            Colour::B => self.b,
        }[piece.index()];
        square_bits(bitboard)
    }

    /// Whether no square holds two pieces.
    pub fn validate(&self) -> (r: bool)
        ensures
            r == self@.is_valid(),
    {
        let mut seen: u64 = 0;
        assert(0u64 | 0u64 == 0u64) by (bit_vector);
        for i in 0..6
            invariant
                seen == union_upto(self.w@, i as int) | union_upto(self.b@, i as int),
                forall|k: int, l: int|
                    0 <= k < i && 0 <= l < i && k != l ==> #[trigger] (self.w@[k] & self.w@[l]) == 0,
                forall|k: int, l: int|
                    0 <= k < i && 0 <= l < i && k != l ==> #[trigger] (self.b@[k] & self.b@[l]) == 0,
                forall|k: int, l: int|
                    0 <= k < i && 0 <= l < i ==> #[trigger] (self.w@[k] & self.b@[l]) == 0,
        {
            let ghost uw = union_upto(self.w@, i as int);
            let ghost ub = union_upto(self.b@, i as int);
            let wi = self.w[i];
            let bi = self.b[i];
            proof {
                lemma_or_disjoint(uw, ub, wi);
                lemma_union_disjoint(self.w@, i as int, wi);
                lemma_union_disjoint(self.b@, i as int, wi);
                lemma_or_disjoint(uw | ub, wi, bi);
                lemma_or_disjoint(uw, ub, bi);
                lemma_union_disjoint(self.w@, i as int, bi);
                lemma_union_disjoint(self.b@, i as int, bi);
                lemma_or_regroup(uw, ub, wi, bi);
            }
            if seen & wi != 0 {
                proof {
                    if uw & wi != 0 {
                        let k = choose|k: int| 0 <= k < i && #[trigger] (self.w@[k] & wi) != 0;
                        assert(self.w@[k] & self.w@[i as int] != 0);
                    } else {
                        let k = choose|k: int| 0 <= k < i && #[trigger] (self.b@[k] & wi) != 0;
                        lemma_or_disjoint(self.b@[k], wi, 0);
                        assert(self.w@[i as int] & self.b@[k] != 0);
                    }
                }
                return false;
            }
            seen = seen | wi;
            if seen & bi != 0 {
                proof {
                    if wi & bi != 0 {
                        assert(self.w@[i as int] & self.b@[i as int] != 0);
                    } else if uw & bi != 0 {
                        let k = choose|k: int| 0 <= k < i && #[trigger] (self.w@[k] & bi) != 0;
                        assert(self.w@[k] & self.b@[i as int] != 0);
                    } else {
                        let k = choose|k: int| 0 <= k < i && #[trigger] (self.b@[k] & bi) != 0;
                        assert(self.b@[k] & self.b@[i as int] != 0);
                    }
                }
                return false;
            }
            seen = seen | bi;
            proof {
                assert forall|k: int, l: int|
                    0 <= k < i + 1 && 0 <= l < i + 1 && k != l implies #[trigger] (self.w@[k]
                    & self.w@[l]) == 0 by {
                    if k == i {
                        lemma_or_disjoint(self.w@[l], wi, 0);
                    } else if l == i {
                        assert(self.w@[k] & wi == 0);
                    }
                }
                assert forall|k: int, l: int|
                    0 <= k < i + 1 && 0 <= l < i + 1 && k != l implies #[trigger] (self.b@[k]
                    & self.b@[l]) == 0 by {
                    if k == i {
                        lemma_or_disjoint(self.b@[l], bi, 0);
                    } else if l == i {
                        assert(self.b@[k] & bi == 0);
                    }
                }
                assert forall|k: int, l: int|
                    0 <= k < i + 1 && 0 <= l < i + 1 implies #[trigger] (self.w@[k] & self.b@[l])
                    == 0 by {
                    if k == i && l < i {
                        lemma_or_disjoint(self.b@[l], wi, 0);
                    } else if l == i && k < i {
                        assert(self.w@[k] & bi == 0);
                    }
                }
            }
        }
        true
    }
}

} // verus!
