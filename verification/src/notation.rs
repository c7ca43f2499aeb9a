//! Square names ("e4"), move names ("e2e4") and the text picture of a board.
use vstd::prelude::*;
use vstd::std_specs::bits::u64_trailing_zeros;
use vstd::string::{StringExecFns, StringSliceAdditionalSpecFns};
use crate::bits::{bit, in_bb, is_square};
use crate::board::{Board, BoardView, Colour};

verus! {

/// Appends `c` to `s` with `String::push`, which std documents as appending
/// the given char to the end of the string; that is all this states of it.
#[verifier::external_body]
fn push_char(s: &mut String, c: char)
    ensures
        final(s)@ == old(s)@.push(c),
{
    s.push(c);
}

/// The square named by the bytes `b`: a file letter `a`..`h` and a rank digit
/// `1`..`8`, nothing before or after.
pub open spec fn square_of_name(b: Seq<u8>) -> Option<u64> {
    if b.len() == 2 && 97 <= b[0] <= 104 && 49 <= b[1] <= 56 {
        Some(bit((b[1] - 49) * 8 + (b[0] - 97)))
    } else {
        None
    }
}

/// The name of square `sq` as bytes: its file letter, then its rank digit.
pub open spec fn name_bytes(sq: int) -> Seq<u8> {
    seq![(97 + sq % 8) as u8, (49 + sq / 8) as u8]
}

/// The name of square `sq`.
pub open spec fn square_text(sq: int) -> Seq<char> {
    seq![(97 + sq % 8) as char, (49 + (sq / 8) % 256) as char]
}

/// The square named by `s`, as a one-square bitboard; `None` where `s` names
/// no square.
pub fn parse_squares(s: &str) -> (r: Option<u64>)
    ensures
        r == square_of_name(s.spec_bytes()),
{
    if s.len() != 2 {
        return None;
    }
    let bytes = s.as_bytes();
    let c = bytes[0];
    let d = bytes[1];
    let col = if 97u8 <= c && c <= 104u8 {
        c - 97u8
    } else {
        return None;
    };
    let row = if 49u8 <= d && d <= 56u8 {
        d - 49u8
    } else {
        return None;
    };
    Some(1u64 << ((row * 8 + col) as u64))
}

/// Naming a square and reading the name back gives the square: the bytes of
/// the name `square_name` gives are read by `parse_squares` as that square.
pub proof fn lemma_name_round_trip(sq: int)
    requires
        is_square(sq),
    ensures
        vstd::utf8::encode_utf8(square_text(sq)) == name_bytes(sq),
        square_of_name(name_bytes(sq)) == Some(bit(sq)),
{
    let chars = square_text(sq);
    assert(vstd::utf8::is_ascii_chars(chars));
    vstd::utf8::is_ascii_chars_encode_utf8(chars);
    assert(chars[0] as u8 == vstd::utf8::encode_utf8(chars)[0]);
    assert(chars[1] as u8 == vstd::utf8::encode_utf8(chars)[1]);
    assert(vstd::utf8::encode_utf8(chars) =~= name_bytes(sq));
    let b = name_bytes(sq);
    assert(b[0] == 97 + sq % 8);
    assert(b[1] == 49 + sq / 8);
    assert((b[1] - 49) * 8 + (b[0] - 97) == sq);
}

/// The name of a square is two characters: its file letter, `a` for the
/// first file to `h` for the eighth, then its rank digit, `1` to `8`.
pub proof fn lemma_square_text_letters(sq: int)
    requires
        is_square(sq),
    ensures
        square_text(sq).len() == 2,
        square_text(sq)[0] as int == 97 + sq % 8,
        square_text(sq)[1] as int == 49 + sq / 8,
{
}

/// A name is read as a square exactly when it is a file letter `a`..`h` then
/// a rank digit `1`..`8`, and it is read as the square on that file and rank.
pub proof fn lemma_square_of_name_letters(b: Seq<u8>)
    ensures
        square_of_name(b) is Some <==> (b.len() == 2 && 97 <= b[0] <= 104 && 49 <= b[1] <= 56),
        square_of_name(b) is Some ==> square_of_name(b) == Some(bit(8 * (b[1] - 49) + (b[0] - 97))),
{
}

/// The name of square `sq`, such as "e4"; 64, the lowest square of an empty
/// bitboard, is named "a9". The rank character is `'1'` plus the row number
/// taken as a byte, which must stay a byte.
pub fn square_name(sq: u32) -> (r: String)
    requires
        (sq / 8) % 256 <= 206,
    ensures
        r@ == square_text(sq as int),
{
    let file = (97u8 + (sq % 8) as u8) as char;
    let rank = (49u8 + ((sq / 8) % 256) as u8) as char;
    let mut s = String::new();
    push_char(&mut s, file);
    push_char(&mut s, rank);
    proof {
        assert(s@ =~= square_text(sq as int));
    }
    s
}

/// The name of the move from the lowest square of `from` to the lowest square
/// of `to`, such as "e2e4".
pub fn move_name(from: u64, to: u64) -> (r: String)
    ensures
        r@ == square_text(u64_trailing_zeros(from) as int) + square_text(
            u64_trailing_zeros(to) as int,
        ),
{
    proof {
        vstd::std_specs::bits::axiom_u64_trailing_zeros(from);
        vstd::std_specs::bits::axiom_u64_trailing_zeros(to);
    }
    let mut s = square_name(from.trailing_zeros());
    let b = square_name(to.trailing_zeros());
    s.append(b.as_str());
    s
}

/// The letter shown for square `sq`: white pieces in lower case, black pieces
/// in upper case, `.` for an empty square.
pub open spec fn square_symbol(v: BoardView, sq: int) -> char {
    if in_bb(v.w[0], sq) {
        'p'
    } else if in_bb(v.w[1], sq) {
        'n'
    } else if in_bb(v.w[2], sq) {
        'b'
    } else if in_bb(v.w[3], sq) {
        'r'
    } else if in_bb(v.w[4], sq) {
        'q'
    } else if in_bb(v.w[5], sq) {
        'k'
    } else if in_bb(v.b[0], sq) {
        'P'
    } else if in_bb(v.b[1], sq) {
        'N'
    } else if in_bb(v.b[2], sq) {
        'B'
    } else if in_bb(v.b[3], sq) {
        'R'
    } else if in_bb(v.b[4], sq) {
        'Q'
    } else if in_bb(v.b[5], sq) {
        'K'
    } else {
        '.'
    }
}

/// The picture of a board: eight lines of eight letters, the eighth rank
/// first, each line ending in a newline.
pub open spec fn board_text(v: BoardView) -> Seq<char> {
    Seq::new(
        72,
        |i: int|
            if i % 9 == 8 {
                '\n'
            } else {
                square_symbol(v, (7 - i / 9) * 8 + i % 9)
            },
    )
}

/// The picture has eight lines of nine characters: 72 in all.
pub proof fn lemma_board_text_len(v: BoardView)
    ensures
        board_text(v).len() == 72,
{
}

/// Line `l` of the picture, counted from the top from 0, shows rank `8 - l`:
/// its `c`-th character is the letter of the square on that rank and on file
/// `c` (file a first).
pub proof fn lemma_board_text_square(v: BoardView, l: int, c: int)
    requires
        0 <= l < 8,
        0 <= c < 8,
    ensures
        board_text(v)[9 * l + c] == square_symbol(v, (7 - l) * 8 + c),
{
    let i = 9 * l + c;
    assert(i / 9 == l && i % 9 == c) by (nonlinear_arith)
        requires
            i == 9 * l + c,
            0 <= c < 8,
    ;
}

/// Each line of the picture ends in a newline.
pub proof fn lemma_board_text_line_end(v: BoardView, l: int)
    requires
        0 <= l < 8,
    ensures
        board_text(v)[9 * l + 8] == '\n',
{
    let i = 9 * l + 8;
    assert(i % 9 == 8) by (nonlinear_arith)
        requires
            i == 9 * l + 8,
    ;
}

/// On a board where no square holds two pieces, the letter of a square names
/// the piece on it: `p n b r q k` for white pawn, knight, bishop, rook, queen
/// and king, the same in upper case for black, and `.` for an empty square.
pub proof fn lemma_square_symbol_names(v: BoardView, sq: int)
    requires
        v.is_valid(),
        is_square(sq),
    ensures
        (square_symbol(v, sq) == 'p') == in_bb(v.w[0], sq),
        (square_symbol(v, sq) == 'n') == in_bb(v.w[1], sq),
        (square_symbol(v, sq) == 'b') == in_bb(v.w[2], sq),
        (square_symbol(v, sq) == 'r') == in_bb(v.w[3], sq),
        (square_symbol(v, sq) == 'q') == in_bb(v.w[4], sq),
        (square_symbol(v, sq) == 'k') == in_bb(v.w[5], sq),
        (square_symbol(v, sq) == 'P') == in_bb(v.b[0], sq),
        (square_symbol(v, sq) == 'N') == in_bb(v.b[1], sq),
        (square_symbol(v, sq) == 'B') == in_bb(v.b[2], sq),
        (square_symbol(v, sq) == 'R') == in_bb(v.b[3], sq),
        (square_symbol(v, sq) == 'Q') == in_bb(v.b[4], sq),
        (square_symbol(v, sq) == 'K') == in_bb(v.b[5], sq),
        (square_symbol(v, sq) == '.') == !in_bb(v.occupancy(), sq),
{
    crate::position::lemma_valid_iff_one_holder(v);
    assert(crate::position::one_holder(v));
    assert(crate::position::holds(v, Colour::W, 0, sq) == in_bb(v.w[0], sq));
    assert(crate::position::holds(v, Colour::W, 1, sq) == in_bb(v.w[1], sq));
    assert(crate::position::holds(v, Colour::W, 2, sq) == in_bb(v.w[2], sq));
    assert(crate::position::holds(v, Colour::W, 3, sq) == in_bb(v.w[3], sq));
    assert(crate::position::holds(v, Colour::W, 4, sq) == in_bb(v.w[4], sq));
    assert(crate::position::holds(v, Colour::W, 5, sq) == in_bb(v.w[5], sq));
    assert(crate::position::holds(v, Colour::B, 0, sq) == in_bb(v.b[0], sq));
    assert(crate::position::holds(v, Colour::B, 1, sq) == in_bb(v.b[1], sq));
    assert(crate::position::holds(v, Colour::B, 2, sq) == in_bb(v.b[2], sq));
    assert(crate::position::holds(v, Colour::B, 3, sq) == in_bb(v.b[3], sq));
    assert(crate::position::holds(v, Colour::B, 4, sq) == in_bb(v.b[4], sq));
    assert(crate::position::holds(v, Colour::B, 5, sq) == in_bb(v.b[5], sq));
    crate::bits::lemma_has_ops();
    crate::move_gen::lemma_union_has(v.w, 6, sq);
    crate::move_gen::lemma_union_has(v.b, 6, sq);
}

impl Board {
    /// The letter shown for the square `sq`.
    fn symbol_at(&self, sq: u64) -> (c: char)
        requires
            sq < 64,
        ensures
            c == square_symbol(self@, sq as int),
    {
        let mask: u64 = 1u64 << sq;
        proof {
            assert forall|x: u64| #[trigger] (x & mask) != 0 <==> in_bb(x, sq as int) by {
                crate::bits::lemma_and_bit(x, sq);
            }
        }
        if self.w[0] & mask != 0 {
            'p'
        } else if self.w[1] & mask != 0 {
            'n'
        } else if self.w[2] & mask != 0 {
            'b'
        } else if self.w[3] & mask != 0 {
            'r'
        } else if self.w[4] & mask != 0 {
            'q'
        } else if self.w[5] & mask != 0 {
            'k'
        } else if self.b[0] & mask != 0 {
            'P'
        } else if self.b[1] & mask != 0 {
            'N'
        } else if self.b[2] & mask != 0 {
            'B'
        } else if self.b[3] & mask != 0 {
            'R'
        } else if self.b[4] & mask != 0 {
            'Q'
        } else if self.b[5] & mask != 0 {
            'K'
        } else {
            '.'
        }
    }

    /// The picture of the board, as `board_text` describes it.
    pub fn render(&self) -> (r: String)
        ensures
            r@ == board_text(self@),
    {
        let mut s = String::new();
        let mut k: u64 = 0;
        while k < 8
            invariant
                k <= 8,
                s@ == board_text(self@).subrange(0, 9 * k as int),
            decreases 8 - k,
        {
            let row = 7 - k;
            for col in 0..8u64
                invariant
                    k < 8,
                    row == 7 - k,
                    s@ == board_text(self@).subrange(0, 9 * k as int + col as int),
            {
                let c = self.symbol_at(row * 8 + col);
                push_char(&mut s, c);
                proof {
                    let i = 9 * k as int + col as int;
                    assert(i / 9 == k as int && i % 9 == col as int) by (nonlinear_arith)
                        requires
                            i == 9 * k as int + col as int,
                            0 <= col < 8,
                    ;
                    assert(s@ =~= board_text(self@).subrange(0, i + 1));
                }
            }
            push_char(&mut s, '\n');
            proof {
                let i = 9 * k as int + 8;
                assert(i % 9 == 8) by (nonlinear_arith)
                    requires
                        i == 9 * k as int + 8,
                ;
                assert(s@ =~= board_text(self@).subrange(0, 9 * (k as int + 1)));
            }
            k = k + 1;
        }
        proof {
            assert(s@ =~= board_text(self@));
        }
        s
    }
}

} // verus!
