use backend::board::{Board, Colour, Piece};

fn bit(s: u32) -> u64 {
    1u64 << s
}

#[test]
fn default_position_bitboards() {
    let b = Board::default();
    assert_eq!(b.w, [0xff00, 0x42, 0x24, 0x81, 0x8, 0x10]);
    assert_eq!(
        b.b,
        [
            0xff000000000000,
            0x4200000000000000,
            0x2400000000000000,
            0x8100000000000000,
            0x800000000000000,
            0x1000000000000000
        ]
    );
}

#[test]
fn default_position_unions() {
    let b = Board::default();
    assert_eq!(b.white(), 0xffff);
    assert_eq!(b.black(), 0xffff000000000000);
    assert_eq!(b.occupancy(), 0xffff00000000ffff);
}

#[test]
fn empty_board_unions() {
    let b = Board { w: [0; 6], b: [0; 6] };
    assert_eq!(b.white(), 0);
    assert_eq!(b.black(), 0);
    assert_eq!(b.occupancy(), 0);
    assert!(b.validate());
}

#[test]
fn make_move_pawn_push() {
    let b = Board::default();
    let after = b.make_move(bit(12), bit(28));
    assert_eq!(after.w, [0x1000ef00, 0x42, 0x24, 0x81, 0x8, 0x10]);
    assert_eq!(after.b, b.b);
    // the board moved from is left as it was
    assert_eq!(b.w[0], 0xff00);
}

#[test]
fn make_move_black_piece() {
    let b = Board::default();
    // g8 knight to f6
    let after = b.make_move(bit(62), bit(45));
    assert_eq!(after.b[1], bit(57) | bit(45));
    assert_eq!(after.w, b.w);
}

#[test]
fn make_move_capture_removes_the_taken_piece() {
    // white rook a1 takes a black knight on a8
    let b = Board { w: [0, 0, 0, bit(0), 0, bit(4)], b: [0, bit(56), 0, 0, 0, bit(60)] };
    let after = b.make_move(bit(0), bit(56));
    assert_eq!(after.w[3], bit(56));
    assert_eq!(after.b[1], 0);
    assert_eq!(after.b[5], bit(60));
    assert!(after.validate());
    assert_eq!(after.occupancy(), (b.occupancy() & !bit(0)) | bit(56));
}

#[test]
fn validate_detects_overlap() {
    let ok = Board::default();
    assert!(ok.validate());
    let mut bad = Board::default();
    bad.b[0] |= bit(12);
    assert!(!bad.validate());
    let mut bad2 = Board::default();
    bad2.w[1] |= bit(8);
    assert!(!bad2.validate());
    let mut bad3 = Board::default();
    bad3.b[5] |= bit(59);
    assert!(!bad3.validate());
}

#[test]
fn squares_by_piece_lists_lowest_first() {
    let b = Board::default();
    assert_eq!(b.squares_by_piece(&Piece::N, &Colour::W), vec![bit(1), bit(6)]);
    assert_eq!(b.squares_by_piece(&Piece::R, &Colour::B), vec![bit(56), bit(63)]);
    assert_eq!(
        b.squares_by_piece(&Piece::P, &Colour::W),
        (8..16).map(bit).collect::<Vec<u64>>()
    );
    assert_eq!(b.squares_by_piece(&Piece::K, &Colour::B), vec![bit(60)]);
    let empty = Board { w: [0; 6], b: [0; 6] };
    assert!(empty.squares_by_piece(&Piece::Q, &Colour::W).is_empty());
}

#[test]
fn squares_by_piece_union_is_the_bitboard() {
    let b = Board { w: [0x8000_0000_0000_0001, 0, 0, 0, 0, 0], b: [0; 6] };
    let sq = b.squares_by_piece(&Piece::P, &Colour::W);
    assert_eq!(sq, vec![1, 0x8000_0000_0000_0000]);
    assert_eq!(sq.iter().fold(0, |a, x| a | x), b.w[0]);
}

#[test]
fn piece_indices_and_order() {
    assert_eq!(Piece::COUNT, 6);
    let idx: Vec<usize> = Piece::PIECES.iter().map(|p| p.index()).collect();
    assert_eq!(idx, vec![0, 1, 2, 3, 4, 5]);
    assert_eq!(Piece::K.index(), 5);
}

#[test]
fn colour_other_is_an_involution() {
    assert_eq!(Colour::W.other(), Colour::B);
    assert_eq!(Colour::B.other(), Colour::W);
    assert_eq!(Colour::W.other().other(), Colour::W);
}

#[test]
fn make_move_piece_counts() {
    let b = Board::default();
    let quiet = b.make_move(bit(12), bit(28));
    assert_eq!(quiet.white().count_ones(), 16);
    assert_eq!(quiet.black().count_ones(), 16);
    let rook_takes = Board { w: [0, 0, 0, bit(0), 0, bit(4)], b: [bit(48), 0, 0, 0, 0, bit(60)] };
    let after = rook_takes.make_move(bit(0), bit(48));
    assert_eq!(after.white().count_ones(), 2);
    assert_eq!(after.black().count_ones(), 1);
    assert_eq!(after.w[3], bit(48));
    assert_eq!(after.b[0], 0);
    let black_moves = rook_takes.make_move(bit(60), bit(59));
    assert_eq!(black_moves.black().count_ones(), 2);
    assert_eq!(black_moves.white().count_ones(), 2);
}
