use backend::attacks::{
    calculate_attacks, king_moves, knight_moves, pawn_capture_moves, pawn_push_moves,
    BISHOP_DIRS, ROOK_DIRS,
};
use backend::board::{Board, Colour};
use backend::move_gen::{
    can_move_generate, gen_attacks, gen_moves, gen_pseudolegal_moves, get_bishop_moves, get_king_moves, get_knight_moves,
    get_pawn_moves, get_queen_moves, get_rook_moves, iter_moves,
};
use backend::perft::{perft, perft_checked, playable_for};

fn bit(s: u32) -> u64 {
    1u64 << s
}

#[test]
fn knight_and_king_tables() {
    assert_eq!(knight_moves(0), 0x20400);
    assert_eq!(knight_moves(27), 0x142200221400);
    assert_eq!(king_moves(0), 0x302);
    assert_eq!(king_moves(63), 0x40c0000000000000);
    assert_eq!(king_moves(27), 0x1c141c0000);
    assert_eq!(get_knight_moves(bit(27)), 0x142200221400);
    assert_eq!(get_king_moves(bit(27)), 0x1c141c0000);
}

#[test]
fn knight_moves_are_symmetric() {
    for s in 0..64usize {
        for t in 0..64usize {
            let there = knight_moves(s) & (1u64 << t) != 0;
            let back = knight_moves(t) & (1u64 << s) != 0;
            assert_eq!(there, back);
        }
    }
}

#[test]
fn king_moves_are_symmetric() {
    for s in 0..64usize {
        for t in 0..64usize {
            assert_eq!(king_moves(s) & (1u64 << t) != 0, king_moves(t) & (1u64 << s) != 0);
        }
    }
}

#[test]
fn pawn_tables() {
    assert_eq!(pawn_push_moves(&Colour::W, 8), 0x1010000);
    assert_eq!(pawn_push_moves(&Colour::W, 16), 0x1000000);
    assert_eq!(pawn_push_moves(&Colour::B, 48), 0x10100000000);
    assert_eq!(pawn_push_moves(&Colour::W, 56), 0);
    assert_eq!(pawn_capture_moves(&Colour::W, 8), 0x20000);
    assert_eq!(pawn_capture_moves(&Colour::B, 55), 0x400000000000);
}

#[test]
fn pawn_moves_capture_only_occupied_squares() {
    let b = Board::default();
    assert_eq!(get_pawn_moves(bit(12), &Colour::W, &b), bit(20) | bit(28));
    // a white pawn on d6 next to black pawns on c7 and e7
    let b2 = Board { w: [bit(43), 0, 0, 0, 0, bit(4)], b: [bit(50) | bit(52) | bit(51), 0, 0, 0, 0, bit(60)] };
    assert_eq!(get_pawn_moves(bit(43), &Colour::W, &b2), bit(51) | bit(50) | bit(52));
}

#[test]
fn sliders_on_empty_board() {
    assert_eq!(calculate_attacks(0, 0, &ROOK_DIRS), 0x1010101010101fe);
    assert_eq!(calculate_attacks(27, 0, &BISHOP_DIRS), 0x8041221400142241);
    assert_eq!(calculate_attacks(5, 0, &[]), 0);
}

#[test]
fn sliders_stop_at_the_first_blocker() {
    assert_eq!(calculate_attacks(27, bit(35) | bit(29), &ROOK_DIRS), 0x837080808);
    assert_eq!(calculate_attacks(27, bit(36) | bit(18), &BISHOP_DIRS), 0x1021400142040);
    // a direction of two files per step
    assert_eq!(calculate_attacks(0, 0, &[(0, 2)]), bit(2) | bit(4) | bit(6));
}

#[test]
fn slider_moves_of_the_default_position() {
    let b = Board::default();
    assert_eq!(get_bishop_moves(bit(2), &b), bit(9) | bit(11));
    assert_eq!(get_rook_moves(bit(0), &b), bit(1) | bit(8));
    assert_eq!(get_queen_moves(bit(3), &b), bit(2) | bit(4) | bit(10) | bit(11) | bit(12));
}

#[test]
fn pseudolegal_moves_of_the_default_position() {
    let m = gen_pseudolegal_moves(&Board::default(), &Colour::W);
    let mut expected = [0u64; 64];
    expected[1] = 0x50000;
    expected[6] = 0xa00000;
    for f in 0..8 {
        expected[8 + f] = (0x1010000u64) << f;
    }
    assert_eq!(m, expected);
    let bm = gen_pseudolegal_moves(&Board::default(), &Colour::B);
    assert_eq!(bm[57], bit(40) | bit(42));
    assert_eq!(bm[60], 0);
}

#[test]
fn pseudolegal_moves_never_take_own_pieces() {
    let b = Board::default();
    let m = gen_pseudolegal_moves(&b, &Colour::W);
    for sq in 0..64 {
        assert_eq!(m[sq] & b.white(), 0);
        if m[sq] != 0 {
            assert_ne!(b.white() & (1u64 << sq), 0);
        }
    }
}

#[test]
fn iter_moves_lists_every_move_in_order() {
    let mut table = [0u64; 64];
    table[3] = bit(10) | bit(1);
    table[0] = bit(63);
    assert_eq!(iter_moves(&table), vec![(1, bit(63)), (bit(3), bit(1)), (bit(3), bit(10))]);
    assert!(iter_moves(&[0u64; 64]).is_empty());
}

#[test]
fn gen_moves_default_position() {
    let b = Board::default();
    let m = gen_moves(&b, &Colour::W);
    assert_eq!(m, gen_pseudolegal_moves(&b, &Colour::W));
    assert_eq!(iter_moves(&m).len(), 20);
}

#[test]
fn gen_moves_keeps_pinned_piece_on_its_line() {
    // white king e1, white rook e2, black rook e8, black king a8
    let b = Board { w: [0, 0, 0, bit(12), 0, bit(4)], b: [0, 0, 0, bit(60), 0, bit(56)] };
    let pseudo = gen_pseudolegal_moves(&b, &Colour::W);
    assert_eq!(pseudo[12], 0x101010101010ef00);
    let m = gen_moves(&b, &Colour::W);
    assert_eq!(m[12], 0x1010101010100000);
    assert_eq!(m[4], 0x2828);
    for sq in 0..64 {
        assert_eq!(m[sq] & !pseudo[sq], 0);
    }
}

#[test]
fn gen_moves_keeps_kings_apart() {
    let b = Board { w: [0, 0, 0, 0, 0, bit(27)], b: [0, 0, 0, 0, 0, bit(43)] };
    assert_eq!(gen_pseudolegal_moves(&b, &Colour::W)[27], 0x1c141c0000);
    assert_eq!(gen_moves(&b, &Colour::W)[27], 0x141c0000);
}

#[test]
fn pawn_advances_attack_nothing() {
    // black pawn e5 advances to e4, which does not attack the white king on d3
    let b = Board { w: [0, 0, 0, 0, 0, bit(19)], b: [bit(36), 0, 0, 0, 0, bit(63)] };
    assert_eq!(gen_pseudolegal_moves(&b, &Colour::W)[19], 0x1c141c00);
    assert_eq!(gen_moves(&b, &Colour::W)[19], 0x14141c00);
    assert_eq!(gen_attacks(&b, &Colour::B)[36], bit(27) | bit(29));
    assert_eq!(gen_attacks(&b, &Colour::W)[19], 0x1c141c00);
}

#[test]
fn knight_moves_with_a_pawn_in_front_of_the_king() {
    // white Na1, Ke4; black pawn e5
    let b = Board { w: [0, 1, 0, 0, 0, bit(28)], b: [bit(36), 0, 0, 0, 0, 0] };
    let m = gen_moves(&b, &Colour::W);
    assert_eq!(m[0], bit(10) | bit(17));
    assert_eq!(m[28], bit(19) | bit(20) | bit(21) | bit(35) | bit(36) | bit(37));
    for sq in 0..64 {
        if sq != 0 && sq != 28 {
            assert_eq!(m[sq], 0);
        }
    }
}

#[test]
fn attacks_of_each_kind() {
    let b = Board::default();
    let a = gen_attacks(&b, &Colour::W);
    assert_eq!(a[12], bit(19) | bit(21));
    assert_eq!(a[8], bit(17));
    assert_eq!(a[1], bit(16) | bit(18));
    assert_eq!(a[3], 0);
    assert_eq!(a[20], 0);
}

#[test]
fn gen_moves_on_an_empty_board() {
    let b = Board { w: [0; 6], b: [0; 6] };
    assert_eq!(gen_moves(&b, &Colour::W), [0u64; 64]);
}

#[test]
fn perft_default_position() {
    let b = Board::default();
    assert_eq!(perft(&b, &Colour::W, 0), 1);
    assert_eq!(perft(&b, &Colour::W, 1), 20);
    assert_eq!(perft(&b, &Colour::W, 2), 400);
    assert_eq!(perft(&b, &Colour::W, 3), 8990);
}

#[test]
fn perft_small_positions() {
    let kings = Board { w: [0, 0, 0, 0, 0, bit(27)], b: [0, 0, 0, 0, 0, bit(43)] };
    assert_eq!(perft(&kings, &Colour::W, 1), 5);
    assert_eq!(perft(&kings, &Colour::W, 2), 36);
    assert_eq!(perft(&kings, &Colour::W, 3), 257);
    let pin = Board { w: [0, 0, 0, bit(12), 0, bit(4)], b: [0, 0, 0, bit(60), 0, bit(56)] };
    assert_eq!(perft(&pin, &Colour::W, 1), 10);
    assert_eq!(perft(&pin, &Colour::W, 2), 120);
}

#[test]
fn move_list_rebuilds_the_table() {
    let b = Board::default();
    for turn in [Colour::W, Colour::B] {
        let table = gen_moves(&b, &turn);
        let mut rebuilt = [0u64; 64];
        for (from, to) in iter_moves(&table) {
            rebuilt[from.trailing_zeros() as usize] |= to;
        }
        assert_eq!(rebuilt, table);
    }
    let table = gen_pseudolegal_moves(&b, &Colour::W);
    let mut rebuilt = [0u64; 64];
    for (from, to) in iter_moves(&table) {
        rebuilt[from.trailing_zeros() as usize] |= to;
    }
    assert_eq!(rebuilt, table);
}

#[test]
fn perft_one_is_the_number_of_targets() {
    let b = Board::default();
    for turn in [Colour::W, Colour::B] {
        let table = gen_moves(&b, &turn);
        let targets: u32 = table.iter().map(|m| m.count_ones()).sum();
        assert_eq!(perft(&b, &turn, 1), targets as u64);
        let mut total = 0u64;
        for (from, to) in iter_moves(&table) {
            total += perft(&b.make_move(from, to), &turn.other(), 1);
        }
        assert_eq!(perft(&b, &turn, 2), total);
    }
}

#[test]
fn move_generation_needs_one_king() {
    assert!(can_move_generate(&Board::default(), &Colour::W));
    assert!(can_move_generate(&Board { w: [0; 6], b: [0; 6] }, &Colour::W));
    let two_kings = Board { w: [0, 0, 0, 0, 0, bit(0) | bit(7)], b: [0, 0, 0, 0, 0, bit(63)] };
    assert!(!can_move_generate(&two_kings, &Colour::W));
    assert!(can_move_generate(&two_kings, &Colour::B));
    let no_king = Board { w: [0, 0, 0, bit(0), 0, 0], b: [0, 0, 0, 0, 0, bit(63)] };
    assert!(!can_move_generate(&no_king, &Colour::W));
}

#[test]
fn a_pawn_advance_can_take_a_king() {
    // white pawn e4 and king a1; black king e5 and rook h8
    let b = Board { w: [bit(28), 0, 0, 0, 0, bit(0)], b: [0, 0, 0, bit(63), 0, bit(36)] };
    let m = gen_moves(&b, &Colour::W);
    assert_eq!(m[28], bit(36));
    assert_eq!(m[0], bit(1) | bit(8) | bit(9));
    assert!(playable_for(&b, &Colour::W, 1));
    assert_eq!(perft_checked(&b, &Colour::W, 1), Some(4));
    assert!(!playable_for(&b, &Colour::W, 2));
    assert!(playable_for(&b, &Colour::W, 0));
    assert!(playable_for(&Board::default(), &Colour::W, 3));
}
