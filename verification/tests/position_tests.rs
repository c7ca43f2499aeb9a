use backend::board::{Board, Colour};
use backend::move_gen::{gen_moves, iter_moves};
use backend::position::{is_single_square, sound_position};

fn bit(s: u32) -> u64 {
    1u64 << s
}

#[test]
fn single_squares() {
    assert!(is_single_square(1));
    assert!(is_single_square(1 << 63));
    assert!(!is_single_square(0));
    assert!(!is_single_square(3));
    assert!(!is_single_square(u64::MAX));
}

#[test]
fn default_position_is_sound() {
    assert!(sound_position(&Board::default(), &Colour::W));
    assert!(sound_position(&Board::default(), &Colour::B));
}

#[test]
fn unsound_positions() {
    // no black king
    let b = Board { w: [0, 0, 0, 0, 0, bit(4)], b: [0; 6] };
    assert!(!sound_position(&b, &Colour::W));
    // two pieces on one square
    let mut b2 = Board::default();
    b2.w[0] |= bit(56);
    assert!(!sound_position(&b2, &Colour::W));
    // the side to move can take the other king
    let b3 = Board { w: [0, 0, 0, bit(0), 0, bit(4)], b: [0, 0, 0, 0, 0, bit(56)] };
    assert!(!sound_position(&b3, &Colour::W));
    assert!(sound_position(&b3, &Colour::B));
}

#[test]
fn legal_moves_keep_the_position_sound() {
    let b = Board::default();
    for (from, to) in iter_moves(&gen_moves(&b, &Colour::W)) {
        assert_eq!(to & (b.b[5] | b.w[5]), 0);
        let after = b.make_move(from, to);
        assert_eq!(after.occupancy(), (b.occupancy() & !from) | to);
        assert!(sound_position(&after, &Colour::B));
        for (f2, t2) in iter_moves(&gen_moves(&after, &Colour::B)) {
            assert!(sound_position(&after.make_move(f2, t2), &Colour::W));
        }
    }
}

#[test]
fn a_pawn_in_front_of_a_king_does_not_attack_it() {
    // white king e4, black pawn e5: the pawn's advance does not attack the king
    let b = Board { w: [0, 0, 0, 0, 0, bit(28)], b: [bit(36), 0, 0, 0, 0, bit(63)] };
    assert!(sound_position(&b, &Colour::B));
    // white king d4: the pawn attacks it
    let c = Board { w: [0, 0, 0, 0, 0, bit(27)], b: [bit(36), 0, 0, 0, 0, bit(63)] };
    assert!(!sound_position(&c, &Colour::B));
    assert!(sound_position(&c, &Colour::W));
}

#[test]
fn a_pawn_advance_onto_the_king_is_the_one_unsound_result() {
    // white pawn e4 and king a1; black king e5 and rook h8; white to move
    let b = Board { w: [bit(28), 0, 0, 0, 0, bit(0)], b: [0, 0, 0, bit(63), 0, bit(36)] };
    assert!(sound_position(&b, &Colour::W));
    for (from, to) in iter_moves(&gen_moves(&b, &Colour::W)) {
        let after = b.make_move(from, to);
        assert_eq!(sound_position(&after, &Colour::B), to != bit(36));
    }
}
