use backend::board::Board;
use backend::notation::{move_name, parse_squares, square_name};

#[test]
fn parse_squares_names() {
    assert_eq!(parse_squares("a1"), Some(1));
    assert_eq!(parse_squares("h1"), Some(1 << 7));
    assert_eq!(parse_squares("e4"), Some(1 << 28));
    assert_eq!(parse_squares("h8"), Some(1 << 63));
}

#[test]
fn parse_squares_rejects() {
    assert_eq!(parse_squares(""), None);
    assert_eq!(parse_squares("e"), None);
    assert_eq!(parse_squares("e44"), None);
    assert_eq!(parse_squares("i4"), None);
    assert_eq!(parse_squares("E4"), None);
    assert_eq!(parse_squares("e9"), None);
    assert_eq!(parse_squares("e0"), None);
    assert_eq!(parse_squares("4e"), None);
    // two characters but more than two bytes
    assert_eq!(parse_squares("é"), None);
}

#[test]
fn square_names() {
    assert_eq!(square_name(0), "a1");
    assert_eq!(square_name(28), "e4");
    assert_eq!(square_name(63), "h8");
}

#[test]
fn square_name_round_trip() {
    for sq in 0..64u32 {
        assert_eq!(parse_squares(&square_name(sq)), Some(1u64 << sq));
    }
}

#[test]
fn move_names() {
    assert_eq!(move_name(1 << 12, 1 << 28), "e2e4");
    assert_eq!(move_name(1 << 62, 1 << 45), "g8f6");
}

#[test]
fn render_default_board() {
    let text = Board::default().render();
    assert_eq!(
        text,
        "RNBQKBNR\nPPPPPPPP\n........\n........\n........\n........\npppppppp\nrnbqkbnr\n"
    );
}

#[test]
fn render_empty_board() {
    let text = Board { w: [0; 6], b: [0; 6] }.render();
    assert_eq!(text, "........\n".repeat(8));
}

#[test]
fn names_of_empty_bitboards() {
    assert_eq!(square_name(64), "a9");
    assert_eq!(move_name(0, 1 << 9), "a9b2");
}

#[test]
fn square_names_beyond_the_board() {
    assert_eq!(square_name(100), "e=");
    assert_eq!(square_name(1655), "h\u{ff}");
}
