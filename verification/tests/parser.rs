use go_sgf::sgf_parser::{
    decode_to_2d, encode_board, encode_to_1d, parse_moves, sgf_parser, ParseError,
};

fn record_with_window(window: &[u8]) -> Vec<u8> {
    let mut record = b"01234".to_vec();
    record.extend_from_slice(window);
    record
}

#[test]
fn encode_examples() {
    assert_eq!(encode_to_1d((4, 4)), 40);
    assert_eq!(encode_to_1d((6, 6)), 60);
    assert_eq!(encode_to_1d((2, 2)), 20);
    assert_eq!(encode_to_1d((0, 0)), 0);
    assert_eq!(encode_to_1d((8, 8)), 80);
}

#[test]
fn decode_examples() {
    assert_eq!(decode_to_2d(40), (4, 4));
    assert_eq!(decode_to_2d(60), (6, 6));
    assert_eq!(decode_to_2d(20), (2, 2));
    assert_eq!(decode_to_2d(17), (1, 8));
}

#[test]
fn encode_decode_inverse_everywhere() {
    for x in 0..9usize {
        for y in 0..9usize {
            assert_eq!(decode_to_2d(encode_to_1d((x, y))), (x, y));
        }
    }
}

#[test]
fn parse_moves_three_move_text() {
    let moves = parse_moves(";B[ee];W[gg];B[cc]");
    assert_eq!(moves, vec![(4, 4), (6, 6), (2, 2)]);
}

#[test]
fn parse_moves_skips_foreign_tokens() {
    let moves = parse_moves("GM[1]SZ[9];B[cc]extra;W[;note;W[ee]");
    assert_eq!(moves, vec![(2, 2), (4, 4)]);
}

#[test]
fn parse_moves_empty_text() {
    assert_eq!(parse_moves(""), vec![]);
    assert_eq!(parse_moves(";"), vec![]);
    assert_eq!(parse_moves(";;"), vec![]);
}

#[test]
fn parse_moves_accepts_any_letter() {
    // Every lower-case letter is a coordinate; bounds are checked later.
    assert_eq!(parse_moves("B[zz]"), vec![(25, 25)]);
    assert_eq!(encode_board(&vec![(25, 25)]), Err(ParseError::OutOfBounds));
}

#[test]
fn parse_moves_skips_non_letter_coordinates() {
    assert_eq!(parse_moves("B[Ab]"), vec![]);
    assert_eq!(parse_moves("B[a!]"), vec![]);
    assert_eq!(parse_moves("B[1a]"), vec![]);
}

#[test]
fn board_of_three_move_text() {
    let moves = parse_moves(";B[ee];W[gg];B[cc]");
    let (board, target) = encode_board(&moves).unwrap();
    assert_eq!(board.len(), 81);
    assert_eq!(board[40], 1);
    assert_eq!(board[60], 2);
    assert_eq!(target, 20);
    for (cell, stone) in board.iter().enumerate() {
        if cell != 40 && cell != 60 {
            assert_eq!(*stone, 0);
        }
    }
}

#[test]
fn board_alternates_players() {
    let moves = vec![(0, 0), (1, 1), (2, 2), (3, 3), (4, 4)];
    let (board, target) = encode_board(&moves).unwrap();
    assert_eq!(board[0], 1);
    assert_eq!(board[10], 2);
    assert_eq!(board[20], 1);
    assert_eq!(board[30], 2);
    assert_eq!(target, 40);
    assert_eq!(board[40], 0);
}

#[test]
fn single_move_gives_empty_board() {
    let (board, target) = encode_board(&vec![(0, 0)]).unwrap();
    assert_eq!(target, 0);
    assert!(board.iter().all(|stone| *stone == 0));
}

#[test]
fn no_moves_is_empty_error() {
    assert_eq!(encode_board(&vec![]), Err(ParseError::Empty));
}

#[test]
fn prefix_move_off_board_aborts_record() {
    assert_eq!(encode_board(&vec![(10, 0), (0, 0)]), Err(ParseError::OutOfBounds));
}

#[test]
fn final_move_off_board_on_either_axis() {
    assert_eq!(encode_board(&vec![(0, 0), (10, 0)]), Err(ParseError::OutOfBounds));
    assert_eq!(encode_board(&vec![(0, 0), (0, 10)]), Err(ParseError::OutOfBounds));
}

#[test]
fn record_single_move_window() {
    let (board, target) = sgf_parser(&record_with_window(b"B[aa")).unwrap();
    assert_eq!(target, 0);
    assert!(board.iter().all(|stone| *stone == 0));
}

#[test]
fn record_white_move_window() {
    let (board, target) = sgf_parser(&record_with_window(b"W[ee")).unwrap();
    assert_eq!(target, 40);
    assert!(board.iter().all(|stone| *stone == 0));
}

#[test]
fn record_reads_only_the_fixed_window() {
    // Bytes past the window hold a move token, but only `B[ee` is read.
    let mut record = record_with_window(b"B[ee");
    record.extend_from_slice(b";B[qq];W[cc]");
    let (board, target) = sgf_parser(&record).unwrap();
    assert_eq!(target, 40);
    assert!(board.iter().all(|stone| *stone == 0));
}

#[test]
fn record_without_moves_is_empty_error() {
    assert_eq!(sgf_parser(&record_with_window(b";;;;")), Err(ParseError::Empty));
    assert_eq!(sgf_parser(&record_with_window(b"x]yz")), Err(ParseError::Empty));
}

#[test]
fn record_with_letter_beyond_board_is_out_of_bounds() {
    // 'k' stands for coordinate 10, 'j' for 9: both leave a 9x9 board.
    assert_eq!(sgf_parser(&record_with_window(b"B[ka")), Err(ParseError::OutOfBounds));
    assert_eq!(sgf_parser(&record_with_window(b"B[ja")), Err(ParseError::OutOfBounds));
    assert_eq!(sgf_parser(&record_with_window(b"B[ak")), Err(ParseError::OutOfBounds));
}

#[test]
fn short_record_is_encoding_error() {
    assert_eq!(sgf_parser(&b"".to_vec()), Err(ParseError::Encoding));
    assert_eq!(sgf_parser(&b"01234B[a".to_vec()), Err(ParseError::Encoding));
}

#[test]
fn non_text_window_is_encoding_error() {
    assert_eq!(sgf_parser(&record_with_window(&[0xff, 0xfe, 0x00, 0x41])), Err(ParseError::Encoding));
}

#[test]
fn multibyte_text_window_is_not_a_move() {
    // "B[\u{e9}" is valid UTF-8, so it passes the text check, but the
    // accented letter is no coordinate letter: no move, hence Empty.
    assert_eq!(sgf_parser(&record_with_window(&[0x42, 0x5b, 0xc3, 0xa9])), Err(ParseError::Empty));
}
