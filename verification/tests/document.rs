use sgf_edit::game::{GoGame, Stone};
use sgf_edit::sgf_parser::{parse_sgf, sgf_coords_to_xy, sgf_to_string, Player, SgfParseError};
use sgf_edit::side_channel::{decode_side_channel, encode_side_channel};
use sgf_edit::text::{chars_to_string, parse_usize_chars, str_to_chars, string_pop, string_push};

fn parsed(text: &str) -> GoGame {
    let sgf = parse_sgf(text).expect("parse");
    GoGame::new(sgf, None)
}

#[test]
fn scenario_nine_by_nine() {
    let mut game = parsed("(;SZ[9];B[ee];W[ge]C[nice])");
    assert_eq!(game.board_size, 9);
    assert_eq!(game.moves.len(), 2);

    game.apply_moves(1);
    for y in 0..9 {
        for x in 0..9 {
            if (x, y) == (4, 4) {
                assert_eq!(game.board[y][x], Stone::Black);
            } else {
                assert_eq!(game.board[y][x], Stone::Empty);
            }
        }
    }

    game.apply_moves(2);
    assert_eq!(game.board[4][4], Stone::Black);
    assert_eq!(game.board[4][6], Stone::White);

    assert_eq!(game.find_by_coordinate(6, 4), Some(1));
    assert_eq!(game.move_idx, 0);
    assert_eq!(game.next_annotated(), Some(1));
}

#[test]
fn replay_is_deterministic() {
    let mut game = parsed("(;SZ[5]AB[aa]AW[aa];B[cc];W[dd])");
    game.apply_moves(2);
    let first = game.board.clone();
    game.apply_moves(0);
    game.apply_moves(2);
    assert_eq!(game.board, first);
    // White is painted after black, so it wins the shared set-up point.
    game.apply_moves(0);
    assert_eq!(game.board[0][0], Stone::White);
    assert_eq!(game.board[2][2], Stone::Empty);
}

#[test]
fn replay_overwrites_without_capture() {
    let mut game = parsed("(;SZ[5];B[cc];W[cc])");
    game.apply_moves(1);
    assert_eq!(game.board[2][2], Stone::Black);
    game.apply_moves(2);
    assert_eq!(game.board[2][2], Stone::White);
}

#[test]
fn insert_then_delete_restores_sequence() {
    let mut game = parsed("(;SZ[9];B[aa];W[bb];B[cc])");
    let before: Vec<(usize, usize)> = game.moves.iter().map(|m| (m.x, m.y)).collect();
    game.goto(1);
    assert!(game.insert_move(1, Player::White, 5, 5));
    assert_eq!(game.moves.len(), 4);
    assert_eq!((game.moves[1].x, game.moves[1].y), (5, 5));
    // Later moves shifted by exactly one.
    assert_eq!((game.moves[2].x, game.moves[2].y), (1, 1));
    assert_eq!((game.moves[3].x, game.moves[3].y), (2, 2));
    assert!(game.delete_move(1));
    let after: Vec<(usize, usize)> = game.moves.iter().map(|m| (m.x, m.y)).collect();
    assert_eq!(before, after);
}

#[test]
fn cursor_follows_insert_and_delete() {
    let mut game = parsed("(;SZ[9];B[aa];W[bb])");
    game.goto(2);
    assert!(game.insert_move(2, Player::Black, 3, 3));
    assert_eq!(game.move_idx, 3);
    assert!(game.delete_move(2));
    assert_eq!(game.move_idx, 2);
    game.goto(1);
    assert!(game.delete_move(0));
    assert_eq!(game.move_idx, 0);
}

#[test]
fn out_of_bounds_mutations_are_rejected() {
    let mut game = parsed("(;SZ[5];B[aa])");
    assert!(!game.insert_move(0, Player::Black, 5, 0));
    assert!(!game.insert_move(0, Player::Black, 0, 7));
    assert!(!game.relocate_move(0, 9, 9));
    assert!(!game.relocate_move(5, 1, 1));
    assert!(!game.delete_move(3));
    assert_eq!(game.moves.len(), 1);
    assert_eq!((game.moves[0].x, game.moves[0].y), (0, 0));
    // Triangles off the board are dropped, the call itself succeeds.
    assert!(game.set_triangles(0, &vec![(1, 1), (9, 9), (4, 4)]));
    assert_eq!(game.moves[0].triangles, vec![(1, 1), (4, 4)]);
}

#[test]
fn decoder_rejects_malformed_coordinates() {
    assert_eq!(sgf_coords_to_xy("aa"), Some((0, 0)));
    assert_eq!(sgf_coords_to_xy("zz"), Some((25, 25)));
    assert_eq!(sgf_coords_to_xy("ee"), Some((4, 4)));
    assert_eq!(sgf_coords_to_xy(""), None);
    assert_eq!(sgf_coords_to_xy("a"), None);
    assert_eq!(sgf_coords_to_xy("aaa"), None);
    assert_eq!(sgf_coords_to_xy("A1"), None);
    assert_eq!(sgf_coords_to_xy("a{"), None);
}

#[test]
fn parse_requires_board_size() {
    assert_eq!(parse_sgf("(;B[aa])").unwrap_err(), SgfParseError::MissingBoardSize);
    assert_eq!(parse_sgf("").unwrap_err(), SgfParseError::MissingBoardSize);
    assert_eq!(parse_sgf("(;SZ[zero])").unwrap_err(), SgfParseError::MissingBoardSize);
    // Boards beyond the two-letter alphabet are out of scope.
    assert_eq!(parse_sgf("(;SZ[27])").unwrap_err(), SgfParseError::MissingBoardSize);
    assert_eq!(parse_sgf("(;SZ[0])").unwrap_err(), SgfParseError::MissingBoardSize);
    assert!(parse_sgf("(;SZ[26])").is_ok());
}

#[test]
fn parse_skips_malformed_values_and_keeps_metadata() {
    let sgf = parse_sgf("(;SZ[9]GN[game]AB[aa][b][bb]AW[zz]C[dropped];B[x];W[cc]TR[dd][d]C[hi]KM[6])")
        .expect("parse");
    assert_eq!(sgf.board_size, 9);
    // "b" is malformed, "zz" is off this board, "x" appends no move.
    assert_eq!(sgf.ab, vec![(0, 0), (1, 1)]);
    assert_eq!(sgf.aw, vec![]);
    assert_eq!(sgf.moves.len(), 1);
    assert_eq!((sgf.moves[0].x, sgf.moves[0].y), (2, 2));
    assert_eq!(sgf.moves[0].triangles, vec![(3, 3)]);
    assert_eq!(sgf.moves[0].comment.as_deref(), Some("hi"));
    assert_eq!(sgf.metadata.len(), 2);
    assert_eq!(sgf.metadata[0], ("GN".to_string(), "game".to_string()));
    assert_eq!(sgf.metadata[1], ("KM".to_string(), "6".to_string()));
}

#[test]
fn parse_keeps_duplicate_metadata_entries() {
    let sgf = parse_sgf("(;SZ[9]GN[one]GN[two])").expect("parse");
    assert_eq!(sgf.metadata.len(), 2);
    assert_eq!(sgf.metadata[0].1, "one");
    assert_eq!(sgf.metadata[1].1, "two");
}

#[test]
fn last_board_size_property_wins() {
    let sgf = parse_sgf("(;SZ[9]SZ[13];B[aa])").expect("parse");
    assert_eq!(sgf.board_size, 13);
}

#[test]
fn serializer_emits_canonical_text() {
    let sgf = parse_sgf("(;SZ[9]GN[g]AB[ab]AW[cd];B[ee]TR[ff]C[hi];W[ge])").expect("parse");
    let text = sgf_to_string(&sgf).expect("serialize");
    assert_eq!(text, "(;SZ[9]GN[g]AB[ab]AW[cd];B[ee]TR[ff]C[hi];W[ge])");
}

#[test]
fn serializer_escapes_comment_terminators() {
    let mut game = parsed("(;SZ[9];B[aa])");
    assert!(game.set_comment(0, "a]b"));
    let text = sgf_to_string(&game.original_sgf).expect("serialize");
    assert_eq!(text, "(;SZ[9];B[aa]C[a\\]b])");
}

#[test]
fn round_trip_after_mutations() {
    let mut game = parsed("(;SZ[9]GN[game]AB[aa]AW[bb];B[cc];W[dd]C[first])");
    assert!(game.insert_move(2, Player::Black, 7, 7));
    assert!(game.set_comment(0, "opening"));
    assert!(game.set_labels(0, &vec!["good".to_string(), "fast".to_string()]));
    assert!(game.set_triangles(1, &vec![(5, 5)]));
    assert!(game.relocate_move(1, 6, 6));

    let text = sgf_to_string(&game.original_sgf).expect("serialize");
    let back = parse_sgf(&text).expect("reparse");

    assert_eq!(back.board_size, game.original_sgf.board_size);
    assert_eq!(back.ab, game.original_sgf.ab);
    assert_eq!(back.aw, game.original_sgf.aw);
    assert_eq!(back.metadata, game.original_sgf.metadata);
    assert_eq!(back.moves.len(), game.original_sgf.moves.len());
    for (a, b) in back.moves.iter().zip(game.original_sgf.moves.iter()) {
        assert_eq!(a.player == Player::Black, b.player == Player::Black);
        assert_eq!((a.x, a.y), (b.x, b.y));
        assert_eq!(a.comment, b.comment);
        assert_eq!(a.triangles, b.triangles);
    }
}

#[test]
fn side_channel_reads_back_what_was_set() {
    let mut game = parsed("(;SZ[9];B[aa])");
    assert!(game.set_comment(0, "hello"));
    assert!(game.set_labels(0, &vec!["a".to_string(), "b".to_string()]));
    let stored = game.moves[0].comment.clone().expect("comment");
    assert_eq!(stored, "hello_a_b");
    let (proper, labels) = decode_side_channel(&stored);
    assert_eq!(proper, "hello");
    assert_eq!(labels, vec!["a".to_string(), "b".to_string()]);

    // Setting the comment again keeps the labels, and the other way round.
    assert!(game.set_comment(0, "bye"));
    assert_eq!(game.moves[0].comment.as_deref(), Some("bye_a_b"));
    assert!(game.set_labels(0, &vec!["x".to_string()]));
    assert_eq!(game.moves[0].comment.as_deref(), Some("bye_x"));
    assert!(game.set_labels(0, &vec![]));
    assert_eq!(game.moves[0].comment.as_deref(), Some("bye"));
    assert!(game.set_comment(0, ""));
    assert_eq!(game.moves[0].comment, None);
}

#[test]
fn side_channel_encoding_shapes() {
    assert_eq!(encode_side_channel("", &vec![]), None);
    assert_eq!(encode_side_channel("c", &vec![]), Some("c".to_string()));
    assert_eq!(encode_side_channel("", &vec!["l".to_string()]), Some("_l".to_string()));
    assert_eq!(
        encode_side_channel("c", &vec!["l1".to_string(), "l2".to_string()]),
        Some("c_l1_l2".to_string())
    );
    let (proper, labels) = decode_side_channel("_a_b");
    assert_eq!(proper, "");
    assert_eq!(labels, vec!["a".to_string(), "b".to_string()]);
    let (proper, labels) = decode_side_channel("plain");
    assert_eq!(proper, "plain");
    assert!(labels.is_empty());
}

#[test]
fn navigation_clamps_and_walks() {
    let mut game = parsed("(;SZ[9];B[aa];W[bb];B[cc])");
    game.next_move();
    assert_eq!(game.move_idx, 1);
    assert_eq!(game.board[0][0], Stone::Black);
    game.prev_move();
    assert_eq!(game.move_idx, 0);
    game.prev_move();
    assert_eq!(game.move_idx, 0);
    game.goto(3);
    assert_eq!(game.move_idx, 3);
    game.goto(7);
    assert_eq!(game.move_idx, 3);
    assert_eq!(game.current_player() == Player::Black, true);
}

#[test]
fn annotated_navigation_skips_label_only_comments() {
    let mut game = parsed("(;SZ[9];B[aa];W[bb]C[_label];B[cc]C[real])");
    // The second move carries only labels, so its comment proper is empty.
    assert_eq!(game.next_annotated(), Some(2));
    game.goto(3);
    assert_eq!(game.prev_annotated(), None);
    let mut game2 = parsed("(;SZ[9];B[aa]C[first];W[bb];B[cc]C[third])");
    game2.goto(3);
    assert_eq!(game2.prev_annotated(), Some(0));
}

#[test]
fn current_triangles_follows_cursor() {
    let mut game = parsed("(;SZ[9];B[aa]TR[bb][cc];W[dd])");
    assert!(game.current_triangles().is_empty());
    game.next_move();
    assert_eq!(game.current_triangles(), vec![(1, 1), (2, 2)]);
    game.next_move();
    assert!(game.current_triangles().is_empty());
}

#[test]
fn numeral_parsing_is_exact() {
    let digits = str_to_chars("123");
    assert_eq!(parse_usize_chars(&digits), Some(123));
    assert_eq!(parse_usize_chars(&str_to_chars("0")), Some(0));
    assert_eq!(parse_usize_chars(&str_to_chars("")), None);
    assert_eq!(parse_usize_chars(&str_to_chars("12a")), None);
    assert_eq!(parse_usize_chars(&str_to_chars("99999999999999999999999")), None);
}

#[test]
fn string_builders_round_trip() {
    let mut s = chars_to_string(&str_to_chars("ab"));
    string_push(&mut s, 'c');
    assert_eq!(s, "abc");
    assert_eq!(string_pop(&mut s), Some('c'));
    assert_eq!(s, "ab");
    let mut empty = String::new();
    assert_eq!(string_pop(&mut empty), None);
}
