use sgf_edit::game::GoGame;
use sgf_edit::sgf_parser::{parse_sgf, Player};
use sgf_edit::ui_mode_actions::{
    handle_edit_comment_input, handle_edit_label_input, handle_edit_triangles_input,
    handle_goto_move_input, handle_insert_move_input, handle_modify_move_input,
    handle_normal_input, handle_search_coord_input, Key, UiAction, UiMode,
};

fn parsed(text: &str) -> GoGame {
    let sgf = parse_sgf(text).expect("parse");
    GoGame::new(sgf, None)
}

fn type_text<F: Fn(&Key, &mut String, &mut GoGame) -> Option<UiMode>>(
    text: &str,
    input: &mut String,
    game: &mut GoGame,
    handler: F,
) {
    for c in text.chars() {
        let r = handler(&Key::Char(c), input, game);
        assert!(r.is_none());
    }
}

#[test]
fn goto_input_collects_digits_and_jumps() {
    let mut game = parsed("(;SZ[9];B[aa];W[bb];B[cc])");
    let mut input = String::new();
    type_text("12", &mut input, &mut game, handle_goto_move_input);
    assert_eq!(input, "12");
    let r = handle_goto_move_input(&Key::Backspace, &mut input, &mut game);
    assert!(r.is_none());
    assert_eq!(input, "1");
    // A letter is not collected.
    handle_goto_move_input(&Key::Char('x'), &mut input, &mut game);
    assert_eq!(input, "1");
    let r = handle_goto_move_input(&Key::Enter, &mut input, &mut game);
    assert!(matches!(r, Some(UiMode::Normal)));
    assert_eq!(game.move_idx, 1);
}

#[test]
fn goto_input_ignores_out_of_range_targets() {
    let mut game = parsed("(;SZ[9];B[aa])");
    let mut input = String::from("7");
    handle_goto_move_input(&Key::Enter, &mut input, &mut game);
    assert_eq!(game.move_idx, 0);
}

#[test]
fn modify_input_rewrites_current_move() {
    let mut game = parsed("(;SZ[9];B[aa])");
    game.goto(1);
    let mut input = String::new();
    // Row letter first: "df" names row d (y = 3), column f (x = 5).
    type_text("df", &mut input, &mut game, handle_modify_move_input);
    let r = handle_modify_move_input(&Key::Enter, &mut input, &mut game);
    assert!(matches!(r, Some(UiMode::Normal)));
    assert_eq!((game.moves[0].x, game.moves[0].y), (5, 3));
}

#[test]
fn modify_input_limits_buffer_to_two_letters() {
    let mut game = parsed("(;SZ[9];B[aa])");
    let mut input = String::new();
    type_text("ab", &mut input, &mut game, handle_modify_move_input);
    handle_modify_move_input(&Key::Char('c'), &mut input, &mut game);
    assert_eq!(input, "ab");
    handle_modify_move_input(&Key::Char('5'), &mut input, &mut game);
    assert_eq!(input, "ab");
}

#[test]
fn search_input_jumps_to_first_match() {
    let mut game = parsed("(;SZ[9];B[ee];W[ge];B[ge])");
    let mut input = String::new();
    // "eg" names row e (y = 4), column g (x = 6): the second move.
    type_text("eg", &mut input, &mut game, handle_search_coord_input);
    handle_search_coord_input(&Key::Enter, &mut input, &mut game);
    assert_eq!(game.move_idx, 2);
}

#[test]
fn comment_input_blocks_separator_and_trims() {
    let mut game = parsed("(;SZ[9];B[aa])");
    game.goto(1);
    let mut input = String::new();
    type_text(" hi", &mut input, &mut game, handle_edit_comment_input);
    handle_edit_comment_input(&Key::Char('_'), &mut input, &mut game);
    assert_eq!(input, " hi");
    handle_edit_comment_input(&Key::Enter, &mut input, &mut game);
    assert_eq!(game.moves[0].comment.as_deref(), Some("hi"));
}

#[test]
fn label_input_parses_comma_separated_labels() {
    let mut game = parsed("(;SZ[9];B[aa]C[keep])");
    game.goto(1);
    let mut input = String::from("one, two ,, three");
    handle_edit_label_input(&Key::Enter, &mut input, &mut game);
    assert_eq!(game.moves[0].comment.as_deref(), Some("keep_one_two_three"));
}

#[test]
fn triangle_input_parses_and_drops_malformed_parts() {
    let mut game = parsed("(;SZ[9];B[aa])");
    game.goto(1);
    // Row-first pairs: "bc" is row b, column c -> (x 2, y 1).
    let mut input = String::from("bc, x, dd,zz");
    handle_edit_triangles_input(&Key::Enter, &mut input, &mut game);
    // "x" is malformed; "zz" decodes but lies off this board and is dropped.
    assert_eq!(game.moves[0].triangles, vec![(2, 1), (3, 3)]);
}

#[test]
fn insert_input_toggles_color_and_inserts() {
    let mut game = parsed("(;SZ[9];B[aa])");
    let mut input = String::new();
    let mut color = Player::White;
    let r = handle_insert_move_input(&Key::Tab, &mut input, &mut color, &mut game);
    assert!(r.is_none());
    assert_eq!(color, Player::Black);
    for c in "bd".chars() {
        handle_insert_move_input(&Key::Char(c), &mut input, &mut color, &mut game);
    }
    // Inserted at the cursor (position 0), row b (y 1), column d (x 3).
    let r = handle_insert_move_input(&Key::Enter, &mut input, &mut color, &mut game);
    assert!(matches!(r, Some(UiMode::Normal)));
    assert_eq!(game.moves.len(), 2);
    assert_eq!((game.moves[0].x, game.moves[0].y), (3, 1));
    assert_eq!(game.moves[0].player, Player::Black);
    assert_eq!(game.move_idx, 1);
}

#[test]
fn insert_input_rejects_out_of_bounds_point() {
    let mut game = parsed("(;SZ[5];B[aa])");
    let mut input = String::from("zz");
    let mut color = Player::Black;
    handle_insert_move_input(&Key::Enter, &mut input, &mut color, &mut game);
    assert_eq!(game.moves.len(), 1);
}

#[test]
fn normal_mode_dispatches_navigation_and_deletion() {
    let mut game = parsed("(;SZ[9];B[aa];W[bb]C[note];B[cc])");
    assert!(matches!(handle_normal_input(&Key::Char('n'), &mut game), UiAction::Continue));
    assert_eq!(game.move_idx, 1);
    assert!(matches!(handle_normal_input(&Key::Right, &mut game), UiAction::Continue));
    assert_eq!(game.move_idx, 2);
    assert!(matches!(handle_normal_input(&Key::Left, &mut game), UiAction::Continue));
    assert_eq!(game.move_idx, 1);
    assert!(matches!(handle_normal_input(&Key::Char('q'), &mut game), UiAction::Quit));
    // 'x' removes the current move (index 0) and pulls the cursor back.
    handle_normal_input(&Key::Char('x'), &mut game);
    assert_eq!(game.moves.len(), 2);
    assert_eq!(game.move_idx, 0);
    assert_eq!((game.moves[0].x, game.moves[0].y), (1, 1));
}

#[test]
fn normal_mode_walks_annotated_moves() {
    let mut game = parsed("(;SZ[9];B[aa];W[bb]C[note];B[cc])");
    handle_normal_input(&Key::Char(']'), &mut game);
    assert_eq!(game.move_idx, 2);
    handle_normal_input(&Key::Char(']'), &mut game);
    assert_eq!(game.move_idx, 2);
    game.goto(3);
    handle_normal_input(&Key::Char('['), &mut game);
    assert_eq!(game.move_idx, 2);
}

#[test]
fn normal_mode_seeds_modal_buffers_from_side_data() {
    let mut game = parsed("(;SZ[9];B[aa]TR[bc][de]C[hello_l1_l2])");
    game.goto(1);
    match handle_normal_input(&Key::Char('c'), &mut game) {
        UiAction::ChangeMode(UiMode::EditCommentInput { input }) => assert_eq!(input, "hello"),
        _ => panic!("expected comment mode"),
    }
    match handle_normal_input(&Key::Char('l'), &mut game) {
        UiAction::ChangeMode(UiMode::EditLabelInput { input }) => assert_eq!(input, "l1,l2"),
        _ => panic!("expected label mode"),
    }
    // Triangles are shown row letter first: (1,2) -> "cb", (3,4) -> "ed".
    match handle_normal_input(&Key::Char('t'), &mut game) {
        UiAction::ChangeMode(UiMode::EditTrianglesInput { input }) => assert_eq!(input, "cb,ed"),
        _ => panic!("expected triangle mode"),
    }
    match handle_normal_input(&Key::Char('i'), &mut game) {
        UiAction::ChangeMode(UiMode::InsertMoveInput { input, color }) => {
            assert_eq!(input, "");
            assert_eq!(color, Player::White);
        },
        _ => panic!("expected insert mode"),
    }
}

#[test]
fn mutations_raise_the_dirty_flag() {
    let mut game = parsed("(;SZ[9];B[aa])");
    assert!(!game.dirty);
    handle_normal_input(&Key::Char('n'), &mut game);
    assert!(!game.dirty);
    handle_normal_input(&Key::Char('x'), &mut game);
    assert!(game.dirty);
}
