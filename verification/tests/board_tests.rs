use tetris_core::block::Shape;
use tetris_core::block::Tetromino;
use tetris_core::block::tetromino_for_shape;
use tetris_core::board::Board;
use tetris_core::board::GameState;
use tetris_core::board::Key;

/// A horizontal I bar whose four cells sit on board row `y + 1`,
/// columns `x ..= x + 3`.
fn horizontal_i(x: i64, y: i64) -> Tetromino {
    let mut t = tetromino_for_shape(Shape::I);
    t.rotate_right();
    t.x_offset = x;
    t.y_offset = y;
    t
}

/// A vertical I bar whose four cells sit on board column `x + 1`,
/// rows `y ..= y + 3`.
fn vertical_i(x: i64, y: i64) -> Tetromino {
    let mut t = tetromino_for_shape(Shape::I);
    t.x_offset = x;
    t.y_offset = y;
    t
}

fn row_sum(b: &Board, r: usize) -> i64 {
    let mut n: i64 = 0;
    for c in 0..10 {
        if b.cells[r * 10 + c] == 1 {
            n += 1;
        }
    }
    n
}

fn assert_counters_match_rows(b: &Board) {
    for r in 0..22 {
        assert_eq!(b.line_counts[r], row_sum(b, r));
    }
}

#[test]
fn init_board_starts_empty_and_playing() {
    let b = Board::init_board();
    assert_eq!(b.state, GameState::Playing);
    assert_eq!(b.score, 0);
    assert_eq!(b.token, 0);
    assert!(b.new_block);
    assert_eq!(b.cells.len(), 220);
    for i in 0..220 {
        assert_eq!(b.cells[i], 0);
    }
    assert_counters_match_rows(&b);
    assert_eq!(b.tetrominos_bag.len(), 6);
    // the first piece plus the bag hold each shape exactly once
    let mut seen = vec![b.current_piece.name];
    seen.extend(b.tetrominos_bag.iter().cloned());
    for shape in [Shape::I, Shape::J, Shape::L, Shape::O, Shape::S, Shape::Z, Shape::T] {
        assert_eq!(seen.iter().filter(|s| **s == shape).count(), 1);
    }
}

#[test]
fn fourteen_draws_deal_each_shape_twice() {
    let mut b = Board::init_board();
    b.tetrominos_bag.clear();
    let mut names = Vec::new();
    for _ in 0..14 {
        let t = b.get_next_piece();
        names.push(t.name);
    }
    for shape in [Shape::I, Shape::J, Shape::L, Shape::O, Shape::S, Shape::Z, Shape::T] {
        assert_eq!(names.iter().filter(|s| **s == shape).count(), 2);
    }
}

#[test]
fn refill_deals_each_shape_once() {
    let mut b = Board::init_board();
    b.tetrominos_bag.clear();
    let first = b.get_next_piece();
    assert_eq!(b.tetrominos_bag.len(), 6);
    let mut seen = vec![first.name];
    seen.extend(b.tetrominos_bag.iter().cloned());
    for shape in [Shape::I, Shape::J, Shape::L, Shape::O, Shape::S, Shape::Z, Shape::T] {
        assert_eq!(seen.iter().filter(|s| **s == shape).count(), 1);
    }
}

#[test]
fn piece_on_bottom_row_cannot_fall() {
    let mut b = Board::init_board();
    b.current_piece = vertical_i(3, 18);
    b.update_ghost_piece();
    assert_eq!(b.current_piece.bottommost(), 21);
    assert!(!b.can_move_piece_down(&b.current_piece));
}

#[test]
fn hard_drop_rests_on_the_floor() {
    let mut b = Board::init_board();
    b.current_piece = tetromino_for_shape(Shape::O);
    b.update_ghost_piece();
    b.handle_key_press(Key::Space);
    assert_eq!(b.current_piece.bottommost(), 21);
    assert!(!b.can_move_piece_down(&b.current_piece));
    // the ghost already showed the same resting row
    assert_eq!(b.ghost_piece.y_offset, b.current_piece.y_offset);
}

#[test]
fn walls_stop_sideways_movement() {
    let mut b = Board::init_board();
    b.current_piece = tetromino_for_shape(Shape::O);
    b.update_ghost_piece();
    for _ in 0..12 {
        b.handle_key_press(Key::Left);
    }
    assert_eq!(b.current_piece.leftmost(), 0);
    for _ in 0..12 {
        b.handle_key_press(Key::Right);
    }
    assert_eq!(b.current_piece.rightmost(), 9);
    assert_counters_match_rows(&b);
}

#[test]
fn rejected_rotation_reverts_the_mask() {
    let mut b = Board::init_board();
    // a vertical bar flush against the right wall cannot turn horizontal
    b.current_piece = vertical_i(8, 10);
    b.update_ghost_piece();
    let before = b.current_piece.blocks.clone();
    b.handle_key_press(Key::Up);
    assert_eq!(b.current_piece.blocks, before);
    // in open space the same turn goes through
    b.current_piece = vertical_i(3, 10);
    b.update_ghost_piece();
    b.handle_key_press(Key::Up);
    assert_eq!(b.current_piece.blocks, vec![0, 0, 0, 0, 1, 1, 1, 1, 0, 0, 0, 0, 0, 0, 0, 0]);
}

#[test]
fn completing_one_row_clears_it_and_scores_80() {
    let mut b = Board::init_board();
    // two horizontal bars fill columns 0..=7 of the bottom row
    b.current_piece = horizontal_i(0, 20);
    b.set_piece_on_board();
    b.current_piece = horizontal_i(4, 20);
    b.set_piece_on_board();
    assert_eq!(row_sum(&b, 21), 8);
    assert_counters_match_rows(&b);
    // an O square resting on columns 8..=9 completes the row; advance locks it
    let mut o = tetromino_for_shape(Shape::O);
    o.x_offset = 8;
    o.y_offset = 20;
    b.current_piece = o;
    b.update_ghost_piece();
    b.advance_board();
    assert_eq!(b.score, 80);
    assert!(b.new_block);
    // the bottom row now holds what was above it: the square's upper half
    for c in 0..8 {
        assert_eq!(b.cells[21 * 10 + c], 0);
    }
    assert_eq!(b.cells[21 * 10 + 8], 1);
    assert_eq!(b.cells[21 * 10 + 9], 1);
    for c in 0..10 {
        assert_eq!(b.cells[20 * 10 + c], 0);
    }
    assert_counters_match_rows(&b);
    assert_eq!(b.state, GameState::Playing);
}

#[test]
fn completing_four_rows_scores_2400_in_one_call() {
    let mut b = Board::init_board();
    // fill columns 0..=7 of the four bottom rows by hand, counters in step
    for r in 18..22 {
        for c in 0..8 {
            b.cells[r * 10 + c] = 1;
        }
        b.line_counts[r] = 8;
    }
    // a vertical bar fills column 8 of those rows
    b.current_piece = vertical_i(7, 18);
    b.set_piece_on_board();
    assert_counters_match_rows(&b);
    // the final vertical bar in column 9 completes all four rows at once
    b.current_piece = vertical_i(8, 18);
    b.update_ghost_piece();
    b.advance_board();
    assert_eq!(b.score, 2400);
    for r in 18..22 {
        for c in 0..10 {
            assert_eq!(b.cells[r * 10 + c], 0, "row {} col {}", r, c);
        }
    }
    assert_counters_match_rows(&b);
    assert_eq!(b.state, GameState::Playing);
}

#[test]
fn filled_top_row_ends_the_game_and_freezes_the_board() {
    let mut b = Board::init_board();
    for c in 0..10 {
        b.cells[c] = 1;
    }
    b.line_counts[0] = 10;
    b.advance_board();
    assert_eq!(b.state, GameState::Over);
    let cells = b.cells.clone();
    let counts = b.line_counts.clone();
    let score = b.score;
    let y = b.current_piece.y_offset;
    b.advance_board();
    b.advance_board();
    assert_eq!(b.state, GameState::Over);
    assert_eq!(b.cells, cells);
    assert_eq!(b.line_counts, counts);
    assert_eq!(b.score, score);
    assert_eq!(b.current_piece.y_offset, y);
}

#[test]
fn gravity_moves_the_piece_one_row_per_tick() {
    let mut b = Board::init_board();
    b.current_piece = tetromino_for_shape(Shape::T);
    b.update_ghost_piece();
    let y0 = b.current_piece.y_offset;
    b.advance_board();
    assert_eq!(b.current_piece.y_offset, y0 + 1);
    assert!(!b.new_block);
    b.advance_board();
    assert_eq!(b.current_piece.y_offset, y0 + 2);
}

#[test]
fn soft_drop_stops_at_occupied_cells() {
    let mut b = Board::init_board();
    // a bar across row 21, columns 3..=6
    b.current_piece = horizontal_i(3, 20);
    b.set_piece_on_board();
    // an O above column 4 can fall only until it sits on the bar
    let mut o = tetromino_for_shape(Shape::O);
    o.x_offset = 4;
    b.current_piece = o;
    b.update_ghost_piece();
    for _ in 0..25 {
        b.handle_key_press(Key::Down);
    }
    assert_eq!(b.current_piece.bottommost(), 20);
    assert_eq!(b.ghost_piece.y_offset, b.current_piece.y_offset);
}

#[test]
fn ghost_piece_tracks_column_and_resting_row() {
    let mut b = Board::init_board();
    b.current_piece = tetromino_for_shape(Shape::L);
    b.update_ghost_piece();
    b.handle_key_press(Key::Left);
    assert_eq!(b.ghost_piece.x_offset, b.current_piece.x_offset);
    assert_eq!(b.ghost_piece.blocks, b.current_piece.blocks);
    // the ghost rests: it cannot fall further
    assert!(!b.can_move_piece_down(&b.ghost_piece));
    assert_eq!(b.ghost_piece.bottommost(), 21);
}

#[test]
fn paused_board_does_not_advance() {
    let mut b = Board::init_board();
    b.state = GameState::Paused;
    let y = b.current_piece.y_offset;
    let cells = b.cells.clone();
    b.advance_board();
    assert_eq!(b.state, GameState::Paused);
    assert_eq!(b.current_piece.y_offset, y);
    assert_eq!(b.cells, cells);
}
