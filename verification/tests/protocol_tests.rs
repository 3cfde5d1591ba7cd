use tetris_core::block::Shape;
use tetris_core::board::Board;
use tetris_core::board::Key;
use tetris_core::protocol::Command;
use tetris_core::protocol::apply_command;
use tetris_core::protocol::apply_message;
use tetris_core::protocol::parse_command;
use tetris_core::protocol::render_command;

#[test]
fn parse_keystroke_message() {
    let r = parse_command("KEYSTROKE 2 LEFT".as_bytes());
    assert_eq!(r, Some(Command::Keystroke(2, Key::Left)));
}

#[test]
fn parse_each_command_form() {
    assert_eq!(
        parse_command("NUM_CONNS 1 2".as_bytes()),
        Some(Command::NumConns(1, 2))
    );
    assert_eq!(parse_command("START!".as_bytes()), Some(Command::Start));
    assert_eq!(
        parse_command("FIRST_BLOCK 1 T".as_bytes()),
        Some(Command::FirstBlock(1, Shape::T))
    );
    assert_eq!(
        parse_command("KEYSTROKE 2 SPACE".as_bytes()),
        Some(Command::Keystroke(2, Key::Space))
    );
    assert_eq!(
        parse_command("NEW_BLOCK 2 Z".as_bytes()),
        Some(Command::NewBlock(2, Shape::Z))
    );
    assert_eq!(
        parse_command("GAME_OVER 1".as_bytes()),
        Some(Command::GameOver(1))
    );
}

#[test]
fn render_matches_the_wire_form() {
    assert_eq!(
        render_command(&Command::Keystroke(2, Key::Left)),
        "KEYSTROKE 2 LEFT".as_bytes().to_vec()
    );
    assert_eq!(
        render_command(&Command::NewBlock(1, Shape::Z)),
        "NEW_BLOCK 1 Z".as_bytes().to_vec()
    );
    assert_eq!(
        render_command(&Command::NumConns(2, 10)),
        "NUM_CONNS 2 10".as_bytes().to_vec()
    );
    assert_eq!(render_command(&Command::Start), "START!".as_bytes().to_vec());
    assert_eq!(
        render_command(&Command::GameOver(207)),
        "GAME_OVER 207".as_bytes().to_vec()
    );
}

#[test]
fn parse_undoes_render() {
    let commands = [
        Command::NumConns(1, 2),
        Command::Start,
        Command::FirstBlock(2, Shape::I),
        Command::FirstBlock(1, Shape::O),
        Command::Keystroke(1, Key::Up),
        Command::Keystroke(2, Key::Down),
        Command::Keystroke(1, Key::Left),
        Command::Keystroke(2, Key::Right),
        Command::Keystroke(12, Key::Space),
        Command::NewBlock(2, Shape::S),
        Command::NewBlock(305, Shape::L),
        Command::GameOver(0),
        Command::GameOver(2147483647),
    ];
    for c in commands {
        let wire = render_command(&c);
        assert_eq!(parse_command(&wire), Some(c));
    }
}

#[test]
fn malformed_messages_are_discarded() {
    let bad = [
        "",
        " ",
        "KEYSTROKE",
        "KEYSTROKE ",
        "KEYSTROKE 2",
        "KEYSTROKE 2 ",
        "KEYSTROKE 2 LEFTX",
        "KEYSTROKE 02 LEFT",
        "KEYSTROKE  2 LEFT",
        "KEYSTROKE 2 left",
        "KEYSTROKE -1 LEFT",
        "NUM_CONNS 1",
        "NUM_CONNS 1 2 3",
        "START",
        "START! ",
        "FIRST_BLOCK 1 X",
        "FIRST_BLOCK 1 TT",
        "NEW_BLOCK 1T",
        "GAME_OVER ONE",
        "GAME_OVER 2147483648",
        "keystroke 2 LEFT",
    ];
    for m in bad {
        assert_eq!(parse_command(m.as_bytes()), None, "accepted {:?}", m);
    }
}

#[test]
fn parse_accepts_the_largest_token() {
    assert_eq!(
        parse_command("GAME_OVER 2147483647".as_bytes()),
        Some(Command::GameOver(2147483647))
    );
}

#[test]
fn own_events_are_not_replayed() {
    let mut b = Board::init_board();
    b.token = 2;
    b.set_current_shape(Shape::T);
    let x = b.current_piece.x_offset;
    // a keystroke that names this participant's own token is ignored
    apply_command(&mut b, 2, &Command::Keystroke(2, Key::Left));
    assert_eq!(b.current_piece.x_offset, x);
    // one that names the other participant is replayed
    apply_command(&mut b, 1, &Command::Keystroke(2, Key::Left));
    assert_eq!(b.current_piece.x_offset, x - 1);
}

#[test]
fn replica_boards_stay_in_step() {
    // participant B's own board, and participant A's replica of it
    let mut board_b = Board::init_board();
    let mut replica = Board::init_board();
    board_b.token = 2;
    replica.token = 2;
    // B starts with a T and announces it; A's replica adopts the announcement
    board_b.set_current_shape(Shape::T);
    apply_message(&mut replica, 1, "FIRST_BLOCK 2 T".as_bytes());
    // on its own board the message is a no-op; B applies the key locally
    board_b.handle_key_press(Key::Left);
    // A replays the relayed keystroke against the replica
    let applied = apply_message(&mut replica, 1, "KEYSTROKE 2 LEFT".as_bytes());
    assert_eq!(applied, Some(Command::Keystroke(2, Key::Left)));
    assert_eq!(board_b.cells, replica.cells);
    assert_eq!(board_b.current_piece.name, replica.current_piece.name);
    assert_eq!(board_b.current_piece.blocks, replica.current_piece.blocks);
    assert_eq!(board_b.current_piece.x_offset, replica.current_piece.x_offset);
    assert_eq!(board_b.current_piece.y_offset, replica.current_piece.y_offset);
    assert_eq!(board_b.ghost_piece.y_offset, replica.ghost_piece.y_offset);
}

#[test]
fn malformed_message_leaves_the_board_untouched() {
    let mut b = Board::init_board();
    b.set_current_shape(Shape::J);
    let cells = b.cells.clone();
    let x = b.current_piece.x_offset;
    let r = apply_message(&mut b, 1, "KEYSTROKE 2 SIDEWAYS".as_bytes());
    assert_eq!(r, None);
    assert_eq!(b.cells, cells);
    assert_eq!(b.current_piece.x_offset, x);
}
