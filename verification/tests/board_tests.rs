use pkrs::binmat::BinMat;
use pkrs::board::{Board, BoardError, TileState};

#[test]
fn board_test_create() {
    let board = Board::new(5, 5);
    let noboard = Board::new(0, 0);

    // are they created correctly?
    assert!(!board.is_err());
    assert!(noboard.is_err());
    assert_eq!(noboard.err(), Some(BoardError::BoardIsTooSmall));
}

#[test]
fn test_create_from_binmat() {
    let mut mat = BinMat::new(5, 5);

    // preparing mat
    mat.toggle_val(0, 0).expect("Not the subject of this test");

    let board = Board::from_mat(&mat);

    // is it created correctly?
    assert!(board.is_ok());

    // is the value correctly initialized?
    assert_eq!(board.unwrap().tile_values[0], true);
}

#[test]
fn test_init_capacity() {
    let (w, h) = (5, 5);
    let board = Board::new(w, h).unwrap();

    // do board's vectors have the right capacity
    let (s_capa, v_capa) = (board.tile_states.capacity(), board.tile_values.capacity());
    let goal: usize = board.total;

    assert!(s_capa >= goal);
    assert!(v_capa >= goal);
}

#[test]
fn test_vec_index() {
    const W: u8 = 6;
    const H: u8 = 6;

    let board = Board::new(W, H).unwrap();

    assert!(3 < board.width);
    assert!(4 < (board.total / board.width as usize));
}

#[test]
fn test_bounds_checking() {
    const W: u8 = 6;
    const H: u8 = 6;

    let mut board = Board::new(W, H).unwrap();

    // should fail because we are out of bounds
    assert!(board.set_state(10, 10, TileState::Picked).is_err());
    assert!(board.get_state(10, 10).is_err());
}

#[test]
fn test_changing_tilestate() {
    const W: u8 = 6;
    const H: u8 = 6;

    let mut board = Board::new(W, H).unwrap();

    // Marking
    assert!(board.mark_tile(3, 3).is_ok());
    assert_eq!(board.get_state(3, 3), Ok(TileState::Marked));

    // Picking a normal tile
    assert!(board.pick_tile(3, 4).is_ok());
    assert_eq!(board.get_state(3, 4), Ok(TileState::Picked));
}

#[test]
fn test_solving() {
    const W: u8 = 5;
    const H: u8 = 5;

    let mut board = Board::new(W, H).unwrap();

    // is it already in a solved state? (blank)
    assert!(board.is_solved());

    // setup
    board.tile_values[4] ^= true;
    board.tile_values[9] ^= true;
    board.tile_values[15] ^= true;

    // is it set up correctly?
    assert!(!board.is_solved());

    // solving
    assert!(board.pick_tile(4, 0).is_ok());
    assert!(board.pick_tile(4, 1).is_ok());
    assert!(board.pick_tile(0, 3).is_ok());

    // is it solved?
    assert!(board.is_solved());
}

#[test]
fn board_size_limits() {
    assert_eq!(Board::new(5, 4).err(), Some(BoardError::BoardIsTooSmall));
    assert_eq!(Board::new(24, 1).err(), Some(BoardError::BoardIsTooSmall));
    let board = Board::new(25, 1).unwrap();
    assert_eq!(board.get_width(), 25);
    assert_eq!(board.get_height(), 1);
    let board = Board::new(15, 17).unwrap();
    assert_eq!(board.total, 255);
    assert_eq!(board.get_height(), 17);
    assert_eq!(board.get_states(), vec![TileState::Normal; 255]);
    assert!(board.is_solved());
}

#[test]
fn board_from_small_mat_refused() {
    let mat = BinMat::new(4, 6);
    assert_eq!(Board::from_mat(&mat).err(), Some(BoardError::BoardIsTooSmall));
}

#[test]
fn board_from_mat_copies_values() {
    let mat = BinMat::from_string(String::from("5,6:100001")).unwrap();
    let board = Board::from_mat(&mat).unwrap();
    assert_eq!(board.get_width(), 5);
    assert_eq!(board.get_height(), 6);
    assert_eq!(board.total, 30);
    assert_eq!(board.tile_values, mat.values);
    assert_eq!(board.get_states(), vec![TileState::Normal; 30]);
    assert!(!board.is_solved());
}

#[test]
fn board_out_of_bounds_error_values() {
    let mut board = Board::new(6, 6).unwrap();
    assert_eq!(
        board.get_state(10, 10),
        Err(BoardError::OutOfBounds { max: 36, val: 70 })
    );
    assert_eq!(
        board.get_state(0, 6),
        Err(BoardError::OutOfBounds { max: 36, val: 36 })
    );
    assert_eq!(
        board.pick_tile(6, 0),
        Err(BoardError::OutOfBounds { max: 36, val: 6 })
    );
    assert_eq!(
        board.mark_tile(1, 7),
        Err(BoardError::OutOfBounds { max: 36, val: 43 })
    );
    // nothing changed
    assert_eq!(board.get_states(), vec![TileState::Normal; 36]);
    assert!(board.is_solved());
}

#[test]
fn board_pick_toggles() {
    let mut board = Board::new(5, 5).unwrap();
    board.pick_tile(2, 2).unwrap();
    assert_eq!(board.get_state(2, 2), Ok(TileState::Picked));
    assert_eq!(board.tile_values[12], true);
    assert!(!board.is_solved());
    board.pick_tile(2, 2).unwrap();
    assert_eq!(board.get_state(2, 2), Ok(TileState::Normal));
    assert_eq!(board.tile_values[12], false);
    assert!(board.is_solved());
}

#[test]
fn board_mark_toggles_and_keeps_value() {
    let mut board = Board::new(5, 5).unwrap();
    board.mark_tile(1, 0).unwrap();
    assert_eq!(board.get_state(1, 0), Ok(TileState::Marked));
    assert!(board.is_solved());
    board.mark_tile(1, 0).unwrap();
    assert_eq!(board.get_state(1, 0), Ok(TileState::Normal));
    assert!(board.is_solved());
    // a picked tile that gets marked keeps its flipped value
    board.pick_tile(3, 0).unwrap();
    board.mark_tile(3, 0).unwrap();
    assert_eq!(board.get_state(3, 0), Ok(TileState::Marked));
    assert_eq!(board.tile_values[3], true);
    // picking a marked tile does not flip its value
    board.pick_tile(3, 0).unwrap();
    assert_eq!(board.get_state(3, 0), Ok(TileState::Picked));
    assert_eq!(board.tile_values[3], true);
}

#[test]
fn board_set_state_rules() {
    let mut board = Board::new(5, 5).unwrap();
    board.set_state(0, 0, TileState::Picked).unwrap();
    assert_eq!(board.tile_values[0], true);
    board.set_state(0, 0, TileState::Normal).unwrap();
    assert_eq!(board.tile_values[0], false);
    board.set_state(0, 0, TileState::Marked).unwrap();
    assert_eq!(board.tile_values[0], false);
    board.set_state(0, 0, TileState::Picked).unwrap();
    assert_eq!(board.tile_values[0], false);
}

#[test]
fn board_solved_when_solution_picked() {
    let mat = BinMat::from_string(String::from("5,5:0110010010100011001001111")).unwrap();
    let mut board = Board::from_mat(&mat).unwrap();
    assert!(!board.is_solved());
    for y in 0..5u8 {
        for x in 0..5u8 {
            if mat.get_val(x, y).unwrap() {
                assert!(!board.is_solved());
                board.pick_tile(x, y).unwrap();
            }
        }
    }
    assert!(board.is_solved());
    // picking one more tile breaks it
    board.pick_tile(0, 0).unwrap();
    assert!(!board.is_solved());
}

#[test]
fn board_error_messages() {
    assert_eq!(
        BoardError::BoardIsTooSmall.to_string(),
        "The requested board size is too low, must be at least 5 by 5"
    );
    assert_eq!(
        BoardError::OutOfBounds { max: 36, val: 70 }.to_string(),
        "Attempted access at #70 which is greater than max = 36"
    );
    assert_eq!(
        BoardError::OutOfBounds { max: 0, val: 1234567 }.to_string(),
        "Attempted access at #1234567 which is greater than max = 0"
    );
}

#[test]
fn board_large_sizes() {
    let board = Board::new(16, 16).unwrap();
    assert_eq!(board.get_width(), 16);
    assert_eq!(board.get_height(), 16);
    assert_eq!(board.get_states().len(), 256);
    let mut board = Board::new(255, 255).unwrap();
    assert_eq!(board.total, 65025);
    assert_eq!(board.get_height(), 255);
    board.pick_tile(254, 254).unwrap();
    assert_eq!(board.get_state(254, 254), Ok(TileState::Picked));
    assert!(!board.is_solved());
    assert_eq!(
        board.get_state(255, 255),
        Err(BoardError::OutOfBounds { max: 65025, val: 255 + 255 * 255 })
    );
    let mut small = Board::new(5, 5).unwrap();
    assert_eq!(
        small.mark_tile(200, 200),
        Err(BoardError::OutOfBounds { max: 25, val: 1200 })
    );
}
