use ultimate_ttt::bitboard::BitBoard;
use ultimate_ttt::board::Board;
use ultimate_ttt::marker::PlayerMarker;
use ultimate_ttt::moves::{MetaMove, PossibleMoves};
use ultimate_ttt::state::GameState;

fn legal(state: &GameState) -> Vec<Vec<usize>> {
    let mut moves = PossibleMoves::new();
    let mut scratch = MetaMove::new_empty();
    state.get_possible_moves(&mut moves, &mut scratch);
    (0..moves.len())
        .map(|i| moves.get(i).absolute_index.clone())
        .collect()
}

fn play(state: &mut GameState, path: &[usize]) {
    state.set(MetaMove::new(path)).unwrap();
}

// ######################################
// # BitBoard
// ######################################

#[test]
fn test_bitboard_positions() {
    let mut bitboard = BitBoard::new();

    for i in 0..9 {
        // Once X holds 0, 1 and 2 the grid is decided and offers no cell.
        let expected: Vec<usize> = if i <= 2 { (i..9).collect() } else { vec![] };
        assert_eq!(bitboard.get_empty_positions(), expected);
        bitboard.set(i, PlayerMarker::X).unwrap();
    }
    assert!(bitboard.get_empty_positions().is_empty());
}

#[test]
fn test_bitboard_full() {
    let mut bitboard = BitBoard::new();

    for i in 0..9 {
        assert!(!bitboard.is_full());
        bitboard.set(i, PlayerMarker::X).unwrap();
    }
    assert!(bitboard.is_full());
}

#[test]
fn bitboard_raw_empty_cells_before_a_win() {
    let mut bitboard = BitBoard::new();
    bitboard.set(0, PlayerMarker::X).unwrap();
    bitboard.set(4, PlayerMarker::O).unwrap();
    assert_eq!(bitboard.get_empty_positions(), vec![1, 2, 3, 5, 6, 7, 8]);
    assert_eq!(bitboard.get(0), PlayerMarker::X);
    assert_eq!(bitboard.get(4), PlayerMarker::O);
    assert_eq!(bitboard.get(5), PlayerMarker::Empty);
}

#[test]
fn bitboard_rejects_occupied_and_out_of_range() {
    let mut bitboard = BitBoard::new();
    bitboard.set(3, PlayerMarker::X).unwrap();
    assert!(bitboard.set(3, PlayerMarker::O).is_err());
    assert!(bitboard.set(9, PlayerMarker::O).is_err());
    assert_eq!(bitboard.get(3), PlayerMarker::X);
}

#[test]
fn bitboard_winner_lines() {
    let mut b = BitBoard::new();
    for i in [2, 4, 6] {
        b.set(i, PlayerMarker::O).unwrap();
    }
    assert_eq!(b.get_winner(), PlayerMarker::O);
    assert!(!b.can_set());

    let mut c = BitBoard::new();
    for i in [1, 4] {
        c.set(i, PlayerMarker::X).unwrap();
    }
    assert_eq!(c.get_winner(), PlayerMarker::Empty);
    assert!(c.can_set());
    c.set(7, PlayerMarker::X).unwrap();
    assert_eq!(c.get_winner(), PlayerMarker::X);
}

#[test]
fn bitboard_unset_clears_one_cell() {
    let mut b = BitBoard::new();
    b.set(5, PlayerMarker::X).unwrap();
    b.set(6, PlayerMarker::O).unwrap();
    b.unset(5);
    assert_eq!(b.get(5), PlayerMarker::Empty);
    assert_eq!(b.get(6), PlayerMarker::O);
}

#[test]
fn bitboard_full_draw_is_not_playable() {
    let mut b = BitBoard::new();
    // X O X / X O O / O X X : no line.
    let cells = [
        PlayerMarker::X,
        PlayerMarker::O,
        PlayerMarker::X,
        PlayerMarker::X,
        PlayerMarker::O,
        PlayerMarker::O,
        PlayerMarker::O,
        PlayerMarker::X,
        PlayerMarker::X,
    ];
    for (i, p) in cells.iter().enumerate() {
        b.set(i, *p).unwrap();
    }
    assert!(b.is_full());
    assert_eq!(b.get_winner(), PlayerMarker::Empty);
    assert!(!b.can_set());
}

// ######################################
// # MetaMove
// ######################################

#[test]
fn test_meta_move_absolute_index_to_meta() {
    let m = MetaMove::new(&[2, 3]);
    assert_eq!(m.absolute_index, vec![2, 3]);
    assert_eq!(m.len(), 2);
}

#[test]
fn test_meta_move_meta_to_absolute_index() {
    let mut m = MetaMove::new_empty();
    m.push(0);
    m.push(3);
    assert_eq!(m, MetaMove::new(&[0, 3]));
    assert_eq!(m.pop(), 3);
    m.clear();
    assert_eq!(m.len(), 0);
}

#[test]
fn test_meta_move_shift_left() {
    let meta_move = MetaMove::new(&[8, 3]);
    let shifted = meta_move.shift_left();
    assert_eq!(shifted, MetaMove::new(&[3, 3]));
}

#[test]
fn meta_move_equality_is_componentwise() {
    assert_eq!(MetaMove::new(&[1, 2]), MetaMove::new(&[1, 2]));
    assert_ne!(MetaMove::new(&[1, 2]), MetaMove::new(&[2, 1]));
    assert_ne!(MetaMove::new(&[1, 2]), MetaMove::new(&[1, 2, 0]));
}

// ######################################
// # MetaBoard
// ######################################

#[test]
fn test_meta_board_empty_positions() {
    let meta_board = GameState::new();
    let empty_positions = legal(&meta_board);
    assert_eq!(empty_positions.len(), 9 * 9);
}

#[test]
fn test_meta_board_possible_moves() {
    let mut meta_board = GameState::new();
    play(&mut meta_board, &[8, 3]);
    let possible_moves = legal(&meta_board);
    assert_eq!(possible_moves.len(), 9);
}

#[test]
fn test_meta_board_possible_moves_2() {
    let mut meta_board = GameState::new();
    play(&mut meta_board, &[8, 8]);
    let possible_moves = legal(&meta_board);
    assert_eq!(possible_moves.len(), 8);
}

#[test]
fn test_meta_board_possible_moves_3() {
    let mut meta_board = GameState::new();
    // Board 8 fills up without a line: X0 O1 X2 O4 X3 O5 X7 O6 X8.
    for j in [0, 1, 2, 4, 3, 5, 7, 6, 8] {
        play(&mut meta_board, &[8, j]);
    }
    let possible_moves = legal(&meta_board);
    assert_eq!(possible_moves.len(), 72);
}

#[test]
fn set_and_unset() {
    let mut meta_board = GameState::new();
    let move_ = MetaMove::new(&[8, 3]);
    meta_board.set(move_).unwrap();
    for j in 0..9 {
        let expected = if j == 3 { PlayerMarker::X } else { PlayerMarker::Empty };
        assert_eq!(meta_board.board.get(&[8, j]).unwrap(), expected);
    }
    meta_board.unset(Some(MetaMove::new(&[8, 0])));
    for j in 0..9 {
        assert_eq!(meta_board.board.get(&[8, j]).unwrap(), PlayerMarker::Empty);
    }
    assert_eq!(meta_board.current_player, PlayerMarker::X);
    assert_eq!(meta_board.last_move, Some(MetaMove::new(&[8, 0])));
}

#[test]
fn possible_moves_cursor_walks_in_order() {
    let mut state = GameState::new();
    state.set(MetaMove::new(&[8, 8])).unwrap();
    let mut moves = PossibleMoves::new();
    let mut scratch = MetaMove::new_empty();
    state.get_possible_moves(&mut moves, &mut scratch);
    let mut it = moves.iter();
    let mut seen = vec![];
    while let Some(m) = it.next() {
        seen.push(m.absolute_index.clone());
    }
    let expected: Vec<Vec<usize>> = (0..8).map(|j| vec![8, j]).collect();
    assert_eq!(seen, expected);
    assert!(it.next().is_none());
}

#[test]
fn board_get_reads_cells_and_summaries() {
    let mut board = Board::create_board(2);
    assert_eq!(board.get(&[3, 3]).unwrap(), PlayerMarker::Empty);
    for c in [0, 4, 8] {
        board.set(&[3, c], PlayerMarker::O).unwrap();
    }
    assert_eq!(board.get(&[3]).unwrap(), PlayerMarker::O);
    assert_eq!(board.get(&[3, 4]).unwrap(), PlayerMarker::O);
    assert!(board.set(&[3, 4], PlayerMarker::X).is_err());
    assert!(board.set(&[3, 5], PlayerMarker::Empty).is_err());
    board.unset(&[3, 8]);
    assert_eq!(board.get(&[3]).unwrap(), PlayerMarker::Empty);
    assert_eq!(board.get_winner(), PlayerMarker::Empty);
}
