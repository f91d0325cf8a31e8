use reversi::GameError;
use reversi::MainState;
use reversi::Piece;
use reversi::Winner;

fn board_of(state: &MainState) -> Vec<Option<Piece>> {
    let n = state.side_len();
    let mut cells = Vec::new();
    for y in 0..n {
        for x in 0..n {
            cells.push(state.piece_at(x, y));
        }
    }
    cells
}

#[test]
fn new_seeds_four_center_cells() {
    let state = MainState::new(4).unwrap();
    assert_eq!(state.side_len(), 4);
    assert_eq!(state.current_turn(), Piece::White);
    assert_eq!(state.outcome(), None);
    for y in 0..4 {
        for x in 0..4 {
            let expected = match (x, y) {
                (1, 1) | (2, 2) => Some(Piece::White),
                (2, 1) | (1, 2) => Some(Piece::Black),
                _ => None,
            };
            assert_eq!(state.piece_at(x, y), expected);
        }
    }
    assert_eq!(state.empty_count(), 12);
    assert_eq!(state.color_count(Piece::White), 2);
    assert_eq!(state.color_count(Piece::Black), 2);
}

#[test]
fn new_rejects_bad_side_lengths() {
    assert_eq!(MainState::new(0).unwrap_err(), GameError::InvalidConfiguration);
    assert_eq!(MainState::new(1).unwrap_err(), GameError::InvalidConfiguration);
    assert_eq!(MainState::new(3).unwrap_err(), GameError::InvalidConfiguration);
    assert_eq!(MainState::new(5).unwrap_err(), GameError::InvalidConfiguration);
    assert!(MainState::new(2).is_ok());
    assert!(MainState::new(8).is_ok());
}

#[test]
fn from_position_rejects_wrong_sizes() {
    let cells = vec![None; 9];
    assert_eq!(
        MainState::from_position(4, cells, Piece::White).unwrap_err(),
        GameError::InvalidConfiguration
    );
    let cells = vec![None; 9];
    assert_eq!(
        MainState::from_position(3, cells, Piece::White).unwrap_err(),
        GameError::InvalidConfiguration
    );
    let cells = vec![None; 4];
    assert!(MainState::from_position(2, cells, Piece::Black).is_ok());
}

#[test]
fn scenario_seeded_white_move_and_flip() {
    // On the seeded 4-by-4 board with White to move, (2, 0) is legal: the
    // downward ray passes Black at (2, 1) and ends on White at (2, 2).
    let mut state = MainState::new(4).unwrap();
    assert!(state.valid_space(2, 0));
    let caps = state.captures(2, 0);
    assert_eq!(caps, vec![4 * 1 + 2]);
    state.place(2, 0);
    for y in 0..4 {
        for x in 0..4 {
            let expected = match (x, y) {
                (2, 0) | (1, 1) | (2, 1) | (2, 2) => Some(Piece::White),
                (1, 2) => Some(Piece::Black),
                _ => None,
            };
            assert_eq!(state.piece_at(x, y), expected);
        }
    }
    assert_eq!(state.current_turn(), Piece::Black);
    assert_eq!(state.outcome(), None);
}

#[test]
fn occupancy_grows_by_one_and_mover_count_by_captures() {
    let mut state = MainState::new(4).unwrap();
    let occupied_before = 16 - state.empty_count();
    let white_before = state.color_count(Piece::White);
    let black_before = state.color_count(Piece::Black);
    let caps = state.captures(2, 0).len();
    assert!(state.valid_space(2, 0));
    state.place(2, 0);
    let occupied_after = 16 - state.empty_count();
    assert_eq!(occupied_after, occupied_before + 1);
    assert_eq!(state.color_count(Piece::White), white_before + 1 + caps);
    assert_eq!(state.color_count(Piece::Black), black_before - caps);
}

#[test]
fn captures_empty_on_illegal_coordinate() {
    let state = MainState::new(4).unwrap();
    // (0, 0) has no sandwiching direction for White.
    assert!(!state.valid_space(0, 0));
    assert_eq!(state.captures(0, 0), Vec::<usize>::new());
    // An occupied cell captures nothing either.
    assert_eq!(state.captures(1, 1), Vec::<usize>::new());
}

#[test]
fn reset_twice_equals_reset_once() {
    let mut state = MainState::new(4).unwrap();
    assert!(state.valid_space(2, 0));
    state.place(2, 0);
    state.reset();
    let once = board_of(&state);
    let turn_once = state.current_turn();
    let outcome_once = state.outcome();
    state.reset();
    assert_eq!(board_of(&state), once);
    assert_eq!(state.current_turn(), turn_once);
    assert_eq!(state.outcome(), outcome_once);
    let fresh = MainState::new(4).unwrap();
    assert_eq!(board_of(&state), board_of(&fresh));
    assert_eq!(state.current_turn(), Piece::White);
    assert_eq!(state.outcome(), None);
}

#[test]
fn last_cell_rule_allows_sandwichless_move() {
    // One empty cell left, at a coordinate with no sandwich for the mover:
    // the move must still be legal.
    let cells = vec![
        Some(Piece::Black),
        Some(Piece::Black),
        Some(Piece::Black),
        None,
    ];
    let state = MainState::from_position(2, cells, Piece::White).unwrap();
    assert!(state.valid_space(1, 1));
    assert_eq!(state.captures(1, 1), Vec::<usize>::new());
}

#[test]
fn out_of_bounds_is_rejected_without_mutation() {
    let mut state = MainState::new(4).unwrap();
    let before = board_of(&state);
    assert_eq!(state.try_place(4, 0).unwrap_err(), GameError::OutOfBounds);
    assert_eq!(state.try_place(0, 4).unwrap_err(), GameError::OutOfBounds);
    assert_eq!(state.try_place(17, 23).unwrap_err(), GameError::OutOfBounds);
    assert_eq!(board_of(&state), before);
    assert_eq!(state.current_turn(), Piece::White);
}

#[test]
fn illegal_moves_are_rejected_without_mutation() {
    let mut state = MainState::new(4).unwrap();
    let before = board_of(&state);
    // Occupied cell.
    assert_eq!(state.try_place(1, 1).unwrap_err(), GameError::IllegalMove);
    // Empty cell with no sandwich.
    assert_eq!(state.try_place(0, 0).unwrap_err(), GameError::IllegalMove);
    assert_eq!(board_of(&state), before);
    assert_eq!(state.current_turn(), Piece::White);
}

#[test]
fn try_place_performs_a_legal_move() {
    let mut state = MainState::new(4).unwrap();
    assert_eq!(state.try_place(2, 0), Ok(()));
    assert_eq!(state.piece_at(2, 0), Some(Piece::White));
    assert_eq!(state.piece_at(2, 1), Some(Piece::White));
    assert_eq!(state.current_turn(), Piece::Black);
}

#[test]
fn check_winner_compares_piece_counts() {
    let cells = vec![
        Some(Piece::Black),
        Some(Piece::Black),
        Some(Piece::White),
        None,
    ];
    let mut state = MainState::from_position(2, cells, Piece::White).unwrap();
    assert_eq!(state.check_winner(), Winner::Black);
    assert_eq!(state.outcome(), Some(Winner::Black));

    let cells = vec![
        Some(Piece::White),
        Some(Piece::White),
        Some(Piece::Black),
        None,
    ];
    let mut state = MainState::from_position(2, cells, Piece::White).unwrap();
    assert_eq!(state.check_winner(), Winner::White);

    let cells = vec![Some(Piece::White), Some(Piece::Black), None, None];
    let mut state = MainState::from_position(2, cells, Piece::White).unwrap();
    assert_eq!(state.check_winner(), Winner::Tie);
}

#[test]
fn next_turn_alternates() {
    let mut state = MainState::new(4).unwrap();
    assert_eq!(state.current_turn(), Piece::White);
    state.next_turn();
    assert_eq!(state.current_turn(), Piece::Black);
    state.next_turn();
    assert_eq!(state.current_turn(), Piece::White);
}

#[test]
fn has_move_on_seeded_board() {
    let state = MainState::new(4).unwrap();
    assert!(state.has_move());
    assert!(state.has_any_move(Piece::White));
    assert!(state.has_any_move(Piece::Black));
}
