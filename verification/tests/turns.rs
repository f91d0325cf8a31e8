use reversi::MainState;
use reversi::GameError;
use reversi::Piece;
use reversi::Winner;

fn board_of(state: &MainState) -> Vec<Option<Piece>> {
    let n = state.side_len();
    let mut cells = Vec::new();
    for y in 0..n {
        for x in 0..n {
            cells.push(state.piece_at(x, y));
        }
    }
    cells
}

#[test]
fn forfeit_passes_turn_without_mutation() {
    // Black at (0,0), White at (1,0), the rest empty. White to move has no
    // sandwich anywhere; Black could play (2,0). The turn must pass to
    // Black with the board untouched and the game still running.
    let mut cells = vec![None; 16];
    cells[0] = Some(Piece::Black);
    cells[1] = Some(Piece::White);
    let mut state = MainState::from_position(4, cells, Piece::White).unwrap();
    assert!(!state.has_move());
    assert!(state.has_any_move(Piece::Black));
    let before = board_of(&state);
    state.resolve_turn();
    assert_eq!(state.current_turn(), Piece::Black);
    assert_eq!(state.outcome(), None);
    assert_eq!(board_of(&state), before);
    assert!(state.valid_space(2, 0));
}

#[test]
fn forfeit_chain_ends_the_game_with_counts() {
    // Black at (0,0), White at (1,0) on a 2-by-2 board: neither color has a
    // sandwich and two cells are empty, so a double forfeit ends the game;
    // equal counts tie.
    let cells = vec![Some(Piece::Black), Some(Piece::White), None, None];
    let mut state = MainState::from_position(2, cells, Piece::White).unwrap();
    assert!(!state.has_any_move(Piece::White));
    assert!(!state.has_any_move(Piece::Black));
    let before = board_of(&state);
    state.resolve_turn();
    assert_eq!(state.outcome(), Some(Winner::Tie));
    assert_eq!(board_of(&state), before);
}

#[test]
fn full_board_is_terminal_and_stable() {
    let cells = vec![
        Some(Piece::Black),
        Some(Piece::Black),
        Some(Piece::Black),
        Some(Piece::White),
    ];
    let mut state = MainState::from_position(2, cells, Piece::White).unwrap();
    state.resolve_turn();
    assert_eq!(state.outcome(), Some(Winner::Black));
    // Stable under further calls: nothing changes once terminal.
    state.resolve_turn();
    assert_eq!(state.outcome(), Some(Winner::Black));
    let before = board_of(&state);
    assert_eq!(state.try_place(0, 0).unwrap_err(), GameError::IllegalMove);
    assert_eq!(board_of(&state), before);
    assert_eq!(state.outcome(), Some(Winner::Black));
}

#[test]
fn resolve_turn_keeps_a_mover_with_moves() {
    let mut state = MainState::new(4).unwrap();
    state.resolve_turn();
    assert_eq!(state.current_turn(), Piece::White);
    assert_eq!(state.outcome(), None);
}

#[test]
fn reset_clears_a_terminal_state() {
    let cells = vec![
        Some(Piece::Black),
        Some(Piece::Black),
        Some(Piece::Black),
        Some(Piece::White),
    ];
    let mut state = MainState::from_position(2, cells, Piece::White).unwrap();
    state.resolve_turn();
    assert_eq!(state.outcome(), Some(Winner::Black));
    state.reset();
    assert_eq!(state.outcome(), None);
    assert_eq!(state.current_turn(), Piece::White);
    assert_eq!(state.piece_at(0, 0), Some(Piece::White));
    assert_eq!(state.piece_at(1, 1), Some(Piece::White));
    assert_eq!(state.piece_at(1, 0), Some(Piece::Black));
    assert_eq!(state.piece_at(0, 1), Some(Piece::Black));
}

#[test]
fn rays_stop_at_the_edge_without_wraparound() {
    // A White piece at (3,0) and Black at (0,0), (1,0), (2,0): for White,
    // placing left of the row would need a cell at x = -1; no coordinate on
    // the row is legal via wraparound.
    let mut cells = vec![None; 16];
    cells[0] = Some(Piece::Black);
    cells[1] = Some(Piece::Black);
    cells[2] = Some(Piece::Black);
    cells[3] = Some(Piece::White);
    let state = MainState::from_position(4, cells, Piece::White).unwrap();
    // Every empty cell in the next row: none is made legal by the full row
    // above wrapping around.
    for x in 0..4 {
        assert!(!state.valid_space(x, 2));
    }
    // And the captures of any empty cell stay on the board.
    for y in 0..4 {
        for x in 0..4 {
            for idx in state.captures(x, y) {
                assert!(idx < 16);
            }
        }
    }
}

#[test]
fn forfeit_chain_with_unequal_counts() {
    // Two Black pieces and two empty cells on a 2-by-2 board: neither color
    // can sandwich, the chain of forfeits ends the game, and the outcome
    // reflects the counts at that exact state.
    let cells = vec![Some(Piece::Black), Some(Piece::Black), None, None];
    let mut state = MainState::from_position(2, cells, Piece::White).unwrap();
    assert!(!state.has_any_move(Piece::White));
    assert!(!state.has_any_move(Piece::Black));
    state.resolve_turn();
    assert_eq!(state.outcome(), Some(Winner::Black));
    assert_eq!(state.piece_at(0, 1), None);
    assert_eq!(state.piece_at(1, 1), None);
}

#[test]
fn self_play_keeps_occupancy_monotone_until_terminal() {
    // Drive a whole game by always playing the first legal coordinate.
    // Occupancy must grow by exactly one per placement, and the final
    // outcome must agree with the piece counts.
    let mut state = MainState::new(4).unwrap();
    let mut occupied = 16 - state.empty_count();
    let mut placements = 0;
    loop {
        state.resolve_turn();
        if state.outcome().is_some() {
            break;
        }
        let mut played = false;
        'outer: for y in 0..4 {
            for x in 0..4 {
                if state.valid_space(x, y) {
                    state.place(x, y);
                    played = true;
                    break 'outer;
                }
            }
        }
        assert!(played, "a settled, unfinished turn must have a legal move");
        let now = 16 - state.empty_count();
        assert_eq!(now, occupied + 1);
        occupied = now;
        placements += 1;
    }
    assert!(placements >= 1);
    let black = state.color_count(Piece::Black);
    let white = state.color_count(Piece::White);
    let expected = if black > white {
        Winner::Black
    } else if white > black {
        Winner::White
    } else {
        Winner::Tie
    };
    assert_eq!(state.outcome(), Some(expected));
}
