use minesweeper::board::{Action, ActionResult, Board, TilePos, TileState};
use minesweeper::difficulty::Difficulty;
use minesweeper::record::Record;

fn p(col: usize, row: usize) -> TilePos {
    TilePos { col, row }
}

fn bombs(b: &Board) -> usize {
    let mut n = 0;
    for col in 0..b.width() {
        for row in 0..b.height() {
            if b.bomb(p(col, row)) {
                n += 1;
            }
        }
    }
    n
}

#[test]
fn difficulties() {
    assert_eq!(
        Difficulty::iter(),
        vec![Difficulty::Easy, Difficulty::Medium, Difficulty::Hard]
    );
    assert_eq!(Difficulty::Hard.num_bombs(), 99);
    assert_eq!(Difficulty::Hard.grid_size(), (30, 16));
    assert_eq!(Difficulty::Medium.grid_size(), (16, 16));
}

#[test]
fn new_board_is_covered_with_seeded_bombs() {
    let b = Board::new(Difficulty::Easy, Some(7));
    assert_eq!((b.width(), b.height()), (10, 10));
    assert_eq!(b.num_bombs_left(), 10);
    assert_eq!(b.num_bombs_total(), 10);
    assert_eq!(b.seed(), 7);
    assert!(!b.first_uncovered());
    assert!(b.tile_states().iter().all(|&t| t == TileState::Covered));
    assert_eq!(bombs(&b), 10);
    let again = Board::new(Difficulty::Easy, Some(7));
    for col in 0..10 {
        for row in 0..10 {
            assert_eq!(b.bomb(p(col, row)), again.bomb(p(col, row)));
        }
    }
}

#[test]
fn flags_toggle_and_count() {
    let mut b = Board::new(Difficulty::Easy, Some(3));
    assert_eq!(b.apply_action(Action::flag(p(4, 4))), ActionResult::Continue);
    assert_eq!(b.tile_state(p(4, 4)), TileState::Flagged);
    assert_eq!(b.num_bombs_left(), 9);
    // uncovering a flagged tile does nothing
    assert_eq!(b.apply_action(Action::uncover(p(4, 4))), ActionResult::Continue);
    assert_eq!(b.tile_state(p(4, 4)), TileState::Flagged);
    b.apply_action(Action::flag(p(4, 4)));
    assert_eq!(b.tile_state(p(4, 4)), TileState::Covered);
    assert_eq!(b.num_bombs_left(), 10);
}

#[test]
fn first_move_opens_an_empty_area() {
    let mut b = Board::new(Difficulty::Medium, Some(11));
    assert_eq!(b.apply_action(Action::uncover(p(2, 8))), ActionResult::Continue);
    assert!(b.first_uncovered());
    assert_eq!(b.tile_state(p(2, 8)), TileState::UncoveredSafe(0));
    assert!(!b.bomb(p(2, 8)));
    for q in b.neighbours(p(2, 8)) {
        assert!(matches!(b.tile_state(q), TileState::UncoveredSafe(_)));
    }
    assert_eq!(bombs(&b), 40);
}

#[test]
fn sheet_indices() {
    assert_eq!(TileState::Covered.sheet_index(), 0);
    assert_eq!(TileState::UncoveredSafe(3).sheet_index(), 6);
    assert_eq!(TileState::ExplodedBomb.sheet_index(), 13);
}

#[test]
fn squared_distance() {
    assert_eq!(p(1, 2).squared_distance(p(4, 6)), 25);
    assert_eq!(p(4, 6).squared_distance(p(4, 6)), 0);
}

#[test]
fn solver_plays_a_game_to_the_end() {
    let mut b = Board::new(Difficulty::Easy, Some(5));
    let mut result = ActionResult::Continue;
    let mut moves = 0;
    while result == ActionResult::Continue && moves < 1000 {
        let actions = minesweeper::agent::get_all_actions(&b);
        assert!(!actions.is_empty());
        for a in actions {
            result = b.apply_action(a);
            moves += 1;
            if result != ActionResult::Continue {
                break;
            }
        }
    }
    assert_ne!(result, ActionResult::Continue);
    if result == ActionResult::Win {
        assert_eq!(bombs(&b), 10);
        for col in 0..10 {
            for row in 0..10 {
                if b.bomb(p(col, row)) {
                    assert_eq!(b.tile_state(p(col, row)), TileState::Flagged);
                }
            }
        }
    }
}

#[test]
fn record_counts_games() {
    let mut record = Record::new(Difficulty::Easy);
    let mut b = Board::new(Difficulty::Easy, Some(9));
    b.apply_action(Action::flag(p(0, 0)));
    b.apply_action(Action::flag(p(0, 1)));
    record.record_game(ActionResult::Lose, &b);
    record.record_game(ActionResult::Win, &Board::new(Difficulty::Easy, Some(9)));
    assert_eq!((record.win, record.loss, record.dnf), (1, 1, 0));
    assert_eq!(record.total_bombs, 20);
    assert_eq!(record.total_bombs_cleared, 2);
    record.record_game(ActionResult::Continue, &b);
    assert_eq!(record.dnf, 1);
    assert_eq!(record.difficulty, Difficulty::Easy);
}
