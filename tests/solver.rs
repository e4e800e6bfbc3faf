use minesweeper::agent::{
    flags_within_counts, covered_neighbours, deduplicate, get_all_actions, get_trivial_actions, num_bombs_around,
    num_covered_around, uncovered_neighbours,
};
use minesweeper::board::{Action, ActionType, Board, TilePos, TileState};
use minesweeper::deductions::{
    get_non_trivial_actions, get_subset_bounds, max_in_subset, min_in_subset, set_difference,
    subsets, SubsetBounds,
};

const C: TileState = TileState::Covered;
const F: TileState = TileState::Flagged;

fn s(n: u8) -> TileState {
    TileState::UncoveredSafe(n)
}

fn p(col: usize, row: usize) -> TilePos {
    TilePos { col, row }
}

fn board(width: usize, height: usize, rows: &[&[TileState]], left: isize) -> Board {
    let mut tiles = vec![];
    for row in rows {
        assert_eq!(row.len(), width);
        tiles.extend_from_slice(row);
    }
    Board::from_tile_states(width, height, tiles, left).unwrap()
}

fn sorted(mut v: Vec<Action>) -> Vec<(usize, usize, bool)> {
    let mut out: Vec<(usize, usize, bool)> = v
        .drain(..)
        .map(|a| (a.pos.col, a.pos.row, a.action_type == ActionType::Flag))
        .collect();
    out.sort();
    out
}

#[test]
fn corner_one_flags_its_only_covered_neighbour() {
    let b = board(
        3,
        3,
        &[&[C, s(1), s(0)], &[s(1), s(1), s(0)], &[s(0), s(0), s(0)]],
        1,
    );
    let actions = get_trivial_actions(&b);
    assert_eq!(actions, vec![Action::flag(p(0, 0))]);
}

#[test]
fn one_two_one_pattern_needs_subset_bounds() {
    let b = board(
        5,
        2,
        &[&[C, C, C, C, C], &[s(1), s(1), s(2), s(1), s(1)]],
        2,
    );
    assert!(get_trivial_actions(&b).is_empty());
    let actions = get_non_trivial_actions(&b);
    assert_eq!(
        sorted(actions),
        vec![
            (0, 0, false),
            (1, 0, true),
            (2, 0, false),
            (3, 0, true),
            (4, 0, false)
        ]
    );
}

#[test]
fn satisfied_number_uncovers_the_rest() {
    // the 1 at (1,1) already has its flag
    let b = board(3, 2, &[&[F, C, C], &[s(1), s(1), s(1)]], 3);
    let actions = get_trivial_actions(&b);
    assert_eq!(sorted(actions), vec![(1, 0, false), (2, 0, false)]);
}

#[test]
fn saturated_number_flags_the_rest() {
    let b = board(2, 2, &[&[C, C], &[s(2), s(2)]], 2);
    let actions = get_trivial_actions(&b);
    assert_eq!(sorted(actions), vec![(0, 0, true), (1, 0, true)]);
}

#[test]
fn deduction_pass_is_repeatable() {
    let b = board(
        5,
        2,
        &[&[C, C, C, C, C], &[s(1), s(1), s(2), s(1), s(1)]],
        2,
    );
    let first = get_non_trivial_actions(&b);
    let second = get_non_trivial_actions(&b);
    assert_eq!(sorted(first), sorted(second));
    let b = board(2, 2, &[&[C, C], &[s(2), s(2)]], 2);
    assert_eq!(get_trivial_actions(&b), get_trivial_actions(&b));
}

#[test]
fn untouched_board_opens_at_column_two() {
    let b = board(5, 4, &[&[C; 5], &[C; 5], &[C; 5], &[C; 5]], 3);
    assert_eq!(get_trivial_actions(&b), vec![Action::uncover(p(2, 2))]);
    assert_eq!(get_all_actions(&b), vec![Action::uncover(p(2, 2))]);
}

#[test]
fn no_bombs_left_uncovers_everything_covered() {
    let b = board(3, 1, &[&[C, s(0), C]], 0);
    assert_eq!(sorted(get_trivial_actions(&b)), vec![(0, 0, false), (2, 0, false)]);
}

#[test]
fn neighbour_queries() {
    let b = board(3, 2, &[&[F, C, s(0)], &[s(1), s(2), C]], 2);
    assert_eq!(num_bombs_around(&b, p(1, 1)), 1);
    assert_eq!(covered_neighbours(&b, p(1, 1)), vec![p(1, 0), p(2, 1)]);
    assert_eq!(num_covered_around(&b, p(1, 1)), 2);
    assert_eq!(uncovered_neighbours(&b, p(1, 0)), vec![p(0, 1), p(1, 1), p(2, 0)]);
    assert_eq!(b.neighbours(p(0, 0)), vec![p(0, 1), p(1, 0), p(1, 1)]);
}

#[test]
fn deduplicate_keeps_first_occurrences() {
    let a = Action::flag(p(0, 0));
    let u = Action::uncover(p(1, 0));
    assert_eq!(deduplicate(vec![a, u, a, u, a]), vec![a, u]);
    assert_eq!(deduplicate(vec![]), vec![]);
}

#[test]
fn subsets_in_lexicographic_order() {
    let tiles = vec![p(0, 0), p(0, 1), p(1, 0)];
    let subs = subsets(&tiles, 3);
    assert_eq!(
        subs,
        vec![
            vec![p(0, 0), p(0, 1)],
            vec![p(0, 0), p(1, 0)],
            vec![p(0, 1), p(1, 0)],
            vec![p(0, 0), p(0, 1), p(1, 0)],
        ]
    );
    assert!(subsets(&tiles, 1).is_empty());
}

#[test]
fn set_difference_keeps_order() {
    let a = vec![p(0, 0), p(0, 1), p(1, 0), p(1, 1)];
    let b = vec![p(1, 0), p(5, 5)];
    assert_eq!(set_difference(&a, &b), vec![p(0, 0), p(0, 1), p(1, 1)]);
}

#[test]
fn bounds_combine_parts() {
    let all = vec![p(0, 0), p(1, 0), p(2, 0)];
    let mut max_bombs = SubsetBounds::new();
    max_bombs.insert(vec![p(0, 0), p(1, 0)], 1);
    assert_eq!(max_in_subset(&all, &mut max_bombs), 2);
    assert_eq!(max_bombs.get(&all), Some(2));
    let mut min_bombs = SubsetBounds::new();
    min_bombs.insert(vec![p(1, 0), p(2, 0)], 1);
    assert_eq!(min_in_subset(&all, &mut min_bombs), 1);
    let mut empty = SubsetBounds::new();
    assert_eq!(max_in_subset(&all, &mut empty), 3);
    assert_eq!(min_in_subset(&all, &mut SubsetBounds::new()), 0);
}

#[test]
fn subset_bounds_of_one_two_one() {
    let b = board(
        5,
        2,
        &[&[C, C, C, C, C], &[s(1), s(1), s(2), s(1), s(1)]],
        2,
    );
    let (min_bombs, max_bombs) = get_subset_bounds(&b);
    assert_eq!(max_bombs.get(&vec![p(2, 0), p(3, 0)]), Some(1));
    assert_eq!(min_bombs.get(&vec![p(0, 0), p(1, 0)]), Some(1));
}

#[test]
fn all_actions_fall_back_to_a_guess() {
    // nothing certain: a single 1 over three covered tiles, two more apart;
    // each boundary tile is safe with odds 2/3, the others with odds 1/2
    let b = board(3, 2, &[&[C, C, C], &[s(1), C, C]], 2);
    assert!(get_trivial_actions(&b).is_empty());
    assert!(get_non_trivial_actions(&b).is_empty());
    assert_eq!(get_all_actions(&b), vec![Action::uncover(p(0, 0))]);
}

#[test]
fn nothing_to_do_when_nothing_is_covered() {
    let b = board(2, 1, &[&[s(0), s(0)]], 1);
    assert!(get_all_actions(&b).is_empty());
}

#[test]
fn board_size_must_match_its_tiles() {
    assert!(Board::from_tile_states(2, 2, vec![C; 3], 1).is_none());
    assert!(Board::from_tile_states(usize::MAX, 2, vec![], 1).is_none());
    let b = Board::from_tile_states(2, 1, vec![C, s(1)], 1).unwrap();
    assert_eq!((b.width(), b.height(), b.num_bombs_left()), (2, 1, 1));
}

#[test]
fn impossible_board_gives_no_move() {
    // one bomb among three boundary tiles, but ten bombs left for two others
    let b = board(3, 2, &[&[C, C, C], &[s(1), C, C]], 10);
    assert!(get_trivial_actions(&b).is_empty());
    assert!(get_non_trivial_actions(&b).is_empty());
    assert!(get_all_actions(&b).is_empty());
}

#[test]
fn flags_must_fit_the_numbers() {
    let ok = board(3, 1, &[&[F, s(1), C]], 1);
    assert!(flags_within_counts(&ok));
    let over = board(3, 1, &[&[F, s(1), F]], 0);
    assert!(!flags_within_counts(&over));
}
