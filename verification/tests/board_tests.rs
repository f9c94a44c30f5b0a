use minesweeper::Board;
use minesweeper::BoardError;
use minesweeper::Outcome;
use minesweeper::PushState;
use minesweeper::State;
use minesweeper::Tile;

fn tile(state: State, mine: bool, mines_surrounding: usize) -> Tile {
    Tile { state, mine, mines_surrounding }
}

fn board(width: usize, height: usize, tiles: Vec<Tile>) -> Board {
    let mine_total = tiles.iter().filter(|t| t.mine).count();
    let flag_total = tiles
        .iter()
        .filter(|t| t.state == State::Flagged)
        .count();
    let flag_correct = tiles
        .iter()
        .filter(|t| t.state == State::Flagged && t.mine)
        .count();
    Board {
        tiles,
        width,
        height,
        mine_total,
        flag_total,
        flag_correct,
        outcome: Outcome::Unresolved,
        first_uncover_pending: false,
    }
}

#[test]
fn board_clear() {
    let mut test_board = Board::new(188, 66, 0).unwrap();
    test_board.push_state(0, 0, PushState::Uncover).unwrap();

    assert!(test_board
        .tiles
        .iter()
        .fold(true, |t, i| t && i.state == State::Uncovered));
}

#[test]
fn new_rejects_impossible_geometry() {
    assert_eq!(Board::new(2, 2, 4).unwrap_err(), BoardError::InvalidConfiguration);
    assert_eq!(Board::new(2, 2, 5).unwrap_err(), BoardError::InvalidConfiguration);
    assert_eq!(Board::new(0, 5, 0).unwrap_err(), BoardError::InvalidConfiguration);
    assert_eq!(Board::new(5, 0, 0).unwrap_err(), BoardError::InvalidConfiguration);
    assert!(Board::new(2, 2, 3).is_ok());
}

#[test]
fn new_places_exactly_the_mines_with_true_adjacency() {
    let b = Board::new(7, 5, 12).unwrap();
    assert_eq!(b.width, 7);
    assert_eq!(b.height, 5);
    assert_eq!(b.mine_total, 12);
    assert_eq!(b.flag_total, 0);
    assert_eq!(b.outcome, Outcome::Unresolved);

    let mines = b.tiles.iter().filter(|t| t.mine).count();
    assert_eq!(mines, 12);

    for y in 0..5usize {
        for x in 0..7usize {
            let t = &b.tiles[y * 7 + x];
            assert_eq!(t.state, State::Covered);
            let mut expected = 0usize;
            for dy in -1i32..=1 {
                for dx in -1i32..=1 {
                    if dx == 0 && dy == 0 {
                        continue;
                    }
                    let nx = x as i32 + dx;
                    let ny = y as i32 + dy;
                    if nx >= 0 && nx < 7 && ny >= 0 && ny < 5 {
                        if b.tiles[ny as usize * 7 + nx as usize].mine {
                            expected += 1;
                        }
                    }
                }
            }
            assert_eq!(t.mines_surrounding, expected);
        }
    }
}

#[test]
fn first_reveal_never_loses() {
    for y in 0..4usize {
        for x in 0..4usize {
            let mut b = Board::new(4, 4, 15).unwrap();
            b.push_state(x, y, PushState::Uncover).unwrap();
            assert_ne!(b.outcome, Outcome::Lost);
        }
    }
}

#[test]
fn first_reveal_relocates_the_mine_to_the_other_cell() {
    for x in 0..2usize {
        let mut b = Board::new(2, 1, 1).unwrap();
        b.push_state(x, 0, PushState::Uncover).unwrap();
        assert_ne!(b.outcome, Outcome::Lost);
        assert!(!b.tiles[x].mine);
        assert!(b.tiles[1 - x].mine);
    }
}

#[test]
fn flood_fill_opens_exactly_the_zero_region_and_its_border() {
    // a 5x1 strip: two zero cells, their border, a mine, and a far cell
    let mut b = board(
        5,
        1,
        vec![
            tile(State::Covered, false, 0),
            tile(State::Covered, false, 0),
            tile(State::Covered, false, 1),
            tile(State::Covered, true, 0),
            tile(State::Covered, false, 1),
        ],
    );
    b.push_state(0, 0, PushState::Uncover).unwrap();
    assert_eq!(b.outcome, Outcome::Unresolved);
    assert_eq!(b.tiles[0].state, State::Uncovered);
    assert_eq!(b.tiles[1].state, State::Uncovered);
    assert_eq!(b.tiles[2].state, State::Uncovered);
    assert_eq!(b.tiles[3].state, State::Covered);
    assert_eq!(b.tiles[4].state, State::Covered);
}

#[test]
fn revealing_the_corner_of_a_mineless_board_wins() {
    let mut b = Board::new(3, 3, 0).unwrap();
    b.push_state(0, 0, PushState::Uncover).unwrap();
    assert_eq!(b.outcome, Outcome::Won);
    for t in &b.tiles {
        assert_eq!(t.state, State::Uncovered);
    }
}

#[test]
fn flag_attempt_at_full_quota_changes_nothing() {
    // one mine at (1, 1); the only flag sits wrongly on a safe tile
    let mut b = board(
        2,
        2,
        vec![
            tile(State::Flagged, false, 1),
            tile(State::Covered, false, 1),
            tile(State::Covered, false, 1),
            tile(State::Covered, true, 0),
        ],
    );
    let before = b.tiles.clone();
    b.push_state(1, 0, PushState::Flag).unwrap();
    assert_eq!(b.tiles, before);
    assert_eq!(b.flag_total, 1);
    assert_eq!(b.flag_correct, 0);
    assert_eq!(b.outcome, Outcome::Unresolved);
}

#[test]
fn flag_quota_holds_on_a_fresh_board() {
    let mut b = Board::new(3, 3, 1).unwrap();
    b.push_state(0, 0, PushState::Flag).unwrap();
    assert_eq!(b.flag_total, 1);
    b.push_state(1, 1, PushState::Flag).unwrap();
    assert_eq!(b.flag_total, 1);
    assert_eq!(b.tiles[4].state, State::Covered);
}

#[test]
fn unflagging_restores_the_tile_and_the_counters() {
    let mut b = Board::new(3, 3, 2).unwrap();
    b.push_state(2, 2, PushState::Flag).unwrap();
    assert_eq!(b.flag_total, 1);
    assert_eq!(b.tiles[8].state, State::Flagged);
    b.push_state(2, 2, PushState::Flag).unwrap();
    assert_eq!(b.flag_total, 0);
    assert_eq!(b.flag_correct, 0);
    assert_eq!(b.tiles[8].state, State::Covered);
}

#[test]
fn revealing_a_flagged_tile_is_a_no_op() {
    let mut b = Board::new(3, 3, 2).unwrap();
    b.push_state(1, 1, PushState::Flag).unwrap();
    let before = b.tiles.clone();
    b.push_state(1, 1, PushState::Uncover).unwrap();
    assert_eq!(b.tiles, before);
    assert_eq!(b.outcome, Outcome::Unresolved);
}

#[test]
fn flagging_every_mine_wins_with_safe_tiles_still_covered() {
    // mines at (0, 0) and (1, 1)
    let mut b = board(
        2,
        2,
        vec![
            tile(State::Covered, true, 1),
            tile(State::Covered, false, 2),
            tile(State::Covered, false, 2),
            tile(State::Covered, true, 1),
        ],
    );
    b.push_state(0, 0, PushState::Flag).unwrap();
    assert_eq!(b.outcome, Outcome::Unresolved);
    b.push_state(1, 1, PushState::Flag).unwrap();
    assert_eq!(b.outcome, Outcome::Won);
    // the end-of-game reveal shows the two flags and opens the safe tiles
    assert_eq!(b.tiles[0].state, State::FlagRevealed);
    assert_eq!(b.tiles[3].state, State::FlagRevealed);
    assert_eq!(b.tiles[1].state, State::Uncovered);
    assert_eq!(b.tiles[2].state, State::Uncovered);
}

#[test]
fn revealing_every_safe_tile_wins() {
    // one mine at (1, 1)
    let mut b = board(
        2,
        2,
        vec![
            tile(State::Covered, false, 1),
            tile(State::Covered, false, 1),
            tile(State::Covered, false, 1),
            tile(State::Covered, true, 0),
        ],
    );
    b.push_state(0, 0, PushState::Uncover).unwrap();
    assert_eq!(b.outcome, Outcome::Unresolved);
    b.push_state(1, 0, PushState::Uncover).unwrap();
    assert_eq!(b.outcome, Outcome::Unresolved);
    b.push_state(0, 1, PushState::Uncover).unwrap();
    assert_eq!(b.outcome, Outcome::Won);
    assert_eq!(b.tiles[3].state, State::Uncovered);
}

#[test]
fn revealing_a_mine_after_the_first_move_loses_and_shows_the_board() {
    // one mine at (1, 1); a wrong flag sits at (0, 0)
    let mut b = board(
        2,
        2,
        vec![
            tile(State::Flagged, false, 1),
            tile(State::Covered, false, 1),
            tile(State::Covered, false, 1),
            tile(State::Covered, true, 0),
        ],
    );
    b.push_state(1, 1, PushState::Uncover).unwrap();
    assert_eq!(b.outcome, Outcome::Lost);
    assert_eq!(b.tiles[0].state, State::FlagRevealed);
    assert_eq!(b.tiles[1].state, State::Uncovered);
    assert_eq!(b.tiles[2].state, State::Uncovered);
    assert_eq!(b.tiles[3].state, State::Uncovered);
    assert!(b.tiles[3].mine);
}

#[test]
fn a_finished_game_ignores_every_further_command() {
    let mut b = board(
        2,
        2,
        vec![
            tile(State::Flagged, false, 1),
            tile(State::Covered, false, 1),
            tile(State::Covered, false, 1),
            tile(State::Covered, true, 0),
        ],
    );
    b.push_state(1, 1, PushState::Uncover).unwrap();
    assert_eq!(b.outcome, Outcome::Lost);
    let tiles = b.tiles.clone();
    let counters = (b.flag_total, b.flag_correct, b.mine_total);
    b.push_state(0, 0, PushState::Uncover).unwrap();
    b.push_state(0, 0, PushState::Flag).unwrap();
    b.push_state(9, 9, PushState::Uncover).unwrap();
    assert_eq!(b.outcome, Outcome::Lost);
    assert_eq!(b.tiles, tiles);
    assert_eq!((b.flag_total, b.flag_correct, b.mine_total), counters);
}

#[test]
fn out_of_range_coordinates_are_rejected() {
    let mut b = Board::new(2, 2, 1).unwrap();
    let before = b.tiles.clone();
    assert_eq!(b.push_state(2, 0, PushState::Uncover).unwrap_err(), BoardError::OutOfBounds);
    assert_eq!(b.push_state(0, 2, PushState::Flag).unwrap_err(), BoardError::OutOfBounds);
    assert_eq!(b.tiles, before);
    assert_eq!(b.outcome, Outcome::Unresolved);
}

#[test]
fn chording_opens_the_covered_neighbours_of_a_satisfied_tile() {
    // mines at (0, 0) and (2, 2); (0, 0) is correctly flagged and (1, 0)
    // is already open with a matching neighbour flag count
    let mut b = board(
        3,
        3,
        vec![
            tile(State::Flagged, true, 0),
            tile(State::Uncovered, false, 1),
            tile(State::Covered, false, 0),
            tile(State::Covered, false, 1),
            tile(State::Covered, false, 2),
            tile(State::Covered, false, 1),
            tile(State::Covered, false, 0),
            tile(State::Covered, false, 1),
            tile(State::Covered, true, 0),
        ],
    );
    b.push_state(1, 0, PushState::Uncover).unwrap();
    assert_eq!(b.outcome, Outcome::Unresolved);
    // the chord opened (2,0), (0,1), (1,1), (2,1); the rest stayed put
    assert_eq!(b.tiles[2].state, State::Uncovered);
    assert_eq!(b.tiles[3].state, State::Uncovered);
    assert_eq!(b.tiles[4].state, State::Uncovered);
    assert_eq!(b.tiles[5].state, State::Uncovered);
    assert_eq!(b.tiles[0].state, State::Flagged);
    assert_eq!(b.tiles[6].state, State::Covered);
    assert_eq!(b.tiles[7].state, State::Covered);
    assert_eq!(b.tiles[8].state, State::Covered);
}

#[test]
fn chording_with_a_mismatched_flag_count_is_a_no_op() {
    let mut b = board(
        3,
        3,
        vec![
            tile(State::Covered, true, 0),
            tile(State::Uncovered, false, 1),
            tile(State::Covered, false, 0),
            tile(State::Covered, false, 1),
            tile(State::Covered, false, 2),
            tile(State::Covered, false, 1),
            tile(State::Covered, false, 0),
            tile(State::Covered, false, 1),
            tile(State::Covered, true, 0),
        ],
    );
    let before = b.tiles.clone();
    b.push_state(1, 0, PushState::Uncover).unwrap();
    assert_eq!(b.tiles, before);
    assert_eq!(b.outcome, Outcome::Unresolved);
}
