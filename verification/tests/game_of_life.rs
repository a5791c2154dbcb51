use conway::board::{fmt_usize, Board};
use conway::game::{parse_setup_input, Game, SetupInput};
use conway::point::Point;

fn board_from(cells: Vec<Vec<bool>>) -> Board {
    Board::from(cells)
}

fn grids_equal(b: &Board, expected: &Vec<Vec<bool>>) -> bool {
    b.positions == *expected
}

#[test]
fn dead_grid_stays_dead() {
    let mut b = board_from(vec![vec![false; 4]; 4]);
    b.tick();
    assert!(grids_equal(&b, &vec![vec![false; 4]; 4]));
}

#[test]
fn isolated_cell_dies() {
    let mut cells = vec![vec![false; 3]; 3];
    cells[1][1] = true;
    let mut b = board_from(cells);
    b.tick();
    assert!(grids_equal(&b, &vec![vec![false; 3]; 3]));
}

#[test]
fn blinker_oscillates() {
    let mut cells = vec![vec![false; 3]; 3];
    cells[1][0] = true;
    cells[1][1] = true;
    cells[1][2] = true;
    let horizontal = cells.clone();
    let mut b = board_from(cells);

    b.tick();
    let mut vertical = vec![vec![false; 3]; 3];
    vertical[0][1] = true;
    vertical[1][1] = true;
    vertical[2][1] = true;
    assert!(grids_equal(&b, &vertical));

    b.tick();
    assert!(grids_equal(&b, &horizontal));
}

#[test]
fn block_is_still_life() {
    let mut cells = vec![vec![false; 4]; 4];
    cells[1][1] = true;
    cells[1][2] = true;
    cells[2][1] = true;
    cells[2][2] = true;
    let block = cells.clone();
    let mut b = board_from(cells);
    for _ in 0..5 {
        b.tick();
        assert!(grids_equal(&b, &block));
    }
}

#[test]
fn single_row_without_triple_dies() {
    let mut b = board_from(vec![vec![true, true, false, true]]);
    b.tick();
    assert!(grids_equal(&b, &vec![vec![false; 4]]));
}

#[test]
fn single_row_triple_keeps_middle() {
    // Three adjacent live cells in one row: the middle one has exactly 2
    // live neighbours and survives, the ends have 1 and die.
    let mut b = board_from(vec![vec![true, true, true]]);
    b.tick();
    assert!(grids_equal(&b, &vec![vec![false, true, false]]));
}

#[test]
fn single_column_without_triple_dies() {
    let mut b = board_from(vec![vec![true], vec![true], vec![false], vec![true]]);
    b.tick();
    assert!(grids_equal(
        &b,
        &vec![vec![false], vec![false], vec![false], vec![false]]
    ));
}

#[test]
fn corner_neighbour_count_is_truncated() {
    // All 9 cells live: the corner (0,0) has only 3 physical neighbours.
    let b = board_from(vec![vec![true; 3]; 3]);
    assert_eq!(b.sum_neighbours(0, 0), 3);
    assert_eq!(b.sum_neighbours(0, 1), 5);
    assert_eq!(b.sum_neighbours(1, 1), 8);
    assert_eq!(b.sum_neighbours(2, 2), 3);
}

#[test]
fn get_value_out_of_range_is_dead() {
    let b = board_from(vec![vec![true; 2]; 2]);
    assert_eq!(b.get_value(0, 0), 1);
    assert_eq!(b.get_value(2, 0), 0);
    assert_eq!(b.get_value(0, 2), 0);
    assert_eq!(b.get_value(100, 100), 0);
}

#[test]
fn flips_state_follows_rule() {
    let mut cells = vec![vec![false; 3]; 3];
    cells[1][0] = true;
    cells[1][1] = true;
    cells[1][2] = true;
    let b = board_from(cells);
    assert!(b.flips_state(1, 0)); // live, 1 neighbour: dies
    assert!(!b.flips_state(1, 1)); // live, 2 neighbours: survives
    assert!(b.flips_state(0, 1)); // dead, 3 neighbours: born
    assert!(!b.flips_state(0, 0)); // dead, 2 neighbours: stays dead
}

#[test]
fn tick_increments_counter() {
    let mut b = board_from(vec![vec![false; 2]; 2]);
    assert_eq!(b.iter, 0);
    b.tick();
    b.tick();
    assert_eq!(b.iter, 2);
}

#[test]
fn change_value_toggles_in_range() {
    let mut g = Game::new(100, 3);
    g.change_value(1, 2);
    assert!(g.board.positions[1][2]);
    g.change_value(1, 2);
    assert!(!g.board.positions[1][2]);
}

#[test]
fn change_value_out_of_range_is_noop() {
    let mut g = Game::new(100, 3);
    g.change_value(0, 0);
    let before = g.board.positions.clone();
    g.change_value(3, 0);
    g.change_value(0, 3);
    g.change_value(usize::MAX, usize::MAX);
    assert_eq!(g.board.positions, before);
    assert_eq!(g.board.iter, 0);
    assert_eq!(g.sleep_time, 100);
}

#[test]
fn random_setup_keeps_shape_and_is_roughly_fair() {
    let mut g = Game::new(1, 100);
    g.random_setup();
    assert_eq!(g.board.positions.len(), 100);
    let mut live: usize = 0;
    for row in &g.board.positions {
        assert_eq!(row.len(), 100);
        for &cell in row {
            if cell {
                live += 1;
            }
        }
    }
    // 10000 fair coin flips: the live count is within 1000 of 5000 except
    // with vanishing probability.
    assert!(live > 4000 && live < 6000, "live cells: {}", live);
}

#[test]
fn game_new_builds_dead_square_grid() {
    let g = Game::new(250, 5);
    assert_eq!(g.sleep_time, 250);
    assert_eq!(g.board.positions.len(), 5);
    for row in &g.board.positions {
        assert_eq!(row.len(), 5);
        assert!(row.iter().all(|&c| !c));
    }
    assert_eq!(g.board.iter, 0);
}

#[test]
fn render_shape_and_glyphs() {
    let b = board_from(vec![vec![true, false, true], vec![false, true, false]]);
    let s = b.render();
    assert_eq!(s, " X  -  X \n -  X  - ");
    let lines: Vec<&str> = s.split('\n').collect();
    assert_eq!(lines.len(), 2);
    for line in lines {
        assert_eq!(line.len(), 3 * 3);
    }
}

#[test]
fn render_single_row() {
    let b = board_from(vec![vec![false, true]]);
    assert_eq!(b.render(), " -  X ");
}

#[test]
fn render_with_idx_prefixes_indices() {
    let b = board_from(vec![vec![true, false], vec![false, true]]);
    let s = b.render_with_idx();
    assert_eq!(s, "    0  1 \n 0  X  - \n 1  -  X ");
}

#[test]
fn render_with_idx_two_digit_indices() {
    let b = board_from(vec![vec![false; 11]; 1]);
    let s = b.render_with_idx();
    let header: &str = s.split('\n').next().unwrap();
    assert!(header.ends_with(" 10 "));
    assert_eq!(header, "    0  1  2  3  4  5  6  7  8  9  10 ");
}

#[test]
fn fmt_usize_decimal() {
    assert_eq!(fmt_usize(0), "0");
    assert_eq!(fmt_usize(7), "7");
    assert_eq!(fmt_usize(10), "10");
    assert_eq!(fmt_usize(12345), "12345");
    assert_eq!(fmt_usize(usize::MAX), usize::MAX.to_string());
}

#[test]
fn parse_setup_input_commands() {
    assert_eq!(parse_setup_input("c"), SetupInput::Continue);
    assert_eq!(parse_setup_input("r"), SetupInput::Randomize);
}

#[test]
fn parse_setup_input_numbers() {
    assert_eq!(parse_setup_input("0"), SetupInput::Index(0));
    assert_eq!(parse_setup_input("5"), SetupInput::Index(5));
    assert_eq!(parse_setup_input("123"), SetupInput::Index(123));
    assert_eq!(parse_setup_input("007"), SetupInput::Index(7));
}

#[test]
fn parse_setup_input_rejects_garbage() {
    assert_eq!(parse_setup_input(""), SetupInput::Invalid);
    assert_eq!(parse_setup_input("abc"), SetupInput::Invalid);
    assert_eq!(parse_setup_input("12a"), SetupInput::Invalid);
    assert_eq!(parse_setup_input("-3"), SetupInput::Invalid);
    assert_eq!(parse_setup_input("x"), SetupInput::Invalid);
    assert_eq!(
        parse_setup_input("99999999999999999999999999"),
        SetupInput::Invalid
    );
}

#[test]
fn board_from_keeps_cells() {
    let cells = vec![vec![true, false], vec![false, true]];
    let b = Board::from(cells.clone());
    assert!(grids_equal(&b, &cells));
    assert_eq!(b.iter, 0);
}

#[test]
fn point_new_keeps_coordinates() {
    let p = Point::new(3, 7);
    assert_eq!(p.x, 3);
    assert_eq!(p.y, 7);
}
