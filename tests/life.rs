use game_of_life::driver::{decide, Action, Event, GameOfLife, RunState, RESET_KEY};
use game_of_life::grid::Grid;
use game_of_life::rule::{occurrences, survives};

fn grid_with(cols: usize, rows: usize, live: &[(usize, usize)]) -> Grid {
    let mut g = Grid::new(cols, rows);
    for &(c, r) in live {
        g.set_alive(c, r, true);
    }
    g
}

fn live_cells(g: &Grid) -> Vec<(usize, usize)> {
    let mut out = Vec::new();
    for r in 0..g.rows() {
        for c in 0..g.cols() {
            if g.is_alive(c, r) {
                out.push((c, r));
            }
        }
    }
    out
}

fn snapshot(g: &Grid) -> Vec<bool> {
    let mut out = Vec::new();
    for r in 0..g.rows() {
        for c in 0..g.cols() {
            out.push(g.is_alive(c, r));
        }
    }
    out
}

#[test]
fn occurrences_counts_matches() {
    assert_eq!(occurrences(vec![true, false, true, true], true), 3);
    assert_eq!(occurrences(vec![true, false, true, true], false), 1);
    assert_eq!(occurrences(Vec::<bool>::new(), true), 0);
    assert_eq!(occurrences(vec![1, 2, 1, 3, 1], 1), 3);
    assert_eq!(occurrences(vec!['a', 'b'], 'c'), 0);
}

#[test]
fn survival_rule_values() {
    assert!(!survives(true, vec![true]));
    assert!(survives(true, vec![true, true, false]));
    assert!(survives(true, vec![true, true, true]));
    assert!(!survives(true, vec![true, true, true, true]));
    assert!(!survives(false, vec![true, true, false]));
    assert!(survives(false, vec![true, false, true, true, false]));
    assert!(!survives(false, Vec::new()));
}

#[test]
fn new_grid_is_dead() {
    let g = Grid::new(3, 2);
    assert_eq!(g.cols(), 3);
    assert_eq!(g.rows(), 2);
    assert!(live_cells(&g).is_empty());
}

#[test]
fn neighbor_counts_on_square() {
    let g = Grid::new(4, 3);
    for &(c, r) in &[(0, 0), (3, 0), (0, 2), (3, 2)] {
        assert_eq!(g.neighbors(c, r).len(), 3);
    }
    for &(c, r) in &[(1, 0), (2, 0), (0, 1), (3, 1), (1, 2), (2, 2)] {
        assert_eq!(g.neighbors(c, r).len(), 5);
    }
    assert_eq!(g.neighbors(1, 1).len(), 8);
    assert_eq!(g.neighbors(2, 1).len(), 8);
}

#[test]
fn neighbor_counts_without_wrap() {
    assert_eq!(Grid::new(1, 1).neighbors(0, 0).len(), 0);
    let column = Grid::new(1, 5);
    assert_eq!(column.neighbors(0, 0).len(), 1);
    assert_eq!(column.neighbors(0, 4).len(), 1);
    assert_eq!(column.neighbors(0, 2).len(), 2);
    let line = Grid::new(4, 1);
    assert_eq!(line.neighbors(0, 0).len(), 1);
    assert_eq!(line.neighbors(3, 0).len(), 1);
    assert_eq!(line.neighbors(1, 0).len(), 2);
}

#[test]
fn neighbors_follow_column_then_row_order() {
    let g = grid_with(3, 3, &[(0, 1), (2, 2)]);
    assert_eq!(g.neighbors(1, 1), vec![false, true, false, false, false, false, false, true]);
    let corner = grid_with(3, 3, &[(2, 2)]);
    assert_eq!(corner.neighbors(0, 0), vec![false, false, false]);
    assert_eq!(corner.neighbors(2, 1), vec![false, false, false, false, true]);
}

#[test]
fn opposite_edges_are_not_neighbors() {
    let g = grid_with(5, 5, &[(4, 2), (2, 4)]);
    assert_eq!(occurrences(g.neighbors(0, 2), true), 0);
    assert_eq!(occurrences(g.neighbors(2, 0), true), 0);
    assert_eq!(occurrences(g.neighbors(0, 0), true), 0);
}

#[test]
fn isolated_cell_dies() {
    let mut g = grid_with(5, 5, &[(2, 2)]);
    g.step();
    assert!(live_cells(&g).is_empty());
}

#[test]
fn l_shape_becomes_block() {
    let mut g = grid_with(6, 6, &[(2, 2), (3, 2), (2, 3)]);
    g.step();
    assert_eq!(live_cells(&g), vec![(2, 2), (3, 2), (2, 3), (3, 3)]);
}

#[test]
fn blinker_oscillates() {
    let mut g = grid_with(5, 5, &[(1, 2), (2, 2), (3, 2)]);
    g.step();
    assert_eq!(live_cells(&g), vec![(2, 1), (2, 2), (2, 3)]);
    g.step();
    assert_eq!(live_cells(&g), vec![(1, 2), (2, 2), (3, 2)]);
}

#[test]
fn block_is_still_life() {
    let block = vec![(1, 1), (2, 1), (1, 2), (2, 2)];
    let mut g = grid_with(4, 4, &block);
    g.step();
    assert_eq!(live_cells(&g), block);
    let far = vec![(3, 2), (4, 2), (3, 3), (4, 3)];
    let mut h = grid_with(8, 7, &far);
    h.step();
    h.step();
    assert_eq!(live_cells(&h), far);
}

#[test]
fn edge_clamping_changes_outcome() {
    // On a torus these three cells would give (0, 0) three live neighbors.
    let mut g = grid_with(4, 4, &[(3, 0), (0, 3), (3, 3)]);
    g.step();
    assert!(!g.is_alive(0, 0));
}

#[test]
fn fill_reads_only_the_previous_generation() {
    let mut g = grid_with(4, 4, &[(0, 0)]);
    g.fill(|_alive: bool, n: Vec<bool>| n.iter().any(|b| *b));
    assert_eq!(live_cells(&g), vec![(1, 0), (0, 1), (1, 1)]);
}

#[test]
fn fill_sees_upper_left_before_update() {
    let mut g = grid_with(4, 4, &[(0, 0), (1, 1)]);
    // The first neighbor of an interior cell is its upper-left diagonal,
    // which a scan in row order would already have overwritten.
    g.fill(|_alive: bool, n: Vec<bool>| n.len() == 8 && n[0]);
    assert_eq!(live_cells(&g), vec![(1, 1), (2, 2)]);
}

#[test]
fn fill_passes_current_state() {
    let mut g = grid_with(3, 2, &[(0, 0), (2, 1)]);
    g.fill(|alive: bool, _n: Vec<bool>| !alive);
    assert_eq!(live_cells(&g), vec![(1, 0), (2, 0), (0, 1), (1, 1)]);
}

#[test]
fn randomize_keeps_size_and_mixes_states() {
    let mut g = Grid::new(30, 20);
    g.randomize();
    assert_eq!(g.cols(), 30);
    assert_eq!(g.rows(), 20);
    let live = live_cells(&g).len();
    assert!(live > 0 && live < 600);
}

#[test]
fn decide_each_event() {
    assert_eq!(decide(RunState::Running, Event::Timeout), (RunState::Running, Action::Advance));
    assert_eq!(decide(RunState::Running, Event::Key(RESET_KEY)), (RunState::Running, Action::Reset));
    assert_eq!(decide(RunState::Running, Event::Key('q')), (RunState::Stopped, Action::Quit));
    assert_eq!(decide(RunState::Running, Event::Failure), (RunState::Stopped, Action::Fail));
    assert_eq!(decide(RunState::Stopped, Event::Timeout), (RunState::Stopped, Action::Quit));
    assert_eq!(decide(RunState::Stopped, Event::Key(' ')), (RunState::Stopped, Action::Quit));
}

#[test]
fn timeout_advances_one_generation() {
    let mut game = GameOfLife::new(12, 9);
    let mut expected = Grid::new(12, 9);
    for r in 0..9 {
        for c in 0..12 {
            expected.set_alive(c, r, game.grid().is_alive(c, r));
        }
    }
    expected.step();
    assert_eq!(game.tick(Event::Timeout), Action::Advance);
    assert!(game.is_running());
    assert_eq!(snapshot(game.grid()), snapshot(&expected));
}

#[test]
fn reset_rerandomizes_without_stepping() {
    let mut changed = false;
    for _ in 0..10 {
        let mut game = GameOfLife::new(20, 20);
        let before = snapshot(game.grid());
        assert_eq!(game.tick(Event::Key(RESET_KEY)), Action::Reset);
        assert!(game.is_running());
        assert_eq!(game.grid().cols(), 20);
        assert_eq!(game.grid().rows(), 20);
        if snapshot(game.grid()) != before {
            changed = true;
        }
    }
    assert!(changed);
}

#[test]
fn other_key_stops_for_good() {
    let mut game = GameOfLife::new(10, 10);
    let before = snapshot(game.grid());
    assert_eq!(game.tick(Event::Key('x')), Action::Quit);
    assert!(!game.is_running());
    assert_eq!(game.tick(Event::Timeout), Action::Quit);
    assert_eq!(game.tick(Event::Key(RESET_KEY)), Action::Quit);
    assert_eq!(snapshot(game.grid()), before);
}

#[test]
fn failure_stops_with_error() {
    let mut game = GameOfLife::new(10, 10);
    let before = snapshot(game.grid());
    assert_eq!(game.tick(Event::Failure), Action::Fail);
    assert!(!game.is_running());
    assert_eq!(game.tick(Event::Timeout), Action::Quit);
    assert_eq!(snapshot(game.grid()), before);
}
