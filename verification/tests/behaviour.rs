use everybody_codes::solutions::day10;
use everybody_codes::solutions::day10::{Day10Solver, Grid, Point};
use everybody_codes::solutions::solution::{Input, Solver};

const GRID_SIMPLE: &str = "...SSS.......\n.S......S.SS.\n..S....S...S.\n..........SS.\n..SSSS...S...\n.....SS..S..S\nSS....D.S....\nS.S..S..S....\n....S.......S\n.SSS..SS.....\n.........S...\n.......S....S\nSS.....S..S..";

#[test]
fn round_zero_counts_only_the_start() {
    // The agent's own cell carries the agent marker, never a target, so
    // a zero-round run consumes nothing.
    assert_eq!(day10::part1(GRID_SIMPLE, 0), Some(0));
    assert_eq!(day10::part2(GRID_SIMPLE, 0), Some(0));
}

#[test]
fn windowed_rule_on_the_unguarded_grid() {
    // Without any safe cell every frontier cell contributes its trailing
    // candidates; three rounds over this grid consume 34 targets.
    assert_eq!(day10::part2(GRID_SIMPLE, 3), Some(34));
}

#[test]
fn captured_counts_grow_with_rounds() {
    let mut last_simple = 0u64;
    let mut last_windowed = 0u64;
    for rounds in 0..=4u32 {
        let a = day10::part1(GRID_SIMPLE, rounds).unwrap();
        let b = day10::part2(GRID_SIMPLE, rounds).unwrap();
        assert!(a >= last_simple);
        assert!(b >= last_windowed);
        last_simple = a;
        last_windowed = b;
    }
}

#[test]
fn neighbors_stay_on_the_grid() {
    let grid = Grid::parse(GRID_SIMPLE).unwrap();
    let limits = grid.limits();
    for row in 0..13usize {
        for col in 0..13usize {
            let moves = grid.next_moves(&Point { row, col });
            assert!(moves.len() <= 8);
            for q in &moves {
                assert!(q.row <= limits.row && q.col <= limits.col);
            }
        }
    }
}

#[test]
fn corner_cell_has_two_moves() {
    let grid = Grid::parse(GRID_SIMPLE).unwrap();
    let moves = grid.next_moves(&Point { row: 0, col: 0 });
    assert_eq!(moves.len(), 2);
}

#[test]
fn safe_frontier_cell_contributes_nothing() {
    // A target at the corner is only reachable through the frontier cell
    // below it; marking that cell safe silences its candidates.
    let open = "S....\n.....\n..D..\n.....\n.....";
    let guarded = "S....\n#....\n..D..\n.....\n.....";
    assert_eq!(day10::part2(open, 1), Some(1));
    assert_eq!(day10::part2(guarded, 1), Some(0));
}

#[test]
fn trailing_candidate_never_wraps_past_the_top() {
    // The frontier cell on the top row is itself a target: its second
    // candidate points back at it, while the first would leave the grid
    // and must simply be dropped.
    let grid = ".S...\n.....\n..D..\n.....\n.....";
    assert_eq!(day10::part2(grid, 1), Some(1));
}

#[test]
fn identical_runs_give_identical_answers() {
    let make = || Input {
        part1: GRID_SIMPLE.into(),
        part2: GRID_SIMPLE.into(),
        part3: "".into(),
    };
    let solver = || Day10Solver { simple_rounds: 3, windowed_rounds: 3 };
    let first = solver().solve(make()).unwrap();
    let second = solver().solve(make()).unwrap();
    assert_eq!(first.part1, second.part1);
    assert_eq!(first.part2, second.part2);
    assert_eq!(first.part3, second.part3);
}

#[test]
fn unknown_marker_is_rejected() {
    assert_eq!(day10::part1("..X..\n..D..", 1), None);
    assert!(Grid::parse("..X..\n..D..").is_none());
}

#[test]
fn missing_agent_is_rejected() {
    assert_eq!(day10::part1(".....\n..S..", 1), None);
    assert!(Grid::parse(".....\n..S..").is_none());
}

#[test]
fn grid_membership_answers_match_the_markers() {
    let grid = Grid::parse("S#.\n.D.").unwrap();
    assert!(grid.has_sheep(&Point { row: 0, col: 0 }));
    assert!(!grid.has_sheep(&Point { row: 0, col: 1 }));
    assert!(grid.has_safe_space(&Point { row: 0, col: 1 }));
    assert!(!grid.has_safe_space(&Point { row: 1, col: 1 }));
    assert!(grid.can_eat_sheep(&Point { row: 0, col: 0 }));
    assert!(!grid.can_eat_sheep(&Point { row: 0, col: 1 }));
    let s = grid.start();
    assert_eq!((s.row, s.col), (1, 1));
}
