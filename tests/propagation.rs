use sudoku::board::{get_solved_cells, Board, InvalidSeed, Seed};
use sudoku::cell::{remove_if_contains, Cell};
use sudoku::engine::{collapse_all, reduce_unit, run, Engine, EngineState};
use sudoku::grid::{compute_neighbours, create_lines, create_squares};

/// A valid solved grid.
fn solution(r: usize, c: usize) -> u8 {
    ((r * 3 + r / 3 + c) % 9 + 1) as u8
}

fn full_seeds_except(skip: (usize, usize)) -> Vec<Seed> {
    let mut seeds = Vec::new();
    for r in 0..9 {
        for c in 0..9 {
            if (r, c) != skip {
                seeds.push((r, c, solution(r, c)));
            }
        }
    }
    seeds
}

fn describe(board: &Board) -> Vec<(Option<u8>, Vec<u8>)> {
    board
        .cells
        .iter()
        .map(|c| match c {
            Cell::Determined(v) => (Some(*v), Vec::new()),
            Cell::Undetermined(vs) => {
                let mut vs = vs.clone();
                vs.sort();
                (None, vs)
            }
        })
        .collect()
}

fn candidates(board: &Board, r: usize, c: usize) -> Vec<u8> {
    match board.cell(r, c) {
        Cell::Undetermined(vs) => {
            let mut vs = vs.clone();
            vs.sort();
            vs
        }
        Cell::Determined(v) => panic!("cell is determined to {v}"),
    }
}

fn sample_seeds() -> Vec<Seed> {
    let rows = [
        "13.4.8..9",
        "..521.7.4",
        ".94...21.",
        "9......23",
        ".8..4..9.",
        "32......5",
        ".53...97.",
        "4.9.625..",
        "6..5.7.42",
    ];
    let mut seeds = Vec::new();
    for (r, line) in rows.iter().enumerate() {
        for (c, ch) in line.chars().enumerate() {
            if let Ok(Cell::Determined(v)) = Cell::from_char(ch) {
                seeds.push((r, c, v));
            }
        }
    }
    seeds
}

#[test]
fn neighbours_number_twenty_and_are_symmetric() {
    let index = compute_neighbours();
    assert_eq!(index.table.len(), 81);
    for i in 0..81 {
        let peers = index.neighbours_of(i);
        assert_eq!(peers.len(), 20);
        assert!(!peers.contains(&i));
        let mut sorted = peers.clone();
        sorted.sort();
        sorted.dedup();
        assert_eq!(sorted.len(), 20);
        for &j in peers {
            assert!(index.neighbours_of(j).contains(&i));
        }
    }
    let mut first = index.neighbours_of(0).clone();
    first.sort();
    assert_eq!(
        first,
        vec![1, 2, 3, 4, 5, 6, 7, 8, 9, 10, 11, 18, 19, 20, 27, 36, 45, 54, 63, 72]
    );
}

#[test]
fn units_list_rows_columns_and_boxes() {
    let (rows, cols) = create_lines();
    let squares = create_squares();
    assert_eq!(rows[2].cells, vec![18, 19, 20, 21, 22, 23, 24, 25, 26]);
    assert_eq!(cols[3].cells, vec![3, 12, 21, 30, 39, 48, 57, 66, 75]);
    assert_eq!(squares[4].cells, vec![30, 31, 32, 39, 40, 41, 48, 49, 50]);
    assert_eq!(squares[8].cells, vec![60, 61, 62, 69, 70, 71, 78, 79, 80]);
}

#[test]
fn same_row_duplicate_is_a_contradiction() {
    let engine = Engine::new();
    let mut board = Board::new(&vec![(0, 0, 5), (0, 4, 5)]).unwrap();
    assert_eq!(engine.pass(&mut board), EngineState::Contradiction);
    let board = Board::new(&vec![(0, 0, 5), (0, 4, 5)]).unwrap();
    let (_, state) = run(board);
    assert_eq!(state, EngineState::Contradiction);
}

#[test]
fn same_box_duplicate_is_a_contradiction() {
    let board = Board::new(&vec![(0, 0, 7), (2, 2, 7)]).unwrap();
    let (_, state) = run(board);
    assert_eq!(state, EngineState::Contradiction);
}

#[test]
fn row_reduction_then_column_and_box() {
    let engine = Engine::new();
    let mut board = Board::new(&vec![(0, 0, 5), (0, 1, 3), (1, 2, 6)]).unwrap();
    assert!(engine.rows[0].solve(&mut board));
    assert_eq!(candidates(&board, 0, 2), vec![1, 2, 4, 6, 7, 8, 9]);
    assert!(engine.cols[2].solve(&mut board));
    assert_eq!(candidates(&board, 0, 2), vec![1, 2, 4, 7, 8, 9]);
    assert!(engine.squares[0].solve(&mut board));
    assert_eq!(candidates(&board, 0, 2), vec![1, 2, 4, 7, 8, 9]);
    assert_eq!(candidates(&board, 1, 0), vec![1, 2, 4, 7, 8, 9]);
}

#[test]
fn row_reduction_scenario_after_full_pass() {
    let engine = Engine::new();
    let mut board = Board::new(&vec![(0, 0, 5), (0, 1, 3), (1, 2, 6)]).unwrap();
    assert_eq!(engine.pass(&mut board), EngineState::Stalled);
    assert_eq!(candidates(&board, 0, 2), vec![1, 2, 4, 7, 8, 9]);
    assert_eq!(candidates(&board, 8, 2), vec![1, 2, 3, 4, 5, 7, 8, 9]);
    assert_eq!(candidates(&board, 4, 4), vec![1, 2, 3, 4, 5, 6, 7, 8, 9]);
}

#[test]
fn one_blank_is_solved_in_one_pass() {
    let engine = Engine::new();
    let mut board = Board::new(&full_seeds_except((4, 4))).unwrap();
    assert_eq!(get_solved_cells(&board), 80);
    assert_eq!(engine.pass(&mut board), EngineState::Solved);
    assert_eq!(get_solved_cells(&board), 81);
    assert_eq!(board.cell(4, 4).value(), Some(solution(4, 4)));
}

#[test]
fn solved_board_has_every_digit_once_per_unit() {
    let board = Board::new(&full_seeds_except((7, 3))).unwrap();
    let (board, state) = run(board);
    assert_eq!(state, EngineState::Solved);
    let engine = Engine::new();
    for t in 0..9 {
        assert!(engine.rows[t].is_done(&board));
        assert!(engine.cols[t].is_done(&board));
        assert!(engine.squares[t].is_done(&board));
    }
    let grid = board.snapshot();
    for r in 0..9 {
        let mut row: Vec<u8> = grid[r].iter().map(|v| v.unwrap()).collect();
        row.sort();
        assert_eq!(row, vec![1, 2, 3, 4, 5, 6, 7, 8, 9]);
    }
}

#[test]
fn blank_board_stalls() {
    let board = Board::new(&Vec::new()).unwrap();
    let (board, state) = run(board);
    assert_eq!(state, EngineState::Stalled);
    assert_eq!(get_solved_cells(&board), 0);
    let grid = board.snapshot();
    assert!(grid.iter().all(|row| row.iter().all(|v| v.is_none())));
}

#[test]
fn another_pass_after_stall_changes_nothing() {
    let engine = Engine::new();
    let board = Board::new(&vec![(0, 0, 5), (0, 1, 3), (1, 2, 6), (5, 5, 1)]).unwrap();
    let (mut board, state) = engine.run(board);
    assert_eq!(state, EngineState::Stalled);
    let before = describe(&board);
    assert_eq!(engine.pass(&mut board), EngineState::Stalled);
    assert_eq!(describe(&board), before);
}

#[test]
fn another_pass_after_solve_changes_nothing() {
    let engine = Engine::new();
    let board = Board::new(&full_seeds_except((0, 8))).unwrap();
    let (mut board, state) = engine.run(board);
    assert_eq!(state, EngineState::Solved);
    let before = describe(&board);
    assert_eq!(engine.pass(&mut board), EngineState::Solved);
    assert_eq!(describe(&board), before);
}

#[test]
fn candidates_only_shrink_across_passes() {
    let engine = Engine::new();
    let mut board = Board::new(&sample_seeds()).unwrap();
    loop {
        let before = describe(&board);
        let state = engine.pass(&mut board);
        let after = describe(&board);
        for (b, a) in before.iter().zip(after.iter()) {
            match (b, a) {
                ((Some(x), _), (Some(y), _)) => assert_eq!(x, y),
                ((Some(_), _), (None, _)) => panic!("a determined cell reopened"),
                ((None, bs), (Some(y), _)) => assert!(bs.contains(y)),
                ((None, bs), (None, as_)) => {
                    assert!(as_.len() <= bs.len());
                    assert!(as_.iter().all(|v| bs.contains(v)));
                }
            }
        }
        if state != EngineState::Running {
            break;
        }
    }
}

#[test]
fn sample_puzzle_ends_in_a_terminal_state() {
    let board = Board::new(&sample_seeds()).unwrap();
    let start = get_solved_cells(&board);
    assert_eq!(start, 37);
    let (board, state) = run(board);
    assert_ne!(state, EngineState::Running);
    assert!(get_solved_cells(&board) >= start);
}

#[test]
fn seeds_out_of_range_are_rejected() {
    assert_eq!(Board::new(&vec![(9, 0, 1)]).err(), Some(InvalidSeed));
    assert_eq!(Board::new(&vec![(0, 9, 1)]).err(), Some(InvalidSeed));
    assert_eq!(Board::new(&vec![(0, 0, 0)]).err(), Some(InvalidSeed));
    assert_eq!(Board::new(&vec![(1, 1, 4), (3, 3, 10)]).err(), Some(InvalidSeed));
}

#[test]
fn later_seed_for_a_square_wins() {
    let board = Board::new(&vec![(2, 3, 4), (2, 3, 8)]).unwrap();
    assert_eq!(board.cell(2, 3).value(), Some(8));
    assert_eq!(get_solved_cells(&board), 1);
    assert_eq!(candidates(&board, 0, 0), vec![1, 2, 3, 4, 5, 6, 7, 8, 9]);
}

#[test]
fn collapse_commits_a_single_candidate() {
    let mut cell = Cell::Undetermined(vec![7]);
    assert!(cell.collapse());
    assert_eq!(cell.value(), Some(7));
    assert!(!cell.collapse());
    let mut open = Cell::Undetermined(vec![2, 5]);
    assert!(!open.collapse());
    assert_eq!(open.single_value(), None);
    let mut blank = Cell::blank();
    assert!(!blank.collapse());
}

#[test]
fn remove_if_contains_takes_out_a_determined_value() {
    let mut values = vec![1, 2, 3, 4];
    assert!(remove_if_contains(&mut values, &Cell::Determined(3)));
    assert_eq!(values, vec![1, 2, 4]);
    assert!(!remove_if_contains(&mut values, &Cell::Determined(3)));
    assert_eq!(values, vec![1, 2, 4]);
    assert!(!remove_if_contains(&mut values, &Cell::Undetermined(vec![1])));
    assert_eq!(values, vec![1, 2, 4]);
}

#[test]
fn cells_read_from_characters() {
    assert_eq!(Cell::from_char('7').ok().and_then(|c| c.value()), Some(7));
    assert_eq!(Cell::from_char('1').ok().and_then(|c| c.value()), Some(1));
    assert_eq!(Cell::from_char('0').err(), Some('0'));
    assert_eq!(Cell::from_char('x').err(), Some('x'));
}

#[test]
fn collapse_sweep_reports_twin_singles() {
    let index = compute_neighbours();
    let mut board = Board::new(&Vec::new()).unwrap();
    board.cells[0] = Cell::Undetermined(vec![4]);
    board.cells[5] = Cell::Undetermined(vec![4]);
    assert_eq!(collapse_all(&mut board, &index), None);
}

#[test]
fn collapse_sweep_counts_commits() {
    let index = compute_neighbours();
    let mut board = Board::new(&Vec::new()).unwrap();
    board.cells[0] = Cell::Undetermined(vec![4]);
    board.cells[80] = Cell::Undetermined(vec![4]);
    assert_eq!(collapse_all(&mut board, &index), Some(2));
    assert_eq!(board.cell(0, 0).value(), Some(4));
    assert_eq!(board.cell(8, 8).value(), Some(4));
}

#[test]
fn reducing_a_unit_to_an_empty_cell_fails() {
    let (rows, _) = create_lines();
    let mut board = Board::new(&vec![(0, 0, 1), (0, 1, 2)]).unwrap();
    board.cells[2] = Cell::Undetermined(vec![1, 2]);
    assert!(!reduce_unit(&mut board, &rows[0].cells));
    assert_eq!(candidates(&board, 0, 2), Vec::<u8>::new());
}

#[test]
fn run_on_three_seeds_stalls_with_reduced_candidates() {
    let board = Board::new(&vec![(0, 0, 5), (0, 1, 3), (1, 2, 6)]).unwrap();
    let (board, state) = run(board);
    assert_eq!(state, EngineState::Stalled);
    assert_eq!(candidates(&board, 0, 2), vec![1, 2, 4, 7, 8, 9]);
    assert_eq!(board.cell(0, 0).value(), Some(5));
    assert_eq!(get_solved_cells(&board), 3);
}

#[test]
fn run_on_blank_board_returns_it_unchanged() {
    let board = Board::new(&Vec::new()).unwrap();
    let before = describe(&board);
    let (board, state) = run(board);
    assert_eq!(state, EngineState::Stalled);
    assert_eq!(describe(&board), before);
}

#[test]
fn run_again_on_solved_board_gives_same_board_and_state() {
    let board = Board::new(&full_seeds_except((4, 4))).unwrap();
    let (board, state) = run(board);
    assert_eq!(state, EngineState::Solved);
    assert_eq!(board.cell(4, 4).value(), Some(9));
    let before = describe(&board);
    let (board, again) = run(board);
    assert_eq!(again, EngineState::Solved);
    assert_eq!(describe(&board), before);
}
