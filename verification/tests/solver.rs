use nono_solver::get_possible_gaps;
use nono_solver::solve_vector;
use nono_solver::Cell;
use nono_solver::Nonogram;
use nono_solver::SolveError;

fn contains(tuples: &Vec<Vec<usize>>, wanted: &[usize]) -> bool {
    tuples.iter().any(|t| t.as_slice() == wanted)
}

#[test]
fn gap_partitions_for_two_hints_on_five_cells() {
    // hints [2, 1] on a line of length 5 leave 5 - 3 = 2 free cells over
    // 3 gaps, the middle one at least 1: exactly 3 distinct tuples.
    let tuples = get_possible_gaps(2, 3);
    assert_eq!(tuples.len(), 3);
    assert!(contains(&tuples, &[0, 1, 1]));
    assert!(contains(&tuples, &[0, 2, 0]));
    assert!(contains(&tuples, &[1, 1, 0]));
}

#[test]
fn gap_partition_for_no_hints() {
    // no hints on a line of length 4: the whole line is one gap.
    let tuples = get_possible_gaps(4, 1);
    assert_eq!(tuples, vec![vec![4usize]]);
}

#[test]
fn gap_partitions_when_packed() {
    // hints [2, 1] on a line of length 4: no free space at all.
    let tuples = get_possible_gaps(0, 3);
    assert_eq!(tuples.len(), 0);
    // hints [2, 2] on a line of length 5: runs packed with one separator.
    let tuples = get_possible_gaps(1, 3);
    assert_eq!(tuples, vec![vec![0usize, 1, 0]]);
}

#[test]
fn line_solver_centre_cell_forced() {
    // A run of 3 on a blank line of 5 overlaps itself in the centre.
    let hints: Vec<u8> = vec![3];
    let cells = vec![Cell::Unknown; 5];
    let out = solve_vector(&hints, &cells).unwrap();
    assert_eq!(
        out,
        vec![
            Cell::Unknown,
            Cell::Unknown,
            Cell::Block,
            Cell::Unknown,
            Cell::Unknown
        ]
    );
}

#[test]
fn line_solver_full_run() {
    let hints: Vec<u8> = vec![5];
    let cells = vec![Cell::Unknown; 5];
    let out = solve_vector(&hints, &cells).unwrap();
    assert_eq!(out, vec![Cell::Block; 5]);
}

#[test]
fn line_solver_empty_hints_force_void() {
    let hints: Vec<u8> = vec![];
    let cells = vec![Cell::Unknown; 4];
    let out = solve_vector(&hints, &cells).unwrap();
    assert_eq!(out, vec![Cell::Void; 4]);
}

#[test]
fn line_solver_filters_by_known_cells() {
    // A run of 2 on 3 cells could start at 0 or 1; a Block in cell 0 pins it.
    let hints: Vec<u8> = vec![2];
    let cells = vec![Cell::Block, Cell::Unknown, Cell::Unknown];
    let out = solve_vector(&hints, &cells).unwrap();
    assert_eq!(out, vec![Cell::Block, Cell::Block, Cell::Void]);
}

#[test]
fn line_solver_respects_known_voids() {
    // A run of 2 on 3 cells with the last cell Void must sit at the start.
    let hints: Vec<u8> = vec![2];
    let cells = vec![Cell::Unknown, Cell::Unknown, Cell::Void];
    let out = solve_vector(&hints, &cells).unwrap();
    assert_eq!(out, vec![Cell::Block, Cell::Block, Cell::Void]);
}

#[test]
fn line_solver_is_idempotent() {
    let hints: Vec<u8> = vec![2, 1];
    let cells = vec![
        Cell::Unknown,
        Cell::Block,
        Cell::Unknown,
        Cell::Unknown,
        Cell::Unknown,
    ];
    let first = solve_vector(&hints, &cells).unwrap();
    let second = solve_vector(&hints, &cells).unwrap();
    assert_eq!(first, second);
}

#[test]
fn line_solver_rejects_overlong_hints() {
    let hints: Vec<u8> = vec![6];
    let cells = vec![Cell::Unknown; 5];
    let out = solve_vector(&hints, &cells);
    assert_eq!(out, Err(SolveError::InconsistentPuzzle));
}

#[test]
fn saturated_board_solves_to_all_blocks() {
    let x_hints: Vec<Vec<u8>> = vec![vec![5]; 5];
    let y_hints: Vec<Vec<u8>> = vec![vec![5]; 5];
    let mut board = Nonogram::new(x_hints, y_hints).unwrap();
    board.solve(10);
    assert!(board.is_solved());
    for r in 0..5 {
        assert_eq!(board.get_row(r), vec![Cell::Block; 5]);
    }
}

#[test]
fn zero_budget_changes_nothing() {
    let x_hints: Vec<Vec<u8>> = vec![vec![5]; 5];
    let y_hints: Vec<Vec<u8>> = vec![vec![5]; 5];
    let mut board = Nonogram::new(x_hints, y_hints).unwrap();
    board.solve(0);
    assert!(!board.is_solved());
    for r in 0..5 {
        assert_eq!(board.get_row(r), vec![Cell::Unknown; 5]);
    }
}

#[test]
fn one_iteration_solves_one_line() {
    // With a budget of exactly one iteration, only the first row is solved.
    let x_hints: Vec<Vec<u8>> = vec![vec![5]; 5];
    let y_hints: Vec<Vec<u8>> = vec![vec![5]; 5];
    let mut board = Nonogram::new(x_hints, y_hints).unwrap();
    board.solve(1);
    assert_eq!(board.get_row(0), vec![Cell::Block; 5]);
    assert_eq!(board.get_row(1), vec![Cell::Unknown; 5]);
}

#[test]
fn ambiguous_board_stays_partial() {
    // A 2x2 board with every hint [1] has two solutions: the solver
    // terminates within its budget and leaves at least one cell Unknown.
    let x_hints: Vec<Vec<u8>> = vec![vec![1], vec![1]];
    let y_hints: Vec<Vec<u8>> = vec![vec![1], vec![1]];
    let mut board = Nonogram::new(x_hints, y_hints).unwrap();
    board.solve(100);
    assert!(!board.is_solved());
    let row = board.get_row(0);
    assert!(row.iter().any(|c| matches!(c, Cell::Unknown)));
}

#[test]
fn solving_never_changes_a_decided_cell() {
    // Solve a saturated board in two stages: every cell decided after the
    // first stage is unchanged after the second.
    let x_hints: Vec<Vec<u8>> = vec![vec![5]; 5];
    let y_hints: Vec<Vec<u8>> = vec![vec![5]; 5];
    let mut board = Nonogram::new(x_hints, y_hints).unwrap();
    board.solve(3);
    let mut before: Vec<Vec<Cell>> = Vec::new();
    for r in 0..5 {
        before.push(board.get_row(r));
    }
    board.solve(20);
    for r in 0..5 {
        let after = board.get_row(r);
        for c in 0..5 {
            if !matches!(before[r][c], Cell::Unknown) {
                assert_eq!(after[c], before[r][c]);
            }
        }
    }
}

#[test]
fn inconsistent_board_is_rejected() {
    // One row of width 5 asking for runs 3 and 3 needs 7 cells.
    let x_hints: Vec<Vec<u8>> = vec![vec![1]; 5];
    let y_hints: Vec<Vec<u8>> = vec![vec![3, 3]];
    let board = Nonogram::new(x_hints, y_hints);
    assert!(matches!(board, Err(SolveError::InconsistentPuzzle)));
}

#[test]
fn inconsistent_column_is_rejected() {
    // A column of height 2 asking for runs 1, 1 and 1 needs 5 cells.
    let x_hints: Vec<Vec<u8>> = vec![vec![1, 1, 1], vec![1]];
    let y_hints: Vec<Vec<u8>> = vec![vec![1], vec![1]];
    let board = Nonogram::new(x_hints, y_hints);
    assert!(matches!(board, Err(SolveError::InconsistentPuzzle)));
}

#[test]
fn small_picture_puzzle_solves() {
    // A 3x3 puzzle with a unique solution: a plus sign.
    let x_hints: Vec<Vec<u8>> = vec![vec![1], vec![3], vec![1]];
    let y_hints: Vec<Vec<u8>> = vec![vec![1], vec![3], vec![1]];
    let mut board = Nonogram::new(x_hints, y_hints).unwrap();
    board.solve(30);
    assert!(board.is_solved());
    assert_eq!(
        board.get_row(0),
        vec![Cell::Void, Cell::Block, Cell::Void]
    );
    assert_eq!(board.get_row(1), vec![Cell::Block; 3]);
    assert_eq!(
        board.get_row(2),
        vec![Cell::Void, Cell::Block, Cell::Void]
    );
    assert_eq!(
        board.get_column(0),
        vec![Cell::Void, Cell::Block, Cell::Void]
    );
}
