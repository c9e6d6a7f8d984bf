use partridge::solver::{Solution, Solver};
use partridge::{Board, Row, BOARD_SIZE, SIZE};

/// A board whose only uncovered cells are the `side` by `side` square at the origin.
fn square_board(side: usize) -> Board {
    let mut board = Board::default();
    for y in 0..BOARD_SIZE {
        board.0[y] = if y < side { Row(u64::MAX << side) } else { Row(u64::MAX) };
    }
    board
}

fn free(counts: &[u8]) -> [u8; SIZE] {
    let mut f = [0u8; SIZE];
    f[..counts.len()].copy_from_slice(counts);
    f
}

fn solution(steps: &[u8]) -> Solution {
    let mut s = [0u8; BOARD_SIZE];
    s[..steps.len()].copy_from_slice(steps);
    s
}

fn branch_solutions(solver: &Solver, x: u8, y: u8) -> Vec<Solution> {
    let mut out = Vec::new();
    for branch in solver.branches(x, y) {
        match branch.next {
            None => out.push(branch.solver.current_solution()),
            Some((nx, ny)) => {
                let mut s = branch.solver;
                s.solve(nx, ny);
                out.extend(s.solutions);
            }
        }
    }
    out
}

#[test]
fn order_one_has_one_solution() {
    let mut solver = Solver::from_state(square_board(1), free(&[1]), 1);
    solver.solve(0, 0);
    assert_eq!(solver.solutions, vec![solution(&[1])]);
}

#[test]
fn order_two_has_no_solution() {
    // Side three holds nine cells; neither one or two pieces of size two with one unit
    // piece can cover them.
    for counts in [[1u8, 2], [1, 1]] {
        let mut solver = Solver::from_state(square_board(3), free(&counts), 1);
        solver.solve(0, 0);
        assert!(solver.solutions.is_empty());
    }
}

#[test]
fn two_by_two_square() {
    let mut solver = Solver::from_state(square_board(2), free(&[4, 1]), 1);
    solver.solve(0, 0);
    assert_eq!(solver.solutions, vec![solution(&[1, 1, 1, 1]), solution(&[2])]);
    assert_eq!(solver.solutions(), &solver.solutions);
}

#[test]
fn three_by_three_square_in_search_order() {
    let mut solver = Solver::from_state(square_board(3), free(&[5, 1]), 1);
    solver.solve(0, 0);
    assert_eq!(
        solver.solutions,
        vec![
            solution(&[1, 1, 1, 1, 2, 1]),
            solution(&[1, 1, 1, 2, 1, 1]),
            solution(&[1, 2, 1, 1, 1, 1]),
            solution(&[2, 1, 1, 1, 1, 1]),
        ]
    );
}

#[test]
fn solve_leaves_state_unchanged() {
    let mut solver = Solver::from_state(square_board(3), free(&[5, 1]), 1);
    solver.solve(0, 0);
    solver.solve(0, 0);
    assert_eq!(solver.solutions.len(), 8);
    assert_eq!(solver.solutions[..4], solver.solutions[4..]);
    assert_eq!(solver.depth(), 0);
    assert_eq!(solver.current_solution(), [0u8; BOARD_SIZE]);
}

#[test]
fn solutions_are_distinct() {
    let mut solver = Solver::from_state(square_board(4), free(&[8, 2]), 1);
    solver.solve(0, 0);
    let n = solver.solutions.len();
    assert!(n > 0);
    for i in 0..n {
        for j in 0..i {
            assert_ne!(solver.solutions[i], solver.solutions[j]);
        }
    }
}

#[test]
fn branches_match_sequential_search() {
    for (side, counts) in [(2usize, vec![4u8, 1]), (3, vec![5, 1]), (4, vec![8, 2]), (4, vec![7, 1, 1])] {
        let mut sequential = Solver::from_state(square_board(side), free(&counts), 4);
        let split = branch_solutions(&sequential, 0, 0);
        sequential.solve(0, 0);
        assert_eq!(split, sequential.solutions);
    }
}

#[test]
fn branches_of_new_search() {
    let solver = Solver::new(8);
    let branches = solver.branches(0, 0);
    assert_eq!(branches.len(), SIZE);
    for (i, b) in branches.iter().enumerate() {
        assert_eq!(b.next, Some((i as u8 + 1, 0)));
        assert_eq!(b.solver.depth(), 1);
        assert_eq!(b.solver.current_solution()[0], i as u8 + 1);
        assert!(b.solver.solutions.is_empty());
    }
}

#[test]
fn parallelise_only_shallow_and_below_limit() {
    let solver = Solver::new(4);
    assert!(solver.should_parallelise(3));
    assert!(!solver.should_parallelise(4));
    let mut deep = Solver::new(4);
    let mut x = 0u8;
    // Lay ten unit pieces along the top row to reach depth ten.
    for _ in 0..10 {
        let b = deep.branches(x, 0).into_iter().next().unwrap();
        deep = b.solver;
        x = b.next.unwrap().0;
    }
    assert_eq!(deep.depth(), 10);
    assert!(!deep.should_parallelise(0));
}

#[test]
fn new_search_starts_empty() {
    let solver = Solver::new(2);
    assert_eq!(solver.depth(), 0);
    assert!(solver.solutions.is_empty());
    assert_eq!(solver.current_solution(), [0u8; BOARD_SIZE]);
}
