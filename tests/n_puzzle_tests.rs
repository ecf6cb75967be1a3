use n_puzzle::n_puzzle::{NPuzzle, PuzzleError};
use n_puzzle::search::{estimate, solve, Algorithm, Heuristic, Solution};

fn board(size: usize, tiles: &[u8], blank: (usize, usize)) -> NPuzzle {
    NPuzzle::new(size, tiles.to_vec(), blank).unwrap()
}

fn check_path(start: &NPuzzle, s: &Solution) {
    assert_eq!(s.path.first().unwrap(), start);
    assert!(s.path.last().unwrap().success());
    for w in s.path.windows(2) {
        assert!(w[0].successors().contains(&w[1]));
    }
    assert_eq!(s.cost, s.path.len() - 1);
}

#[test]
fn heuristics_when_solved() {
    let puzzle = NPuzzle::new(4, (1..16).collect(), (3, 3)).unwrap();
    assert_eq!(puzzle.num_incorrect(), 0);
    assert_eq!(puzzle.taxicab_distance(), 0);
}

#[test]
fn heuristics_when_not_solved() {
    let puzzle = NPuzzle::new(3, vec![1, 3, 7, 2, 6, 5, 4, 8], (0, 0)).unwrap();
    assert_eq!(puzzle.num_incorrect(), 6);
    assert_eq!(puzzle.taxicab_distance(), 8);
}

#[test]
fn center_successors() {
    let puzzle = NPuzzle::new(3, vec![7, 8, 5, 3, 1, 4, 6, 2], (1, 1)).unwrap();
    let successors = puzzle.successors();
    assert_eq!(successors.len(), 4);
    assert!(successors.iter().any(|s| s.blank_position() == (0, 1)));
    assert!(successors.iter().any(|s| s.blank_position() == (1, 0)));
    assert!(successors.iter().any(|s| s.blank_position() == (1, 2)));
    assert!(successors.iter().any(|s| s.blank_position() == (2, 1)));
}

#[test]
fn corner_successors() {
    let puzzle = NPuzzle::new(3, vec![7, 8, 5, 3, 1, 4, 6, 2], (0, 2)).unwrap();
    let successors = puzzle.successors();
    assert_eq!(successors.len(), 2);
    assert!(successors.iter().any(|s| s.blank_position() == (0, 1)));
    assert!(successors.iter().any(|s| s.blank_position() == (1, 2)));
}

#[test]
fn edge_successors() {
    let puzzle = board(3, &[7, 8, 5, 3, 1, 4, 6, 2], (1, 0));
    let positions: Vec<_> = puzzle.successors().iter().map(|s| s.blank_position()).collect();
    assert_eq!(positions, vec![(0, 0), (1, 1), (2, 0)]);
}

#[test]
fn successors_in_neighbour_order() {
    let puzzle = board(3, &[7, 8, 5, 3, 1, 4, 6, 2], (1, 1));
    let positions: Vec<_> = puzzle.successors().iter().map(|s| s.blank_position()).collect();
    assert_eq!(positions, vec![(0, 1), (1, 0), (1, 2), (2, 1)]);
}

#[test]
fn new_splices_blank() {
    let puzzle = board(3, &[7, 8, 5, 3, 1, 4, 6, 2], (1, 1));
    assert_eq!(puzzle.size(), 3);
    assert_eq!(puzzle.blank_position(), (1, 1));
    assert_eq!(
        puzzle.cells(),
        vec![Some(7), Some(8), Some(5), Some(3), None, Some(1), Some(4), Some(6), Some(2)]
    );
}

#[test]
fn new_drops_extra_tiles() {
    let puzzle = board(2, &[1, 2, 3, 9, 9], (1, 1));
    assert_eq!(puzzle.cells(), vec![Some(1), Some(2), Some(3), None]);
}

#[test]
fn new_rejects_blank_out_of_bounds() {
    assert_eq!(
        NPuzzle::new(3, vec![1, 2, 3, 4, 5, 6, 7, 8], (3, 0)),
        Err(PuzzleError::BlankOutOfBounds)
    );
    assert_eq!(
        NPuzzle::new(3, vec![1, 2, 3, 4, 5, 6, 7, 8], (0, 3)),
        Err(PuzzleError::BlankOutOfBounds)
    );
}

#[test]
fn new_rejects_too_few_tiles() {
    assert_eq!(
        NPuzzle::new(3, vec![1, 2, 3, 4, 5, 6, 7], (2, 2)),
        Err(PuzzleError::MalformedBoard)
    );
}

#[test]
fn new_rejects_oversized_board() {
    let tiles: Vec<u8> = (0..288).map(|i| (i % 255 + 1) as u8).collect();
    assert_eq!(NPuzzle::new(17, tiles, (0, 0)), Err(PuzzleError::MalformedBoard));
}

#[test]
fn move_blank_swaps_cells() {
    let puzzle = board(3, &[1, 2, 3, 4, 5, 6, 7, 8], (2, 2));
    let moved = puzzle.move_blank((1, 2));
    assert_eq!(moved.blank_position(), (1, 2));
    assert_eq!(
        moved.cells(),
        vec![Some(1), Some(2), Some(3), Some(4), Some(5), None, Some(7), Some(8), Some(6)]
    );
    assert_eq!(puzzle.cells()[8], None);
    assert!(puzzle.success());
    assert!(!moved.success());
    assert_eq!(moved.num_incorrect(), 1);
    assert_eq!(moved.taxicab_distance(), 1);
}

#[test]
fn successors_with_costs_are_unit() {
    let puzzle = board(3, &[7, 8, 5, 3, 1, 4, 6, 2], (1, 1));
    let with_costs = puzzle.successors_with_costs();
    let plain = puzzle.successors();
    assert_eq!(with_costs.len(), 4);
    for (i, (s, c)) in with_costs.iter().enumerate() {
        assert_eq!(*c, 1);
        assert_eq!(s, &plain[i]);
    }
}

#[test]
fn solved_boards_have_zero_estimates() {
    for n in 1..=4usize {
        let tiles: Vec<u8> = (1..(n * n) as u8).collect();
        let puzzle = board(n, &tiles, (n - 1, n - 1));
        assert!(puzzle.success());
        assert_eq!(estimate(&puzzle, Heuristic::NumIncorrect), 0);
        assert_eq!(estimate(&puzzle, Heuristic::Taxicab), 0);
    }
}

#[test]
fn misplaced_at_most_taxicab() {
    let puzzle = board(3, &[7, 8, 5, 3, 1, 4, 6, 2], (1, 1));
    assert!(puzzle.num_incorrect() <= puzzle.taxicab_distance());
    for s in puzzle.successors() {
        assert!(s.num_incorrect() <= s.taxicab_distance());
        assert_eq!(s.success(), s.num_incorrect() == 0);
    }
}

#[test]
fn estimate_picks_heuristic() {
    let puzzle = board(3, &[1, 3, 7, 2, 6, 5, 4, 8], (0, 0));
    assert_eq!(estimate(&puzzle, Heuristic::NumIncorrect), 6);
    assert_eq!(estimate(&puzzle, Heuristic::Taxicab), 8);
}

#[test]
fn solve_one_move() {
    let start = board(3, &[1, 2, 3, 4, 5, 7, 8, 6], (1, 2));
    for algorithm in [Algorithm::Bfs, Algorithm::Dfs, Algorithm::IdDfs, Algorithm::AStar, Algorithm::IdAStar] {
        let s = solve(&start, algorithm, Heuristic::Taxicab).unwrap();
        check_path(&start, &s);
        if algorithm != Algorithm::Dfs {
            assert_eq!(s.cost, 1);
        }
    }
}

#[test]
fn solve_already_solved() {
    let start = board(3, &[1, 2, 3, 4, 5, 6, 7, 8], (2, 2));
    let s = solve(&start, Algorithm::AStar, Heuristic::NumIncorrect).unwrap();
    assert_eq!(s.cost, 0);
    assert_eq!(s.path.len(), 1);
}

#[test]
fn iddfs_two_moves() {
    let start = board(3, &[1, 2, 3, 4, 6, 7, 5, 8], (1, 1));
    let s = solve(&start, Algorithm::IdDfs, Heuristic::Taxicab).unwrap();
    check_path(&start, &s);
    assert_eq!(s.cost, 2);
}

#[test]
fn bfs_and_astar_agree() {
    let start = board(3, &[1, 3, 7, 2, 6, 5, 4, 8], (0, 0));
    let b = solve(&start, Algorithm::Bfs, Heuristic::Taxicab).unwrap();
    check_path(&start, &b);
    assert_eq!(b.cost, 8);
    for h in [Heuristic::NumIncorrect, Heuristic::Taxicab] {
        let a = solve(&start, Algorithm::AStar, h).unwrap();
        check_path(&start, &a);
        assert_eq!(a.cost, b.cost);
        let ia = solve(&start, Algorithm::IdAStar, h).unwrap();
        check_path(&start, &ia);
        assert_eq!(ia.cost, b.cost);
    }
    let d = solve(&start, Algorithm::Dfs, Heuristic::Taxicab).unwrap();
    check_path(&start, &d);
    assert!(d.cost >= b.cost);
}

#[test]
fn long_scramble_shortest_cost() {
    let start = board(3, &[7, 8, 5, 3, 1, 4, 6, 2], (1, 1));
    let a = solve(&start, Algorithm::AStar, Heuristic::Taxicab).unwrap();
    check_path(&start, &a);
    assert_eq!(a.cost, 24);
}

#[test]
fn unsolvable_bfs() {
    let start = board(3, &[2, 1, 3, 4, 5, 6, 7, 8], (2, 2));
    assert!(solve(&start, Algorithm::Bfs, Heuristic::Taxicab).is_none());
}

#[test]
fn unsolvable_dfs() {
    let start = board(3, &[2, 1, 3, 4, 5, 6, 7, 8], (2, 2));
    assert!(solve(&start, Algorithm::Dfs, Heuristic::Taxicab).is_none());
}

#[test]
fn unsolvable_astar() {
    let start = board(3, &[2, 1, 3, 4, 5, 6, 7, 8], (2, 2));
    assert!(solve(&start, Algorithm::AStar, Heuristic::Taxicab).is_none());
}

#[test]
fn unsolvable_small_board_every_algorithm() {
    let start = board(2, &[2, 1, 3], (1, 1));
    for algorithm in [Algorithm::Bfs, Algorithm::Dfs, Algorithm::IdDfs, Algorithm::AStar, Algorithm::IdAStar] {
        assert!(solve(&start, algorithm, Heuristic::Taxicab).is_none());
        assert!(solve(&start, algorithm, Heuristic::NumIncorrect).is_none());
    }
}

#[test]
fn unsolvable_iddfs() {
    let start = board(3, &[1, 2, 3, 4, 5, 6, 8, 7], (2, 2));
    assert!(solve(&start, Algorithm::IdDfs, Heuristic::Taxicab).is_none());
}

#[test]
fn unsolvable_idastar() {
    let start = board(3, &[1, 2, 3, 4, 5, 6, 8, 7], (2, 2));
    assert!(solve(&start, Algorithm::IdAStar, Heuristic::Taxicab).is_none());
    assert!(solve(&start, Algorithm::IdAStar, Heuristic::NumIncorrect).is_none());
}
