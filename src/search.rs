//! Solving a board with one of `pathfinding`'s five search algorithms. The
//! searches themselves are `pathfinding`'s; what they are handed (the legal
//! moves, their cost, the goal test and the estimate) and what is made of
//! their answer is verified here.
use crate::n_puzzle::{views, NPuzzle, PuzzleView};
use pathfinding::prelude::{astar, bfs, dfs, idastar, iddfs};
use vstd::prelude::*;

verus! {

/// The search algorithm to solve with.
#[derive(Debug, Clone, Copy, PartialEq, Eq, Structural)]
pub enum Algorithm {
    Bfs,
    Dfs,
    IdDfs,
    AStar,
    IdAStar,
}

/// The estimate of the moves left that A* and IDA* are guided by.
#[derive(Debug, Clone, Copy, PartialEq, Eq, Structural)]
pub enum Heuristic {
    NumIncorrect,
    Taxicab,
}

/// What a heuristic estimates for a board.
pub open spec fn estimate_of(v: PuzzleView, h: Heuristic) -> nat {
    match h {
        Heuristic::NumIncorrect => v.num_misplaced(),
        Heuristic::Taxicab => v.taxicab(),
    }
}

/// Each board after the first is reached from the one before by a legal move.
pub open spec fn is_path(p: Seq<PuzzleView>) -> bool {
    forall|i: int| 0 <= i < p.len() - 1 ==> #[trigger] p[i].successors().contains(p[i + 1])
}

/// A path from `start` to a solved board.
pub open spec fn is_solution(start: PuzzleView, p: Seq<PuzzleView>) -> bool {
    p.len() > 0 && p[0] == start && is_path(p) && p.last().is_goal()
}

/// No solution is shorter than `p`.
pub open spec fn is_shortest(start: PuzzleView, p: Seq<PuzzleView>) -> bool {
    forall|q: Seq<PuzzleView>| #[trigger] is_solution(start, q) ==> p.len() <= q.len()
}

/// The board cannot be solved.
pub open spec fn unsolvable(start: PuzzleView) -> bool {
    forall|q: Seq<PuzzleView>| !#[trigger] is_solution(start, q)
}

/// A search's answer: well-formed boards that solve `start`.
pub open spec fn solves(start: PuzzleView, p: Seq<NPuzzle>) -> bool {
    (forall|i: int| 0 <= i < p.len() ==> (#[trigger] p[i]).wf()) && is_solution(start, views(p))
}

/// The heuristic never overestimates the moves left to the goal.
pub open spec fn admissible(h: Heuristic) -> bool {
    forall|v: PuzzleView, q: Seq<PuzzleView>|
        v.wf() && #[trigger] is_solution(v, q) ==> estimate_of(v, h) <= q.len() - 1
}

/// A solved board's path from the start, both included, and the number of
/// moves along it.
pub struct Solution {
    pub path: Vec<NPuzzle>,
    pub cost: usize,
}

/// The heuristic's estimate for a board.
pub fn estimate(p: &NPuzzle, h: Heuristic) -> (r: usize)
    requires
        p.wf(),
    ensures
        r == estimate_of(p@, h),
{
    match h {
        Heuristic::NumIncorrect => p.num_incorrect(),
        Heuristic::Taxicab => p.taxicab_distance(),
    }
}

/// Relies on `pathfinding::prelude::bfs`: a shortest path from the start to
/// a solved board over the legal moves, or `None` when there is none.
#[verifier::external_body]
fn run_bfs(start: &NPuzzle) -> (r: Option<Vec<NPuzzle>>)
    requires
        start.wf(),
    ensures
        r matches Some(p) ==> solves(start@, p@) && is_shortest(start@, views(p@)),
        r is None ==> unsolvable(start@),
{
    bfs(start, |p: &NPuzzle| p.successors(), |p: &NPuzzle| p.success())
}

/// Relies on `pathfinding::prelude::dfs`: some path from the start to a
/// solved board over the legal moves, or `None` when there is none.
#[verifier::external_body]
fn run_dfs(start: &NPuzzle) -> (r: Option<Vec<NPuzzle>>)
    requires
        start.wf(),
    ensures
        r matches Some(p) ==> solves(start@, p@),
        r is None ==> unsolvable(start@),
{
    dfs(start.clone(), |p: &NPuzzle| p.successors(), |p: &NPuzzle| p.success())
}

/// Relies on `pathfinding::prelude::iddfs`: a shortest path from the start
/// to a solved board over the legal moves. It prunes only boards already on
/// the current path, so on a board that cannot be solved it would go on
/// deepening through every simple path; it is called only on boards that
/// can be solved.
#[verifier::external_body]
fn run_iddfs(start: &NPuzzle) -> (r: Option<Vec<NPuzzle>>)
    requires
        start.wf(),
        !unsolvable(start@),
    ensures
        r matches Some(p) ==> solves(start@, p@) && is_shortest(start@, views(p@)),
        r is None ==> unsolvable(start@),
{
    iddfs(start.clone(), |p: &NPuzzle| p.successors(), |p: &NPuzzle| p.success())
}

/// Relies on `pathfinding::prelude::astar`: a path from the start to a
/// solved board with its total cost, the number of moves as each costs 1;
/// the shortest when the heuristic never overestimates; `None` when there
/// is no path.
#[verifier::external_body]
fn run_astar(start: &NPuzzle, h: Heuristic) -> (r: Option<(Vec<NPuzzle>, usize)>)
    requires
        start.wf(),
    ensures
        r matches Some((p, c)) ==> solves(start@, p@) && c == p@.len() - 1 && (admissible(h)
            ==> is_shortest(start@, views(p@))),
        r is None ==> unsolvable(start@),
{
    astar(start, |p: &NPuzzle| p.successors_with_costs(), |p: &NPuzzle| estimate(p, h), |p: &NPuzzle| p.success())
}

/// Relies on `pathfinding::prelude::idastar`: as A*, with a path from the
/// start to a solved board and its total cost, the shortest when the
/// heuristic never overestimates. Like `iddfs` it keeps no record of boards
/// seen across rounds, so it is called only on boards that can be solved.
#[verifier::external_body]
fn run_idastar(start: &NPuzzle, h: Heuristic) -> (r: Option<(Vec<NPuzzle>, usize)>)
    requires
        start.wf(),
        !unsolvable(start@),
    ensures
        r matches Some((p, c)) ==> solves(start@, p@) && c == p@.len() - 1 && (admissible(h)
            ==> is_shortest(start@, views(p@))),
        r is None ==> unsolvable(start@),
{
    idastar(start, |p: &NPuzzle| p.successors_with_costs(), |p: &NPuzzle| estimate(p, h), |p: &NPuzzle| p.success())
}

/// The path and move count of a path found by an uninformed search.
fn counted(path: Vec<NPuzzle>) -> (r: Solution)
    requires
        path@.len() > 0,
    ensures
        r.path@ == path@,
        r.cost == path@.len() - 1,
{
    let cost = path.len() - 1;
    Solution { path, cost }
}

/// Whether some sequence of moves solves the board, decided by a
/// breadth-first search, which keeps a record of the boards it has seen and
/// so ends on every board. The iterative-deepening searches are run only
/// where it says yes.
fn solvable(start: &NPuzzle) -> (r: bool)
    requires
        start.wf(),
    ensures
        r == !unsolvable(start@),
{
    match run_bfs(start) {
        Some(path) => {
            assert(is_solution(start@, views(path@)));
            true
        },
        None => false,
    }
}

/// Solves `start` with the chosen algorithm; the heuristic guides A* and
/// IDA* and is not used otherwise. `None` exactly when no sequence of moves
/// solves the board. Otherwise the path runs from `start` to a solved board
/// by legal moves, its cost is its number of moves, and it is a shortest
/// one for every algorithm but depth-first search.
pub fn solve(start: &NPuzzle, algorithm: Algorithm, heuristic: Heuristic) -> (r: Option<Solution>)
    requires
        start.wf(),
    ensures
        r is None <==> unsolvable(start@),
        r matches Some(s) ==> solves(start@, s.path@) && s.cost == s.path@.len() - 1,
        r matches Some(s) ==> (algorithm != Algorithm::Dfs ==> is_shortest(start@, views(s.path@))),
{
    proof {
        crate::laws::lemma_admissible(heuristic);
    }
    let r = match algorithm {
        Algorithm::Bfs => match run_bfs(start) {
            Some(path) => Some(counted(path)),
            None => None,
        },
        Algorithm::Dfs => match run_dfs(start) {
            Some(path) => Some(counted(path)),
            None => None,
        },
        Algorithm::IdDfs => if solvable(start) {
            match run_iddfs(start) {
                Some(path) => Some(counted(path)),
                None => None,
            }
        } else {
            None
        },
        Algorithm::AStar => match run_astar(start, heuristic) {
            Some((path, cost)) => Some(Solution { path, cost }),
            None => None,
        },
        Algorithm::IdAStar => if solvable(start) {
            match run_idastar(start, heuristic) {
                Some((path, cost)) => Some(Solution { path, cost }),
                None => None,
            }
        } else {
            None
        },
    };
    r
}

} // verus!
