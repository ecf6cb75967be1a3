//! What holds of every board, proved over the board's spec functions.
use crate::grid::flat_index;
use crate::n_puzzle::{dist, lemma_neighbour, PuzzleView, Pos, MAX_SIZE};
use crate::search::{admissible, estimate_of, is_shortest, is_solution, Heuristic};
use vstd::arithmetic::div_mod::{lemma_fundamental_div_mod, lemma_fundamental_div_mod_converse};
use vstd::prelude::*;

verus! {

/// The board with the cell at index `i` replaced by `x`, and the blank
/// recorded at `blank`.
spec fn with_cell(v: PuzzleView, i: int, x: Option<u8>, blank: Pos) -> PuzzleView {
    PuzzleView { size: v.size, cells: v.cells.update(i, x), blank }
}

spec fn indicator(b: bool) -> nat {
    if b {
        1
    } else {
        0
    }
}

/// Replacing one cell changes the misplaced count by that cell alone.
proof fn lemma_update_misplaced(v: PuzzleView, i: int, x: Option<u8>, bl: Pos, k: int)
    requires
        0 <= i < v.cells.len(),
        0 <= k <= v.cells.len(),
    ensures
        with_cell(v, i, x, bl).misplaced_upto(k) + indicator(i < k && v.misplaced_at(i)) == v.misplaced_upto(k)
            + indicator(i < k && with_cell(v, i, x, bl).misplaced_at(i)),
    decreases k,
{
    if k > 0 {
        lemma_update_misplaced(v, i, x, bl, k - 1);
    }
}

/// Replacing one cell changes the taxicab distance by that cell alone.
proof fn lemma_update_taxicab(v: PuzzleView, i: int, x: Option<u8>, bl: Pos, k: int)
    requires
        0 <= i < v.cells.len(),
        0 <= k <= v.cells.len(),
    ensures
        with_cell(v, i, x, bl).taxicab_upto(k) + (if i < k { v.tile_distance(i) } else { 0 })
            == v.taxicab_upto(k) + (if i < k { with_cell(v, i, x, bl).tile_distance(i) } else { 0 }),
    decreases k,
{
    if k > 0 {
        lemma_update_taxicab(v, i, x, bl, k - 1);
    }
}

/// A cell's row and column are its index divided by the side, and the rest.
proof fn lemma_row_col(pos: Pos, n: nat)
    requires
        0 < n,
        pos.1 < n,
    ensures
        flat_index(pos, n) / (n as int) == pos.0,
        flat_index(pos, n) % (n as int) == pos.1,
{
    lemma_fundamental_div_mod_converse(flat_index(pos, n), n as int, pos.0 as int, pos.1 as int);
}

/// The board after a legal move, written as two single-cell changes.
proof fn lemma_moved_in_steps(v: PuzzleView, p: Pos)
    requires
        v.wf(),
    ensures
        v.moved(p) == with_cell(
            with_cell(v, v.blank_index(), v.cells[flat_index(p, v.size)], p),
            flat_index(p, v.size),
            None,
            p,
        ),
{
    assert(v.moved(p).cells =~= with_cell(
        with_cell(v, v.blank_index(), v.cells[flat_index(p, v.size)], p),
        flat_index(p, v.size),
        None,
        p,
    ).cells);
}

/// A legal move keeps a board well formed.
pub proof fn lemma_moved_wf(v: PuzzleView, p: Pos)
    requires
        v.wf(),
        v.neighbours().contains(p),
    ensures
        v.moved(p).wf(),
{
    lemma_neighbour(v.blank, v.size, p);
}

/// The misplaced-tile count is consistent: a legal move lowers it by at
/// most one.
pub proof fn lemma_move_misplaced(v: PuzzleView, p: Pos)
    requires
        v.wf(),
        v.neighbours().contains(p),
    ensures
        v.num_misplaced() <= v.moved(p).num_misplaced() + 1,
{
    lemma_neighbour(v.blank, v.size, p);
    let b = v.blank_index();
    let pi = flat_index(p, v.size);
    let t = v.cells[pi];
    let len = v.cells.len() as int;
    let w1 = with_cell(v, b, t, p);
    let w2 = with_cell(w1, pi, None, p);
    lemma_moved_in_steps(v, p);
    lemma_update_misplaced(v, b, t, p, len);
    lemma_update_misplaced(w1, pi, None, p, len);
    assert(w1.misplaced_at(pi) == v.misplaced_at(pi));
}

/// The taxicab distance is consistent: a legal move lowers it by at most
/// one.
pub proof fn lemma_move_taxicab(v: PuzzleView, p: Pos)
    requires
        v.wf(),
        v.neighbours().contains(p),
    ensures
        v.taxicab() <= v.moved(p).taxicab() + 1,
{
    lemma_neighbour(v.blank, v.size, p);
    let n = v.size;
    let b = v.blank_index();
    let pi = flat_index(p, n);
    let t = v.cells[pi];
    let len = v.cells.len() as int;
    let w1 = with_cell(v, b, t, p);
    let w2 = with_cell(w1, pi, None, p);
    lemma_moved_in_steps(v, p);
    lemma_update_taxicab(v, b, t, p, len);
    lemma_update_taxicab(w1, pi, None, p, len);
    assert(w1.tile_distance(pi) == v.tile_distance(pi));
    lemma_row_col(p, n);
    lemma_row_col(v.blank, n);
    assert(v.tile_distance(pi) <= w1.tile_distance(b) + 1);
}

/// A solved board has taxicab distance zero.
proof fn lemma_goal_taxicab(v: PuzzleView, k: int)
    requires
        0 <= k <= v.cells.len(),
        v.misplaced_upto(k) == 0,
    ensures
        v.taxicab_upto(k) == 0,
    decreases k,
{
    if k > 0 {
        lemma_goal_taxicab(v, k - 1);
    }
}

/// Along a solution, a heuristic's estimate is at most the moves taken.
proof fn lemma_estimate_bound(h: Heuristic, v: PuzzleView, q: Seq<PuzzleView>)
    requires
        v.wf(),
        is_solution(v, q),
    ensures
        estimate_of(v, h) <= q.len() - 1,
    decreases q.len(),
{
    if q.len() == 1 {
        lemma_goal_taxicab(v, v.cells.len() as int);
    } else {
        assert(q[0].successors().contains(q[1]));
        let j = choose|j: int| 0 <= j < v.successors().len() && v.successors()[j] == q[1];
        let p = v.neighbours()[j];
        assert(v.neighbours().contains(p));
        lemma_moved_wf(v, p);
        let rest = q.drop_first();
        assert forall|i: int| 0 <= i < rest.len() - 1 implies #[trigger] rest[i].successors().contains(
            rest[i + 1],
        ) by {
            assert(q[i + 1].successors().contains(q[i + 1 + 1]));
        }
        assert(is_solution(q[1], rest));
        lemma_estimate_bound(h, q[1], rest);
        lemma_move_misplaced(v, p);
        lemma_move_taxicab(v, p);
    }
}

/// Neither heuristic overestimates the moves left to the goal: from any
/// well-formed board, a solution takes at least as many moves as the
/// misplaced-tile count and as the taxicab distance.
pub proof fn lemma_admissible(h: Heuristic)
    ensures
        admissible(h),
{
    assert forall|v: PuzzleView, q: Seq<PuzzleView>| v.wf() && #[trigger] is_solution(v, q) implies estimate_of(
        v,
        h,
    ) <= q.len() - 1 by {
        lemma_estimate_bound(h, v, q);
    }
}

/// The solved board of side `n`: tiles `1` to `n * n - 1` in row-major
/// order and the blank in the last cell.
pub open spec fn solved_board(n: nat) -> PuzzleView {
    PuzzleView {
        size: n,
        cells: Seq::new(
            n * n,
            |i: int|
                if i < n * n - 1 {
                    Some((i + 1) as u8)
                } else {
                    None
                },
        ),
        blank: ((n - 1) as usize, (n - 1) as usize),
    }
}

proof fn lemma_solved_upto(n: nat, k: int)
    requires
        0 <= k <= n * n,
        0 < n <= MAX_SIZE,
    ensures
        solved_board(n).misplaced_upto(k) == 0,
        solved_board(n).taxicab_upto(k) == 0,
    decreases k,
{
    assert(n * n <= 256) by (nonlinear_arith)
        requires
            n <= 16,
    ;
    if k > 0 {
        lemma_solved_upto(n, k - 1);
    }
}

/// The solved board of any size is well formed, solved, and both
/// heuristics give it 0.
pub proof fn lemma_solved_board(n: nat)
    requires
        0 < n <= MAX_SIZE,
    ensures
        solved_board(n).wf(),
        solved_board(n).is_goal(),
        solved_board(n).num_misplaced() == 0,
        solved_board(n).taxicab() == 0,
{
    let v = solved_board(n);
    assert((n - 1) * n + (n - 1) == n * n - 1) by (nonlinear_arith);
    assert(n * n <= 256) by (nonlinear_arith)
        requires
            n <= 16,
    ;
    assert(n <= n * n) by (nonlinear_arith)
        requires
            0 < n,
    ;
    lemma_solved_upto(n, (n * n) as int);
}

proof fn lemma_misplaced_le_taxicab_upto(v: PuzzleView, k: int)
    requires
        v.wf(),
        0 <= k <= v.cells.len(),
    ensures
        v.misplaced_upto(k) <= v.taxicab_upto(k),
    decreases k,
{
    if k > 0 {
        lemma_misplaced_le_taxicab_upto(v, k - 1);
        let i = k - 1;
        if v.misplaced_at(i) {
            let n = v.size as int;
            let g = (v.cells[i]->0 - 1) as int;
            lemma_fundamental_div_mod(i, n);
            lemma_fundamental_div_mod(g, n);
            assert(v.tile_distance(i) >= 1);
        }
    }
}

/// The misplaced-tile count never exceeds the taxicab distance.
pub proof fn lemma_misplaced_le_taxicab(v: PuzzleView)
    requires
        v.wf(),
    ensures
        v.num_misplaced() <= v.taxicab(),
{
    lemma_misplaced_le_taxicab_upto(v, v.cells.len() as int);
}

/// Whether a row or column index lies on the grid's border.
pub open spec fn on_border(x: usize, n: nat) -> bool {
    x == 0 || x == n - 1
}

/// On a board of side at least 2, the blank has two moves in a corner,
/// three elsewhere on the border and four inside.
pub proof fn lemma_successor_count(v: PuzzleView)
    requires
        v.wf(),
        v.size >= 2,
    ensures
        on_border(v.blank.0, v.size) && on_border(v.blank.1, v.size) ==> v.successors().len() == 2,
        on_border(v.blank.0, v.size) != on_border(v.blank.1, v.size) ==> v.successors().len() == 3,
        !on_border(v.blank.0, v.size) && !on_border(v.blank.1, v.size) ==> v.successors().len() == 4,
{
}

/// Every successor of a well-formed board is well formed, its blank is where
/// its view says, and it is solved exactly when its misplaced-tile count,
/// computed afresh, is 0.
pub proof fn lemma_successors_wf(v: PuzzleView)
    requires
        v.wf(),
    ensures
        forall|i: int|
            0 <= i < v.successors().len() ==> (#[trigger] v.successors()[i]).wf()
                && v.successors()[i].blank == v.neighbours()[i] && (v.successors()[i].is_goal()
                <==> v.successors()[i].num_misplaced() == 0),
{
    assert forall|i: int| 0 <= i < v.successors().len() implies (#[trigger] v.successors()[i]).wf() by {
        assert(v.neighbours().contains(v.neighbours()[i]));
        lemma_moved_wf(v, v.neighbours()[i]);
    }
}

/// Two shortest solutions of a board have the same number of moves; so
/// breadth-first search, iterative deepening, A* and IDA*, whose solutions
/// are shortest, report the same cost.
pub proof fn lemma_shortest_same_cost(start: PuzzleView, p: Seq<PuzzleView>, q: Seq<PuzzleView>)
    requires
        is_solution(start, p),
        is_shortest(start, p),
        is_solution(start, q),
        is_shortest(start, q),
    ensures
        p.len() == q.len(),
{
}

} // verus!
