//! The sliding-tile board: an `n` x `n` grid of labelled tiles and one blank,
//! its legal moves and the two estimates of the moves left to the goal.
use crate::grid::{
    adjacent_cells, clone_grid, flat_index, grid_cells, grid_columns, grid_rows, items,
    neighbours, row_count, square_from_vec, swap,
};
use pathfinding::matrix::Matrix;
use vstd::prelude::*;

verus! {

/// The largest side length of a board: with labels held in a `u8`, at most
/// 255 distinct tiles fit, so a 16 x 16 board is the largest that can hold
/// `n * n - 1` distinct labels.
pub const MAX_SIZE: usize = 16;

/// A position on the board, as `(row, column)`.
pub type Pos = (usize, usize);

/// Why a board could not be built.
#[derive(Debug, Clone, Copy, PartialEq, Eq, Structural)]
pub enum PuzzleError {
    /// The tiles and the blank cannot fill an `n` x `n` grid.
    MalformedBoard,
    /// The blank's position lies outside the grid.
    BlankOutOfBounds,
}

/// `|a - b|`.
pub open spec fn dist(a: int, b: int) -> nat {
    if a >= b {
        (a - b) as nat
    } else {
        (b - a) as nat
    }
}

/// The mathematical board: its side length, its cells first row first
/// (`None` is the blank), and where the blank is.
pub struct PuzzleView {
    pub size: nat,
    pub cells: Seq<Option<u8>>,
    pub blank: Pos,
}

impl PuzzleView {
    pub open spec fn blank_index(self) -> int {
        flat_index(self.blank, self.size)
    }

    /// A well-formed board: a square grid of a size a `u8` label can fill,
    /// with the blank exactly at its recorded position and a positive label
    /// in every other cell.
    pub open spec fn wf(self) -> bool {
        &&& 0 < self.size <= MAX_SIZE
        &&& self.cells.len() == self.size * self.size
        &&& self.blank.0 < self.size
        &&& self.blank.1 < self.size
        &&& self.cells[self.blank_index()] is None
        &&& forall|i: int|
            0 <= i < self.cells.len() && i != self.blank_index() ==> (#[trigger] self.cells[i] matches Some(
                v,
            ) && v > 0)
    }

    /// The positions the blank can move to.
    pub open spec fn neighbours(self) -> Seq<Pos> {
        adjacent_cells(self.blank, self.size, self.size)
    }

    /// The board after the blank swaps places with the tile at `p`.
    pub open spec fn moved(self, p: Pos) -> PuzzleView {
        PuzzleView {
            size: self.size,
            cells: self.cells.update(self.blank_index(), self.cells[flat_index(p, self.size)]).update(
                flat_index(p, self.size),
                None,
            ),
            blank: p,
        }
    }

    /// One board per legal move of the blank, in the order of `neighbours`.
    pub open spec fn successors(self) -> Seq<PuzzleView> {
        self.neighbours().map_values(|p: Pos| self.moved(p))
    }

    /// Whether the cell at index `i` holds a tile other than `i + 1`.
    pub open spec fn misplaced_at(self, i: int) -> bool {
        self.cells[i] matches Some(v) && v != i + 1
    }

    /// The number of misplaced tiles among the first `k` cells.
    pub open spec fn misplaced_upto(self, k: int) -> nat
        decreases k,
    {
        if k <= 0 {
            0
        } else {
            self.misplaced_upto(k - 1) + if self.misplaced_at(k - 1) {
                1nat
            } else {
                0nat
            }
        }
    }

    /// The misplaced-tile count.
    pub open spec fn num_misplaced(self) -> nat {
        self.misplaced_upto(self.cells.len() as int)
    }

    /// How far the tile at index `i` is from its goal cell, in rows plus
    /// columns; 0 for the blank. Tile `v` belongs at index `v - 1`.
    pub open spec fn tile_distance(self, i: int) -> nat {
        match self.cells[i] {
            Some(v) => dist(i / self.size as int, (v - 1) / self.size as int) + dist(
                i % self.size as int,
                (v - 1) % self.size as int,
            ),
            None => 0,
        }
    }

    /// The sum of the tile distances over the first `k` cells.
    pub open spec fn taxicab_upto(self, k: int) -> nat
        decreases k,
    {
        if k <= 0 {
            0
        } else {
            self.taxicab_upto(k - 1) + self.tile_distance(k - 1)
        }
    }

    /// The taxicab (Manhattan) distance of the board to the goal.
    pub open spec fn taxicab(self) -> nat {
        self.taxicab_upto(self.cells.len() as int)
    }

    /// The solved board: no tile out of place.
    pub open spec fn is_goal(self) -> bool {
        self.num_misplaced() == 0
    }
}

/// The cells a board is built from: the tiles in order, with the blank
/// spliced in at row-major index `blank_index`, cut to `n * n` cells.
pub open spec fn laid_out(tiles: Seq<u8>, n: nat, blank_index: int) -> Seq<Option<u8>> {
    tiles.subrange(0, blank_index).map_values(|t: u8| Some(t)) + seq![None] + tiles.subrange(
        blank_index,
        n * n - 1,
    ).map_values(|t: u8| Some(t))
}

/// The views of a sequence of boards.
pub open spec fn views(s: Seq<NPuzzle>) -> Seq<PuzzleView> {
    s.map_values(|p: NPuzzle| p@)
}

/// A board of the sliding-tile puzzle. Moves make new boards; a board is
/// never changed in place.
#[derive(Debug, Eq, PartialEq, Hash)]
pub struct NPuzzle {
    board: Matrix<Option<u8>>,
    blank_row: usize,
    blank_col: usize,
}

impl View for NPuzzle {
    type V = PuzzleView;

    closed spec fn view(&self) -> PuzzleView {
        PuzzleView { size: grid_rows(self.board), cells: grid_cells(self.board), blank: (self.blank_row, self.blank_col) }
    }
}

impl NPuzzle {
    /// A well-formed board: its view is well formed and its grid is square.
    pub closed spec fn wf(&self) -> bool {
        self@.wf() && grid_columns(self.board) == grid_rows(self.board)
    }

    /// A well-formed board has a well-formed view.
    pub proof fn lemma_view_wf(&self)
        requires
            self.wf(),
        ensures
            self@.wf(),
    {
    }

    /// Builds a board of side `size` from the tiles in row-major order, with
    /// the blank spliced in at `blank_position`. Tiles beyond the `size *
    /// size - 1` that the grid holds are left out. A blank outside the grid
    /// is an error; so is a side above `MAX_SIZE` or too few tiles to fill
    /// the grid.
    pub fn new(size: usize, start_items: Vec<u8>, blank_position: Pos) -> (r: Result<
        NPuzzle,
        PuzzleError,
    >)
        requires
            forall|i: int| 0 <= i < start_items@.len() ==> #[trigger] start_items@[i] > 0,
        ensures
            blank_position.0 >= size || blank_position.1 >= size ==> r == Err::<
                NPuzzle,
                PuzzleError,
            >(PuzzleError::BlankOutOfBounds),
            blank_position.0 < size && blank_position.1 < size && (size > MAX_SIZE
                || start_items@.len() + 1 < size * size) ==> r == Err::<NPuzzle, PuzzleError>(
                PuzzleError::MalformedBoard,
            ),
            blank_position.0 < size && blank_position.1 < size && size <= MAX_SIZE
                && start_items@.len() + 1 >= size * size ==> (r matches Ok(p) && p.wf() && p@
                == PuzzleView {
                size: size as nat,
                cells: laid_out(start_items@, size as nat, flat_index(blank_position, size as nat)),
                blank: blank_position,
            }),
    {
        if blank_position.0 >= size || blank_position.1 >= size {
            return Err(PuzzleError::BlankOutOfBounds);
        }
        if size > MAX_SIZE {
            return Err(PuzzleError::MalformedBoard);
        }
        proof {
            lemma_square_index(blank_position.0 as int, blank_position.1 as int, size as int);
            assert(size * size <= 256) by (nonlinear_arith)
                requires
                    size <= 16,
            ;
        }
        if start_items.len() < size * size - 1 {
            return Err(PuzzleError::MalformedBoard);
        }
        let blank_index = size * blank_position.0 + blank_position.1;
        assert(blank_index == flat_index(blank_position, size as nat)) by (nonlinear_arith)
            requires
                blank_index == size * blank_position.0 + blank_position.1,
        ;
        let end = size * size - 1;
        let ghost expected = laid_out(start_items@, size as nat, blank_index as int);
        let mut board_pieces: Vec<Option<u8>> = Vec::new();
        let mut i: usize = 0;
        while i < blank_index
            invariant
                i <= blank_index < size * size,
                end == size * size - 1,
                end <= start_items@.len(),
                expected == laid_out(start_items@, size as nat, blank_index as int),
                board_pieces@.len() == i,
                forall|j: int| 0 <= j < i ==> #[trigger] board_pieces@[j] == expected[j],
            decreases blank_index - i,
        {
            board_pieces.push(Some(start_items[i]));
            i = i + 1;
        }
        board_pieces.push(None);
        let mut k: usize = blank_index;
        while k < end
            invariant
                blank_index <= k <= end,
                blank_index < size * size,
                end == size * size - 1,
                end <= start_items@.len(),
                expected == laid_out(start_items@, size as nat, blank_index as int),
                board_pieces@.len() == k + 1,
                forall|j: int| 0 <= j <= k ==> #[trigger] board_pieces@[j] == expected[j],
            decreases end - k,
        {
            board_pieces.push(Some(start_items[k]));
            k = k + 1;
        }
        assert(board_pieces@ =~= expected);
        assert((size as nat * size as nat) == board_pieces@.len());
        match square_from_vec(board_pieces) {
            Ok(board) => {
                proof {
                    lemma_square_eq(grid_rows(board), size as nat);
                }
                let r = NPuzzle { board, blank_row: blank_position.0, blank_col: blank_position.1 };
                assert(r.wf());
                Ok(r)
            },
            Err(_) => Err(PuzzleError::MalformedBoard),
        }
    }
}

impl NPuzzle {
    /// The board after the blank swaps places with the tile at
    /// `new_blank_position`, which must be next to the blank.
    pub fn move_blank(&self, new_blank_position: Pos) -> (r: NPuzzle)
        requires
            self.wf(),
            self@.neighbours().contains(new_blank_position),
        ensures
            r.wf(),
            r@ == self@.moved(new_blank_position),
    {
        proof {
            lemma_neighbour(self@.blank, self@.size, new_blank_position);
        }
        let mut new_board = clone_grid(&self.board);
        swap(&mut new_board, (self.blank_row, self.blank_col), new_blank_position);
        let r = NPuzzle { board: new_board, blank_row: new_blank_position.0, blank_col: new_blank_position.1 };
        assert(r@.cells =~= self@.moved(new_blank_position).cells);
        r
    }

    /// One board per legal move of the blank: two with the blank in a
    /// corner, three on an edge, four inside.
    pub fn successors(&self) -> (r: Vec<NPuzzle>)
        requires
            self.wf(),
        ensures
            views(r@) == self@.successors(),
            forall|i: int| 0 <= i < r@.len() ==> (#[trigger] r@[i]).wf(),
    {
        let positions = neighbours(&self.board, (self.blank_row, self.blank_col));
        let mut out: Vec<NPuzzle> = Vec::new();
        let mut i: usize = 0;
        while i < positions.len()
            invariant
                self.wf(),
                positions@ == self@.neighbours(),
                i <= positions@.len(),
                out@.len() == i,
                forall|j: int| 0 <= j < i ==> (#[trigger] out@[j]).wf() && out@[j]@ == self@.moved(positions@[j]),
            decreases positions@.len() - i,
        {
            assert(self@.neighbours().contains(positions@[i as int]));
            out.push(self.move_blank(positions[i]));
            i = i + 1;
        }
        assert(views(out@) =~= self@.successors());
        out
    }

    /// The successors, each with the cost of its move, which is always 1.
    pub fn successors_with_costs(&self) -> (r: Vec<(NPuzzle, usize)>)
        requires
            self.wf(),
        ensures
            r@.len() == self@.successors().len(),
            forall|i: int|
                0 <= i < r@.len() ==> (#[trigger] r@[i]).0.wf() && r@[i].0@ == self@.successors()[i]
                    && r@[i].1 == 1,
    {
        let succ = self.successors();
        let mut out: Vec<(NPuzzle, usize)> = Vec::new();
        let mut i: usize = 0;
        while i < succ.len()
            invariant
                views(succ@) == self@.successors(),
                forall|j: int| 0 <= j < succ@.len() ==> (#[trigger] succ@[j]).wf(),
                i <= succ@.len(),
                out@.len() == i,
                forall|j: int|
                    0 <= j < i ==> (#[trigger] out@[j]).0.wf() && out@[j].0@ == succ@[j]@ && out@[j].1 == 1,
            decreases succ@.len() - i,
        {
            out.push((succ[i].clone(), 1));
            i = i + 1;
        }
        out
    }

    /// The misplaced-tile count: the tiles whose label is not the one their
    /// cell holds in the solved board.
    pub fn num_incorrect(&self) -> (r: usize)
        requires
            self.wf(),
        ensures
            r == self@.num_misplaced(),
    {
        let cells = items(&self.board);
        let mut count: usize = 0;
        let mut i: usize = 0;
        while i < cells.len()
            invariant
                self.wf(),
                cells@.len() == self@.cells.len(),
                forall|j: int| 0 <= j < cells@.len() ==> (#[trigger] cells@[j]).1 == self@.cells[j],
                i <= cells@.len(),
                count == self@.misplaced_upto(i as int),
                count <= i,
            decreases cells@.len() - i,
        {
            let (_, value) = cells[i];
            if let Some(v) = value {
                if i != (v - 1) as usize {
                    count = count + 1;
                }
            }
            i = i + 1;
        }
        count
    }

    /// The taxicab distance: over all tiles, the rows plus the columns
    /// between a tile and its cell in the solved board.
    pub fn taxicab_distance(&self) -> (r: usize)
        requires
            self.wf(),
        ensures
            r == self@.taxicab(),
    {
        let n = row_count(&self.board);
        let cells = items(&self.board);
        let mut sum: usize = 0;
        let mut i: usize = 0;
        while i < cells.len()
            invariant
                self.wf(),
                n == self@.size,
                cells@.len() == self@.cells.len(),
                cells@.len() == n * n,
                forall|j: int|
                    0 <= j < cells@.len() ==> (#[trigger] cells@[j]) == (
                        ((j / n as int) as usize, (j % n as int) as usize),
                        self@.cells[j],
                    ),
                i <= cells@.len(),
                sum == self@.taxicab_upto(i as int),
                sum <= 512 * i,
            decreases cells@.len() - i,
        {
            let ((x, y), value) = cells[i];
            proof {
                assert(n * n <= 256) by (nonlinear_arith)
                    requires
                        n <= 16,
                ;
                assert(x <= i) by {
                    vstd::arithmetic::div_mod::lemma_div_is_ordered_by_denominator(i as int, 1, n as int);
                }
                vstd::arithmetic::div_mod::lemma_mod_bound(i as int, n as int);
            }
            if let Some(v) = value {
                let goal = (v - 1) as usize;
                proof {
                    vstd::arithmetic::div_mod::lemma_div_is_ordered_by_denominator(goal as int, 1, n as int);
                    vstd::arithmetic::div_mod::lemma_mod_bound(goal as int, n as int);
                }
                let (x_val, y_val) = (goal / n, goal % n);
                sum = sum + abs_diff(x, x_val) + abs_diff(y, y_val);
            }
            i = i + 1;
        }
        sum
    }

    /// Whether the board is solved.
    pub fn success(&self) -> (r: bool)
        requires
            self.wf(),
        ensures
            r == self@.is_goal(),
    {
        self.num_incorrect() == 0
    }

    /// Where the blank is.
    pub fn blank_position(&self) -> (r: Pos)
        ensures
            r == self@.blank,
    {
        (self.blank_row, self.blank_col)
    }

    /// The side length of the board.
    pub fn size(&self) -> (r: usize)
        ensures
            r == self@.size,
    {
        row_count(&self.board)
    }

    /// The cells, first row first; `None` is the blank.
    pub fn cells(&self) -> (r: Vec<Option<u8>>)
        ensures
            r@ == self@.cells,
    {
        let cells = items(&self.board);
        let mut out: Vec<Option<u8>> = Vec::new();
        let mut i: usize = 0;
        while i < cells.len()
            invariant
                cells@.len() == self@.cells.len(),
                forall|j: int| 0 <= j < cells@.len() ==> (#[trigger] cells@[j]).1 == self@.cells[j],
                i <= cells@.len(),
                out@.len() == i,
                forall|j: int| 0 <= j < i ==> #[trigger] out@[j] == self@.cells[j],
            decreases cells@.len() - i,
        {
            out.push(cells[i].1);
            i = i + 1;
        }
        assert(out@ =~= self@.cells);
        out
    }
}

/// `|a - b|` on machine integers.
fn abs_diff(a: usize, b: usize) -> (r: usize)
    ensures
        r == dist(a as int, b as int),
{
    if a >= b {
        a - b
    } else {
        b - a
    }
}

impl Clone for NPuzzle {
    fn clone(&self) -> (r: NPuzzle)
        ensures
            r@ == self@,
            self.wf() ==> r.wf(),
    {
        NPuzzle { board: clone_grid(&self.board), blank_row: self.blank_row, blank_col: self.blank_col }
    }
}

proof fn lemma_square_index(r: int, c: int, n: int)
    requires
        0 <= r < n,
        0 <= c < n,
    ensures
        0 <= r * n + c < n * n,
{
    assert(r * n + c < n * n) by (nonlinear_arith)
        requires
            0 <= r < n,
            0 <= c < n,
    ;
    assert(0 <= r * n) by (nonlinear_arith)
        requires
            0 <= r,
            0 <= n,
    ;
}

/// A neighbour of a cell lies on the grid and has another index.
pub(crate) proof fn lemma_neighbour(pos: Pos, n: nat, p: Pos)
    requires
        n <= MAX_SIZE,
        pos.0 < n,
        pos.1 < n,
        adjacent_cells(pos, n, n).contains(p),
    ensures
        p.0 < n,
        p.1 < n,
        0 <= flat_index(p, n) < n * n,
        0 <= flat_index(pos, n) < n * n,
        flat_index(p, n) != flat_index(pos, n),
        dist(p.0 as int, pos.0 as int) + dist(p.1 as int, pos.1 as int) == 1,
{
    let (r, c) = pos;
    let up = if r > 0 { seq![((r - 1) as usize, c)] } else { seq![] };
    let left = if c > 0 { seq![(r, (c - 1) as usize)] } else { seq![] };
    let right = if c + 1 < n { seq![(r, (c + 1) as usize)] } else { seq![] };
    let down = if r + 1 < n { seq![((r + 1) as usize, c)] } else { seq![] };
    let s = up + left + right + down;
    assert(adjacent_cells(pos, n, n) == s);
    let j = choose|j: int| 0 <= j < s.len() && s[j] == p;
    assert(s[j] == p);
    let a = up.len() as int;
    let b = a + left.len();
    let d = b + right.len();
    if j < a {
        assert(up[j] == p);
    } else if j < b {
        assert(left[j - a] == p);
    } else if j < d {
        assert(right[j - b] == p);
    } else {
        assert(down[j - d] == p);
    }
    assert(p.0 < n && p.1 < n && (p.0 == r && p.1 != c || p.1 == c && (p.0 == r + 1 || p.0 + 1 == r)));
    lemma_square_index(p.0 as int, p.1 as int, n as int);
    lemma_square_index(r as int, c as int, n as int);
    if p.0 == r + 1 {
        assert((r + 1) * n + c == r * n + c + n) by (nonlinear_arith);
    } else if p.0 + 1 == r {
        assert((p.0 + 1) * n + c == p.0 * n + c + n) by (nonlinear_arith);
    }
}

proof fn lemma_square_eq(a: nat, b: nat)
    requires
        a * a == b * b,
    ensures
        a == b,
{
    if a < b {
        assert(a * a < b * b) by (nonlinear_arith)
            requires
                a < b,
        ;
    } else if b < a {
        assert(b * b < a * a) by (nonlinear_arith)
            requires
                b < a,
        ;
    }
}

} // verus!
