use vstd::prelude::*;

verus! {

/// A board cell.
#[derive(Clone, Copy, Debug, PartialEq, Eq, Structural)]
pub enum Square {
    /// Covered cell
    Empty,
    /// Mine cell
    Mine,
    /// Mine-free cell
    Safe,
    /// The cell whose status is queried
    Probe,
    /// Cell labelled with the number of mines around it
    Number(usize),
}

/// Covered and probe cells are both unknown to the clue arithmetic.
pub open spec fn is_covered(s: Square) -> bool {
    s is Empty || s is Probe
}

/// A grid of vectors seen as a grid of sequences.
pub open spec fn grid_view<T>(g: Seq<Vec<T>>) -> Seq<Seq<T>> {
    g.map_values(|row: Vec<T>| row@)
}

/// Positions as pairs of mathematical integers.
pub open spec fn cells_int(v: Seq<(usize, usize)>) -> Seq<(int, int)> {
    v.map_values(|p: (usize, usize)| (p.0 as int, p.1 as int))
}

pub open spec fn num_rows<T>(b: Seq<Seq<T>>) -> int {
    b.len() as int
}

pub open spec fn num_cols<T>(b: Seq<Seq<T>>) -> int {
    if b.len() == 0 { 0 } else { b[0].len() as int }
}

/// Every row has the length of the first.
pub open spec fn is_rectangular<T>(b: Seq<Seq<T>>) -> bool {
    forall|i: int| 0 <= i < b.len() ==> #[trigger] b[i].len() == num_cols(b)
}

pub open spec fn in_bounds<T>(b: Seq<Seq<T>>, r: int, c: int) -> bool {
    0 <= r < num_rows(b) && 0 <= c < num_cols(b)
}

pub open spec fn is_probe_at(b: Seq<Seq<Square>>, r: int, c: int) -> bool {
    0 <= r < b.len() && 0 <= c < b[r].len() && b[r][c] is Probe
}

pub open spec fn has_probe(b: Seq<Seq<Square>>) -> bool {
    exists|r: int, c: int| is_probe_at(b, r, c)
}

pub open spec fn has_two_probes(b: Seq<Seq<Square>>) -> bool {
    exists|r1: int, c1: int, r2: int, c2: int|
        is_probe_at(b, r1, c1) && is_probe_at(b, r2, c2) && (r1, c1) != (r2, c2)
}

pub open spec fn clues_in_range(b: Seq<Seq<Square>>) -> bool {
    forall|r: int, c: int|
        0 <= r < b.len() && 0 <= c < b[r].len() && (#[trigger] b[r][c]) is Number ==> b[r][c]->Number_0
            <= 8
}

/// A well-formed board: rectangular, not empty, clues in 0..=8, exactly one probe.
pub open spec fn board_wf(b: Seq<Seq<Square>>) -> bool {
    &&& is_rectangular(b)
    &&& num_rows(b) > 0
    &&& num_cols(b) > 0
    &&& clues_in_range(b)
    &&& has_probe(b)
    &&& !has_two_probes(b)
}

/// Cell `(r2, c2)` is one of the eight compass neighbours of `(r, c)` on an
/// `nr` by `nc` grid.
pub open spec fn adjacent(r: int, c: int, r2: int, c2: int, nr: int, nc: int) -> bool {
    &&& 0 <= r2 < nr
    &&& 0 <= c2 < nc
    &&& (r2, c2) != (r, c)
    &&& r - 1 <= r2 <= r + 1
    &&& c - 1 <= c2 <= c + 1
}

pub open spec fn cell_if(ok: bool, r: int, c: int) -> Seq<(int, int)> {
    if ok {
        seq![(r, c)]
    } else {
        seq![]
    }
}

/// The in-bounds neighbours of `(r, c)`, in row-major order.
pub open spec fn neighbour_seq(r: int, c: int, nr: int, nc: int) -> Seq<(int, int)> {
    cell_if(r > 0 && c > 0, r - 1, c - 1) + cell_if(r > 0, r - 1, c) + cell_if(
        r > 0 && c + 1 < nc,
        r - 1,
        c + 1,
    ) + cell_if(c > 0, r, c - 1) + cell_if(c + 1 < nc, r, c + 1) + cell_if(
        r + 1 < nr && c > 0,
        r + 1,
        c - 1,
    ) + cell_if(r + 1 < nr, r + 1, c) + cell_if(r + 1 < nr && c + 1 < nc, r + 1, c + 1)
}

/// The neighbour sequence holds exactly the adjacent cells, each once.
#[verifier::rlimit(100)]
pub proof fn lemma_neighbour_seq(r: int, c: int, nr: int, nc: int)
    requires
        0 <= r < nr,
        0 <= c < nc,
    ensures
        forall|p: (int, int)|
            neighbour_seq(r, c, nr, nc).contains(p) <==> adjacent(r, c, p.0, p.1, nr, nc),
        neighbour_seq(r, c, nr, nc).no_duplicates(),
        neighbour_seq(r, c, nr, nc).len() <= 8,
{
    let s = neighbour_seq(r, c, nr, nc);
    assert forall|p: (int, int)| s.contains(p) <==> adjacent(r, c, p.0, p.1, nr, nc) by {
        if adjacent(r, c, p.0, p.1, nr, nc) {
            let i: int = if p.0 == r - 1 {
                if p.1 == c - 1 {
                    0
                } else if p.1 == c {
                    cell_if(r > 0 && c > 0, r - 1, c - 1).len() as int
                } else {
                    (cell_if(r > 0 && c > 0, r - 1, c - 1) + cell_if(r > 0, r - 1, c)).len() as int
                }
            } else if p.0 == r {
                let pre = cell_if(r > 0 && c > 0, r - 1, c - 1) + cell_if(r > 0, r - 1, c)
                    + cell_if(r > 0 && c + 1 < nc, r - 1, c + 1);
                if p.1 == c - 1 {
                    pre.len() as int
                } else {
                    (pre + cell_if(c > 0, r, c - 1)).len() as int
                }
            } else {
                let pre = cell_if(r > 0 && c > 0, r - 1, c - 1) + cell_if(r > 0, r - 1, c)
                    + cell_if(r > 0 && c + 1 < nc, r - 1, c + 1) + cell_if(c > 0, r, c - 1)
                    + cell_if(c + 1 < nc, r, c + 1);
                if p.1 == c - 1 {
                    pre.len() as int
                } else if p.1 == c {
                    (pre + cell_if(r + 1 < nr && c > 0, r + 1, c - 1)).len() as int
                } else {
                    (pre + cell_if(r + 1 < nr && c > 0, r + 1, c - 1) + cell_if(
                        r + 1 < nr,
                        r + 1,
                        c,
                    )).len() as int
                }
            };
            assert(s[i] == p);
        }
        if s.contains(p) {
            let i = choose|i: int| 0 <= i < s.len() && s[i] == p;
            assert(adjacent(r, c, s[i].0, s[i].1, nr, nc));
        }
    }
    assert forall|i: int, j: int| 0 <= i < s.len() && 0 <= j < s.len() && i != j implies s[i]
        != s[j] by {}
}

/// Adjacency is symmetric.
pub proof fn lemma_adjacent_symmetric(r: int, c: int, r2: int, c2: int, nr: int, nc: int)
    requires
        0 <= r < nr,
        0 <= c < nc,
        adjacent(r, c, r2, c2, nr, nc),
    ensures
        adjacent(r2, c2, r, c, nr, nc),
{
}

/// A board configuration: the grid of cells and where its probe stands.
pub struct Configuration {
    pub board: Vec<Vec<Square>>,
    pub probe_row: usize,
    pub probe_col: usize,
}

impl Configuration {
    pub open spec fn view(&self) -> Seq<Seq<Square>> {
        grid_view(self.board@)
    }

    pub open spec fn wf(&self) -> bool {
        &&& board_wf(self.view())
        &&& is_probe_at(self.view(), self.probe_row as int, self.probe_col as int)
    }

    pub fn rows(&self) -> (n: usize)
        requires
            self.wf(),
        ensures
            n == num_rows(self.view()),
    {
        self.board.len()
    }

    pub fn cols(&self) -> (n: usize)
        requires
            self.wf(),
        ensures
            n == num_cols(self.view()),
    {
        proof { self.lemma_cell(0, 0) }
        self.board[0].len()
    }

    proof fn lemma_cell(&self, row: int, col: int)
        requires
            self.wf(),
            in_bounds(self.view(), row, col),
        ensures
            self.board@[row]@.len() == num_cols(self.view()),
            self.board@[row]@[col] == self.view()[row][col],
    {
        assert(self.view()[row].len() == num_cols(self.view()));
    }

    pub fn square(&self, row: usize, col: usize) -> (s: Square)
        requires
            self.wf(),
            in_bounds(self.view(), row as int, col as int),
        ensures
            s == self.view()[row as int][col as int],
    {
        proof { self.lemma_cell(row as int, col as int) }
        self.board[row][col]
    }

    pub fn is_mine(&self, row: usize, col: usize) -> (r: bool)
        requires
            self.wf(),
            in_bounds(self.view(), row as int, col as int),
        ensures
            r == (self.view()[row as int][col as int] is Mine),
    {
        proof { self.lemma_cell(row as int, col as int) }
        match self.board[row][col] {
            Square::Mine => true,
            _ => false,
        }
    }

    pub fn is_empty(&self, row: usize, col: usize) -> (r: bool)
        requires
            self.wf(),
            in_bounds(self.view(), row as int, col as int),
        ensures
            r == is_covered(self.view()[row as int][col as int]),
    {
        proof { self.lemma_cell(row as int, col as int) }
        match self.board[row][col] {
            Square::Empty => true,
            Square::Probe => true,
            _ => false,
        }
    }

    /// The in-bounds neighbours of a cell, in row-major order.
    pub fn neighbours(&self, row: usize, col: usize) -> (result: Vec<(usize, usize)>)
        requires
            self.wf(),
            in_bounds(self.view(), row as int, col as int),
        ensures
            cells_int(result@) == neighbour_seq(
                row as int,
                col as int,
                num_rows(self.view()),
                num_cols(self.view()),
            ),
    {
        let nr = self.rows();
        let nc = self.cols();
        let ghost (r, c) = (row as int, col as int);
        let mut result: Vec<(usize, usize)> = Vec::new();
        if row > 0 && col > 0 {
            result.push((row - 1, col - 1));
        }
        assert(cells_int(result@) =~= cell_if(r > 0 && c > 0, r - 1, c - 1));
        let ghost s1 = cells_int(result@);
        if row > 0 {
            result.push((row - 1, col));
        }
        assert(cells_int(result@) =~= s1 + cell_if(r > 0, r - 1, c));
        let ghost s2 = cells_int(result@);
        if row > 0 && col + 1 < nc {
            result.push((row - 1, col + 1));
        }
        assert(cells_int(result@) =~= s2 + cell_if(r > 0 && c + 1 < nc, r - 1, c + 1));
        let ghost s3 = cells_int(result@);
        if col > 0 {
            result.push((row, col - 1));
        }
        assert(cells_int(result@) =~= s3 + cell_if(c > 0, r, c - 1));
        let ghost s4 = cells_int(result@);
        if col + 1 < nc {
            result.push((row, col + 1));
        }
        assert(cells_int(result@) =~= s4 + cell_if(c + 1 < nc, r, c + 1));
        let ghost s5 = cells_int(result@);
        if row + 1 < nr && col > 0 {
            result.push((row + 1, col - 1));
        }
        assert(cells_int(result@) =~= s5 + cell_if(r + 1 < nr && c > 0, r + 1, c - 1));
        let ghost s6 = cells_int(result@);
        if row + 1 < nr {
            result.push((row + 1, col));
        }
        assert(cells_int(result@) =~= s6 + cell_if(r + 1 < nr, r + 1, c));
        let ghost s7 = cells_int(result@);
        if row + 1 < nr && col + 1 < nc {
            result.push((row + 1, col + 1));
        }
        assert(cells_int(result@) =~= s7 + cell_if(r + 1 < nr && c + 1 < nc, r + 1, c + 1));
        result
    }
}

} // verus!
