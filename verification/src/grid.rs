//! Two-dimensional sample grids.
//!
//! A grid is generic in its sample type: the functions here only move
//! samples around, they never compute with them.
use vstd::prelude::*;

verus! {

/// Mathematical content of a grid: `lines.len()` rows of `cols` samples.
#[verifier::ext_equal]
pub struct GridView<T> {
    pub cols: nat,
    pub lines: Seq<Seq<T>>,
}

impl<T> GridView<T> {
    /// Number of rows.
    pub open spec fn rows(self) -> nat {
        self.lines.len()
    }

    /// Every row holds exactly `cols` samples.
    pub open spec fn wf(self) -> bool {
        forall|r: int| 0 <= r < self.lines.len() ==> (#[trigger] self.lines[r]).len() == self.cols
    }

    /// The sample in row `r`, column `c`.
    pub open spec fn at(self, r: int, c: int) -> T {
        self.lines[r][c]
    }

    /// The grid with the sample at `(r, c)` replaced by `value`.
    pub open spec fn with(self, r: int, c: int, value: T) -> GridView<T> {
        GridView { cols: self.cols, lines: self.lines.update(r, self.lines[r].update(c, value)) }
    }

    /// Both grids have the same number of rows and of columns.
    pub open spec fn same_shape(self, other: GridView<T>) -> bool {
        self.rows() == other.rows() && self.cols == other.cols
    }

    /// The grid of the given shape whose samples are given by `cell`.
    pub open spec fn build(rows: nat, cols: nat, cell: spec_fn(int, int) -> T) -> GridView<T> {
        GridView { cols, lines: Seq::new(rows, |r: int| Seq::new(cols, |c: int| cell(r, c))) }
    }
}

/// An owned rectangular array of samples, stored row by row.
pub struct Grid<T> {
    cols: usize,
    lines: Vec<Vec<T>>,
}

impl<T> View for Grid<T> {
    type V = GridView<T>;

    closed spec fn view(&self) -> GridView<T> {
        GridView { cols: self.cols as nat, lines: Seq::new(self.lines@.len(), |r: int| self.lines@[r]@) }
    }
}

impl<T> Grid<T> {
    #[verifier::type_invariant]
    spec fn inv(&self) -> bool {
        forall|r: int| 0 <= r < self.lines@.len() ==> (#[trigger] self.lines@[r])@.len() == self.cols
    }
}

impl<T: Copy> Grid<T> {
    /// Number of rows.
    pub fn rows(&self) -> (n: usize)
        ensures
            n == self@.rows(),
            self@.wf(),
    {
        proof {
            use_type_invariant(self);
        }
        self.lines.len()
    }

    /// Number of columns.
    pub fn cols(&self) -> (n: usize)
        ensures
            n == self@.cols,
            self@.wf(),
    {
        proof {
            use_type_invariant(self);
        }
        self.cols
    }

    /// The sample in row `r`, column `c`.
    pub fn get(&self, r: usize, c: usize) -> (v: T)
        requires
            r < self@.rows(),
            c < self@.cols,
        ensures
            v == self@.at(r as int, c as int),
    {
        proof {
            use_type_invariant(self);
        }
        let line = &self.lines[r];
        line[c]
    }

    /// Builds a grid from its rows; `None` when the rows differ in length.
    /// An empty list of rows gives the grid with no rows and no columns.
    pub fn from_rows(lines: Vec<Vec<T>>) -> (res: Option<Grid<T>>)
        ensures
            res is Some <==> (forall|r: int|
                0 <= r < lines@.len() ==> (#[trigger] lines@[r])@.len() == lines@[0]@.len()),
            res matches Some(g) ==> {
                &&& g@.wf()
                &&& g@.lines == Seq::new(lines@.len(), |r: int| lines@[r]@)
                &&& g@.cols == (if lines@.len() == 0 { 0 } else { lines@[0]@.len() })
            },
    {
        let cols = if lines.len() == 0 { 0 } else { lines[0].len() };
        let mut r: usize = 0;
        while r < lines.len()
            invariant
                r <= lines@.len(),
                lines@.len() > 0 ==> cols == lines@[0]@.len(),
                forall|q: int| 0 <= q < r ==> (#[trigger] lines@[q])@.len() == cols,
            decreases lines@.len() - r,
        {
            if lines[r].len() != cols {
                return None;
            }
            r += 1;
        }
        Some(Grid { cols, lines })
    }

    /// Builds a grid from rows that are known to have `cols` samples each.
    pub(crate) fn from_lines(cols: usize, lines: Vec<Vec<T>>) -> (g: Grid<T>)
        requires
            forall|r: int| 0 <= r < lines@.len() ==> (#[trigger] lines@[r])@.len() == cols,
        ensures
            g@.wf(),
            g@.cols == cols,
            g@.lines == Seq::new(lines@.len(), |r: int| lines@[r]@),
    {
        Grid { cols, lines }
    }

    /// A grid of the given shape with every sample equal to `value`.
    pub fn filled(rows: usize, cols: usize, value: T) -> (g: Grid<T>)
        ensures
            g@.wf(),
            g@ == GridView::build(rows as nat, cols as nat, |r: int, c: int| value),
    {
        let mut lines: Vec<Vec<T>> = Vec::new();
        let mut r: usize = 0;
        while r < rows
            invariant
                r <= rows,
                lines@.len() == r,
                forall|q: int| 0 <= q < r ==> (#[trigger] lines@[q])@ == Seq::new(cols as nat, |c: int| value),
            decreases rows - r,
        {
            let mut line: Vec<T> = Vec::new();
            let mut c: usize = 0;
            while c < cols
                invariant
                    c <= cols,
                    line@.len() == c,
                    forall|p: int| 0 <= p < c ==> line@[p] == value,
                decreases cols - c,
            {
                line.push(value);
                c += 1;
            }
            assert(line@ =~= Seq::new(cols as nat, |c: int| value));
            lines.push(line);
            r += 1;
        }
        let g = Grid { cols, lines };
        assert(g@ =~~= GridView::build(rows as nat, cols as nat, |r: int, c: int| value));
        g
    }

    /// The grid with the sample in row `r`, column `c` replaced by `value`.
    pub fn replaced(self, r: usize, c: usize, value: T) -> (out: Grid<T>)
        requires
            r < self@.rows(),
            c < self@.cols,
        ensures
            out@.wf(),
            out@ == self@.with(r as int, c as int, value),
    {
        proof {
            use_type_invariant(&self);
        }
        let ghost before = self@;
        let cols = self.cols;
        let mut lines = self.lines;
        let mut line: Vec<T> = Vec::new();
        let mut i: usize = 0;
        while i < cols
            invariant
                i <= cols,
                r < lines@.len(),
                c < cols,
                lines@[r as int]@.len() == cols,
                line@.len() == i,
                forall|p: int|
                    0 <= p < i ==> line@[p] == (if p == c {
                        value
                    } else {
                        lines@[r as int]@[p]
                    }),
            decreases cols - i,
        {
            let v = if i == c {
                value
            } else {
                let row = &lines[r];
                row[i]
            };
            line.push(v);
            i += 1;
        }
        assert(line@ =~= before.lines[r as int].update(c as int, value));
        lines.set(r, line);
        let out = Grid { cols, lines };
        assert(out@ =~~= before.with(r as int, c as int, value));
        out
    }

    /// A copy of the grid.
    pub fn duplicate(&self) -> (copy: Grid<T>)
        ensures
            copy@.wf(),
            copy@ == self@,
    {
        proof {
            use_type_invariant(self);
        }
        let mut lines: Vec<Vec<T>> = Vec::new();
        let mut r: usize = 0;
        while r < self.lines.len()
            invariant
                r <= self.lines@.len(),
                lines@.len() == r,
                forall|q: int| 0 <= q < self.lines@.len() ==> (#[trigger] self.lines@[q])@.len() == self.cols,
                forall|q: int| 0 <= q < r ==> (#[trigger] lines@[q])@ == self.lines@[q]@,
            decreases self.lines@.len() - r,
        {
            let row = &self.lines[r];
            let mut line: Vec<T> = Vec::new();
            let mut c: usize = 0;
            while c < row.len()
                invariant
                    c <= row@.len(),
                    line@.len() == c,
                    forall|p: int| 0 <= p < c ==> line@[p] == row@[p],
                decreases row@.len() - c,
            {
                line.push(row[c]);
                c += 1;
            }
            assert(line@ =~= row@);
            lines.push(line);
            r += 1;
        }
        let copy = Grid { cols: self.cols, lines };
        assert(copy@ =~~= self@);
        copy
    }

    /// The rows of the grid, top to bottom.
    pub fn into_rows(self) -> (lines: Vec<Vec<T>>)
        ensures
            Seq::new(lines@.len(), |r: int| lines@[r]@) == self@.lines,
    {
        assert(Seq::new(self.lines@.len(), |r: int| self.lines@[r]@) =~= self@.lines);
        self.lines
    }
}

} // verus!
