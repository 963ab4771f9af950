//! A rectangular grid stored row-major in one flat vector.
//!
//! `Grid` is a generic container: the simulator itself does not depend on
//! it, but scalar fields sampled over the plane (for finite-difference
//! work) are kept in one.  Rows and columns are handed out as materialized
//! snapshots ([`Row`], [`Col`]) rather than lazy iterators.

use vstd::prelude::*;

verus! {

/// A `rows x cols` grid; cell `(r, c)` lives at flat index `r * cols + c`.
#[derive(Clone, Debug)]
pub struct Grid<T> {
    pub v: Vec<T>,
    pub cols: usize,
}

/// One row of a grid, copied out, together with its row index.
pub struct Row<T> {
    pub cells: Vec<T>,
    pub idx: usize,
}

/// One column of a grid, copied out, together with its column index.
pub struct Col<T> {
    pub cells: Vec<T>,
    pub idx: usize,
}

impl<T> Grid<T> {
    /// Well-formedness: a positive column count that divides the cell count.
    pub open spec fn wf(&self) -> bool {
        self.cols > 0 && (self.v@.len() as int) % (self.cols as int) == 0
    }

    /// Number of rows.
    pub open spec fn spec_rows(&self) -> int {
        self.v@.len() as int / self.cols as int
    }

    /// The cell at row `r`, column `c`.
    pub open spec fn cell(&self, r: int, c: int) -> T {
        self.v@[r * (self.cols as int) + c]
    }

    /// Row `r` as a sequence.
    pub open spec fn row_seq(&self, r: int) -> Seq<T> {
        self.v@.subrange(r * (self.cols as int), r * (self.cols as int) + (self.cols as int))
    }

    /// Column `c` as a sequence.
    pub open spec fn col_seq(&self, c: int) -> Seq<T> {
        Seq::new(self.spec_rows() as nat, |r: int| self.cell(r, c))
    }

    /// Wrap a flat vector; `cols` must be positive and divide its length.
    pub fn from_vec(v: Vec<T>, cols: usize) -> (g: Grid<T>)
        requires
            cols > 0,
            (v@.len() as int) % (cols as int) == 0,
        ensures
            g.v@ == v@,
            g.cols == cols,
            g.wf(),
    {
        Grid { v, cols }
    }

    /// Number of rows.
    pub fn rows(&self) -> (r: usize)
        requires
            self.wf(),
        ensures
            r == self.spec_rows(),
    {
        self.v.len() / self.cols
    }

    /// Number of columns.
    pub fn cols(&self) -> (c: usize)
        ensures
            c == self.cols,
    {
        self.cols
    }

    /// Returns `(rows, cols)`.
    pub fn size(&self) -> (s: (usize, usize))
        requires
            self.wf(),
        ensures
            s.0 == self.spec_rows(),
            s.1 == self.cols,
    {
        (self.rows(), self.cols())
    }

    /// Read the cell at row `r`, column `c`.
    pub fn at(&self, r: usize, c: usize) -> (x: &T)
        requires
            self.wf(),
            r < self.spec_rows(),
            c < self.cols,
        ensures
            *x == self.cell(r as int, c as int),
    {
        proof {
            assert(self.v.len() == self.v@.len());
            lemma_flat_len(self.v@.len() as int, self.cols as int);
            lemma_row_major_index(r as int, c as int, self.spec_rows(), self.cols as int);
        }
        &self.v[r * self.cols + c]
    }

    /// Overwrite the cell at row `r`, column `c`.
    pub fn set(&mut self, r: usize, c: usize, x: T)
        requires
            old(self).wf(),
            r < old(self).spec_rows(),
            c < old(self).cols,
        ensures
            final(self).cols == old(self).cols,
            final(self).v@ == old(self).v@.update(
                r * (old(self).cols as int) + c,
                x,
            ),
            final(self).wf(),
            final(self).spec_rows() == old(self).spec_rows(),
    {
        proof {
            assert(self.v.len() == self.v@.len());
            lemma_flat_len(self.v@.len() as int, self.cols as int);
            lemma_row_major_index(r as int, c as int, self.spec_rows(), self.cols as int);
        }
        let i: usize = r * self.cols + c;
        self.v.set(i, x);
    }

    /// Combine two grids of the same shape cell by cell with `f`.
    pub fn merge_entrywise<U, V, F: Fn(&T, &U) -> V>(&self, right: &Grid<U>, f: F) -> (out: Grid<
        V,
    >)
        requires
            self.wf(),
            right.wf(),
            self.v@.len() == right.v@.len(),
            self.cols == right.cols,
            forall|i: int|
                0 <= i < self.v@.len() ==> call_requires(f, (&self.v@[i], &right.v@[i])),
        ensures
            out.cols == self.cols,
            out.v@.len() == self.v@.len(),
            out.wf(),
            forall|i: int|
                0 <= i < self.v@.len() ==> call_ensures(
                    f,
                    (&self.v@[i], &right.v@[i]),
                    #[trigger] out.v@[i],
                ),
    {
        let mut v: Vec<V> = Vec::new();
        let n: usize = self.v.len();
        for i in 0..n
            invariant
                n == self.v@.len(),
                n == right.v@.len(),
                v@.len() == i,
                forall|j: int|
                    0 <= j < self.v@.len() ==> call_requires(f, (&self.v@[j], &right.v@[j])),
                forall|j: int|
                    0 <= j < i ==> call_ensures(f, (&self.v@[j], &right.v@[j]), #[trigger] v@[j]),
        {
            let x: V = f(&self.v[i], &right.v[i]);
            v.push(x);
        }
        Grid { v, cols: self.cols }
    }
}

impl<T: Copy> Grid<T> {
    /// Copy out row `r`.
    pub fn row_at(&self, r: usize) -> (row: Row<T>)
        requires
            self.wf(),
            r < self.spec_rows(),
        ensures
            row.idx == r,
            row.cells@ == self.row_seq(r as int),
    {
        let mut cells: Vec<T> = Vec::new();
        let c_total: usize = self.cols;
        for c in 0..c_total
            invariant
                self.wf(),
                c_total == self.cols,
                r < self.spec_rows(),
                cells@.len() == c,
                forall|j: int| 0 <= j < c ==> cells@[j] == self.cell(r as int, j),
        {
            cells.push(*self.at(r, c));
        }
        proof {
            assert(self.v.len() == self.v@.len());
            lemma_flat_len(self.v@.len() as int, self.cols as int);
            lemma_row_block(r as int, self.spec_rows(), self.cols as int);
            let w: int = self.cols as int;
            assert(self.row_seq(r as int).len() == w);
            assert forall|j: int| 0 <= j < w implies cells@[j] == self.row_seq(r as int)[j] by {
                assert(cells@[j] == self.cell(r as int, j));
                assert(self.row_seq(r as int)[j] == self.v@[(r as int) * w + j]);
            }
            assert(cells@ =~= self.row_seq(r as int));
        }
        Row { cells, idx: r }
    }

    /// Copy out column `c`.
    pub fn col_at(&self, c: usize) -> (col: Col<T>)
        requires
            self.wf(),
            c < self.cols,
        ensures
            col.idx == c,
            col.cells@ == self.col_seq(c as int),
    {
        let mut cells: Vec<T> = Vec::new();
        let r_total: usize = self.rows();
        for r in 0..r_total
            invariant
                self.wf(),
                c < self.cols,
                r_total == self.spec_rows(),
                cells@.len() == r,
                forall|j: int| 0 <= j < r ==> cells@[j] == self.cell(j, c as int),
        {
            cells.push(*self.at(r, c));
        }
        proof {
            assert(cells@ =~= self.col_seq(c as int));
        }
        Col { cells, idx: c }
    }

    /// All rows, in order.
    pub fn iter_rows(&self) -> (rs: Vec<Row<T>>)
        requires
            self.wf(),
        ensures
            rs@.len() == self.spec_rows(),
            forall|r: int|
                0 <= r < self.spec_rows() ==> (#[trigger] rs@[r]).idx == r && rs@[r].cells@
                    == self.row_seq(r),
    {
        let mut rs: Vec<Row<T>> = Vec::new();
        let r_total: usize = self.rows();
        for r in 0..r_total
            invariant
                self.wf(),
                r_total == self.spec_rows(),
                rs@.len() == r,
                forall|j: int|
                    0 <= j < r ==> (#[trigger] rs@[j]).idx == j && rs@[j].cells@
                        == self.row_seq(j),
        {
            rs.push(self.row_at(r));
        }
        rs
    }

    /// All columns, in order.
    pub fn iter_cols(&self) -> (cs: Vec<Col<T>>)
        requires
            self.wf(),
        ensures
            cs@.len() == self.cols,
            forall|c: int|
                0 <= c < self.cols ==> (#[trigger] cs@[c]).idx == c && cs@[c].cells@
                    == self.col_seq(c),
    {
        let mut cs: Vec<Col<T>> = Vec::new();
        let c_total: usize = self.cols;
        for c in 0..c_total
            invariant
                self.wf(),
                c_total == self.cols,
                cs@.len() == c,
                forall|j: int|
                    0 <= j < c ==> (#[trigger] cs@[j]).idx == j && cs@[j].cells@
                        == self.col_seq(j),
        {
            cs.push(self.col_at(c));
        }
        cs
    }

    /// Row `r` of the flat cell sequence `ov` is an output of `f` on row
    /// `r` of `src`.
    pub open spec fn maps_row_to<U, F: Fn(Row<T>) -> Vec<U>>(
        src: Grid<T>,
        f: F,
        ov: Seq<U>,
        r: int,
    ) -> bool {
        exists|row: Row<T>, orow: Vec<U>|
            row.idx == r && row.cells@ == src.row_seq(r) && #[trigger] call_ensures(
                f,
                (row,),
                orow,
            ) && ov.subrange(
                r * (src.cols as int),
                r * (src.cols as int) + (src.cols as int),
            ) == orow@
    }

    /// Map every row through `f`, whose output row must keep the width,
    /// and reassemble the outputs into a grid of the same shape.
    pub fn map_rowwise<U, F: Fn(Row<T>) -> Vec<U>>(&self, f: F) -> (out: Grid<U>)
        requires
            self.wf(),
            forall|row: Row<T>| row.cells@.len() == self.cols ==> call_requires(f, (row,)),
            forall|row: Row<T>, orow: Vec<U>|
                call_ensures(f, (row,), orow) ==> orow@.len() == self.cols,
        ensures
            out.cols == self.cols,
            out.v@.len() == self.v@.len(),
            out.wf(),
            out.spec_rows() == self.spec_rows(),
            forall|r: int|
                0 <= r < self.spec_rows() ==> #[trigger] Grid::maps_row_to(*self, f, out.v@, r),
    {
        let mut v: Vec<U> = Vec::new();
        let r_total: usize = self.rows();
        proof {
            vstd::arithmetic::mul::lemma_mul_basics(self.cols as int);
        }
        for r in 0..r_total
            invariant
                self.wf(),
                r_total == self.spec_rows(),
                v@.len() == r * (self.cols as int),
                forall|row: Row<T>| row.cells@.len() == self.cols ==> call_requires(f, (row,)),
                forall|row: Row<T>, orow: Vec<U>|
                    call_ensures(f, (row,), orow) ==> orow@.len() == self.cols,
                forall|j: int| 0 <= j < r ==> #[trigger] Grid::maps_row_to(*self, f, v@, j),
        {
            proof {
                assert(self.v.len() == self.v@.len());
                lemma_flat_len(self.v@.len() as int, self.cols as int);
                lemma_row_block(r as int, self.spec_rows(), self.cols as int);
            }
            let row: Row<T> = self.row_at(r);
            let ghost row_g = row;
            let orow: Vec<U> = f(row);
            let ghost orow_g = orow;
            let ghost v_old = v@;
            let mut orow_m: Vec<U> = orow;
            v.append(&mut orow_m);
            proof {
                let w: int = self.cols as int;
                assert(v@ == v_old + orow_g@);
                assert((r + 1) * w == r * w + w) by (nonlinear_arith);
                assert forall|j: int| 0 <= j < r + 1 implies #[trigger] Grid::maps_row_to(
                    *self,
                    f,
                    v@,
                    j,
                ) by {
                    if j < r {
                        assert(0 <= j * w && j * w + w <= r * w) by (nonlinear_arith)
                            requires
                                0 <= j < r,
                                w >= 0;
                        assert(Grid::maps_row_to(*self, f, v_old, j));
                        let (rw, ow): (Row<T>, Vec<U>) = choose|rw: Row<T>, ow: Vec<U>|
                            rw.idx == j && rw.cells@ == self.row_seq(j) && #[trigger] call_ensures(
                                f,
                                (rw,),
                                ow,
                            ) && v_old.subrange(j * w, j * w + w) == ow@;
                        assert(v@.subrange(j * w, j * w + w) =~= v_old.subrange(j * w, j * w + w));
                        assert(call_ensures(f, (rw,), ow) && rw.idx == j && rw.cells@
                            == self.row_seq(j) && v@.subrange(j * w, j * w + w) == ow@);
                    } else {
                        assert(v@.subrange(j * w, j * w + w) =~= orow_g@);
                        assert(call_ensures(f, (row_g,), orow_g) && row_g.idx == j && row_g.cells@
                            == self.row_seq(j) && v@.subrange(j * w, j * w + w) == orow_g@);
                    }
                }
            }
        }
        proof {
            lemma_flat_len(self.v@.len() as int, self.cols as int);
            assert(v@.len() == self.v@.len());
        }
        Grid { v, cols: self.cols }
    }

    /// `ocol` is an output of `f` on column `c` of `src`.
    pub open spec fn col_output<U, F: Fn(Col<T>) -> Vec<U>>(
        src: Grid<T>,
        f: F,
        ocol: Vec<U>,
        c: int,
    ) -> bool {
        exists|col: Col<T>|
            col.idx == c && col.cells@ == src.col_seq(c) && #[trigger] call_ensures(f, (col,), ocol)
    }

    /// Column `c` of the flat cell sequence `ov` is an output of `f` on
    /// column `c` of `src`.
    pub open spec fn maps_col_to<U, F: Fn(Col<T>) -> Vec<U>>(
        src: Grid<T>,
        f: F,
        ov: Seq<U>,
        c: int,
    ) -> bool {
        exists|ocol: Vec<U>|
            #[trigger] Grid::col_output(src, f, ocol, c) && Seq::new(
                src.spec_rows() as nat,
                |r: int| ov[r * (src.cols as int) + c],
            ) == ocol@
    }

    /// Map every column through `f`, whose output column must keep the
    /// height, and reassemble the outputs into a grid of the same shape.
    pub fn map_colwise<U: Copy, F: Fn(Col<T>) -> Vec<U>>(&self, f: F) -> (out: Grid<U>)
        requires
            self.wf(),
            forall|col: Col<T>| col.cells@.len() == self.spec_rows() ==> call_requires(f, (col,)),
            forall|col: Col<T>, ocol: Vec<U>|
                call_ensures(f, (col,), ocol) ==> ocol@.len() == self.spec_rows(),
        ensures
            out.cols == self.cols,
            out.v@.len() == self.v@.len(),
            out.wf(),
            out.spec_rows() == self.spec_rows(),
            forall|c: int| 0 <= c < self.cols ==> #[trigger] Grid::maps_col_to(*self, f, out.v@, c),
    {
        let r_total: usize = self.rows();
        let c_total: usize = self.cols;
        let ghost w = self.cols as int;
        let mut outs: Vec<Vec<U>> = Vec::new();
        for c in 0..c_total
            invariant
                self.wf(),
                r_total == self.spec_rows(),
                c_total == self.cols,
                w == self.cols as int,
                forall|col: Col<T>| col.cells@.len() == self.spec_rows() ==> call_requires(
                    f,
                    (col,),
                ),
                forall|col: Col<T>, ocol: Vec<U>|
                    call_ensures(f, (col,), ocol) ==> ocol@.len() == self.spec_rows(),
                outs@.len() == c,
                forall|j: int| 0 <= j < c ==> (#[trigger] outs@[j])@.len() == self.spec_rows(),
                forall|j: int| 0 <= j < c ==> #[trigger] Grid::col_output(*self, f, outs@[j], j),
        {
            let col: Col<T> = self.col_at(c);
            let ghost col_g = col;
            let ocol: Vec<U> = f(col);
            outs.push(ocol);
            proof {
                assert(call_ensures(f, (col_g,), outs@[c as int]));
                assert(Grid::col_output(*self, f, outs@[c as int], c as int));
            }
        }
        let mut v: Vec<U> = Vec::new();
        proof {
            vstd::arithmetic::mul::lemma_mul_basics(w);
        }
        for r in 0..r_total
            invariant
                self.wf(),
                r_total == self.spec_rows(),
                c_total == self.cols,
                w == self.cols as int,
                outs@.len() == c_total,
                forall|j: int| 0 <= j < c_total ==> (#[trigger] outs@[j])@.len()
                    == self.spec_rows(),
                forall|j: int| 0 <= j < c_total ==> #[trigger] Grid::col_output(
                    *self,
                    f,
                    outs@[j],
                    j,
                ),
                v@.len() == r * w,
                forall|k: int| 0 <= k < v@.len() ==> #[trigger] v@[k] == outs@[k % w]@[k / w],
        {
            let ghost v_len0 = v@.len() as int;
            for c in 0..c_total
                invariant
                    self.wf(),
                    r_total == self.spec_rows(),
                    c_total == self.cols,
                    w == self.cols as int,
                    r < r_total,
                    outs@.len() == c_total,
                    forall|j: int| 0 <= j < c_total ==> (#[trigger] outs@[j])@.len()
                        == self.spec_rows(),
                    forall|j: int| 0 <= j < c_total ==> #[trigger] Grid::col_output(
                        *self,
                        f,
                        outs@[j],
                        j,
                    ),
                    v_len0 == r * w,
                    v@.len() == r * w + c,
                    forall|k: int| 0 <= k < v@.len() ==> #[trigger] v@[k] == outs@[k % w]@[k / w],
            {
                proof {
                    vstd::arithmetic::div_mod::lemma_fundamental_div_mod_converse_mod(
                        (r as int) * w + (c as int),
                        w,
                        r as int,
                        c as int,
                    );
                    vstd::arithmetic::div_mod::lemma_fundamental_div_mod_converse_div(
                        (r as int) * w + (c as int),
                        w,
                        r as int,
                        c as int,
                    );
                }
                v.push(outs[c][r]);
            }
            proof {
                assert((r + 1) * w == r * w + w) by (nonlinear_arith);
            }
        }
        proof {
            assert(self.v.len() == self.v@.len());
            lemma_flat_len(self.v@.len() as int, self.cols as int);
            assert(v@.len() == self.v@.len());
        }
        let out = Grid { v, cols: self.cols };
        proof {
            assert forall|c: int| 0 <= c < self.cols implies #[trigger] Grid::maps_col_to(
                *self,
                f,
                out.v@,
                c,
            ) by {
                assert(Grid::col_output(*self, f, outs@[c], c));
                assert forall|r: int|
                    0 <= r < self.spec_rows() implies out.v@[r * w + c] == outs@[c]@[r] by {
                    lemma_row_major_index(r, c, self.spec_rows(), w);
                    vstd::arithmetic::div_mod::lemma_fundamental_div_mod_converse_mod(
                        r * w + c,
                        w,
                        r,
                        c,
                    );
                    vstd::arithmetic::div_mod::lemma_fundamental_div_mod_converse_div(
                        r * w + c,
                        w,
                        r,
                        c,
                    );
                }
                assert(Seq::new(self.spec_rows() as nat, |r: int| out.v@[r * w + c]) =~= outs@[c]@);
            }
        }
        out
    }
}

/// In a `rows x cols` row-major layout, `(r, c)` maps below `rows * cols`.
pub proof fn lemma_row_major_index(r: int, c: int, rows: int, cols: int)
    by (nonlinear_arith)
    requires
        0 <= r < rows,
        0 <= c < cols,
    ensures
        0 <= r * cols + c < rows * cols,
{
}

/// Row `r` occupies the flat range `[r * cols, r * cols + cols)`.
pub proof fn lemma_row_block(r: int, rows: int, cols: int)
    by (nonlinear_arith)
    requires
        0 <= r < rows,
        0 <= cols,
    ensures
        0 <= r * cols,
        r * cols + cols <= rows * cols,
{
}

/// A length that `cols` divides equals `(len / cols) * cols`.
pub proof fn lemma_flat_len(len: int, cols: int)
    requires
        cols > 0,
        len % cols == 0,
    ensures
        len == (len / cols) * cols,
{
    vstd::arithmetic::div_mod::lemma_fundamental_div_mod(len, cols);
    vstd::arithmetic::mul::lemma_mul_is_commutative(cols, len / cols);
}

impl<T> Row<T> {
    /// The row's index within its grid.
    pub fn row(&self) -> (r: usize)
        ensures
            r == self.idx,
    {
        self.idx
    }

    /// The number of cells in the row.
    pub fn cols(&self) -> (c: usize)
        ensures
            c == self.cells@.len(),
    {
        self.cells.len()
    }

    /// The cells, left to right.
    pub fn into_iter(self) -> (v: Vec<T>)
        ensures
            v@ == self.cells@,
    {
        self.cells
    }
}

impl<T> Col<T> {
    /// The number of cells in the column.
    pub fn rows(&self) -> (r: usize)
        ensures
            r == self.cells@.len(),
    {
        self.cells.len()
    }

    /// The column's index within its grid.
    pub fn col(&self) -> (c: usize)
        ensures
            c == self.idx,
    {
        self.idx
    }

    /// The cells, top to bottom.
    pub fn into_iter(self) -> (v: Vec<T>)
        ensures
            v@ == self.cells@,
    {
        self.cells
    }
}

impl<T: Clone + Default> Grid<T> {
    /// A `rows x cols` grid of default values.
    pub fn fill_default(rows: usize, cols: usize) -> (g: Grid<T>)
        requires
            cols > 0,
            rows * cols <= usize::MAX,
        ensures
            g.cols == cols,
            g.v@.len() == rows * cols,
            g.wf(),
            g.spec_rows() == rows,
            forall|i: int|
                0 <= i < g.v@.len() ==> call_ensures(T::default, (), #[trigger] g.v@[i]),
    {
        let mut v: Vec<T> = Vec::new();
        let n: usize = rows * cols;
        for i in 0..n
            invariant
                v@.len() == i,
                forall|j: int| 0 <= j < i ==> call_ensures(T::default, (), #[trigger] v@[j]),
        {
            v.push(T::default());
        }
        proof {
            vstd::arithmetic::div_mod::lemma_mod_multiples_basic(rows as int, cols as int);
            vstd::arithmetic::div_mod::lemma_div_multiples_vanish(rows as int, cols as int);
            vstd::arithmetic::mul::lemma_mul_is_commutative(rows as int, cols as int);
        }
        Grid { v, cols }
    }
}

} // verus!
