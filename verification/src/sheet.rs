//! The sheet: the raw text of every cell and the dependency graph built from the formulas.
//!
//! Numbers are not kept here: the caller evaluates cells (see [`crate::formula::compile`])
//! in the order that [`Spreadsheet::set_cell`] and [`Spreadsheet::rebuild_graph_and_evaluate_all`]
//! hand back.
use vstd::prelude::*;
use crate::address::col_to_letter as letters_of_column;
use crate::address::column_letters;
use crate::formula::{cell_refs, extract_references, formula_text, formula_body, formula_refs, text_fits, text_fits_exec};
use crate::graph::{DependencyGraph, reached_from, reaches, reaches_below, has_edge};
use crate::text::trimmed;

verus! {

/// What the caller has to recompute after a cell changed.
pub struct Recalc {
    /// The new formula would have closed a cycle: the cell is circular and depends on nothing.
    pub circular: bool,
    /// The cells to recompute, in order: the changed cell first, then every cell that
    /// depends on it, each after all the cells of the list it depends on.
    pub order: Vec<(usize, usize)>,
}

/// The grid of raw cell texts with the dependencies between cells.
pub struct Spreadsheet {
    data: Vec<Vec<String>>,
    max_rows: usize,
    max_cols: usize,
    loaded_path: Option<String>,
    graph: DependencyGraph,
}

/// The texts of a list of records.
pub open spec fn records_view(v: Seq<Vec<String>>) -> Seq<Seq<Seq<char>>> {
    v.map(|i: int, row: Vec<String>| row@.map(|j: int, s: String| s@))
}

/// The node of cell (r, c) in a grid with `cols` columns.
pub open spec fn node_of(r: int, c: int, cols: int) -> int {
    r * cols + c
}

pub proof fn lemma_node_bounds(r: int, c: int, rows: int, cols: int)
    requires
        0 <= r < rows,
        0 <= c < cols,
    ensures
        0 <= node_of(r, c, cols) < rows * cols,
{
    assert(r * cols + c < rows * cols) by (nonlinear_arith)
        requires
            0 <= r < rows,
            0 <= c < cols,
    {
    }
    assert(r * cols >= 0) by (nonlinear_arith)
        requires
            0 <= r,
            0 <= c < cols,
    {
    }
}

pub proof fn lemma_node_inverse(n: int, rows: int, cols: int)
    requires
        0 <= n < rows * cols,
        cols > 0,
    ensures
        0 <= n / cols < rows,
        0 <= n % cols < cols,
        node_of(n / cols, n % cols, cols) == n,
{
    vstd::arithmetic::div_mod::lemma_fundamental_div_mod(n, cols);
    assert(n / cols < rows) by (nonlinear_arith)
        requires
            0 <= n < rows * cols,
            cols > 0,
            n == cols * (n / cols) + n % cols,
            0 <= n % cols,
    {
    }
    assert(n / cols >= 0) by (nonlinear_arith)
        requires
            0 <= n,
            cols > 0,
    {
    }
    assert(node_of(n / cols, n % cols, cols) == n) by (nonlinear_arith)
        requires
            n == cols * (n / cols) + n % cols,
    {
    }
}

pub proof fn lemma_node_injective(r1: int, c1: int, r2: int, c2: int, cols: int)
    requires
        0 <= c1 < cols,
        0 <= c2 < cols,
        node_of(r1, c1, cols) == node_of(r2, c2, cols),
    ensures
        r1 == r2,
        c1 == c2,
{
    let n = node_of(r1, c1, cols);
    vstd::arithmetic::div_mod::lemma_fundamental_div_mod_converse(n, cols, r1, c1);
    vstd::arithmetic::div_mod::lemma_fundamental_div_mod_converse(n, cols, r2, c2);
}

impl Spreadsheet {
    /// The number of rows.
    pub closed spec fn rows(&self) -> nat {
        self.max_rows as nat
    }

    /// The number of columns.
    pub closed spec fn cols(&self) -> nat {
        self.max_cols as nat
    }

    /// The dimensions fit in `usize`.
    pub proof fn lemma_dimensions_bounded(&self)
        ensures
            self.rows() <= usize::MAX,
            self.cols() <= usize::MAX,
    {
    }

    /// The raw text of cell (r, c).
    pub closed spec fn raw(&self, r: int, c: int) -> Seq<char> {
        self.data@[r]@[c]@
    }

    /// How many cells row `r` holds (at least the number of columns; a loaded row can hold
    /// more).
    pub closed spec fn row_len(&self, r: int) -> nat {
        self.data@[r].len() as nat
    }

    /// The file the sheet was loaded from.
    pub closed spec fn path(&self) -> Option<Seq<char>> {
        match self.loaded_path {
            Some(p) => Some(p@),
            None => None,
        }
    }

    /// The dependency graph over the nodes `row * cols + col`.
    pub closed spec fn dep_graph(&self) -> DependencyGraph {
        self.graph
    }

    /// (r, c) is a cell of the grid.
    pub open spec fn in_grid(&self, p: (usize, usize)) -> bool {
        p.0 < self.rows() && p.1 < self.cols()
    }

    /// The graph node of a cell.
    pub open spec fn node(&self, p: (usize, usize)) -> usize {
        node_of(p.0 as int, p.1 as int, self.cols() as int) as usize
    }

    /// Cell `p` refers directly to cell `q` in the dependency graph.
    pub open spec fn depends(&self, p: (usize, usize), q: (usize, usize)) -> bool {
        self.dep_graph().depends_on(self.node(p), self.node(q))
    }

    /// Cell `p` depends on cell `q` directly or through other cells (or is `q`).
    pub open spec fn depends_transitively(&self, p: (usize, usize), q: (usize, usize)) -> bool {
        self.dep_graph().depends_transitively(self.node(p), self.node(q))
    }

    /// The cells the raw text of `p` refers to.
    pub open spec fn refs_of(&self, p: (usize, usize)) -> Set<(usize, usize)> {
        cell_refs(self.raw(p.0 as int, p.1 as int), self.rows(), self.cols())
    }

    /// The dependencies of cell `p` are what its formula says, or none at all.
    pub open spec fn follows_formula(&self, p: (usize, usize)) -> bool {
        ||| forall|q: (usize, usize)| self.in_grid(q) ==> !#[trigger] self.depends(p, q)
        ||| forall|q: (usize, usize)| self.in_grid(q) ==> (#[trigger] self.depends(p, q) <==> self.refs_of(p).contains(q))
    }

    /// The sheet's invariant.
    pub closed spec fn wf(&self) -> bool {
        &&& self.data.len() == self.max_rows
        &&& forall|r: int| 0 <= r < self.max_rows ==> #[trigger] self.data@[r].len() >= self.max_cols
        &&& self.max_rows * self.max_cols <= usize::MAX
        &&& self.graph.inv()
        &&& self.graph.size() == self.max_rows * self.max_cols
        &&& forall|p: (usize, usize)| self.in_grid(p) ==> #[trigger] self.follows_formula(p)
        &&& forall|p: (usize, usize)| self.in_grid(p) ==> text_fits(#[trigger] self.raw(p.0 as int, p.1 as int))
    }

    /// Distinct cells of the grid have distinct nodes, below `rows * cols`.
    proof fn lemma_nodes_distinct(&self, p: (usize, usize), q: (usize, usize))
        requires
            self.max_rows * self.max_cols <= usize::MAX,
            self.in_grid(p),
            self.in_grid(q),
        ensures
            self.node(p) < self.rows() * self.cols(),
            self.node(p) as int == node_of(p.0 as int, p.1 as int, self.cols() as int),
            self.node(p) == self.node(q) ==> p == q,
    {
        lemma_node_bounds(p.0 as int, p.1 as int, self.max_rows as int, self.max_cols as int);
        lemma_node_bounds(q.0 as int, q.1 as int, self.max_rows as int, self.max_cols as int);
        if self.node(p) == self.node(q) {
            lemma_node_injective(p.0 as int, p.1 as int, q.0 as int, q.1 as int, self.max_cols as int);
        }
    }

    /// An empty sheet of `rows` × `cols` cells.
    pub fn new(rows: usize, cols: usize) -> (s: Self)
        requires
            rows * cols <= usize::MAX,
        ensures
            s.wf(),
            s.rows() == rows,
            s.cols() == cols,
            s.path() is None,
            forall|r: int, c: int| 0 <= r < rows && 0 <= c < cols ==> #[trigger] s.raw(r, c) == Seq::<char>::empty(),
            forall|r: int| 0 <= r < rows ==> #[trigger] s.row_len(r) == cols,
            forall|p: (usize, usize), q: (usize, usize)| !#[trigger] s.depends(p, q),
    {
        let mut data: Vec<Vec<String>> = Vec::new();
        let mut r: usize = 0;
        while r < rows
            invariant
                r <= rows,
                data.len() == r,
                forall|k: int| 0 <= k < r ==> (#[trigger] data@[k]).len() == cols,
                forall|k: int, c: int| 0 <= k < r && 0 <= c < cols ==> (#[trigger] data@[k]@[c])@ == Seq::<char>::empty(),
            decreases rows - r,
        {
            let mut row: Vec<String> = Vec::new();
            let mut c: usize = 0;
            while c < cols
                invariant
                    c <= cols,
                    row.len() == c,
                    forall|k: int| 0 <= k < c ==> (#[trigger] row@[k])@ == Seq::<char>::empty(),
                decreases cols - c,
            {
                row.push(String::new());
                c = c + 1;
            }
            data.push(row);
            r = r + 1;
        }
        let graph = DependencyGraph::new(rows * cols);
        let s = Spreadsheet { data, max_rows: rows, max_cols: cols, loaded_path: None, graph };
        proof {
            assert(trimmed(Seq::<char>::empty()) == Seq::<char>::empty());
            assert forall|p: (usize, usize)| s.in_grid(p) implies #[trigger] s.follows_formula(p) by {
                assert forall|q: (usize, usize)| s.in_grid(q) implies !#[trigger] s.depends(p, q) by {
                    assert(!s.graph.depends_on(s.node(p), s.node(q)));
                }
            }
            assert forall|p: (usize, usize)| s.in_grid(p) implies text_fits(#[trigger] s.raw(p.0 as int, p.1 as int)) by {
                assert(s.raw(p.0 as int, p.1 as int) == Seq::<char>::empty());
            }
            assert forall|p: (usize, usize), q: (usize, usize)| !#[trigger] s.depends(p, q) by {
                assert(!s.graph.depends_on(s.node(p), s.node(q)));
            }
        }
        s
    }

    /// The number of rows.
    pub fn max_rows(&self) -> (n: usize)
        ensures
            n == self.rows(),
    {
        self.max_rows
    }

    /// The number of columns.
    pub fn max_cols(&self) -> (n: usize)
        ensures
            n == self.cols(),
    {
        self.max_cols
    }

    /// The file the sheet was loaded from, if any.
    pub fn loaded_path(&self) -> (p: &Option<String>)
        ensures
            match *p {
                Some(s) => self.path() == Some(s@),
                None => self.path() is None,
            },
    {
        &self.loaded_path
    }

    /// The raw text of cell (row, col), when the sheet holds one there.
    pub fn get_cell(&self, row: usize, col: usize) -> (r: Option<&String>)
        requires
            self.wf(),
        ensures
            match r {
                Some(s) => row < self.rows() && col < self.row_len(row as int) && s@ == self.raw(row as int, col as int),
                None => !(row < self.rows() && col < self.row_len(row as int)),
            },
    {
        if row < self.data.len() && col < self.data[row].len() {
            Some(&self.data[row][col])
        } else {
            None
        }
    }

    /// Some cell that `raw`'s formula refers to depends on `p` (or is `p`): giving `p` that
    /// formula would close a cycle.
    pub open spec fn closes_cycle(&self, p: (usize, usize), raw: Seq<char>) -> bool {
        exists|q: (usize, usize)| #[trigger] cell_refs(raw, self.rows(), self.cols()).contains(q) && self.depends_transitively(q, p)
    }

    /// The graph nodes of a list of cells of the grid.
    fn nodes_of(&self, cells: &Vec<(usize, usize)>) -> (ids: Vec<usize>)
        requires
            self.max_rows * self.max_cols <= usize::MAX,
            forall|k: int| 0 <= k < cells.len() ==> self.in_grid(#[trigger] cells@[k]),
        ensures
            ids.len() == cells.len(),
            forall|k: int| 0 <= k < cells.len() ==> #[trigger] ids@[k] == self.node(cells@[k]),
            forall|k: int| 0 <= k < cells.len() ==> #[trigger] ids@[k] < self.rows() * self.cols(),
    {
        let mut ids: Vec<usize> = Vec::new();
        let mut k: usize = 0;
        while k < cells.len()
            invariant
                self.max_rows * self.max_cols <= usize::MAX,
                forall|m: int| 0 <= m < cells.len() ==> self.in_grid(#[trigger] cells@[m]),
                k <= cells.len(),
                ids.len() == k,
                forall|m: int| 0 <= m < k ==> #[trigger] ids@[m] == self.node(cells@[m]),
                forall|m: int| 0 <= m < k ==> #[trigger] ids@[m] < self.rows() * self.cols(),
            decreases cells.len() - k,
        {
            let (r, c) = cells[k];
            proof {
                assert(self.in_grid(cells@[k as int]));
                lemma_node_bounds(r as int, c as int, self.max_rows as int, self.max_cols as int);
            }
            ids.push(r * self.max_cols + c);
            k = k + 1;
        }
        ids
    }

    /// The cell of a graph node.
    fn cell_of(&self, n: usize) -> (p: (usize, usize))
        requires
            self.max_rows * self.max_cols <= usize::MAX,
            n < self.rows() * self.cols(),
        ensures
            self.in_grid(p),
            self.node(p) == n,
    {
        proof {
            if self.max_cols == 0 {
                assert(self.max_rows * self.max_cols == 0) by (nonlinear_arith)
                    requires
                        self.max_cols == 0,
                {
                }
            }
            lemma_node_inverse(n as int, self.max_rows as int, self.max_cols as int);
        }
        (n / self.max_cols, n % self.max_cols)
    }

    /// `new` is `old` after writing `raw` into cell (row, col), `rc` being what the write
    /// returned: see [`Spreadsheet::set_cell`].
    pub open spec fn cell_written(old: Spreadsheet, new: Spreadsheet, row: usize, col: usize, raw: Seq<char>,
        rc: Option<Recalc>) -> bool {
        &&& new.wf()
        &&& new.rows() == old.rows()
        &&& new.cols() == old.cols()
        &&& new.path() == old.path()
        &&& !old.in_grid((row, col)) ==> rc is None && new == old
        &&& old.in_grid((row, col)) ==> rc is Some
        &&& rc matches Some(rc) ==> {
                let cell = (row, col);
                &&& new.raw(row as int, col as int) == raw
                &&& forall|r: int, c: int| 0 <= r < old.rows() && 0 <= c < old.row_len(r) && (r, c) != (row as int, col as int)
                    ==> #[trigger] new.raw(r, c) == old.raw(r, c)
                &&& forall|r: int| 0 <= r < old.rows() ==> #[trigger] new.row_len(r) == old.row_len(r)
                &&& rc.circular == old.closes_cycle(cell, raw)
                &&& forall|p: (usize, usize), q: (usize, usize)| new.in_grid(p) && new.in_grid(q) ==>
                    (#[trigger] new.depends(p, q) <==> if p == cell {
                        !rc.circular && new.refs_of(cell).contains(q)
                    } else {
                        old.depends(p, q)
                    })
                &&& rc.order@.no_duplicates()
                &&& forall|k: int| 0 <= k < rc.order.len() ==> new.in_grid(#[trigger] rc.order@[k])
                &&& forall|p: (usize, usize)| new.in_grid(p) ==> (rc.order@.contains(p) <==> new.depends_transitively(p, cell))
                &&& forall|i: int, j: int| 0 <= i < rc.order.len() && 0 <= j < rc.order.len()
                    && #[trigger] new.depends(rc.order@[j], rc.order@[i]) ==> i < j
                &&& rc.order.len() > 0
                &&& rc.order@[0] == cell
            }
    }

    /// Cell (r, c) lies in the block of rows `top..bottom` and columns `left..right`.
    pub open spec fn in_block(r: int, c: int, top: usize, bottom: usize, left: usize, right: usize) -> bool {
        top <= r < bottom && left <= c < right
    }

    /// `new` is `old` with every cell of the block of rows `top..bottom` and columns
    /// `left..right` emptied and depending on nothing; every other cell keeps its text and its
    /// dependencies.
    pub open spec fn block_cleared(old: Spreadsheet, new: Spreadsheet, top: usize, bottom: usize, left: usize,
        right: usize) -> bool {
        &&& new.wf()
        &&& new.rows() == old.rows()
        &&& new.cols() == old.cols()
        &&& new.path() == old.path()
        &&& forall|r: int| 0 <= r < old.rows() ==> #[trigger] new.row_len(r) == old.row_len(r)
        &&& forall|r: int, c: int| 0 <= r < old.rows() && 0 <= c < old.row_len(r) ==> #[trigger] new.raw(r, c)
            == if Spreadsheet::in_block(r, c, top, bottom, left, right) { Seq::<char>::empty() } else { old.raw(r, c) }
        &&& forall|p: (usize, usize), q: (usize, usize)| new.in_grid(p) && new.in_grid(q) ==>
            (#[trigger] new.depends(p, q) <==> !Spreadsheet::in_block(p.0 as int, p.1 as int, top, bottom, left, right)
                && old.depends(p, q))
    }

    /// Empties every cell of the block of rows `top..bottom` and columns `left..right`, row by
    /// row, as [`Spreadsheet::set_cell`] writes an empty text into each. Gives back what each
    /// write returned, in the order of the writes: evaluated one after the other, they bring
    /// the cells that depend on the block up to date.
    pub fn clear_block(&mut self, top: usize, bottom: usize, left: usize, right: usize) -> (recalcs: Vec<Recalc>)
        requires
            old(self).wf(),
            top <= bottom <= old(self).rows(),
            left <= right <= old(self).cols(),
        ensures
            Spreadsheet::block_cleared(*old(self), *final(self), top, bottom, left, right),
            recalcs.len() == (bottom - top) * (right - left),
            forall|k: int| 0 <= k < recalcs.len() ==> !(#[trigger] recalcs@[k]).circular
                && recalcs@[k].order.len() > 0
                && forall|i: int| 0 <= i < recalcs@[k].order.len() ==> final(self).in_grid(#[trigger] recalcs@[k].order@[i]),
    {
        let ghost start = *self;
        proof {
            assert(trimmed(Seq::<char>::empty()).len() == 0);
            assert(formula_body(Seq::<char>::empty()) is None);
        }
        let mut recalcs: Vec<Recalc> = Vec::new();
        let mut r = top;
        while r < bottom
            invariant
                top <= r <= bottom <= start.rows(),
                left <= right <= start.cols(),
                formula_body(Seq::<char>::empty()) is None,
                Spreadsheet::block_cleared(start, *self, top, r, left, right),
                recalcs.len() == (r - top) * (right - left),
                forall|k: int| 0 <= k < recalcs.len() ==> !(#[trigger] recalcs@[k]).circular
                    && recalcs@[k].order.len() > 0
                    && forall|i: int| 0 <= i < recalcs@[k].order.len() ==> self.in_grid(#[trigger] recalcs@[k].order@[i]),
            decreases bottom - r,
        {
            let mut c = left;
            while c < right
                invariant
                    top <= r < bottom <= start.rows(),
                    left <= c <= right <= start.cols(),
                    formula_body(Seq::<char>::empty()) is None,
                    self.wf(),
                    self.rows() == start.rows(),
                    self.cols() == start.cols(),
                    self.path() == start.path(),
                    forall|r2: int| 0 <= r2 < start.rows() ==> #[trigger] self.row_len(r2) == start.row_len(r2),
                    forall|r2: int, c2: int| 0 <= r2 < start.rows() && 0 <= c2 < start.row_len(r2) ==> #[trigger] self.raw(r2, c2)
                        == if Spreadsheet::in_block(r2, c2, top, r, left, right) || (r2 == r && left <= c2 < c) {
                            Seq::<char>::empty()
                        } else {
                            start.raw(r2, c2)
                        },
                    forall|p: (usize, usize), q: (usize, usize)| self.in_grid(p) && self.in_grid(q) ==>
                        (#[trigger] self.depends(p, q) <==> !(Spreadsheet::in_block(p.0 as int, p.1 as int, top, r, left, right)
                            || (p.0 == r && left <= p.1 < c)) && start.depends(p, q)),
                    recalcs.len() == (r - top) * (right - left) + (c - left),
                    forall|k: int| 0 <= k < recalcs.len() ==> !(#[trigger] recalcs@[k]).circular
                        && recalcs@[k].order.len() > 0
                        && forall|i: int| 0 <= i < recalcs@[k].order.len() ==> self.in_grid(#[trigger] recalcs@[k].order@[i]),
                decreases right - c,
            {
                let ghost before = *self;
                let rc = self.set_cell(r, c, String::new());
                proof {
                    assert(cell_refs(Seq::<char>::empty(), before.rows(), before.cols()) == Set::<(usize, usize)>::empty());
                    assert(!before.closes_cycle((r, c), Seq::<char>::empty()));
                    assert(before.row_len(r as int) >= before.cols()) by {
                        assert(before.in_grid((r, c)));
                    }
                }
                match rc {
                    Some(rc) => recalcs.push(rc),
                    None => {},
                }
                proof {
                    assert((r - top) * (right - left) + (c + 1 - left) == (r - top) * (right - left) + (c - left) + 1);
                }
                c = c + 1;
            }
            proof {
                assert((r + 1 - top) * (right - left) == (r - top) * (right - left) + (right - left)) by (nonlinear_arith);
                assert forall|r2: int, c2: int| 0 <= r2 < start.rows() && 0 <= c2 < start.row_len(r2) implies #[trigger] self.raw(r2, c2)
                    == if Spreadsheet::in_block(r2, c2, top, (r + 1) as usize, left, right) { Seq::<char>::empty() } else { start.raw(r2, c2) } by {
                }
            }
            r = r + 1;
        }
        recalcs
    }

    /// Writes `raw` into cell (row, col) as [`Spreadsheet::set_cell`] does, unless the cell
    /// is in the grid and the text's column letters do not fit in `usize`: then nothing
    /// changes and the result is `None`.
    pub fn try_set_cell(&mut self, row: usize, col: usize, raw: String) -> (r: Option<Option<Recalc>>)
        requires
            old(self).wf(),
        ensures
            r is None <==> (old(self).in_grid((row, col)) && !text_fits(raw@)),
            r is None ==> *final(self) == *old(self),
            r matches Some(rc) ==> Spreadsheet::cell_written(*old(self), *final(self), row, col, raw@, rc),
    {
        if row < self.max_rows && col < self.max_cols && !text_fits_exec(raw.as_str()) {
            return None;
        }
        Some(self.set_cell(row, col, raw))
    }

    /// Sets the raw text of cell (row, col) and rewires its dependencies to the cells its
    /// formula refers to, unless that would close a cycle (then the cell depends on nothing
    /// and is circular). Returns `None`, changing nothing, for a cell outside the grid.
    pub fn set_cell(&mut self, row: usize, col: usize, raw: String) -> (rc: Option<Recalc>)
        requires
            old(self).wf(),
            row < old(self).rows() && col < old(self).cols() ==> text_fits(raw@),
        ensures
            Spreadsheet::cell_written(*old(self), *final(self), row, col, raw@, rc),
    {
        if row >= self.max_rows || col >= self.max_cols {
            return None;
        }
        let ghost old_self = *self;
        let ghost rows = self.rows();
        let ghost cols = self.cols();
        let refs: Vec<(usize, usize)> = match formula_text(raw.as_str()) {
            Some(b) => extract_references(&b, self.max_rows, self.max_cols),
            None => Vec::new(),
        };
        proof {
            assert forall|q: (usize, usize)| #[trigger] refs@.contains(q) <==> cell_refs(raw@, rows, cols).contains(q) by {}
            assert forall|k: int| 0 <= k < refs.len() implies self.in_grid(#[trigger] refs@[k]) by {
                assert(refs@.contains(refs@[k]));
            }
        }
        let ids = self.nodes_of(&refs);
        proof {
            lemma_node_bounds(row as int, col as int, self.max_rows as int, self.max_cols as int);
            assert(ids@.no_duplicates()) by {
                assert forall|a: int, b: int| 0 <= a < ids.len() && 0 <= b < ids.len() && a != b implies ids@[a] != ids@[b] by {
                    if ids@[a] == ids@[b] {
                        assert(self.in_grid(refs@[a]));
                        assert(self.in_grid(refs@[b]));
                        self.lemma_nodes_distinct(refs@[a], refs@[b]);
                        assert(refs@[a] == refs@[b]);
                    }
                }
            }
        }
        let cell_node = row * self.max_cols + col;
        let circular = self.graph.set_dependencies(cell_node, &ids);
        let ghost raw_view = raw@;
        let ghost old_row = self.data@[row as int];
        proof {
            assert(old_row.len() >= old_self.max_cols);
        }
        let mut row_cells = self.data.remove(row);
        row_cells.set(col, raw);
        proof {
            assert(row_cells@ == old_row@.update(col as int, row_cells@[col as int]));
        }
        let ghost new_row = row_cells;
        self.data.insert(row, row_cells);
        proof {
            assert(self.data@[row as int] == new_row);
            assert(self.data@.len() == old_self.data@.len());
            assert forall|r: int| 0 <= r < self.data@.len() && r != row implies #[trigger] self.data@[r] == old_self.data@[r] by {
                if r < row {
                    assert(self.data@[r] == old_self.data@[r]);
                } else {
                    assert(self.data@[r] == old_self.data@[r]);
                }
            }
            assert(self.data@[row as int]@ == old_self.data@[row as int]@.update(col as int, self.data@[row as int]@[col as int]));
            assert(self.data@[row as int]@[col as int]@ == raw_view);
        }
        let order_nodes = self.graph.topological_dependents(cell_node);
        let mut order: Vec<(usize, usize)> = Vec::new();
        let mut k: usize = 0;
        proof {
            assert(self.wf()) by {
                self.lemma_set_cell_wf(old_self, row, col, raw_view, refs@, ids@, circular);
            }
        }
        while k < order_nodes.len()
            invariant
                self.wf(),
                k <= order_nodes.len(),
                order.len() == k,
                forall|m: int| 0 <= m < order_nodes.len() ==> #[trigger] order_nodes@[m] < self.rows() * self.cols(),
                forall|m: int| 0 <= m < k ==> self.in_grid(#[trigger] order@[m]) && self.node(order@[m]) == order_nodes@[m],
            decreases order_nodes.len() - k,
        {
            let p = self.cell_of(order_nodes[k]);
            order.push(p);
            k = k + 1;
        }
        proof {
            self.lemma_set_cell_order(old_self, row, col, circular, order_nodes@, order@);
            self.lemma_set_cell_edges(old_self, row, col, raw_view, refs@, ids@, circular);
        }
        Some(Recalc { circular, order })
    }

    proof fn lemma_set_cell_wf(&self, old_self: Spreadsheet, row: usize, col: usize, raw: Seq<char>,
        refs: Seq<(usize, usize)>, ids: Seq<usize>, circular: bool)
        requires
            old_self.wf(),
            old_self.in_grid((row, col)),
            text_fits(raw),
            self.max_rows == old_self.max_rows,
            self.max_cols == old_self.max_cols,
            self.data@.len() == old_self.data@.len(),
            forall|r: int| 0 <= r < self.data@.len() && r != row ==> #[trigger] self.data@[r] == old_self.data@[r],
            self.data@[row as int]@ == old_self.data@[row as int]@.update(col as int, self.data@[row as int]@[col as int]),
            self.data@[row as int]@[col as int]@ == raw,
            self.data@[row as int].len() == old_self.data@[row as int].len(),
            self.graph.inv(),
            self.graph.size() == old_self.graph.size(),
            forall|q: (usize, usize)| #[trigger] refs.contains(q) <==> cell_refs(raw, old_self.rows(), old_self.cols()).contains(q),
            ids.len() == refs.len(),
            forall|k: int| 0 <= k < refs.len() ==> #[trigger] ids[k] == old_self.node(refs[k]),
            forall|k: int| 0 <= k < refs.len() ==> old_self.in_grid(#[trigger] refs[k]),
            forall|u: usize, v: usize| #[trigger] self.graph.depends_on(u, v)
                <==> (if u == old_self.node((row, col)) { !circular && ids.contains(v) } else { old_self.graph.depends_on(u, v) }),
        ensures
            self.wf(),
    {
        let cell = (row, col);
        assert forall|r: int| 0 <= r < self.max_rows implies #[trigger] self.data@[r].len() >= self.max_cols by {
            assert(old_self.data@[r].len() >= old_self.max_cols);
        }
        assert forall|p: (usize, usize)| self.in_grid(p) implies text_fits(#[trigger] self.raw(p.0 as int, p.1 as int)) by {
            if p != cell {
                assert(old_self.data@[p.0 as int].len() >= old_self.max_cols);
                assert(self.raw(p.0 as int, p.1 as int) == old_self.raw(p.0 as int, p.1 as int));
                assert(text_fits(old_self.raw(p.0 as int, p.1 as int)));
            }
        }
        assert forall|p: (usize, usize)| self.in_grid(p) implies #[trigger] self.follows_formula(p) by {
            lemma_node_bounds(p.0 as int, p.1 as int, self.max_rows as int, self.max_cols as int);
            if p == cell {
                if circular {
                    assert forall|q: (usize, usize)| self.in_grid(q) implies !#[trigger] self.depends(p, q) by {
                        assert(!self.graph.depends_on(self.node(p), self.node(q)));
                    }
                } else {
                    assert forall|q: (usize, usize)| self.in_grid(q) implies (#[trigger] self.depends(p, q) <==> self.refs_of(p).contains(q)) by {
                        lemma_node_bounds(q.0 as int, q.1 as int, self.max_rows as int, self.max_cols as int);
                        if ids.contains(self.node(q)) {
                            let k = choose|k: int| 0 <= k < ids.len() && ids[k] == self.node(q);
                            assert(old_self.in_grid(refs[k]));
                            self.lemma_nodes_distinct(refs[k], q);
                            assert(refs.contains(refs[k]));
                        }
                        if refs.contains(q) {
                            let k = choose|k: int| 0 <= k < refs.len() && refs[k] == q;
                            assert(ids[k] == self.node(q));
                            assert(ids.contains(self.node(q)));
                        }
                    }
                }
            } else {
                assert(old_self.follows_formula(p));
                assert(old_self.data@[p.0 as int].len() >= old_self.max_cols);
                assert(self.raw(p.0 as int, p.1 as int) == old_self.raw(p.0 as int, p.1 as int));
                assert(self.refs_of(p) == old_self.refs_of(p));
                assert(self.node(p) != self.node(cell)) by {
                    if self.node(p) == self.node(cell) {
                        self.lemma_nodes_distinct(p, (row, col));
                    }
                }
                assert forall|q: (usize, usize)| self.in_grid(q) implies (#[trigger] self.depends(p, q) == old_self.depends(p, q)) by {
                    assert(self.graph.depends_on(self.node(p), self.node(q)) == old_self.graph.depends_on(self.node(p), self.node(q)));
                }
            }
        }
    }

    proof fn lemma_set_cell_edges(&self, old_self: Spreadsheet, row: usize, col: usize, raw: Seq<char>,
        refs: Seq<(usize, usize)>, ids: Seq<usize>, circular: bool)
        requires
            old_self.wf(),
            self.wf(),
            old_self.in_grid((row, col)),
            self.max_rows == old_self.max_rows,
            self.max_cols == old_self.max_cols,
            self.raw(row as int, col as int) == raw,
            forall|q: (usize, usize)| #[trigger] refs.contains(q) <==> cell_refs(raw, old_self.rows(), old_self.cols()).contains(q),
            ids.len() == refs.len(),
            forall|k: int| 0 <= k < refs.len() ==> #[trigger] ids[k] == old_self.node(refs[k]),
            forall|k: int| 0 <= k < refs.len() ==> old_self.in_grid(#[trigger] refs[k]),
            circular == reached_from(old_self.graph.edges(), ids, old_self.node((row, col))),
            forall|u: usize, v: usize| #[trigger] self.graph.depends_on(u, v)
                <==> (if u == old_self.node((row, col)) { !circular && ids.contains(v) } else { old_self.graph.depends_on(u, v) }),
        ensures
            circular == old_self.closes_cycle((row, col), raw),
            forall|p: (usize, usize), q: (usize, usize)| self.in_grid(p) && self.in_grid(q) ==>
                (#[trigger] self.depends(p, q) <==> if p == (row, col) {
                    !circular && self.refs_of((row, col)).contains(q)
                } else {
                    old_self.depends(p, q)
                }),
    {
        let cell = (row, col);
        if circular {
            let i = choose|i: int| 0 <= i < ids.len() && reaches(old_self.graph.edges(), #[trigger] ids[i], old_self.node(cell));
            assert(refs.contains(refs[i]));
            assert(cell_refs(raw, old_self.rows(), old_self.cols()).contains(refs[i]));
            assert(old_self.depends_transitively(refs[i], cell));
        }
        if old_self.closes_cycle(cell, raw) {
            let q = choose|q: (usize, usize)| #[trigger] cell_refs(raw, old_self.rows(), old_self.cols()).contains(q) && old_self.depends_transitively(q, cell);
            assert(refs.contains(q));
            let k = choose|k: int| 0 <= k < refs.len() && refs[k] == q;
            assert(ids[k] == old_self.node(q));
            assert(reaches(old_self.graph.edges(), ids[k], old_self.node(cell)));
        }
        assert forall|p: (usize, usize), q: (usize, usize)| self.in_grid(p) && self.in_grid(q) implies
            (#[trigger] self.depends(p, q) <==> if p == cell {
                !circular && self.refs_of(cell).contains(q)
            } else {
                old_self.depends(p, q)
            }) by {
            lemma_node_bounds(p.0 as int, p.1 as int, self.max_rows as int, self.max_cols as int);
            lemma_node_bounds(q.0 as int, q.1 as int, self.max_rows as int, self.max_cols as int);
            assert(self.depends(p, q) == self.graph.depends_on(self.node(p), self.node(q)));
            if p == cell {
                if ids.contains(self.node(q)) {
                    let k = choose|k: int| 0 <= k < ids.len() && ids[k] == self.node(q);
                    assert(old_self.in_grid(refs[k]));
                    self.lemma_nodes_distinct(refs[k], q);
                    assert(refs.contains(refs[k]));
                }
                if refs.contains(q) {
                    let k = choose|k: int| 0 <= k < refs.len() && refs[k] == q;
                    assert(ids[k] == self.node(q));
                    assert(ids.contains(self.node(q)));
                }
            } else {
                assert(self.node(p) != self.node(cell)) by {
                    if self.node(p) == self.node(cell) {
                        self.lemma_nodes_distinct(p, (row, col));
                    }
                }
            }
        }
    }

    proof fn lemma_set_cell_order(&self, old_self: Spreadsheet, row: usize, col: usize, circular: bool,
        nodes: Seq<usize>, order: Seq<(usize, usize)>)
        requires
            self.wf(),
            self.in_grid((row, col)),
            nodes.no_duplicates(),
            forall|v: usize| v < self.graph.size() ==> (nodes.contains(v) <==> self.graph.depends_transitively(v, self.node((row, col)))),
            forall|i: int, j: int| 0 <= i < nodes.len() && 0 <= j < nodes.len()
                && #[trigger] self.graph.depends_on(nodes[j], nodes[i]) ==> i < j,
            nodes.len() > 0,
            nodes[0] == self.node((row, col)),
            order.len() == nodes.len(),
            forall|m: int| 0 <= m < order.len() ==> self.in_grid(#[trigger] order[m]) && self.node(order[m]) == nodes[m],
        ensures
            order.no_duplicates(),
            forall|k: int| 0 <= k < order.len() ==> self.in_grid(#[trigger] order[k]),
            forall|p: (usize, usize)| self.in_grid(p) ==> (order.contains(p) <==> self.depends_transitively(p, (row, col))),
            forall|i: int, j: int| 0 <= i < order.len() && 0 <= j < order.len()
                && #[trigger] self.depends(order[j], order[i]) ==> i < j,
            order.len() > 0,
            order[0] == (row, col),
    {
        let cell = (row, col);
        assert forall|a: int, b: int| 0 <= a < order.len() && 0 <= b < order.len() && a != b implies order[a] != order[b] by {
            assert(self.in_grid(order[a]));
            assert(self.in_grid(order[b]));
            assert(nodes[a] != nodes[b]);
            self.lemma_nodes_distinct(order[a], order[b]);
        }
        assert forall|p: (usize, usize)| self.in_grid(p) implies (order.contains(p) <==> self.depends_transitively(p, cell)) by {
            lemma_node_bounds(p.0 as int, p.1 as int, self.max_rows as int, self.max_cols as int);
            if order.contains(p) {
                let k = choose|k: int| 0 <= k < order.len() && order[k] == p;
                assert(self.in_grid(order[k]));
                assert(nodes.contains(nodes[k]));
            }
            if self.depends_transitively(p, cell) {
                assert(nodes.contains(self.node(p)));
                let k = choose|k: int| 0 <= k < nodes.len() && nodes[k] == self.node(p);
                assert(self.in_grid(order[k]));
                self.lemma_nodes_distinct(order[k], p);
                assert(order[k] == p);
            }
        }
        assert forall|i: int, j: int| 0 <= i < order.len() && 0 <= j < order.len()
            && #[trigger] self.depends(order[j], order[i]) implies i < j by {
            assert(self.in_grid(order[i]));
            assert(self.in_grid(order[j]));
            assert(self.graph.depends_on(nodes[j], nodes[i]));
        }
        assert(self.in_grid(order[0]));
        self.lemma_nodes_distinct(order[0], (row, col));
    }

    /// Every cell of the grid once, each after every cell it depends on: the order in which
    /// to evaluate the whole sheet, as after loading.
    pub fn evaluation_order(&self) -> (order: Vec<(usize, usize)>)
        requires
            self.wf(),
            self.rows() * self.cols() < usize::MAX,
        ensures
            order@.no_duplicates(),
            forall|p: (usize, usize)| self.in_grid(p) ==> order@.contains(p),
            forall|k: int| 0 <= k < order.len() ==> self.in_grid(#[trigger] order@[k]),
            forall|i: int, j: int| 0 <= i < order.len() && 0 <= j < order.len()
                && #[trigger] self.depends(order@[j], order@[i]) ==> i < j,
    {
        let nodes = self.graph.evaluation_order();
        let mut order: Vec<(usize, usize)> = Vec::new();
        let mut k: usize = 0;
        while k < nodes.len()
            invariant
                self.wf(),
                self.rows() * self.cols() < usize::MAX,
                k <= nodes.len(),
                order.len() == k,
                forall|m: int| 0 <= m < nodes.len() ==> #[trigger] nodes@[m] < self.rows() * self.cols(),
                forall|m: int| 0 <= m < k ==> self.in_grid(#[trigger] order@[m]) && self.node(order@[m]) == nodes@[m],
            decreases nodes.len() - k,
        {
            let p = self.cell_of(nodes[k]);
            order.push(p);
            k = k + 1;
        }
        proof {
            let o = order@;
            assert forall|a: int, b: int| 0 <= a < o.len() && 0 <= b < o.len() && a != b implies o[a] != o[b] by {
                assert(self.in_grid(o[a]));
                assert(self.in_grid(o[b]));
                assert(nodes@[a] != nodes@[b]);
            }
            assert forall|p: (usize, usize)| self.in_grid(p) implies o.contains(p) by {
                self.lemma_nodes_distinct(p, p);
                assert(nodes@.contains(self.node(p)));
                let m = choose|m: int| 0 <= m < nodes.len() && nodes@[m] == self.node(p);
                assert(self.in_grid(o[m]));
                self.lemma_nodes_distinct(o[m], p);
            }
            assert forall|i: int, j: int| 0 <= i < o.len() && 0 <= j < o.len()
                && #[trigger] self.depends(o[j], o[i]) implies i < j by {
                assert(self.in_grid(o[i]));
                assert(self.in_grid(o[j]));
                assert(self.graph.depends_on(nodes@[j], nodes@[i]));
            }
        }
        order
    }

    /// The graph facts that a rebuild leaves: the circular cells, in row-major order, are
    /// exactly those whose formula closes a cycle with the cells before them; such a cell
    /// depends on nothing, and every other cell depends on exactly the cells its formula
    /// refers to.
    pub open spec fn rebuilt_with(&self, circular: Seq<(usize, usize)>) -> bool {
        &&& circular.no_duplicates()
        &&& forall|k: int| 0 <= k < circular.len() ==> self.in_grid(#[trigger] circular[k])
        &&& forall|p: (usize, usize), q: (usize, usize)| self.in_grid(p) && self.in_grid(q) && circular.contains(p)
            ==> !#[trigger] self.depends(p, q)
        &&& forall|p: (usize, usize), q: (usize, usize)| self.in_grid(p) && self.in_grid(q) && !circular.contains(p)
            ==> (#[trigger] self.depends(p, q) <==> self.refs_of(p).contains(q))
        &&& forall|p: (usize, usize)| #[trigger] circular.contains(p) ==> self.closes_cycle(p, self.raw(p.0 as int, p.1 as int))
        &&& forall|i: int, j: int| 0 <= i < j < circular.len() ==> self.node(circular[i]) < self.node(circular[j])
        &&& forall|p: (usize, usize)| self.in_grid(p)
            ==> (#[trigger] circular.contains(p) <==> self.closes_cycle_with_earlier(p, self.raw(p.0 as int, p.1 as int)))
    }

    /// Some cell that `raw`'s formula refers to reaches `p` through cells that come before
    /// `p` in row-major order: given to `p`, the formula closes a cycle with those cells.
    pub open spec fn closes_cycle_with_earlier(&self, p: (usize, usize), raw: Seq<char>) -> bool {
        exists|q: (usize, usize)| #[trigger] cell_refs(raw, self.rows(), self.cols()).contains(q)
            && reaches_below(self.dep_graph().edges(), self.node(q), self.node(p), self.node(p) as int)
    }

    /// Rebuilds the dependency graph from every formula, cell by cell in row-major order; a
    /// formula that would close a cycle with the cells before it is left without
    /// dependencies. Returns those circular cells, in row-major order.
    pub fn rebuild_graph_and_evaluate_all(&mut self) -> (circular: Vec<(usize, usize)>)
        requires
            old(self).wf(),
        ensures
            final(self).wf(),
            final(self).rows() == old(self).rows(),
            final(self).cols() == old(self).cols(),
            final(self).path() == old(self).path(),
            forall|r: int| 0 <= r < old(self).rows() ==> #[trigger] final(self).row_len(r) == old(self).row_len(r),
            forall|r: int, c: int| 0 <= r < old(self).rows() && 0 <= c < old(self).row_len(r)
                ==> #[trigger] final(self).raw(r, c) == old(self).raw(r, c),
            final(self).rebuilt_with(circular@),
    {
        let ghost old_self = *self;
        let n = self.max_rows * self.max_cols;
        self.graph = DependencyGraph::new(n);
        let mut circular: Vec<(usize, usize)> = Vec::new();
        let mut k: usize = 0;
        proof {
            assert forall|p: (usize, usize), q: (usize, usize)| !#[trigger] self.depends(p, q) by {
                assert(!self.graph.depends_on(self.node(p), self.node(q)));
            }
        }
        while k < n
            invariant
                n == self.max_rows * self.max_cols,
                k <= n,
                self.data == old_self.data,
                self.max_rows == old_self.max_rows,
                self.max_cols == old_self.max_cols,
                self.loaded_path == old_self.loaded_path,
                old_self.wf(),
                self.graph.inv(),
                self.graph.size() == n,
                circular@.no_duplicates(),
                forall|m: int| 0 <= m < circular.len() ==> self.in_grid(#[trigger] circular@[m]) && self.node(circular@[m]) < k,
                forall|p: (usize, usize), q: (usize, usize)| self.in_grid(p) && self.in_grid(q) && self.node(p) >= k
                    ==> !#[trigger] self.depends(p, q),
                forall|p: (usize, usize), q: (usize, usize)| self.in_grid(p) && self.in_grid(q) && self.node(p) < k && circular@.contains(p)
                    ==> !#[trigger] self.depends(p, q),
                forall|p: (usize, usize), q: (usize, usize)| self.in_grid(p) && self.in_grid(q) && self.node(p) < k && !circular@.contains(p)
                    ==> (#[trigger] self.depends(p, q) <==> self.refs_of(p).contains(q)),
                forall|p: (usize, usize)| #[trigger] circular@.contains(p) ==> self.closes_cycle(p, self.raw(p.0 as int, p.1 as int)),
                forall|i: int, j: int| 0 <= i < j < circular.len() ==> self.node(circular@[i]) < self.node(circular@[j]),
                forall|p: (usize, usize)| self.in_grid(p) && self.node(p) < k
                    ==> (#[trigger] circular@.contains(p) <==> self.closes_cycle_with_earlier(p, self.raw(p.0 as int, p.1 as int))),
            decreases n - k,
        {
            let cell = self.cell_of(k);
            let (r, c) = cell;
            let ghost before = *self;
            proof {
                assert(self.data@[r as int].len() >= self.max_cols);
                assert(old_self.in_grid(cell));
                assert(text_fits(old_self.raw(r as int, c as int)));
                assert(!circular@.contains(cell)) by {
                    if circular@.contains(cell) {
                        let m = choose|m: int| 0 <= m < circular.len() && circular@[m] == cell;
                        assert(self.node(circular@[m]) < k);
                    }
                }
            }
            match formula_text(self.data[r][c].as_str()) {
                Some(b) => {
                    proof {
                        assert(text_fits(self.raw(r as int, c as int)));
                    }
                    let refs = extract_references(&b, self.max_rows, self.max_cols);
                    proof {
                        assert forall|q: (usize, usize)| #[trigger] refs@.contains(q) <==> self.refs_of(cell).contains(q) by {}
                        assert forall|m: int| 0 <= m < refs.len() implies self.in_grid(#[trigger] refs@[m]) by {
                            assert(refs@.contains(refs@[m]));
                        }
                    }
                    let ids = self.nodes_of(&refs);
                    proof {
                        assert(ids@.no_duplicates()) by {
                            assert forall|a: int, b: int| 0 <= a < ids.len() && 0 <= b < ids.len() && a != b implies ids@[a] != ids@[b] by {
                                if ids@[a] == ids@[b] {
                                    self.lemma_nodes_distinct(refs@[a], refs@[b]);
                                }
                            }
                        }
                        // the cell has no dependency yet
                        assert forall|v: usize| !#[trigger] self.graph.depends_on(k, v) by {
                            if self.graph.depends_on(k, v) {
                                self.lemma_graph_in_grid_raw(k, v);
                                let q = self.cell_of_spec(v);
                                assert(self.depends(cell, q));
                            }
                        }
                    }
                    let ghost circular_before = circular@;
                    let was_circular = self.graph.set_dependencies(k, &ids);
                    if was_circular {
                        proof {
                            crate::graph::lemma_push_contains(circular@, cell);
                        }
                        circular.push(cell);
                    }
                    proof {
                        self.lemma_rebuild_step(before, cell, refs@, ids@, was_circular, circular@, k);
                        self.lemma_rebuild_earlier(before, cell, refs@, ids@, was_circular, circular_before, circular@, k);
                    }
                },
                None => {
                    proof {
                        assert forall|q: (usize, usize)| !self.refs_of(cell).contains(q) by {}
                    }
                },
            }
            k = k + 1;
            proof {
                assert forall|p: (usize, usize)| self.in_grid(p) && self.node(p) < k && self.node(p) >= k - 1 implies p == cell by {
                    self.lemma_nodes_distinct(p, cell);
                }
            }
        }
        proof {
            assert forall|p: (usize, usize)| self.in_grid(p) implies #[trigger] self.follows_formula(p) by {
                self.lemma_nodes_distinct(p, p);
                if circular@.contains(p) {
                    assert forall|q: (usize, usize)| self.in_grid(q) implies !#[trigger] self.depends(p, q) by {}
                } else {
                    assert forall|q: (usize, usize)| self.in_grid(q) implies (#[trigger] self.depends(p, q) <==> self.refs_of(p).contains(q)) by {}
                }
            }
            assert forall|p: (usize, usize), q: (usize, usize)| self.in_grid(p) && self.in_grid(q) && circular@.contains(p)
                implies !#[trigger] self.depends(p, q) by {
                self.lemma_nodes_distinct(p, p);
            }
            assert forall|p: (usize, usize)| self.in_grid(p) implies
                (#[trigger] circular@.contains(p) <==> self.closes_cycle_with_earlier(p, self.raw(p.0 as int, p.1 as int))) by {
                self.lemma_nodes_distinct(p, p);
            }
            assert forall|p: (usize, usize), q: (usize, usize)| self.in_grid(p) && self.in_grid(q) && !circular@.contains(p)
                implies (#[trigger] self.depends(p, q) <==> self.refs_of(p).contains(q)) by {
                self.lemma_nodes_distinct(p, p);
            }
            assert forall|p: (usize, usize)| self.in_grid(p) implies text_fits(#[trigger] self.raw(p.0 as int, p.1 as int)) by {
                assert(text_fits(old_self.raw(p.0 as int, p.1 as int)));
            }
        }
        circular
    }

    /// The cell of a graph node, in specifications.
    spec fn cell_of_spec(&self, n: usize) -> (usize, usize) {
        ((n / self.max_cols) as usize, (n % self.max_cols) as usize)
    }

    proof fn lemma_cell_of_spec(&self, n: usize)
        requires
            self.max_rows * self.max_cols <= usize::MAX,
            n < self.rows() * self.cols(),
        ensures
            self.in_grid(self.cell_of_spec(n)),
            self.node(self.cell_of_spec(n)) == n,
    {
        if self.max_cols == 0 {
            assert(self.max_rows * self.max_cols == 0) by (nonlinear_arith)
                requires
                    self.max_cols == 0,
            {
            }
        }
        lemma_node_inverse(n as int, self.max_rows as int, self.max_cols as int);
    }

    /// Edges of the graph join nodes of grid cells.
    proof fn lemma_graph_in_grid_raw(&self, u: usize, v: usize)
        requires
            self.max_rows * self.max_cols <= usize::MAX,
            self.graph.inv(),
            self.graph.size() == self.max_rows * self.max_cols,
            self.graph.depends_on(u, v),
        ensures
            u < self.rows() * self.cols(),
            v < self.rows() * self.cols(),
            self.in_grid(self.cell_of_spec(u)),
            self.in_grid(self.cell_of_spec(v)),
            self.node(self.cell_of_spec(u)) == u,
            self.node(self.cell_of_spec(v)) == v,
    {
        let adj = self.graph.edges();
        assert(has_edge(adj, u, v));
        let i = choose|i: int| 0 <= i < adj[u as int]@.len() && adj[u as int]@[i] == v;
        assert(adj[u as int]@[i] < self.graph.size());
        self.lemma_cell_of_spec(u);
        self.lemma_cell_of_spec(v);
    }

    /// After cell `k` of a rebuild, the circular cells up to `k` are still those whose formula
    /// closes a cycle with the cells before them.
    proof fn lemma_rebuild_earlier(&self, before: Spreadsheet, cell: (usize, usize), refs: Seq<(usize, usize)>,
        ids: Seq<usize>, was_circular: bool, circular_before: Seq<(usize, usize)>, circular: Seq<(usize, usize)>, k: usize)
        requires
            self.max_rows == before.max_rows,
            self.max_cols == before.max_cols,
            self.data == before.data,
            self.max_rows * self.max_cols <= usize::MAX,
            before.in_grid(cell),
            before.node(cell) == k,
            before.graph.inv(),
            before.graph.size() == self.max_rows * self.max_cols,
            self.graph.inv(),
            self.graph.size() == before.graph.size(),
            forall|q: (usize, usize)| #[trigger] refs.contains(q) <==> before.refs_of(cell).contains(q),
            ids.len() == refs.len(),
            forall|m: int| 0 <= m < refs.len() ==> #[trigger] ids[m] == before.node(refs[m]),
            forall|m: int| 0 <= m < refs.len() ==> before.in_grid(#[trigger] refs[m]),
            was_circular == reached_from(before.graph.edges(), ids, k),
            forall|u: usize, v: usize| #[trigger] self.graph.depends_on(u, v)
                <==> (if u == k { !was_circular && ids.contains(v) } else { before.graph.depends_on(u, v) }),
            forall|p: (usize, usize), q: (usize, usize)| before.in_grid(p) && before.in_grid(q) && before.node(p) >= k
                ==> !#[trigger] before.depends(p, q),
            forall|p: (usize, usize)| before.in_grid(p) && before.node(p) < k
                ==> (#[trigger] circular_before.contains(p) <==> before.closes_cycle_with_earlier(p, before.raw(p.0 as int, p.1 as int))),
            !circular_before.contains(cell),
            circular == if was_circular { circular_before.push(cell) } else { circular_before },
        ensures
            forall|p: (usize, usize)| self.in_grid(p) && self.node(p) < k + 1
                ==> (#[trigger] circular.contains(p) <==> self.closes_cycle_with_earlier(p, self.raw(p.0 as int, p.1 as int))),
    {
        let e0 = before.graph.edges();
        let e1 = self.graph.edges();
        // before the cell, every edge leaves a cell that comes before it
        assert forall|u: usize, v: usize| #[trigger] has_edge(e0, u, v) implies (u as int) < k by {
            assert(before.graph.depends_on(u, v));
            before.lemma_graph_in_grid_raw(u, v);
            let p = before.cell_of_spec(u);
            let q = before.cell_of_spec(v);
            assert(before.depends(p, q));
        }
        assert forall|p: (usize, usize)| self.in_grid(p) && self.node(p) < k + 1
            implies (#[trigger] circular.contains(p) <==> self.closes_cycle_with_earlier(p, self.raw(p.0 as int, p.1 as int))) by {
            let bound = self.node(p) as int;
            assert forall|u: usize, v: usize| (u as int) < bound implies (has_edge(e0, u, v) <==> has_edge(e1, u, v)) by {
                assert(before.graph.depends_on(u, v) == self.graph.depends_on(u, v));
            }
            let raw = self.raw(p.0 as int, p.1 as int);
            if p == cell {
                if was_circular {
                    let i = choose|i: int| 0 <= i < ids.len() && reaches(e0, #[trigger] ids[i], k);
                    crate::graph::lemma_reaches_all_below(e0, ids[i], k, k as int);
                    crate::graph::lemma_reaches_below_frame(e0, e1, ids[i], k, k as int);
                    assert(refs.contains(refs[i]));
                    assert(cell_refs(raw, self.rows(), self.cols()).contains(refs[i]));
                    crate::graph::lemma_push_contains(circular_before, cell);
                } else {
                    if self.closes_cycle_with_earlier(p, raw) {
                        let q = choose|q: (usize, usize)| #[trigger] cell_refs(raw, self.rows(), self.cols()).contains(q)
                            && reaches_below(e1, self.node(q), self.node(p), self.node(p) as int);
                        assert(refs.contains(q));
                        let m = choose|m: int| 0 <= m < refs.len() && refs[m] == q;
                        crate::graph::lemma_reaches_below_frame(e0, e1, ids[m], k, k as int);
                        crate::graph::lemma_reaches_all_below(e0, ids[m], k, k as int);
                        assert(reached_from(e0, ids, k));
                    }
                }
            } else {
                assert(self.node(p) < k) by {
                    if self.node(p) == k {
                        self.lemma_nodes_distinct(p, cell);
                    }
                }
                assert(before.closes_cycle_with_earlier(p, raw) == self.closes_cycle_with_earlier(p, raw)) by {
                    assert forall|q: (usize, usize)| #[trigger] cell_refs(raw, self.rows(), self.cols()).contains(q) implies
                        (reaches_below(e0, self.node(q), self.node(p), bound) == reaches_below(e1, self.node(q), self.node(p), bound)) by {
                        crate::graph::lemma_reaches_below_frame(e0, e1, self.node(q), self.node(p), bound);
                    }
                }
                if was_circular {
                    crate::graph::lemma_push_contains(circular_before, cell);
                }
            }
        }
    }

    proof fn lemma_rebuild_step(&self, before: Spreadsheet, cell: (usize, usize), refs: Seq<(usize, usize)>,
        ids: Seq<usize>, was_circular: bool, circular: Seq<(usize, usize)>, k: usize)
        requires
            self.max_rows == before.max_rows,
            self.max_cols == before.max_cols,
            self.data == before.data,
            self.max_rows * self.max_cols <= usize::MAX,
            before.in_grid(cell),
            before.node(cell) == k,
            before.graph.inv(),
            before.graph.size() == self.max_rows * self.max_cols,
            self.graph.inv(),
            self.graph.size() == before.graph.size(),
            forall|q: (usize, usize)| #[trigger] refs.contains(q) <==> before.refs_of(cell).contains(q),
            ids.len() == refs.len(),
            forall|m: int| 0 <= m < refs.len() ==> #[trigger] ids[m] == before.node(refs[m]),
            forall|m: int| 0 <= m < refs.len() ==> before.in_grid(#[trigger] refs[m]),
            was_circular == reached_from(before.graph.edges(), ids, k),
            forall|u: usize, v: usize| #[trigger] self.graph.depends_on(u, v)
                <==> (if u == k { !was_circular && ids.contains(v) } else { before.graph.depends_on(u, v) }),
            forall|v: usize| !#[trigger] before.graph.depends_on(k, v),
            was_circular <==> circular.contains(cell),
            forall|p: (usize, usize)| #[trigger] circular.contains(p) && p != cell ==> before.closes_cycle(p, before.raw(p.0 as int, p.1 as int)),
        ensures
            forall|p: (usize, usize)| #[trigger] circular.contains(p) ==> self.closes_cycle(p, self.raw(p.0 as int, p.1 as int)),
            forall|q: (usize, usize)| self.in_grid(q) ==> (#[trigger] self.depends(cell, q) <==> !was_circular && self.refs_of(cell).contains(q)),
            forall|p: (usize, usize), q: (usize, usize)| self.in_grid(p) && self.in_grid(q) && p != cell
                ==> (#[trigger] self.depends(p, q) == before.depends(p, q)),
    {
        // the new graph contains the old one
        assert(crate::graph::is_subgraph(before.graph.edges(), self.graph.edges())) by {
            assert forall|u: usize, v: usize| #[trigger] has_edge(before.graph.edges(), u, v) implies has_edge(self.graph.edges(), u, v) by {
                assert(before.graph.depends_on(u, v));
                assert(self.graph.depends_on(u, v));
            }
        }
        assert forall|p: (usize, usize)| #[trigger] circular.contains(p) implies self.closes_cycle(p, self.raw(p.0 as int, p.1 as int)) by {
            if p == cell {
                let i = choose|i: int| 0 <= i < ids.len() && reaches(before.graph.edges(), #[trigger] ids[i], k);
                crate::graph::lemma_subgraph_reaches(before.graph.edges(), self.graph.edges(), ids[i], k);
                assert(refs.contains(refs[i]));
                assert(cell_refs(self.raw(cell.0 as int, cell.1 as int), self.rows(), self.cols()).contains(refs[i]));
                assert(self.depends_transitively(refs[i], cell));
            } else if p != cell {
                assert(before.closes_cycle(p, before.raw(p.0 as int, p.1 as int)));
                let q = choose|q: (usize, usize)| #[trigger] cell_refs(before.raw(p.0 as int, p.1 as int), before.rows(), before.cols()).contains(q)
                    && before.depends_transitively(q, p);
                crate::graph::lemma_subgraph_reaches(before.graph.edges(), self.graph.edges(), before.node(q), before.node(p));
                assert(cell_refs(self.raw(p.0 as int, p.1 as int), self.rows(), self.cols()).contains(q));
            }
        }
        assert forall|q: (usize, usize)| self.in_grid(q) implies (#[trigger] self.depends(cell, q) <==> !was_circular && self.refs_of(cell).contains(q)) by {
            self.lemma_nodes_distinct(q, q);
            if ids.contains(self.node(q)) {
                let m = choose|m: int| 0 <= m < ids.len() && ids[m] == self.node(q);
                self.lemma_nodes_distinct(refs[m], q);
                assert(refs.contains(refs[m]));
            }
            if refs.contains(q) {
                let m = choose|m: int| 0 <= m < refs.len() && refs[m] == q;
                assert(ids.contains(ids[m]));
            }
        }
        assert forall|p: (usize, usize), q: (usize, usize)| self.in_grid(p) && self.in_grid(q) && p != cell
            implies (#[trigger] self.depends(p, q) == before.depends(p, q)) by {
            self.lemma_nodes_distinct(p, cell);
        }
    }

    /// A sheet of `max_rows` × `max_cols` holding `records`: records past `max_rows` are
    /// dropped, short records are filled with empty cells up to `max_cols` (longer ones are
    /// kept whole), and missing rows are empty. The graph is then rebuilt; the second result
    /// lists the circular cells, as [`Spreadsheet::rebuild_graph_and_evaluate_all`] gives them.
    pub fn from_records(records: Vec<Vec<String>>, max_rows: usize, max_cols: usize, path: Option<String>)
        -> (r: (Self, Vec<(usize, usize)>))
        requires
            max_rows * max_cols <= usize::MAX,
            forall|i: int, j: int| 0 <= i < records.len() && i < max_rows && 0 <= j < records@[i].len() && j < max_cols
                ==> text_fits(#[trigger] records@[i]@[j]@),
        ensures
            r.0.wf(),
            r.0.rows() == max_rows,
            r.0.cols() == max_cols,
            r.0.path() == match path { Some(p) => Some(p@), None => None::<Seq<char>> },
            r.0.loaded_from(records_view(records@)),
            r.0.rebuilt_with(r.1@),
    {
        let ghost orig = records@;
        let orig_len = records.len();
        let mut rest = records;
        let mut data: Vec<Vec<String>> = Vec::new();
        while data.len() < max_rows
            invariant
                orig_len == orig.len(),
                data.len() <= max_rows,
                data.len() < orig.len() ==> rest@ == orig.subrange(data.len() as int, orig.len() as int),
                forall|i: int| 0 <= i < data.len() ==> #[trigger] data@[i].len() == if i < orig.len() && orig[i].len() > max_cols {
                    orig[i].len() as nat
                } else {
                    max_cols as nat
                },
                forall|i: int, j: int| 0 <= i < data.len() && 0 <= j < data@[i].len() ==> #[trigger] data@[i]@[j]@ == if i < orig.len()
                    && j < orig[i].len() {
                    orig[i]@[j]@
                } else {
                    Seq::<char>::empty()
                },
            decreases max_rows - data.len(),
        {
            let k = data.len();
            let ghost rest_before = rest@;
            let mut row: Vec<String> = if k < orig_len {
                proof {
                    assert(rest_before == orig.subrange(k as int, orig.len() as int));
                    assert(rest@.len() > 0);
                    assert(rest@[0] == orig[k as int]);
                }
                rest.remove(0)
            } else {
                Vec::new()
            };
            let ghost src = row@;
            proof {
                if k < orig.len() {
                    assert(rest@ =~= orig.subrange(k + 1, orig.len() as int)) by {
                        assert(rest@ == rest_before.remove(0));
                    }
                }
            }
            while row.len() < max_cols
                invariant
                    src.len() <= row.len(),
                    row@.subrange(0, src.len() as int) == src,
                    forall|j: int| src.len() <= j < row.len() ==> (#[trigger] row@[j])@ == Seq::<char>::empty(),
                    row.len() <= if src.len() > max_cols { src.len() as int } else { max_cols as int },
                decreases max_cols - row.len(),
            {
                row.push(String::new());
            }
            proof {
                if k < orig.len() {
                    assert(src == orig[k as int]@);
                } else {
                    assert(src.len() == 0);
                }
                assert forall|j: int| 0 <= j < row.len() implies (#[trigger] row@[j])@ == if k < orig.len() && j < orig[k as int].len() {
                    orig[k as int]@[j]@
                } else {
                    Seq::<char>::empty()
                } by {
                    if j < src.len() {
                        assert(row@[j] == row@.subrange(0, src.len() as int)[j]);
                    }
                }
            }
            data.push(row);
        }
        let graph = DependencyGraph::new(max_rows * max_cols);
        let mut sheet = Spreadsheet { data, max_rows, max_cols, loaded_path: path, graph };
        proof {
            assert forall|p: (usize, usize)| sheet.in_grid(p) implies #[trigger] sheet.follows_formula(p) by {
                assert forall|q: (usize, usize)| sheet.in_grid(q) implies !#[trigger] sheet.depends(p, q) by {
                    assert(!sheet.graph.depends_on(sheet.node(p), sheet.node(q)));
                }
            }
            assert forall|p: (usize, usize)| sheet.in_grid(p) implies text_fits(#[trigger] sheet.raw(p.0 as int, p.1 as int)) by {
                if !(p.0 < orig.len() && p.1 < orig[p.0 as int].len()) {
                    assert(sheet.raw(p.0 as int, p.1 as int) == Seq::<char>::empty());
                    assert(trimmed(Seq::<char>::empty()) == Seq::<char>::empty());
                }
            }
            assert forall|r: int| 0 <= r < max_rows implies #[trigger] sheet.data@[r].len() >= max_cols by {}
        }
        let circular = sheet.rebuild_graph_and_evaluate_all();
        proof {
            let v = records_view(orig);
            assert forall|i: int| 0 <= i < max_rows implies #[trigger] sheet.row_len(i) == if i < v.len() && v[i].len() > max_cols {
                v[i].len() as nat
            } else {
                max_cols as nat
            } by {
                if i < v.len() {
                    assert(v[i].len() == orig[i].len());
                }
            }
            assert forall|i: int, j: int| 0 <= i < max_rows && 0 <= j < sheet.row_len(i) implies #[trigger] sheet.raw(i, j) == if i < v.len()
                && j < v[i].len() {
                v[i][j]
            } else {
                Seq::<char>::empty()
            } by {
                if i < v.len() {
                    assert(v[i].len() == orig[i].len());
                    if j < v[i].len() {
                        assert(v[i][j] == orig[i]@[j]@);
                    }
                }
            }
        }
        (sheet, circular)
    }

    /// Row `r` holds a non-empty cell (at any position).
    pub open spec fn row_used(&self, r: int) -> bool {
        exists|c: int| 0 <= c < self.row_len(r) && #[trigger] self.raw(r, c).len() > 0
    }

    /// The last row below `k` that holds a non-empty cell; 0 when there is none.
    pub open spec fn last_used_row_below(&self, k: int) -> int
        decreases k,
    {
        if k <= 0 { 0 } else if self.row_used(k - 1) { k - 1 } else { self.last_used_row_below(k - 1) }
    }

    /// The last column below `k` where row `r` is non-empty; 0 when there is none.
    pub open spec fn last_used_col_in(&self, r: int, k: int) -> int
        decreases k,
    {
        if k <= 0 { 0 } else if self.raw(r, k - 1).len() > 0 { k - 1 } else { self.last_used_col_in(r, k - 1) }
    }

    /// The largest last-used column among the rows below `k` (looking at the grid's columns).
    pub open spec fn last_used_col_upto(&self, k: int) -> int
        decreases k,
    {
        if k <= 0 {
            0
        } else {
            let a = self.last_used_col_upto(k - 1);
            let b = self.last_used_col_in(k - 1, self.cols() as int);
            if b > a { b } else { a }
        }
    }

    proof fn lemma_last_used_col_in_bounds(&self, r: int, k: int)
        requires
            k >= 1,
        ensures
            0 <= self.last_used_col_in(r, k) < k,
        decreases k,
    {
        if self.raw(r, k - 1).len() == 0 {
            if k > 1 {
                self.lemma_last_used_col_in_bounds(r, k - 1);
            } else {
                assert(self.last_used_col_in(r, k - 1) == 0);
            }
        }
    }

    proof fn lemma_last_used_col_upto_bounds(&self, k: int)
        requires
            self.cols() >= 1,
        ensures
            0 <= self.last_used_col_upto(k) < self.cols(),
        decreases k,
    {
        if k > 0 {
            self.lemma_last_used_col_upto_bounds(k - 1);
            self.lemma_last_used_col_in_bounds(k - 1, self.cols() as int);
        }
    }

    proof fn lemma_last_used_row_bounds(&self, k: int)
        requires
            k >= 1,
        ensures
            0 <= self.last_used_row_below(k) < k,
        decreases k,
    {
        if !self.row_used(k - 1) {
            if k > 1 {
                self.lemma_last_used_row_bounds(k - 1);
            } else {
                assert(self.last_used_row_below(k - 1) == 0);
            }
        }
    }

    /// `recs` is what saving writes: rows `0..=last_row` cut to columns `0..=last_col`, where
    /// `last_row` is the last row holding a non-empty cell and `last_col` the last column of
    /// the grid holding one in any row (each 0 when there is none).
    pub open spec fn saved_as(&self, recs: Seq<Seq<Seq<char>>>) -> bool {
        &&& recs.len() == self.last_used_row_below(self.rows() as int) + 1
        &&& forall|r: int| 0 <= r < recs.len() ==> #[trigger] recs[r].len() == self.last_used_col_upto(self.rows() as int) + 1
        &&& forall|r: int, c: int| 0 <= r < recs.len() && 0 <= c < recs[r].len() ==> #[trigger] recs[r][c] == self.raw(r, c)
    }

    /// The sheet holds `recs`: records past the last row are dropped, short records are
    /// filled with empty cells up to the number of columns (longer ones are kept whole), and
    /// missing rows are empty.
    pub open spec fn loaded_from(&self, recs: Seq<Seq<Seq<char>>>) -> bool {
        &&& forall|i: int| 0 <= i < self.rows() ==> #[trigger] self.row_len(i) == if i < recs.len() && recs[i].len() > self.cols() {
            recs[i].len() as nat
        } else {
            self.cols()
        }
        &&& forall|i: int, j: int| 0 <= i < self.rows() && 0 <= j < self.row_len(i) ==> #[trigger] self.raw(i, j) == if i < recs.len()
            && j < recs[i].len() {
            recs[i][j]
        } else {
            Seq::<char>::empty()
        }
    }

    proof fn lemma_rows_after_last_unused(&self, k: int, r: int)
        requires
            self.last_used_row_below(k) < r < k,
        ensures
            !self.row_used(r),
        decreases k,
    {
        if k > 0 && !self.row_used(k - 1) && r < k - 1 {
            self.lemma_rows_after_last_unused(k - 1, r);
        }
    }

    proof fn lemma_cols_after_last_empty(&self, row: int, k: int, c: int)
        requires
            self.last_used_col_in(row, k) < c < k,
        ensures
            self.raw(row, c).len() == 0,
        decreases k,
    {
        if k > 0 && self.raw(row, k - 1).len() == 0 && c < k - 1 {
            self.lemma_cols_after_last_empty(row, k - 1, c);
        }
    }

    proof fn lemma_col_upto_covers(&self, k: int, r: int)
        requires
            0 <= r < k,
        ensures
            self.last_used_col_in(r, self.cols() as int) <= self.last_used_col_upto(k),
        decreases k,
    {
        if r < k - 1 {
            self.lemma_col_upto_covers(k - 1, r);
        }
    }

    /// Every cell of the grid outside the saved rectangle is empty.
    proof fn lemma_outside_saved_empty(&self, r: int, c: int)
        requires
            self.wf(),
            self.rows() >= 1,
            self.cols() >= 1,
            0 <= r < self.rows(),
            0 <= c < self.cols(),
            r > self.last_used_row_below(self.rows() as int) || c > self.last_used_col_upto(self.rows() as int),
        ensures
            self.raw(r, c).len() == 0,
    {
        assert(self.data@[r].len() >= self.max_cols);
        if r > self.last_used_row_below(self.rows() as int) {
            self.lemma_rows_after_last_unused(self.rows() as int, r);
            assert(0 <= c < self.row_len(r));
        } else {
            self.lemma_col_upto_covers(self.rows() as int, r);
            self.lemma_cols_after_last_empty(r, self.cols() as int, c);
        }
    }

    /// The dependencies never form a cycle: when `p` depends on `q`, `q` does not depend on
    /// `p`, directly or through other cells.
    pub proof fn law_no_circular_dependencies(s: &Spreadsheet, p: (usize, usize), q: (usize, usize))
        requires
            s.wf(),
            s.depends(p, q),
        ensures
            !s.depends_transitively(q, p),
    {
        assert(has_edge(s.graph.edges(), s.node(p), s.node(q)));
    }

    /// Saving a sheet and loading what was saved into a sheet of the same size gives back
    /// the text of every cell of the grid.
    pub proof fn law_save_then_load(s: &Spreadsheet, recs: Seq<Seq<Seq<char>>>, t: &Spreadsheet)
        requires
            s.wf(),
            s.rows() >= 1,
            s.cols() >= 1,
            s.saved_as(recs),
            t.rows() == s.rows(),
            t.cols() == s.cols(),
            t.loaded_from(recs),
        ensures
            forall|r: int, c: int| 0 <= r < s.rows() && 0 <= c < s.cols() ==> #[trigger] t.raw(r, c) == s.raw(r, c),
    {
        assert forall|r: int, c: int| 0 <= r < s.rows() && 0 <= c < s.cols() implies #[trigger] t.raw(r, c) == s.raw(r, c) by {
            assert(t.row_len(r) >= t.cols());
            if r < recs.len() && c < recs[r].len() {
                assert(t.raw(r, c) == recs[r][c]);
            } else {
                s.lemma_outside_saved_empty(r, c);
                assert(s.raw(r, c) =~= Seq::<char>::empty());
            }
        }
    }

    /// The records that saving writes: [`Spreadsheet::saved_as`] as one value.
    pub open spec fn saved_records(&self) -> Seq<Seq<Seq<char>>> {
        Seq::new((self.last_used_row_below(self.rows() as int) + 1) as nat, |r: int|
            Seq::new((self.last_used_col_upto(self.rows() as int) + 1) as nat, |c: int| self.raw(r, c)))
    }

    /// [`Spreadsheet::saved_records`] is what [`Spreadsheet::saved_as`] describes.
    pub proof fn lemma_saved_records(&self)
        requires
            self.wf(),
            self.rows() >= 1,
            self.cols() >= 1,
        ensures
            self.saved_as(self.saved_records()),
    {
        self.lemma_last_used_col_upto_bounds(self.rows() as int);
        self.lemma_last_used_row_bounds(self.rows() as int);
    }

    /// The records that saving writes: rows `0..=last_row` cut to columns `0..=last_col`,
    /// where `last_row` is the last row holding a non-empty cell and `last_col` the last
    /// column (of the grid) holding one in any row, each 0 when there is none.
    pub fn csv_records(&self) -> (recs: Vec<Vec<String>>)
        requires
            self.wf(),
            self.rows() >= 1,
            self.cols() >= 1,
        ensures
            self.saved_as(records_view(recs@)),
    {
        // last row with content
        let mut last_row: usize = 0;
        let mut k: usize = self.max_rows;
        while k > 0
            invariant_except_break
                last_row == 0,
            invariant
                self.wf(),
                k <= self.max_rows,
                self.last_used_row_below(self.rows() as int) == self.last_used_row_below(k as int),
            ensures
                last_row as int == self.last_used_row_below(self.rows() as int),
            decreases k,
        {
            let r = k - 1;
            let mut used = false;
            let mut c: usize = 0;
            while c < self.data[r].len()
                invariant
                    self.wf(),
                    r < self.max_rows,
                    c <= self.data@[r as int].len(),
                    used == exists|j: int| 0 <= j < c && #[trigger] self.raw(r as int, j).len() > 0,
                decreases self.data@[r as int].len() - c,
            {
                let nonempty = !self.data[r][c].as_str().is_empty();
                proof {
                    assert(nonempty == (self.raw(r as int, c as int).len() > 0));
                    if !nonempty && !used {
                        assert forall|j: int| 0 <= j < c + 1 implies !(#[trigger] self.raw(r as int, j).len() > 0) by {}
                    }
                }
                if nonempty {
                    used = true;
                }
                c = c + 1;
            }
            if used {
                last_row = r;
                break;
            }
            k = k - 1;
        }
        // last column with content, over all rows
        let mut last_col: usize = 0;
        let mut r: usize = 0;
        proof {
            self.lemma_last_used_col_upto_bounds(0);
        }
        while r < self.max_rows
            invariant
                self.wf(),
                self.cols() >= 1,
                r <= self.max_rows,
                last_col as int == self.last_used_col_upto(r as int),
            decreases self.max_rows - r,
        {
            proof {
                assert(self.data@[r as int].len() >= self.max_cols);
                self.lemma_last_used_col_upto_bounds(r as int);
            }
            let mut c: usize = self.max_cols;
            while c > 0
                invariant_except_break
                    last_col as int == self.last_used_col_upto(r as int),
                invariant
                    self.wf(),
                    r < self.max_rows,
                    c <= self.max_cols,
                    self.data@[r as int].len() >= self.max_cols,
                    self.last_used_col_in(r as int, self.cols() as int) == self.last_used_col_in(r as int, c as int),
                    0 <= self.last_used_col_upto(r as int),
                ensures
                    last_col as int == (if self.last_used_col_in(r as int, self.cols() as int) > self.last_used_col_upto(r as int) {
                        self.last_used_col_in(r as int, self.cols() as int)
                    } else {
                        self.last_used_col_upto(r as int)
                    }),
                decreases c,
            {
                let j = c - 1;
                if !self.data[r][j].as_str().is_empty() {
                    if j > last_col {
                        last_col = j;
                    }
                    break;
                }
                c = c - 1;
            }
            r = r + 1;
        }
        proof {
            self.lemma_last_used_col_upto_bounds(self.rows() as int);
            self.lemma_last_used_row_bounds(self.rows() as int);
        }
        let mut recs: Vec<Vec<String>> = Vec::new();
        let mut i: usize = 0;
        while i <= last_row
            invariant
                self.wf(),
                last_row < self.max_rows,
                last_col < self.max_cols,
                i <= last_row + 1,
                recs.len() == i,
                forall|a: int| 0 <= a < i ==> #[trigger] recs@[a].len() == last_col + 1,
                forall|a: int, b: int| 0 <= a < i && 0 <= b < recs@[a].len() ==> (#[trigger] recs@[a]@[b])@ == self.raw(a, b),
            decreases last_row + 1 - i,
        {
            proof {
                assert(self.data@[i as int].len() >= self.max_cols);
            }
            let mut row: Vec<String> = Vec::new();
            let mut j: usize = 0;
            while j <= last_col
                invariant
                    self.wf(),
                    i < self.max_rows,
                    last_col < self.max_cols,
                    self.data@[i as int].len() >= self.max_cols,
                    j <= last_col + 1,
                    row.len() == j,
                    forall|b: int| 0 <= b < j ==> (#[trigger] row@[b])@ == self.raw(i as int, b),
                decreases last_col + 1 - j,
            {
                row.push(self.data[i][j].clone());
                j = j + 1;
            }
            recs.push(row);
            i = i + 1;
        }
        proof {
            let v = records_view(recs@);
            assert forall|a: int| 0 <= a < v.len() implies #[trigger] v[a].len() == self.last_used_col_upto(self.rows() as int) + 1 by {
                assert(v[a].len() == recs@[a].len());
            }
            assert forall|a: int, b: int| 0 <= a < v.len() && 0 <= b < v[a].len() implies #[trigger] v[a][b] == self.raw(a, b) by {
                assert(v[a].len() == recs@[a].len());
                assert(v[a][b] == recs@[a]@[b]@);
            }
        }
        recs
    }

    /// The letters naming column `col` (0 is `A`, 26 is `AA`).
    pub fn col_to_letter(col: usize) -> (s: String)
        ensures
            s@ == column_letters(col as nat),
    {
        letters_of_column(col)
    }
}

} // verus!
