//! # Spatial hash grid: broad-phase collision detection
//!
//! The screen is split into a uniform grid of cells. Each frame the grid is
//! cleared, every circle is inserted into the cells it overlaps, and the
//! pairs of circles that share a cell are handed to the narrow phase.

pub mod contacts;
pub mod laws;
pub mod pairs;
pub mod seq_facts;

use vstd::prelude::*;

use vstd::arithmetic::div_mod::{
    lemma_div_pos_is_pos, lemma_fundamental_div_mod, lemma_fundamental_div_mod_converse,
    lemma_mod_pos_bound,
};

use crate::collision::pairs::{
    candidate_pairs, cell_pairs, first_sightings, grid_pairs, lemma_candidate_pairs,
    ordered_pair, pairs_from, share_a_cell,
};
use crate::collision::seq_facts::lemma_push_contains;

verus! {

/// The block of cells a circle overlaps: rows `min_row ..= max_row` and
/// columns `min_col ..= max_col`, before the block is cut to the grid.
#[derive(Clone, Copy, Debug)]
pub struct CellSpan {
    pub min_col: usize,
    pub max_col: usize,
    pub min_row: usize,
    pub max_row: usize,
}

/// The last of `n` lines that a block reaching to line `hi` meets.
pub open spec fn last_line(hi: usize, n: nat) -> int {
    if hi < n - 1 {
        hi as int
    } else {
        n - 1
    }
}

/// The cell in row `row` and column `col` is in `span`, cut to a grid of
/// `cols` columns and `rows` rows.
pub open spec fn span_covers(span: CellSpan, cols: nat, rows: nat, row: int, col: int) -> bool {
    &&& span.min_row <= row <= last_line(span.max_row, rows)
    &&& span.min_col <= col <= last_line(span.max_col, cols)
}

/// `last_line` is the smaller of `hi` and the grid's last line `n - 1`.
pub proof fn lemma_last_line(hi: usize, n: nat)
    requires
        n >= 1,
    ensures
        last_line(hi, n) <= hi,
        last_line(hi, n) <= n - 1,
        last_line(hi, n) == hi || last_line(hi, n) == n - 1,
{
}

/// The cell in row `row` and column `col` of a grid of `cols` columns.
pub open spec fn cell_at(cells: Seq<Seq<usize>>, cols: nat, row: int, col: int) -> Seq<usize> {
    cells[row * cols + col]
}

/// The row of the cell stored at position `k`, in a grid of `cols` columns.
pub open spec fn row_of(k: int, cols: nat) -> int {
    k / (cols as int)
}

/// The column of the cell stored at position `k`, in a grid of `cols` columns.
pub open spec fn col_of(k: int, cols: nat) -> int {
    k % (cols as int)
}

/// The cells after `index` was inserted into every cell of `span`.
pub open spec fn inserted(
    cells: Seq<Seq<usize>>,
    cols: nat,
    rows: nat,
    index: usize,
    span: CellSpan,
) -> Seq<Seq<usize>> {
    Seq::new(
        cells.len(),
        |k: int|
            if span_covers(span, cols, rows, row_of(k, cols), col_of(k, cols)) {
                cells[k].push(index)
            } else {
                cells[k]
            },
    )
}

/// Inserting `index` with `span` appends it to exactly the cells whose row
/// lies in `span.min_row ..= span.max_row` and whose column lies in
/// `span.min_col ..= span.max_col`, and leaves every other cell as it was.
pub proof fn lemma_inserted_cell(
    cells: Seq<Seq<usize>>,
    cols: nat,
    rows: nat,
    index: usize,
    span: CellSpan,
    row: int,
    col: int,
)
    requires
        cells.len() == cols * rows,
        0 <= row < rows,
        0 <= col < cols,
    ensures
        cell_at(inserted(cells, cols, rows, index, span), cols, row, col) == (if span.min_row
            <= row <= span.max_row && span.min_col <= col <= span.max_col {
            cell_at(cells, cols, row, col).push(index)
        } else {
            cell_at(cells, cols, row, col)
        }),
{
    assert(0 <= row * cols + col < cols * rows) by (nonlinear_arith)
        requires
            0 <= row < rows,
            0 <= col < cols,
    ;
    lemma_position_of(cols, row, col);
}

/// `n` empty cells.
pub open spec fn empty_cells(n: nat) -> Seq<Seq<usize>> {
    Seq::new(n, |k: int| Seq::<usize>::empty())
}

/// Position `k` of the cell store is the cell in row `k / cols`, column
/// `k % cols`, and that cell is stored nowhere else.
pub proof fn lemma_row_col(cols: nat, k: int)
    requires
        cols > 0,
        0 <= k,
    ensures
        k == row_of(k, cols) * cols + col_of(k, cols),
        0 <= row_of(k, cols),
        0 <= col_of(k, cols) < cols,
{
    let d = cols as int;
    lemma_fundamental_div_mod(k, d);
    assert(d * (k / d) == (k / d) * d) by (nonlinear_arith);
    lemma_div_pos_is_pos(k, d);
    lemma_mod_pos_bound(k, cols as int);
}

/// The cell in row `row`, column `col` is stored at `row * cols + col`.
pub proof fn lemma_position_of(cols: nat, row: int, col: int)
    requires
        0 <= col < cols,
    ensures
        row_of(row * cols + col, cols) == row,
        col_of(row * cols + col, cols) == col,
{
    lemma_fundamental_div_mod_converse(row * cols + col, cols as int, row, col);
}

/// Where the pair `(lo, hi)` is recorded in a `count` by `count` table
/// stored row after row.
pub open spec fn pair_key(count: int, lo: int, hi: int) -> int {
    lo * count + hi
}

/// Distinct pairs of indices below `count` are recorded in distinct places
/// of the table, all inside it.
pub proof fn lemma_pair_key(count: int, lo1: int, hi1: int, lo2: int, hi2: int)
    requires
        0 <= lo1 < count,
        0 <= hi1 < count,
        0 <= lo2 < count,
        0 <= hi2 < count,
    ensures
        0 <= pair_key(count, lo1, hi1) < count * count,
        pair_key(count, lo1, hi1) == pair_key(count, lo2, hi2) ==> lo1 == lo2 && hi1 == hi2,
{
    assert(0 <= lo1 * count + hi1 < count * count) by (nonlinear_arith)
        requires
            0 <= lo1 < count,
            0 <= hi1 < count,
    ;
    if pair_key(count, lo1, hi1) == pair_key(count, lo2, hi2) {
        lemma_fundamental_div_mod_converse(pair_key(count, lo1, hi1), count, lo1, hi1);
        lemma_fundamental_div_mod_converse(pair_key(count, lo2, hi2), count, lo2, hi2);
    }
}

/// Two different circles inserted one after the other into blocks of cells
/// that meet inside the grid come out of the broad phase as a candidate
/// pair, whatever the grid held before.
pub proof fn lemma_meeting_spans_give_a_candidate(
    cells: Seq<Seq<usize>>,
    cols: nat,
    rows: nat,
    i: usize,
    span_i: CellSpan,
    j: usize,
    span_j: CellSpan,
    row: int,
    col: int,
)
    requires
        cols >= 1,
        rows >= 1,
        cells.len() == cols * rows,
        i != j,
        span_covers(span_i, cols, rows, row, col),
        span_covers(span_j, cols, rows, row, col),
    ensures
        candidate_pairs(
            inserted(inserted(cells, cols, rows, i, span_i), cols, rows, j, span_j),
        ).contains(ordered_pair(i, j)),
{
    let once = inserted(cells, cols, rows, i, span_i);
    let twice = inserted(once, cols, rows, j, span_j);
    let k = row * cols + col;
    assert(0 <= k < cols * rows) by (nonlinear_arith)
        requires
            0 <= row < rows,
            0 <= col < cols,
            k == row * cols + col,
    ;
    lemma_position_of(cols, row, col);
    let a = cells[k].len() as int;
    assert(twice[k] == cells[k].push(i).push(j));
    assert(twice[k][a] == i && twice[k][a + 1] == j);
    lemma_candidate_pairs(twice);
    if i < j {
        assert(share_a_cell(twice, i, j));
    } else {
        assert(share_a_cell(twice, j, i));
    }
}

/// An empty grid has no candidate pairs.
pub proof fn lemma_empty_grid_has_no_candidates(n: nat)
    ensures
        candidate_pairs(empty_cells(n)) == Seq::<(usize, usize)>::empty(),
{
    let s = candidate_pairs(empty_cells(n));
    lemma_candidate_pairs(empty_cells(n));
    if s.len() > 0 {
        assert(s.contains(s[0]));
    }
    assert(s =~= Seq::<(usize, usize)>::empty());
}

/// Up to this many circles, the broad phase remembers the pairs it has
/// found in a table with one entry per ordered pair of circles.
pub const DEDUP_TABLE_LIMIT: usize = 5000;

/// Whether `pairs` holds `p`.
fn holds_pair(pairs: &Vec<(usize, usize)>, p: (usize, usize)) -> (found: bool)
    ensures
        found == pairs@.contains(p),
{
    let mut q: usize = 0;
    while q < pairs.len()
        invariant
            q <= pairs@.len(),
            forall|r: int| 0 <= r < q ==> pairs@[r] != p,
        decreases pairs@.len() - q,
    {
        if pairs[q].0 == p.0 && pairs[q].1 == p.1 {
            assert(pairs@[q as int] == p);
            return true;
        }
        q = q + 1;
    }
    false
}

/// A uniform grid of cells; each cell lists the indices of the circles
/// inserted into it.
pub struct SpatialGrid {
    cols: usize,
    rows: usize,
    cells: Vec<Vec<usize>>,
}

impl View for SpatialGrid {
    type V = Seq<Seq<usize>>;

    /// The cells, row after row, each as the sequence of indices inserted
    /// into it.
    closed spec fn view(&self) -> Seq<Seq<usize>> {
        self.cells@.map_values(|c: Vec<usize>| c@)
    }
}

impl SpatialGrid {
    /// The number of columns.
    pub closed spec fn num_cols(&self) -> nat {
        self.cols as nat
    }

    /// The number of rows.
    pub closed spec fn num_rows(&self) -> nat {
        self.rows as nat
    }

    /// The grid has at least one row and one column, and one cell for each
    /// row and column.
    pub open spec fn wf(&self) -> bool {
        &&& self.num_cols() >= 1
        &&& self.num_rows() >= 1
        &&& self@.len() == self.num_cols() * self.num_rows()
    }

    /// Creates an empty grid that covers an area `width_cells` cells wide
    /// and `height_cells` cells high (a partial cell counted as a whole
    /// one), with one more column and one more row than that.
    pub fn new(width_cells: usize, height_cells: usize) -> (grid: Self)
        requires
            width_cells < usize::MAX,
            height_cells < usize::MAX,
            (width_cells + 1) * (height_cells + 1) <= usize::MAX,
        ensures
            grid.wf(),
            grid.num_cols() == width_cells + 1,
            grid.num_rows() == height_cells + 1,
            grid@ == empty_cells(grid@.len()),
    {
        let cols = width_cells + 1;
        let rows = height_cells + 1;
        let n = cols * rows;
        let mut cells: Vec<Vec<usize>> = Vec::with_capacity(n);
        let mut k: usize = 0;
        while k < n
            invariant
                k <= n,
                cells@.len() == k,
                forall|i: int| 0 <= i < k ==> (#[trigger] cells@[i])@ == Seq::<usize>::empty(),
            decreases n - k,
        {
            cells.push(Vec::new());
            k = k + 1;
        }
        let grid = SpatialGrid { cols, rows, cells };
        assert(grid@ =~= empty_cells(grid@.len()));
        grid
    }

    /// Removes every entry, keeping the cells and their shape.
    pub fn clear(&mut self)
        requires
            old(self).wf(),
        ensures
            final(self).wf(),
            final(self).num_cols() == old(self).num_cols(),
            final(self).num_rows() == old(self).num_rows(),
            final(self)@ == empty_cells(old(self)@.len()),
    {
        let n = self.cells.len();
        let mut k: usize = 0;
        while k < n
            invariant
                k <= n,
                n == self.cells@.len(),
                self.cols == old(self).cols,
                self.rows == old(self).rows,
                self.cells@.len() == old(self).cells@.len(),
                forall|i: int| 0 <= i < k ==> (#[trigger] self.cells@[i])@ == Seq::<usize>::empty(),
            decreases n - k,
        {
            self.cells[k].clear();
            k = k + 1;
        }
        assert(self@ =~= empty_cells(old(self)@.len()));
    }

    /// Inserts circle `index` into every cell of `span` that lies in the
    /// grid: rows `span.min_row` up to `span.max_row` or the last row,
    /// whichever comes first, and likewise for columns.
    pub fn insert(&mut self, index: usize, span: CellSpan)
        requires
            old(self).wf(),
        ensures
            final(self).wf(),
            final(self).num_cols() == old(self).num_cols(),
            final(self).num_rows() == old(self).num_rows(),
            final(self)@ == inserted(
                old(self)@,
                old(self).num_cols(),
                old(self).num_rows(),
                index,
                span,
            ),
            forall|row: int, col: int|
                0 <= row < old(self).num_rows() && 0 <= col < old(self).num_cols() ==> #[trigger] cell_at(
                    final(self)@,
                    old(self).num_cols(),
                    row,
                    col,
                ) == (if span.min_row <= row <= span.max_row && span.min_col <= col <= span.max_col {
                    cell_at(old(self)@, old(self).num_cols(), row, col).push(index)
                } else {
                    cell_at(old(self)@, old(self).num_cols(), row, col)
                }),
    {
        let ghost before = self@;
        let ghost cols = self.num_cols();
        let ghost rows = self.num_rows();
        let row_end = if span.max_row < self.rows - 1 {
            span.max_row
        } else {
            self.rows - 1
        };
        let col_end = if span.max_col < self.cols - 1 {
            span.max_col
        } else {
            self.cols - 1
        };
        let total = self.cells.len();
        let mut row = span.min_row;
        while row <= row_end
            invariant
                total == cols * rows,
                self.cols == cols,
                self.rows == rows,
                cols >= 1,
                rows >= 1,
                self.cells@.len() == cols * rows,
                before.len() == cols * rows,
                row_end == last_line(span.max_row, rows),
                col_end == last_line(span.max_col, cols),
                span.min_row <= row,
                forall|k: int|
                    #![trigger self.cells@[k]]
                    0 <= k < cols * rows ==> self.cells@[k]@ == (if span_covers(
                        span,
                        cols,
                        rows,
                        row_of(k, cols),
                        col_of(k, cols),
                    ) && row_of(k, cols) < row {
                        before[k].push(index)
                    } else {
                        before[k]
                    }),
            decreases row_end + 1 - row,
        {
            let mut col = span.min_col;
            while col <= col_end
                invariant
                    total == cols * rows,
                    self.cols == cols,
                    self.rows == rows,
                    cols >= 1,
                    rows >= 1,
                    self.cells@.len() == cols * rows,
                    before.len() == cols * rows,
                    row_end == last_line(span.max_row, rows),
                    col_end == last_line(span.max_col, cols),
                    span.min_row <= row <= row_end,
                    span.min_col <= col,
                    forall|k: int|
                        #![trigger self.cells@[k]]
                        0 <= k < cols * rows ==> self.cells@[k]@ == (if span_covers(
                            span,
                            cols,
                            rows,
                            row_of(k, cols),
                            col_of(k, cols),
                        ) && (row_of(k, cols) < row || (row_of(k, cols) == row && col_of(k, cols)
                            < col)) {
                            before[k].push(index)
                        } else {
                            before[k]
                        }),
                decreases col_end + 1 - col,
            {
                assert(row * cols + col < cols * rows) by (nonlinear_arith)
                    requires
                        row < rows,
                        col < cols,
                ;
                let k0 = row * self.cols + col;
                proof {
                    lemma_position_of(cols, row as int, col as int);
                }
                self.cells[k0].push(index);
                proof {
                    assert forall|k: int| 0 <= k < cols * rows && k != k0 implies (row_of(k, cols)
                        != row || col_of(k, cols) != col) by {
                        lemma_row_col(cols, k);
                    }
                }
                col = col + 1;
            }
            proof {
                assert forall|k: int| 0 <= k < cols * rows implies #[trigger] self.cells@[k]@ == (
                if span_covers(span, cols, rows, row_of(k, cols), col_of(k, cols)) && row_of(
                    k,
                    cols,
                ) < row + 1 {
                    before[k].push(index)
                } else {
                    before[k]
                }) by {
                    lemma_row_col(cols, k);
                }
            }
            row = row + 1;
        }
        assert(self@ =~= inserted(before, cols, rows, index, span));
        assert forall|r: int, c: int| 0 <= r < rows && 0 <= c < cols implies #[trigger] cell_at(
            self@,
            cols,
            r,
            c,
        ) == (if span.min_row <= r <= span.max_row && span.min_col <= c <= span.max_col {
            cell_at(before, cols, r, c).push(index)
        } else {
            cell_at(before, cols, r, c)
        }) by {
            assert(0 <= r * cols + c < cols * rows) by (nonlinear_arith)
                requires
                    0 <= r < rows,
                    0 <= c < cols,
            ;
            lemma_position_of(cols, r, c);
        }
    }

    /// Finds every pair `(i, j)` with `i < j` of circles that share at
    /// least one cell, each pair once, in the order in which a walk over
    /// the cells (and, inside a cell, over its entries two by two) first
    /// meets it. The narrow phase then checks each returned pair.
    ///
    /// `count` is the number of circles: every inserted index lies below it.
    /// Up to `DEDUP_TABLE_LIMIT` circles, the pairs already found are
    /// recorded in a `count` by `count` table; for more circles the list of
    /// pairs found so far is searched instead.
    pub fn find_candidate_pairs(&self, count: usize) -> (pairs: Vec<(usize, usize)>)
        requires
            forall|c: int, a: int|
                0 <= c < self@.len() && 0 <= a < self@[c].len() ==> #[trigger] self@[c][a]
                    < count,
        ensures
            pairs@ == candidate_pairs(self@),
            forall|p: (usize, usize)|
                #[trigger] pairs@.contains(p) <==> (p.0 < p.1 && share_a_cell(self@, p.0, p.1)),
            pairs@.no_duplicates(),
    {
        let ghost cells = self@;
        let use_table = count <= DEDUP_TABLE_LIMIT;
        let table_len = if use_table {
            assert(count * count <= 25_000_000) by (nonlinear_arith)
                requires
                    count <= 5000,
            ;
            count * count
        } else {
            0
        };
        let mut seen: Vec<bool> = vec![false; table_len];
        let mut pairs: Vec<(usize, usize)> = Vec::with_capacity(count);
        let n = self.cells.len();
        let mut c: usize = 0;
        assert forall|lo: usize, hi: usize|
            #![trigger pair_key(count as int, lo as int, hi as int)]
            use_table && lo < hi < count implies seen@[pair_key(
                count as int,
                lo as int,
                hi as int,
            )] == pairs@.contains((lo, hi)) by {
            lemma_pair_key(count as int, lo as int, hi as int, lo as int, hi as int);
            assert(!seen@[pair_key(count as int, lo as int, hi as int)]);
        }
        while c < n
            invariant
                cells == self@,
                n == cells.len(),
                c <= n,
                use_table == (count <= DEDUP_TABLE_LIMIT),
                table_len == (if use_table { count * count } else { 0 }),
                seen@.len() == table_len,
                forall|c2: int, a2: int|
                    0 <= c2 < cells.len() && 0 <= a2 < cells[c2].len() ==> #[trigger] cells[c2][a2]
                        < count,
                pairs@ == first_sightings(grid_pairs(cells, c as int)),
                forall|q: int|
                    #![trigger pairs@[q]]
                    0 <= q < pairs@.len() ==> pairs@[q].0 < pairs@[q].1 < count,
                forall|lo: usize, hi: usize|
                    #![trigger pair_key(count as int, lo as int, hi as int)]
                    use_table && lo < hi < count ==> seen@[pair_key(
                        count as int,
                        lo as int,
                        hi as int,
                    )] == pairs@.contains((lo, hi)),
            decreases n - c,
        {
            let cell = &self.cells[c];
            let len = cell.len();
            let ghost gp = grid_pairs(cells, c as int);
            assert(cell@ == cells[c as int]);
            if len >= 2 {
                let mut a: usize = 0;
                while a < len
                    invariant
                        cells == self@,
                        n == cells.len(),
                        c < n,
                        cell@ == cells[c as int],
                        len == cell@.len(),
                        a <= len,
                        gp == grid_pairs(cells, c as int),
                        use_table == (count <= DEDUP_TABLE_LIMIT),
                        table_len == (if use_table { count * count } else { 0 }),
                        seen@.len() == table_len,
                        forall|c2: int, a2: int|
                            0 <= c2 < cells.len() && 0 <= a2 < cells[c2].len()
                                ==> #[trigger] cells[c2][a2] < count,
                        pairs@ == first_sightings(gp + cell_pairs(cell@, a as int)),
                        forall|q: int|
                            #![trigger pairs@[q]]
                            0 <= q < pairs@.len() ==> pairs@[q].0 < pairs@[q].1 < count,
                        forall|lo: usize, hi: usize|
                            #![trigger pair_key(count as int, lo as int, hi as int)]
                            use_table && lo < hi < count ==> seen@[pair_key(
                                count as int,
                                lo as int,
                                hi as int,
                            )] == pairs@.contains((lo, hi)),
                    decreases len - a,
                {
                    let ghost prefix = gp + cell_pairs(cell@, a as int);
                    let mut b = a + 1;
                    assert(prefix + pairs_from(cell@, a as int, b as int) =~= prefix);
                    while b < len
                        invariant
                            cells == self@,
                            n == cells.len(),
                            c < n,
                            cell@ == cells[c as int],
                            len == cell@.len(),
                            a < b <= len,
                            prefix == gp + cell_pairs(cell@, a as int),
                            use_table == (count <= DEDUP_TABLE_LIMIT),
                            table_len == (if use_table { count * count } else { 0 }),
                            seen@.len() == table_len,
                            forall|c2: int, a2: int|
                                0 <= c2 < cells.len() && 0 <= a2 < cells[c2].len()
                                    ==> #[trigger] cells[c2][a2] < count,
                            pairs@ == first_sightings(
                                prefix + pairs_from(cell@, a as int, b as int),
                            ),
                            forall|q: int|
                                #![trigger pairs@[q]]
                                0 <= q < pairs@.len() ==> pairs@[q].0 < pairs@[q].1 < count,
                            forall|lo: usize, hi: usize|
                                #![trigger pair_key(count as int, lo as int, hi as int)]
                                use_table && lo < hi < count ==> seen@[pair_key(
                                    count as int,
                                    lo as int,
                                    hi as int,
                                )] == pairs@.contains((lo, hi)),
                        decreases len - b,
                    {
                        let i = cell[a];
                        let j = cell[b];
                        assert(cells[c as int][a as int] < count);
                        assert(cells[c as int][b as int] < count);
                        let (lo, hi) = if i < j {
                            (i, j)
                        } else {
                            (j, i)
                        };
                        let ghost p = ordered_pair(i, j);
                        let ghost s0 = prefix + pairs_from(cell@, a as int, b as int);
                        let ghost s1 = prefix + pairs_from(cell@, a as int, b + 1);
                        assert(s1 =~= s0.push(p));
                        assert(s1.drop_last() =~= s0);
                        let ghost acc = pairs@;
                        if lo < hi {
                            proof {
                                lemma_pair_key(count as int, lo as int, hi as int, lo as int, hi as int);
                            }
                            let fresh = if use_table {
                                let key = lo * count + hi;
                                assert(key == pair_key(count as int, lo as int, hi as int));
                                !seen[key]
                            } else {
                                !holds_pair(&pairs, (lo, hi))
                            };
                            if fresh {
                                if use_table {
                                    let key = lo * count + hi;
                                    seen[key] = true;
                                }
                                pairs.push((lo, hi));
                                proof {
                                    assert forall|lo2: usize, hi2: usize|
                                        #![trigger pair_key(count as int, lo2 as int, hi2 as int)]
                                        use_table && lo2 < hi2 < count implies seen@[pair_key(
                                            count as int,
                                            lo2 as int,
                                            hi2 as int,
                                        )] == pairs@.contains((lo2, hi2)) by {
                                        lemma_pair_key(
                                            count as int,
                                            lo2 as int,
                                            hi2 as int,
                                            lo as int,
                                            hi as int,
                                        );
                                        lemma_push_contains(acc, (lo, hi), (lo2, hi2));
                                    }
                                }
                            }
                        }
                        b = b + 1;
                    }
                    assert(prefix + pairs_from(cell@, a as int, len as int) =~= gp + cell_pairs(
                        cell@,
                        a + 1,
                    ));
                    a = a + 1;
                }
                assert(gp + cell_pairs(cell@, len as int) == grid_pairs(cells, c + 1));
            } else {
                assert(cell_pairs(cell@, 0) =~= Seq::<(usize, usize)>::empty());
                assert(cell_pairs(cell@, len as int) =~= Seq::<(usize, usize)>::empty());
                assert(gp + cell_pairs(cell@, len as int) =~= gp);
                assert(grid_pairs(cells, c + 1) == gp + cell_pairs(cell@, len as int));
            }
            c = c + 1;
        }
        proof {
            lemma_candidate_pairs(cells);
        }
        pairs
    }
}

} // verus!
