//! What the broad phase reports after a whole frame of inserts.

use vstd::prelude::*;

use crate::collision::pairs::{candidate_pairs, lemma_candidate_pairs, share_a_cell};
use crate::collision::seq_facts::lemma_push_contains;
use crate::collision::{
    col_of, empty_cells, inserted, last_line, lemma_position_of, row_of, span_covers, CellSpan,
};

verus! {

/// The cells after each `(index, span)` of `entries` was inserted, in turn.
pub open spec fn inserted_all(
    cells: Seq<Seq<usize>>,
    cols: nat,
    rows: nat,
    entries: Seq<(usize, CellSpan)>,
) -> Seq<Seq<usize>>
    decreases entries.len(),
{
    if entries.len() == 0 {
        cells
    } else {
        let e = entries.last();
        inserted(inserted_all(cells, cols, rows, entries.drop_last()), cols, rows, e.0, e.1)
    }
}

/// The line ranges `lo1 ..= hi1` and `lo2 ..= hi2` have a line in common.
pub open spec fn ranges_meet(lo1: int, hi1: int, lo2: int, hi2: int) -> bool {
    lo1 <= hi1 && lo2 <= hi2 && lo1 <= hi2 && lo2 <= hi1
}

/// The blocks `s` and `t`, each cut to a grid of `cols` columns and `rows`
/// rows, have a cell in common: their column ranges meet and their row
/// ranges meet.
pub open spec fn spans_meet(s: CellSpan, t: CellSpan, cols: nat, rows: nat) -> bool {
    &&& ranges_meet(
        s.min_col as int,
        last_line(s.max_col, cols),
        t.min_col as int,
        last_line(t.max_col, cols),
    )
    &&& ranges_meet(
        s.min_row as int,
        last_line(s.max_row, rows),
        t.min_row as int,
        last_line(t.max_row, rows),
    )
}

/// Circle `x` was inserted by one of `entries` whose block covers the cell
/// at position `k`.
pub open spec fn inserted_into(
    entries: Seq<(usize, CellSpan)>,
    cols: nat,
    rows: nat,
    k: int,
    x: usize,
) -> bool {
    exists|j: int|
        #![trigger entries[j]]
        0 <= j < entries.len() && entries[j].0 == x && span_covers(
            entries[j].1,
            cols,
            rows,
            row_of(k, cols),
            col_of(k, cols),
        )
}

/// Inserting keeps the number of cells, and a cell holds a circle after a
/// run of inserts exactly when it held it before or one of the inserts of
/// that circle covered the cell.
pub proof fn lemma_inserted_all_contains(
    cells: Seq<Seq<usize>>,
    cols: nat,
    rows: nat,
    entries: Seq<(usize, CellSpan)>,
    k: int,
    x: usize,
)
    requires
        0 <= k < cells.len(),
    ensures
        inserted_all(cells, cols, rows, entries).len() == cells.len(),
        inserted_all(cells, cols, rows, entries)[k].contains(x) <==> (cells[k].contains(x)
            || inserted_into(entries, cols, rows, k, x)),
    decreases entries.len(),
{
    if entries.len() > 0 {
        let before = entries.drop_last();
        let e = entries.last();
        let prev = inserted_all(cells, cols, rows, before);
        lemma_inserted_all_contains(cells, cols, rows, before, k, x);
        lemma_push_contains(prev[k], e.0, x);
        if inserted_into(before, cols, rows, k, x) {
            let j = choose|j: int|
                #![trigger before[j]]
                0 <= j < before.len() && before[j].0 == x && span_covers(
                    before[j].1,
                    cols,
                    rows,
                    row_of(k, cols),
                    col_of(k, cols),
                );
            assert(entries[j] == before[j]);
        }
        if inserted_into(entries, cols, rows, k, x) {
            let j = choose|j: int|
                #![trigger entries[j]]
                0 <= j < entries.len() && entries[j].0 == x && span_covers(
                    entries[j].1,
                    cols,
                    rows,
                    row_of(k, cols),
                    col_of(k, cols),
                );
            if j < before.len() {
                assert(before[j] == entries[j]);
            }
        }
        if span_covers(e.1, cols, rows, row_of(k, cols), col_of(k, cols)) && x == e.0 {
            assert(entries[entries.len() - 1] == e);
        }
    }
}

/// Two different circles share a cell exactly when some cell holds both.
pub proof fn lemma_share_a_cell_contains(cells: Seq<Seq<usize>>, a: usize, b: usize)
    requires
        a != b,
    ensures
        share_a_cell(cells, a, b) <==> exists|c: int|
            0 <= c < cells.len() && #[trigger] cells[c].contains(a) && cells[c].contains(b),
{
    if share_a_cell(cells, a, b) {
        let (c, p, q) = choose|c: int, p: int, q: int|
            #![trigger cells[c][p], cells[c][q]]
            0 <= c < cells.len() && 0 <= p < cells[c].len() && 0 <= q < cells[c].len() && p != q
                && cells[c][p] == a && cells[c][q] == b;
        assert(cells[c].contains(a) && cells[c].contains(b));
    }
    if exists|c: int| 0 <= c < cells.len() && #[trigger] cells[c].contains(a) && cells[c].contains(b) {
        let c = choose|c: int|
            0 <= c < cells.len() && #[trigger] cells[c].contains(a) && cells[c].contains(b);
        let p = choose|p: int| 0 <= p < cells[c].len() && cells[c][p] == a;
        let q = choose|q: int| 0 <= q < cells[c].len() && cells[c][q] == b;
        assert(cells[c][p] == a && cells[c][q] == b && p != q);
    }
}

/// After a run of inserts into an empty grid, the broad phase reports the
/// pair `(a, b)` exactly when `a < b` and some insert of `a` and some
/// insert of `b` had blocks that meet inside the grid.
pub proof fn lemma_candidates_after_inserts(
    cols: nat,
    rows: nat,
    entries: Seq<(usize, CellSpan)>,
    a: usize,
    b: usize,
)
    requires
        cols >= 1,
        rows >= 1,
    ensures
        candidate_pairs(inserted_all(empty_cells(cols * rows), cols, rows, entries)).contains(
            (a, b),
        ) <==> (a < b && exists|j1: int, j2: int|
            #![trigger entries[j1], entries[j2]]
            0 <= j1 < entries.len() && 0 <= j2 < entries.len() && entries[j1].0 == a
                && entries[j2].0 == b && spans_meet(entries[j1].1, entries[j2].1, cols, rows)),
{
    let start = empty_cells(cols * rows);
    let fin = inserted_all(start, cols, rows, entries);
    lemma_candidate_pairs(fin);
    assert(cols * rows >= 1) by (nonlinear_arith)
        requires
            cols >= 1,
            rows >= 1,
    ;
    assert(fin.len() == cols * rows) by {
        lemma_inserted_all_contains(start, cols, rows, entries, 0, a);
    }
    if a < b {
        lemma_share_a_cell_contains(fin, a, b);
        if candidate_pairs(fin).contains((a, b)) {
            let c = choose|c: int|
                0 <= c < fin.len() && #[trigger] fin[c].contains(a) && fin[c].contains(b);
            lemma_inserted_all_contains(start, cols, rows, entries, c, a);
            lemma_inserted_all_contains(start, cols, rows, entries, c, b);
            assert(!start[c].contains(a) && !start[c].contains(b));
            let j1 = choose|j: int|
                #![trigger entries[j]]
                0 <= j < entries.len() && entries[j].0 == a && span_covers(
                    entries[j].1,
                    cols,
                    rows,
                    row_of(c, cols),
                    col_of(c, cols),
                );
            let j2 = choose|j: int|
                #![trigger entries[j]]
                0 <= j < entries.len() && entries[j].0 == b && span_covers(
                    entries[j].1,
                    cols,
                    rows,
                    row_of(c, cols),
                    col_of(c, cols),
                );
            assert(spans_meet(entries[j1].1, entries[j2].1, cols, rows));
        }
        if exists|j1: int, j2: int|
            #![trigger entries[j1], entries[j2]]
            0 <= j1 < entries.len() && 0 <= j2 < entries.len() && entries[j1].0 == a
                && entries[j2].0 == b && spans_meet(entries[j1].1, entries[j2].1, cols, rows) {
            let (j1, j2) = choose|j1: int, j2: int|
                #![trigger entries[j1], entries[j2]]
                0 <= j1 < entries.len() && 0 <= j2 < entries.len() && entries[j1].0 == a
                    && entries[j2].0 == b && spans_meet(entries[j1].1, entries[j2].1, cols, rows);
            let s = entries[j1].1;
            let t = entries[j2].1;
            let row: int = if s.min_row < t.min_row {
                t.min_row as int
            } else {
                s.min_row as int
            };
            let col: int = if s.min_col < t.min_col {
                t.min_col as int
            } else {
                s.min_col as int
            };
            let c = row * cols + col;
            assert(0 <= c < cols * rows) by (nonlinear_arith)
                requires
                    0 <= row < rows,
                    0 <= col < cols,
                    c == row * cols + col,
            ;
            lemma_position_of(cols, row, col);
            assert(span_covers(s, cols, rows, row_of(c, cols), col_of(c, cols)));
            assert(span_covers(t, cols, rows, row_of(c, cols), col_of(c, cols)));
            lemma_inserted_all_contains(start, cols, rows, entries, c, a);
            lemma_inserted_all_contains(start, cols, rows, entries, c, b);
            assert(inserted_into(entries, cols, rows, c, a));
            assert(inserted_into(entries, cols, rows, c, b));
            assert(fin[c].contains(a) && fin[c].contains(b));
        }
    }
}

/// The inserts of a frame: circle `order[k]` inserted `k`-th, with the
/// block `spans[order[k]]` worked out for it.
pub open spec fn frame_entries(order: Seq<usize>, spans: Seq<CellSpan>) -> Seq<(usize, CellSpan)> {
    order.map_values(|i: usize| (i, spans[i as int]))
}

/// When each of circles `0 .. spans.len()` is inserted into an empty grid
/// with its own block, in any order (and nothing else is inserted), the
/// broad phase reports the pair `(a, b)` exactly when `a < b`, both are
/// circles, and their blocks meet inside the grid.
pub proof fn lemma_frame_candidates(
    cols: nat,
    rows: nat,
    spans: Seq<CellSpan>,
    order: Seq<usize>,
    a: usize,
    b: usize,
)
    requires
        cols >= 1,
        rows >= 1,
        forall|k: int| 0 <= k < order.len() ==> #[trigger] order[k] < spans.len(),
        forall|i: usize| i < spans.len() ==> #[trigger] order.contains(i),
    ensures
        candidate_pairs(
            inserted_all(empty_cells(cols * rows), cols, rows, frame_entries(order, spans)),
        ).contains((a, b)) <==> (a < b < spans.len() && spans_meet(
            spans[a as int],
            spans[b as int],
            cols,
            rows,
        )),
{
    let entries = frame_entries(order, spans);
    lemma_candidates_after_inserts(cols, rows, entries, a, b);
    if a < b && exists|j1: int, j2: int|
        #![trigger entries[j1], entries[j2]]
        0 <= j1 < entries.len() && 0 <= j2 < entries.len() && entries[j1].0 == a
            && entries[j2].0 == b && spans_meet(entries[j1].1, entries[j2].1, cols, rows) {
        let (j1, j2) = choose|j1: int, j2: int|
            #![trigger entries[j1], entries[j2]]
            0 <= j1 < entries.len() && 0 <= j2 < entries.len() && entries[j1].0 == a
                && entries[j2].0 == b && spans_meet(entries[j1].1, entries[j2].1, cols, rows);
        assert(order[j1] < spans.len() && order[j2] < spans.len());
    }
    if a < b < spans.len() && spans_meet(spans[a as int], spans[b as int], cols, rows) {
        assert(order.contains(a));
        assert(order.contains(b));
        let j1 = choose|j: int| 0 <= j < order.len() && order[j] == a;
        let j2 = choose|j: int| 0 <= j < order.len() && order[j] == b;
        assert(entries[j1] == (a, spans[a as int]));
        assert(entries[j2] == (b, spans[b as int]));
    }
}

} // verus!
