//! What the broad phase reports: the pairs of distinct circle indices that
//! share a cell, each once, in the order in which the grid first shows them.

use vstd::prelude::*;

use crate::collision::seq_facts::{lemma_concat_contains, lemma_push_contains};

verus! {

/// The pair `{i, j}` with its smaller member first.
pub open spec fn ordered_pair(i: usize, j: usize) -> (usize, usize) {
    if i < j {
        (i, j)
    } else {
        (j, i)
    }
}

/// The pairs that entry `a` of `cell` forms with the entries at positions
/// `a + 1 .. n`, in order of position.
pub open spec fn pairs_from(cell: Seq<usize>, a: int, n: int) -> Seq<(usize, usize)>
    decreases n - a,
{
    if n <= a + 1 {
        Seq::empty()
    } else {
        pairs_from(cell, a, n - 1).push(ordered_pair(cell[a], cell[n - 1]))
    }
}

/// The pairs formed inside `cell` by its first `a` entries with every later
/// entry: entry 0 with entries 1, 2, ..., then entry 1 with 2, 3, ...
pub open spec fn cell_pairs(cell: Seq<usize>, a: int) -> Seq<(usize, usize)>
    decreases a,
{
    if a <= 0 {
        Seq::empty()
    } else {
        cell_pairs(cell, a - 1) + pairs_from(cell, a - 1, cell.len() as int)
    }
}

/// The pairs formed inside each of the first `c` cells, cell after cell.
pub open spec fn grid_pairs(cells: Seq<Seq<usize>>, c: int) -> Seq<(usize, usize)>
    decreases c,
{
    if c <= 0 {
        Seq::empty()
    } else {
        grid_pairs(cells, c - 1) + cell_pairs(cells[c - 1], cells[c - 1].len() as int)
    }
}

/// The pairs of `s` whose members differ, each kept at its first
/// occurrence only.
pub open spec fn first_sightings(s: Seq<(usize, usize)>) -> Seq<(usize, usize)>
    decreases s.len(),
{
    if s.len() == 0 {
        Seq::empty()
    } else {
        let acc = first_sightings(s.drop_last());
        let p = s.last();
        if p.0 < p.1 && !acc.contains(p) {
            acc.push(p)
        } else {
            acc
        }
    }
}

/// The broad phase's answer for a grid whose cells hold `cells`.
pub open spec fn candidate_pairs(cells: Seq<Seq<usize>>) -> Seq<(usize, usize)> {
    first_sightings(grid_pairs(cells, cells.len() as int))
}

/// Entries `i < j` of cell `k` form the pair `p`.
pub open spec fn formed_by(cells: Seq<Seq<usize>>, k: int, i: int, j: int, p: (usize, usize)) -> bool {
    &&& 0 <= k < cells.len()
    &&& 0 <= i < j < cells[k].len()
    &&& p == ordered_pair(cells[k][i], cells[k][j])
}

/// Two entries at different positions of one cell are `i` and `j`.
pub open spec fn share_a_cell(cells: Seq<Seq<usize>>, i: usize, j: usize) -> bool {
    exists|c: int, a: int, b: int|
        #![trigger cells[c][a], cells[c][b]]
        0 <= c < cells.len() && 0 <= a < cells[c].len() && 0 <= b < cells[c].len() && a != b
            && cells[c][a] == i && cells[c][b] == j
}

/// `pairs_from` holds one pair per later position, in order.
pub proof fn lemma_pairs_from_shape(cell: Seq<usize>, a: int, n: int)
    requires
        0 <= a,
        n <= cell.len(),
    ensures
        pairs_from(cell, a, n).len() == (if n > a + 1 { n - a - 1 } else { 0 }),
        forall|k: int|
            0 <= k < pairs_from(cell, a, n).len() ==> #[trigger] pairs_from(cell, a, n)[k]
                == ordered_pair(cell[a], cell[a + 1 + k]),
    decreases n - a,
{
    if n > a + 1 {
        lemma_pairs_from_shape(cell, a, n - 1);
    }
}

/// A pair is in `pairs_from(cell, a, n)` exactly when entry `a` forms it
/// with an entry at a position in `a + 1 .. n`.
pub proof fn lemma_pairs_from_contains(cell: Seq<usize>, a: int, n: int, p: (usize, usize))
    requires
        0 <= a,
        n <= cell.len(),
    ensures
        pairs_from(cell, a, n).contains(p) <==> exists|b: int|
            a < b < n && p == ordered_pair(cell[a], #[trigger] cell[b]),
{
    lemma_pairs_from_shape(cell, a, n);
    let s = pairs_from(cell, a, n);
    if s.contains(p) {
        let k = choose|k: int| 0 <= k < s.len() && s[k] == p;
        assert(p == ordered_pair(cell[a], cell[a + 1 + k]));
    }
    if exists|b: int| a < b < n && p == ordered_pair(cell[a], #[trigger] cell[b]) {
        let b = choose|b: int| a < b < n && p == ordered_pair(cell[a], #[trigger] cell[b]);
        assert(s[b - a - 1] == p);
    }
}

/// A pair is in `cell_pairs(cell, a)` exactly when two entries of the cell,
/// the first of them at a position below `a`, form it.
pub proof fn lemma_cell_pairs_contains(cell: Seq<usize>, a: int, p: (usize, usize))
    requires
        0 <= a <= cell.len(),
    ensures
        cell_pairs(cell, a).contains(p) <==> exists|i: int, j: int|
            #![trigger cell[i], cell[j]]
            0 <= i < a && i < j < cell.len() && p == ordered_pair(cell[i], cell[j]),
    decreases a,
{
    if a > 0 {
        lemma_cell_pairs_contains(cell, a - 1, p);
        lemma_pairs_from_contains(cell, a - 1, cell.len() as int, p);
        lemma_concat_contains(cell_pairs(cell, a - 1), pairs_from(cell, a - 1, cell.len() as int), p);
        if exists|i: int, j: int|
            #![trigger cell[i], cell[j]]
            0 <= i < a && i < j < cell.len() && p == ordered_pair(cell[i], cell[j]) {
            let (i, j) = choose|i: int, j: int|
                #![trigger cell[i], cell[j]]
                0 <= i < a && i < j < cell.len() && p == ordered_pair(cell[i], cell[j]);
            if i == a - 1 {
                assert(a - 1 < j < cell.len() && p == ordered_pair(cell[a - 1], cell[j]));
            } else {
                assert(0 <= i < a - 1 && i < j < cell.len() && p == ordered_pair(cell[i], cell[j]));
            }
        }
        if pairs_from(cell, a - 1, cell.len() as int).contains(p) {
            let b = choose|b: int| a - 1 < b < cell.len() && p == ordered_pair(cell[a - 1], #[trigger] cell[b]);
            assert(0 <= a - 1 < a && a - 1 < b < cell.len() && p == ordered_pair(cell[a - 1], cell[b]));
        }
    }
}

/// A pair is in `grid_pairs(cells, c)` exactly when two entries of one of
/// the first `c` cells form it.
pub proof fn lemma_grid_pairs_contains(cells: Seq<Seq<usize>>, c: int, p: (usize, usize))
    requires
        0 <= c <= cells.len(),
    ensures
        grid_pairs(cells, c).contains(p) <==> exists|k: int, i: int, j: int|
            k < c && #[trigger] formed_by(cells, k, i, j, p),
    decreases c,
{
    if c > 0 {
        let cell = cells[c - 1];
        lemma_grid_pairs_contains(cells, c - 1, p);
        lemma_cell_pairs_contains(cell, cell.len() as int, p);
        lemma_concat_contains(grid_pairs(cells, c - 1), cell_pairs(cell, cell.len() as int), p);
        if exists|k: int, i: int, j: int| k < c && #[trigger] formed_by(cells, k, i, j, p) {
            let (k, i, j) = choose|k: int, i: int, j: int| k < c && #[trigger] formed_by(cells, k, i, j, p);
            if k == c - 1 {
                assert(cell[i] == cells[k][i] && cell[j] == cells[k][j]);
            } else {
                assert(k < c - 1 && formed_by(cells, k, i, j, p));
            }
        }
        if cell_pairs(cell, cell.len() as int).contains(p) {
            let (i, j) = choose|i: int, j: int|
                #![trigger cell[i], cell[j]]
                0 <= i < cell.len() && i < j < cell.len() && p == ordered_pair(cell[i], cell[j]);
            assert(formed_by(cells, c - 1, i, j, p));
        }
    }
}

/// `first_sightings(s)` holds each pair of `s` with distinct members, and
/// nothing else, and holds it once.
pub proof fn lemma_first_sightings(s: Seq<(usize, usize)>)
    ensures
        forall|p: (usize, usize)|
            #[trigger] first_sightings(s).contains(p) <==> (p.0 < p.1 && s.contains(p)),
        first_sightings(s).no_duplicates(),
    decreases s.len(),
{
    if s.len() > 0 {
        let t = s.drop_last();
        let x = s.last();
        lemma_first_sightings(t);
        assert(s =~= t.push(x));
        let acc = first_sightings(t);
        assert forall|p: (usize, usize)|
            #[trigger] first_sightings(s).contains(p) <==> (p.0 < p.1 && s.contains(p)) by {
            lemma_push_contains(t, x, p);
            lemma_push_contains(acc, x, p);
        }
        if x.0 < x.1 && !acc.contains(x) {
            let r = acc.push(x);
            assert forall|i: int, j: int| 0 <= i < r.len() && 0 <= j < r.len() && i != j implies r[i]
                != r[j] by {
                if i < acc.len() && j < acc.len() {
                } else if i < acc.len() {
                    assert(r[i] == acc[i] && r[j] == x);
                } else {
                    assert(r[j] == acc[j] && r[i] == x);
                }
            }
        }
    }
}

/// The broad phase's answer holds every pair `(i, j)` with `i < j` whose
/// members share a cell, nothing else, and each such pair once.
pub proof fn lemma_candidate_pairs(cells: Seq<Seq<usize>>)
    ensures
        forall|p: (usize, usize)|
            #[trigger] candidate_pairs(cells).contains(p) <==> (p.0 < p.1 && share_a_cell(
                cells,
                p.0,
                p.1,
            )),
        candidate_pairs(cells).no_duplicates(),
{
    let g = grid_pairs(cells, cells.len() as int);
    lemma_first_sightings(g);
    assert forall|p: (usize, usize)|
        #[trigger] candidate_pairs(cells).contains(p) <==> (p.0 < p.1 && share_a_cell(
            cells,
            p.0,
            p.1,
        )) by {
        lemma_grid_pairs_contains(cells, cells.len() as int, p);
        if p.0 < p.1 && g.contains(p) {
            let (k, i, j) = choose|k: int, i: int, j: int|
                k < cells.len() && #[trigger] formed_by(cells, k, i, j, p);
            if cells[k][i] < cells[k][j] {
                assert(cells[k][i] == p.0 && cells[k][j] == p.1);
            } else {
                assert(cells[k][j] == p.0 && cells[k][i] == p.1);
            }
        }
        if p.0 < p.1 && share_a_cell(cells, p.0, p.1) {
            let (c, a, b) = choose|c: int, a: int, b: int|
                #![trigger cells[c][a], cells[c][b]]
                0 <= c < cells.len() && 0 <= a < cells[c].len() && 0 <= b < cells[c].len() && a
                    != b && cells[c][a] == p.0 && cells[c][b] == p.1;
            if a < b {
                assert(formed_by(cells, c, a, b, p));
            } else {
                assert(formed_by(cells, c, b, a, p));
            }
        }
    }
}

} // verus!
