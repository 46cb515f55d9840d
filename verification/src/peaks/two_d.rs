//! Peaks of a rectangular grid.

use vstd::prelude::*;
use crate::order::{
    total_order, le, gt, exceeds, at_most, first_max, lemma_total, lemma_le_transitive,
    lemma_gt_transitive, lemma_first_max, lemma_first_max_step,
};

verus! {

/// The rows of a grid, each as the sequence of its elements.
pub open spec fn rows<T>(input: &[&[T]]) -> Seq<Seq<T>> {
    Seq::new(input@.len(), |i: int| input@[i]@)
}

/// Every row is as long as the first.
pub open spec fn rectangular<T>(g: Seq<Seq<T>>) -> bool {
    forall|i: int| 0 <= i < g.len() ==> (#[trigger] g[i]).len() == g[0].len()
}

/// The length of the first row; 0 where there is no row.
pub open spec fn width<T>(g: Seq<Seq<T>>) -> nat {
    if g.len() == 0 {
        0
    } else {
        g[0].len()
    }
}

/// The grid is rectangular and has at least one row and one column.
pub open spec fn searchable<T>(g: Seq<Seq<T>>) -> bool {
    rectangular(g) && g.len() > 0 && width(g) > 0
}

/// Cell `(r, c)` is a peak of `g`: it lies in the grid and none of the
/// neighbours above, below, left and right that exist exceeds it.
pub open spec fn is_peak<T: Ord>(g: Seq<Seq<T>>, r: int, c: int) -> bool {
    &&& 0 <= r < g.len()
    &&& 0 <= c < width(g)
    &&& (r > 0 ==> le(g[r - 1][c], g[r][c]))
    &&& (c > 0 ==> le(g[r][c - 1], g[r][c]))
    &&& (r < g.len() - 1 ==> le(g[r + 1][c], g[r][c]))
    &&& (c < width(g) - 1 ==> le(g[r][c + 1], g[r][c]))
}

/// The shape of a grid: `(0, 0)` without rows, else the number of rows and
/// their common length. `None` exactly where the rows differ in length.
pub fn shape<T>(input: &[&[T]]) -> (r: Option<(usize, usize)>)
    ensures
        r is Some <==> rectangular(rows(input)),
        r matches Some((n, m)) ==> n == rows(input).len() && m == width(rows(input)),
{
    let n: usize = input.len();
    if n == 0 {
        return Some((0, 0));
    }
    let m: usize = input[0].len();
    let mut i: usize = 1;
    while i < n
        invariant
            n == input@.len(),
            1 <= i <= n,
            m == rows(input)[0].len(),
            forall|k: int| 0 <= k < i ==> (#[trigger] rows(input)[k]).len() == m,
        decreases n - i,
    {
        if input[i].len() != m {
            assert(rows(input)[i as int].len() != m);
            return None;
        }
        i += 1;
    }
    Some((n, m))
}

/// The element at row `i` and column `j`.
fn cell<'a, T>(input: &'a [&'a [T]], i: usize, j: usize) -> (x: &'a T)
    requires
        rectangular(rows(input)),
        i < rows(input).len(),
        j < width(rows(input)),
    ensures
        *x == rows(input)[i as int][j as int],
{
    assert(rows(input)[i as int].len() == rows(input)[0].len());
    &input[i][j]
}

/// The greatest value of row `a` is at most the greatest value of row `b`.
pub open spec fn row_below<T: Ord>(a: Seq<T>, b: Seq<T>) -> bool {
    le(a[first_max(a)], b[first_max(b)])
}

/// The cell that bisection of the rows `[lo, hi]` ends at. In the middle row
/// it takes the first column of the greatest value; it moves to the rows
/// above if the cell above inside the window is greater, else to the rows below
/// if the cell below inside the window is greater, and else stays.
pub open spec fn bisect_rows<T: Ord>(g: Seq<Seq<T>>, lo: int, hi: int) -> (int, int)
    decreases hi - lo,
{
    let mid = lo + (hi - lo) / 2;
    let j = first_max(g[mid]);
    if lo >= hi {
        (lo, first_max(g[lo]))
    } else if mid > lo && gt(g[mid - 1][j], g[mid][j]) {
        bisect_rows(g, lo, mid - 1)
    } else if mid < hi && gt(g[mid + 1][j], g[mid][j]) {
        bisect_rows(g, mid + 1, hi)
    } else {
        (mid, j)
    }
}

/// The rows `[lo, hi]` of `g` form a closed window: the row just outside
/// either end, where there is one, holds no value above the greatest of the
/// row at that end.
pub open spec fn closed_rows<T: Ord>(g: Seq<Seq<T>>, lo: int, hi: int) -> bool {
    &&& 0 <= lo <= hi < g.len()
    &&& (lo > 0 ==> row_below(g[lo - 1], g[lo]))
    &&& (hi < g.len() - 1 ==> row_below(g[hi + 1], g[hi]))
}

/// Bisection of a closed window of rows ends at a peak inside it.
pub proof fn lemma_bisect_rows_peak<T: Ord>(g: Seq<Seq<T>>, lo: int, hi: int)
    requires
        total_order::<T>(),
        searchable(g),
        closed_rows(g, lo, hi),
    ensures
        lo <= bisect_rows(g, lo, hi).0 <= hi,
        is_peak(g, bisect_rows(g, lo, hi).0, bisect_rows(g, lo, hi).1),
    decreases hi - lo,
{
    let mid = lo + (hi - lo) / 2;
    let j = first_max(g[mid]);
    lemma_first_max(g[mid]);
    if mid > lo && gt(g[mid - 1][j], g[mid][j]) {
        // The row above holds a greater value, so its greatest is greater too.
        lemma_first_max(g[mid - 1]);
        lemma_total(g[mid - 1][j], g[mid][j]);
        lemma_le_transitive(g[mid][j], g[mid - 1][j], g[mid - 1][first_max(g[mid - 1])]);
        lemma_bisect_rows_peak(g, lo, mid - 1);
    } else if mid < hi && gt(g[mid + 1][j], g[mid][j]) {
        lemma_first_max(g[mid + 1]);
        lemma_total(g[mid + 1][j], g[mid][j]);
        lemma_le_transitive(g[mid][j], g[mid + 1][j], g[mid + 1][first_max(g[mid + 1])]);
        lemma_bisect_rows_peak(g, mid + 1, hi);
    } else {
        if mid > 0 {
            lemma_total(g[mid - 1][j], g[mid][j]);
            if mid == lo {
                lemma_first_max(g[mid - 1]);
                lemma_le_transitive(g[mid - 1][j], g[mid - 1][first_max(g[mid - 1])], g[mid][j]);
            }
        }
        if mid < g.len() - 1 {
            lemma_total(g[mid + 1][j], g[mid][j]);
            if mid == hi {
                lemma_first_max(g[mid + 1]);
                lemma_le_transitive(g[mid + 1][j], g[mid + 1][first_max(g[mid + 1])], g[mid][j]);
            }
        }
    }
}

/// Every rectangular grid with a row and a column has a peak.
pub proof fn lemma_peak_exists<T: Ord>(g: Seq<Seq<T>>)
    requires
        total_order::<T>(),
        searchable(g),
    ensures
        exists|r: int, c: int| is_peak(g, r, c),
{
    lemma_bisect_rows_peak(g, 0, g.len() - 1);
    let p = bisect_rows(g, 0, g.len() - 1);
    assert(is_peak(g, p.0, p.1));
}

/// The first column at which a non-empty row takes its greatest value.
fn first_max_column<T: Ord>(row: &[T]) -> (j: usize)
    requires
        total_order::<T>(),
        row@.len() > 0,
    ensures
        j == first_max(row@),
        j < row@.len(),
{
    let m: usize = row.len();
    let mut max_j: usize = 0;
    let mut max_t: &T = &row[max_j];
    let mut tmp_j: usize = 0;
    while tmp_j < m
        invariant
            total_order::<T>(),
            m == row@.len(),
            tmp_j <= m,
            max_j == first_max(row@.take(tmp_j as int)),
            max_j < m,
            *max_t == row@[max_j as int],
        decreases m - tmp_j,
    {
        let tmp_t: &T = &row[tmp_j];
        proof {
            lemma_first_max_step(row@, tmp_j as int);
            lemma_total(row@[0], row@[0]);
        }
        if exceeds(tmp_t, max_t) {
            max_t = tmp_t;
            max_j = tmp_j;
        }
        tmp_j += 1;
    }
    proof {
        assert(row@.take(m as int) =~= row@);
    }
    max_j
}

/// Finds a peak by bisection over the rows, with one scan of a row per step.
///
/// Returns `None` exactly where the rows differ in length or the grid has no
/// row or no column. Otherwise the result is the peak that bisection of all
/// rows ends at.
pub fn find_peak<T: Ord + Clone>(input: &[&[T]]) -> (r: Option<(usize, usize)>)
    requires
        total_order::<T>(),
    ensures
        r is Some <==> searchable(rows(input)),
        r matches Some((i, j)) ==> is_peak(rows(input), i as int, j as int),
        r matches Some((i, j)) ==> (i as int, j as int) == bisect_rows(
            rows(input),
            0,
            rows(input).len() - 1,
        ),
{
    let (n, m) = match shape(input) {
        Some(s) => s,
        None => {
            return None;
        },
    };
    if n == 0 || m == 0 {
        return None;
    }
    let ghost g = rows(input);
    let mut max: usize = n - 1;
    let mut min: usize = 0;
    loop
        invariant
            total_order::<T>(),
            g == rows(input),
            searchable(g),
            n == g.len(),
            m == width(g),
            closed_rows(g, min as int, max as int),
            bisect_rows(g, min as int, max as int) == bisect_rows(g, 0, n - 1),
        decreases max - min,
    {
        let mid: usize = min + (max - min) / 2;
        let row: &[T] = input[mid];
        assert(row@ == g[mid as int]);
        let max_j: usize = first_max_column(row);
        let max_t: &T = &row[max_j];
        proof {
            lemma_first_max(g[mid as int]);
            if mid > min {
                let above = g[mid - 1];
                lemma_first_max(above);
                lemma_total(above[max_j as int], *max_t);
                if gt(above[max_j as int], *max_t) {
                    lemma_le_transitive(*max_t, above[max_j as int], above[first_max(above)]);
                }
            }
            if mid < max {
                let below = g[mid + 1];
                lemma_first_max(below);
                lemma_total(below[max_j as int], *max_t);
                if gt(below[max_j as int], *max_t) {
                    lemma_le_transitive(*max_t, below[max_j as int], below[first_max(below)]);
                }
            }
        }
        if mid > min && exceeds(&input[mid - 1][max_j], max_t) {
            max = mid - 1;
        } else if mid < max && exceeds(&input[mid + 1][max_j], max_t) {
            min = mid + 1;
        } else {
            proof {
                lemma_bisect_rows_peak(g, min as int, max as int);
            }
            return Some((mid, max_j));
        }
    }
}

/// The number of elements of `row` that are strictly greater than `v`.
pub open spec fn higher_in_row<T: Ord>(row: Seq<T>, v: T) -> nat
    decreases row.len(),
{
    if row.len() == 0 {
        0
    } else {
        higher_in_row(row.drop_last(), v) + if gt(row.last(), v) {
            1nat
        } else {
            0nat
        }
    }
}

/// The number of cells of `g` that are strictly greater than `v`.
pub open spec fn higher<T: Ord>(g: Seq<Seq<T>>, v: T) -> nat
    decreases g.len(),
{
    if g.len() == 0 {
        0
    } else {
        higher(g.drop_last(), v) + higher_in_row(g.last(), v)
    }
}

/// Raising the bound from `v` to a greater `w` cannot raise the count of a
/// row, and lowers it where the row holds `w` itself.
pub proof fn lemma_higher_in_row<T: Ord>(row: Seq<T>, v: T, w: T)
    requires
        total_order::<T>(),
        gt(w, v),
    ensures
        higher_in_row(row, w) <= higher_in_row(row, v),
        row.contains(w) ==> higher_in_row(row, w) < higher_in_row(row, v),
    decreases row.len(),
{
    if row.len() > 0 {
        let front = row.drop_last();
        lemma_higher_in_row(front, v, w);
        lemma_gt_transitive(row.last(), w, v);
        lemma_gt_transitive(w, w, w);
        if row.contains(w) && row.last() != w {
            let c = choose|c: int| 0 <= c < row.len() && row[c] == w;
            assert(front[c] == w);
        }
    }
}

/// Raising the bound from `v` to a greater `w` that occurs in `g` lowers the
/// count of the grid.
pub proof fn lemma_higher<T: Ord>(g: Seq<Seq<T>>, v: T, w: T)
    requires
        total_order::<T>(),
        gt(w, v),
    ensures
        higher(g, w) <= higher(g, v),
        (exists|r: int| 0 <= r < g.len() && (#[trigger] g[r]).contains(w)) ==> higher(g, w)
            < higher(g, v),
    decreases g.len(),
{
    if g.len() > 0 {
        let front = g.drop_last();
        lemma_higher(front, v, w);
        lemma_higher_in_row(g.last(), v, w);
        if exists|r: int| 0 <= r < g.len() && (#[trigger] g[r]).contains(w) {
            let r = choose|r: int| 0 <= r < g.len() && (#[trigger] g[r]).contains(w);
            if r < g.len() - 1 {
                assert(front[r].contains(w));
            }
        }
    }
}

/// The neighbours of cell `(i, j)` in a grid of `n` rows and `m` columns, in
/// the order up, left, down, right.
pub open spec fn neighbours(n: int, m: int, i: int, j: int) -> Seq<(int, int)> {
    let s0 = Seq::<(int, int)>::empty();
    let s1 = if i != 0 {
        s0.push((i - 1, j))
    } else {
        s0
    };
    let s2 = if j != 0 {
        s1.push((i, j - 1))
    } else {
        s1
    };
    let s3 = if i < n - 1 {
        s2.push((i + 1, j))
    } else {
        s2
    };
    if j < m - 1 {
        s3.push((i, j + 1))
    } else {
        s3
    }
}

/// The values of `g` at `cells`, in their order.
pub open spec fn values_at<T>(g: Seq<Seq<T>>, cells: Seq<(int, int)>) -> Seq<T> {
    Seq::new(cells.len(), |k: int| g[cells[k].0][cells[k].1])
}

/// The neighbour of `(i, j)` with the greatest value, the first such in the
/// order up, left, down, right.
pub open spec fn best_neighbour<T: Ord>(g: Seq<Seq<T>>, i: int, j: int) -> (int, int) {
    let cells = neighbours(g.len() as int, width(g) as int, i, j);
    cells[first_max(values_at(g, cells))]
}

/// Cell `(i, j)` lies in the grid.
pub open spec fn in_grid<T>(g: Seq<Seq<T>>, i: int, j: int) -> bool {
    0 <= i < g.len() && 0 <= j < width(g)
}

/// The best neighbour of a cell that has a neighbour lies in the grid, and no
/// neighbour exceeds it.
pub proof fn lemma_best_neighbour<T: Ord>(g: Seq<Seq<T>>, i: int, j: int)
    requires
        total_order::<T>(),
        rectangular(g),
        in_grid(g, i, j),
        g.len() > 1 || width(g) > 1,
    ensures
        in_grid(g, best_neighbour(g, i, j).0, best_neighbour(g, i, j).1),
        ({
            let b = best_neighbour(g, i, j);
            &&& i > 0 ==> le(g[i - 1][j], g[b.0][b.1])
            &&& j > 0 ==> le(g[i][j - 1], g[b.0][b.1])
            &&& i < g.len() - 1 ==> le(g[i + 1][j], g[b.0][b.1])
            &&& j < width(g) - 1 ==> le(g[i][j + 1], g[b.0][b.1])
        }),
{
    let cells = neighbours(g.len() as int, width(g) as int, i, j);
    let vals = values_at(g, cells);
    lemma_first_max(vals);
    let b = best_neighbour(g, i, j);
    assert(vals[first_max(vals)] == g[b.0][b.1]);
    assert forall|k: int| 0 <= k < cells.len() implies le(
        g[(#[trigger] cells[k]).0][cells[k].1],
        g[b.0][b.1],
    ) by {
        assert(vals[k] == g[cells[k].0][cells[k].1]);
    }
    let up = if i > 0 { 1int } else { 0int };
    let left = if j > 0 { 1int } else { 0int };
    let down = if i < g.len() - 1 { 1int } else { 0int };
    if i > 0 {
        assert(cells[0] == (i - 1, j));
    }
    if j > 0 {
        assert(cells[up] == (i, j - 1));
    }
    if i < g.len() - 1 {
        assert(cells[up + left] == (i + 1, j));
    }
    if j < width(g) - 1 {
        assert(cells[up + left + down] == (i, j + 1));
    }
}

/// The cell that greedy ascent from `(i, j)` ends at: while the best
/// neighbour is strictly greater than the current cell it moves there.
pub open spec fn ascent<T: Ord>(g: Seq<Seq<T>>, i: int, j: int) -> (int, int)
    decreases higher(g, g[i][j]),
    when total_order::<T>() && rectangular(g) && in_grid(g, i, j)
{
    let b = best_neighbour(g, i, j);
    if (g.len() > 1 || width(g) > 1) && gt(g[b.0][b.1], g[i][j]) {
        proof {
            lemma_best_neighbour(g, i, j);
            assert(g[b.0].contains(g[b.0][b.1]));
            lemma_higher(g, g[i][j], g[b.0][b.1]);
        }
        ascent(g, b.0, b.1)
    } else {
        (i, j)
    }
}

/// Greedy ascent ends at a peak.
pub proof fn lemma_ascent_peak<T: Ord>(g: Seq<Seq<T>>, i: int, j: int)
    requires
        total_order::<T>(),
        rectangular(g),
        in_grid(g, i, j),
    ensures
        is_peak(g, ascent(g, i, j).0, ascent(g, i, j).1),
    decreases higher(g, g[i][j]),
{
    let b = best_neighbour(g, i, j);
    if g.len() > 1 || width(g) > 1 {
        lemma_best_neighbour(g, i, j);
        lemma_total(g[b.0][b.1], g[i][j]);
        if gt(g[b.0][b.1], g[i][j]) {
            assert(g[b.0].contains(g[b.0][b.1]));
            lemma_higher(g, g[i][j], g[b.0][b.1]);
            lemma_ascent_peak(g, b.0, b.1);
        } else {
            if i > 0 {
                lemma_le_transitive(g[i - 1][j], g[b.0][b.1], g[i][j]);
            }
            if j > 0 {
                lemma_le_transitive(g[i][j - 1], g[b.0][b.1], g[i][j]);
            }
            if i < g.len() - 1 {
                lemma_le_transitive(g[i + 1][j], g[b.0][b.1], g[i][j]);
            }
            if j < width(g) - 1 {
                lemma_le_transitive(g[i][j + 1], g[b.0][b.1], g[i][j]);
            }
        }
    }
}

/// The cells of `c` with their coordinates as integers.
pub open spec fn cells_of(c: Seq<(usize, usize)>) -> Seq<(int, int)> {
    Seq::new(c.len(), |k: int| (c[k].0 as int, c[k].1 as int))
}

/// Finds a peak by greedy ascent from the centre cell `(n / 2, m / 2)`.
///
/// Returns `None` exactly where the rows differ in length or the grid has no
/// row or no column. Otherwise the result is the peak that the ascent ends at;
/// a grid of one cell has that cell as its peak.
pub fn find_peak_greedy<T: Ord + Clone>(input: &[&[T]]) -> (r: Option<(usize, usize)>)
    requires
        total_order::<T>(),
    ensures
        r is Some <==> searchable(rows(input)),
        r matches Some((i, j)) ==> is_peak(rows(input), i as int, j as int),
        r matches Some((i, j)) ==> (i as int, j as int) == ascent(
            rows(input),
            rows(input).len() as int / 2,
            width(rows(input)) as int / 2,
        ),
{
    let (n, m) = match shape(input) {
        Some(s) => s,
        None => {
            return None;
        },
    };
    if n == 0 || m == 0 {
        return None;
    }
    let ghost g = rows(input);
    let mut i: usize = n / 2;
    let mut j: usize = m / 2;
    let mut candidates = Vec::<(usize, usize)>::with_capacity(4);
    loop
        invariant
            total_order::<T>(),
            g == rows(input),
            searchable(g),
            n == g.len(),
            m == width(g),
            in_grid(g, i as int, j as int),
            ascent(g, i as int, j as int) == ascent(g, n as int / 2, m as int / 2),
        decreases higher(g, g[i as int][j as int]),
    {
        candidates.clear();
        if i != 0 {
            candidates.push((i - 1, j));
        }
        if j != 0 {
            candidates.push((i, j - 1));
        }
        if i < n - 1 {
            candidates.push((i + 1, j));
        }
        if j < m - 1 {
            candidates.push((i, j + 1));
        }
        let ghost cells = neighbours(n as int, m as int, i as int, j as int);
        let ghost vals = values_at(g, cells);
        assert(cells_of(candidates@) =~= cells);
        if candidates.len() == 0 {
            return Some((i, j));
        }
        proof {
            lemma_best_neighbour(g, i as int, j as int);
            lemma_first_max(vals);
        }
        let (mut max_i, mut max_j) = candidates[0];
        let mut max_t: &T = cell(input, max_i, max_j);
        let mut k: usize = 0;
        while k < candidates.len()
            invariant
                total_order::<T>(),
                g == rows(input),
                rectangular(g),
                cells_of(candidates@) == cells,
                vals == values_at(g, cells),
                forall|q: int| 0 <= q < cells.len() ==> in_grid(g, (#[trigger] cells[q]).0, cells[q].1),
                candidates@.len() > 0,
                k <= candidates@.len(),
                0 <= first_max(vals.take(k as int)) < cells.len(),
                in_grid(g, max_i as int, max_j as int),
                (max_i as int, max_j as int) == cells[first_max(vals.take(k as int))],
                *max_t == g[max_i as int][max_j as int],
            decreases candidates@.len() - k,
        {
            let (tmp_i, tmp_j) = candidates[k];
            proof {
                assert(cells[k as int] == (tmp_i as int, tmp_j as int));
                lemma_first_max_step(vals, k as int);
                if k > 0 {
                    lemma_first_max(vals.take(k as int));
                }
            }
            let tmp_t: &T = cell(input, tmp_i, tmp_j);
            if exceeds(tmp_t, max_t) {
                max_t = tmp_t;
                max_i = tmp_i;
                max_j = tmp_j;
            }
            k += 1;
        }
        assert(vals.take(k as int) =~= vals);
        if exceeds(max_t, cell(input, i, j)) {
            proof {
                assert(g[max_i as int].contains(g[max_i as int][max_j as int]));
                lemma_higher(g, g[i as int][j as int], *max_t);
            }
            i = max_i;
            j = max_j;
        } else {
            proof {
                lemma_ascent_peak(g, i as int, j as int);
            }
            return Some((i, j));
        }
    }
}

/// Cell `(a, b)` comes before cell `(i, j)` in row-major order.
pub open spec fn row_major_before(a: int, b: int, i: int, j: int) -> bool {
    a < i || (a == i && b < j)
}

/// Finds a peak by a scan of the cells in row-major order.
///
/// Returns `None` exactly where the rows differ in length or the grid has no
/// row or no column. Otherwise the result is the first peak in row-major
/// order.
pub fn find_peak_naive<T: Ord + Clone>(input: &[&[T]]) -> (r: Option<(usize, usize)>)
    requires
        total_order::<T>(),
    ensures
        r is Some <==> searchable(rows(input)),
        r matches Some((i, j)) ==> is_peak(rows(input), i as int, j as int),
        r matches Some((i, j)) ==> forall|a: int, b: int|
            row_major_before(a, b, i as int, j as int) ==> !is_peak(rows(input), a, b),
{
    let (n, m) = match shape(input) {
        Some(s) => s,
        None => {
            return None;
        },
    };
    let ghost g = rows(input);
    let mut i: usize = 0;
    while i < n
        invariant
            total_order::<T>(),
            g == rows(input),
            rectangular(g),
            n == g.len(),
            m == width(g),
            i <= n,
            forall|a: int, b: int| a < i ==> !is_peak(g, a, b),
        decreases n - i,
    {
        let mut j: usize = 0;
        while j < m
            invariant
                total_order::<T>(),
                g == rows(input),
                rectangular(g),
                n == g.len(),
                m == width(g),
                i < n,
                j <= m,
                forall|a: int, b: int| row_major_before(a, b, i as int, j as int) ==> !is_peak(g, a, b),
            decreases m - j,
        {
            let x: &T = cell(input, i, j);
            if (i == 0 || at_most(cell(input, i - 1, j), x))
                && (j == 0 || at_most(cell(input, i, j - 1), x))
                && (i == n - 1 || at_most(cell(input, i + 1, j), x))
                && (j == m - 1 || at_most(cell(input, i, j + 1), x)) {
                return Some((i, j));
            }
            j += 1;
        }
        i += 1;
    }
    proof {
        if n > 0 && m > 0 {
            lemma_peak_exists(g);
        }
    }
    None
}

} // verus!
