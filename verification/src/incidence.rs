//! Orienting the edges of a circuit graph. The graph is an incidence matrix: one row per node,
//! one column per circuit element, and a nonzero entry where the element touches the node.
//! Orientation gives each nonzero entry a sign, +1 or -1, by a guess followed by a pass of
//! corrections row by row.
use vstd::prelude::*;

verus! {

/// A matrix of signs stored row by row: the entry in row `r` and column `c` is
/// `arr[c + columns * r]`.
pub struct IncidenceMatrix {
    pub arr: Vec<i8>,
    pub rows: usize,
    pub columns: usize,
}

impl IncidenceMatrix {
    /// The storage holds `rows * columns` entries, each of them -1, 0 or 1.
    pub open spec fn wf(&self) -> bool {
        &&& self.arr@.len() == self.rows * self.columns
        &&& forall|k: int| 0 <= k < self.arr@.len() ==> -1 <= #[trigger] self.arr@[k] <= 1
    }
}

impl View for IncidenceMatrix {
    type V = Seq<Seq<i8>>;

    /// The rows of the matrix.
    open spec fn view(&self) -> Seq<Seq<i8>> {
        Seq::new(
            self.rows as nat,
            |r: int| Seq::new(self.columns as nat, |c: int| self.arr@[c + self.columns * r]),
        )
    }
}

pub open spec fn abs_int(x: int) -> int {
    if x < 0 {
        -x
    } else {
        x
    }
}

/// The sum of the entries of a row.
pub open spec fn row_sum(row: Seq<i8>) -> int
    decreases row.len(),
{
    if row.len() == 0 {
        0
    } else {
        row_sum(row.drop_last()) + row.last()
    }
}

/// The sum of the magnitudes of the entries of a row.
pub open spec fn row_weight(row: Seq<i8>) -> int
    decreases row.len(),
{
    if row.len() == 0 {
        0
    } else {
        row_weight(row.drop_last()) + abs_int(row.last() as int)
    }
}

/// The columns, in increasing order, at which a row is nonzero.
pub open spec fn nonzero_columns(row: Seq<i8>) -> Seq<usize>
    decreases row.len(),
{
    if row.len() == 0 {
        Seq::empty()
    } else {
        let rest = nonzero_columns(row.drop_last());
        if row.last() != 0 {
            rest.push((row.len() - 1) as usize)
        } else {
            rest
        }
    }
}

/// The last of `cols` at which `row` is nonzero.
pub open spec fn last_hit(row: Seq<i8>, cols: Seq<usize>) -> Option<usize>
    decreases cols.len(),
{
    if cols.len() == 0 {
        None
    } else if row[cols.last() as int] != 0 {
        Some(cols.last())
    } else {
        last_hit(row, cols.drop_last())
    }
}

/// `g` with the sign of the entry in row `r` and column `c` turned over.
pub open spec fn flip(g: Seq<Seq<i8>>, r: int, c: int) -> Seq<Seq<i8>> {
    g.update(r, g[r].update(c, (-g[r][c]) as i8))
}

/// The last of the first `n` rows whose entry in column `c` is 1, or -1 where there is none.
pub open spec fn last_one(g: Seq<Seq<i8>>, c: int, n: int) -> int
    decreases n,
{
    if n <= 0 {
        -1
    } else if g[n - 1][c] == 1 {
        n - 1
    } else {
        last_one(g, c, n - 1)
    }
}

/// The first guess, made in the columns before `upto`: in each of them the 1 of the last row
/// that has one becomes -1.
pub open spec fn first_guess(g: Seq<Seq<i8>>, upto: int) -> Seq<Seq<i8>> {
    Seq::new(
        g.len(),
        |r: int|
            Seq::new(
                g[r].len(),
                |c: int|
                    if c < upto && r == last_one(g, c, g.len() as int) {
                        -1i8
                    } else {
                        g[r][c]
                    },
            ),
    )
}

/// The scan of the first `k` rows made while correcting row `j`, whose nonzero columns are
/// `cols`. A row other than `j` that is nonzero in one of `cols` is noted with the last such
/// column; where its sum plus that entry is not zero and its weight is not 2, that entry and the
/// entry of row `j` in the same column are turned over. Gives the matrix, whether anything was
/// turned over, and the rows and columns noted.
pub open spec fn scan_rows(g: Seq<Seq<i8>>, j: int, cols: Seq<usize>, k: int) -> (
    Seq<Seq<i8>>,
    bool,
    Seq<(usize, usize)>,
)
    decreases k,
{
    if k <= 0 {
        (g, false, Seq::empty())
    } else {
        let (h, changed, hits) = scan_rows(g, j, cols, k - 1);
        let r = k - 1;
        if r == j {
            (h, changed, hits)
        } else {
            match last_hit(h[r], cols) {
                None => (h, changed, hits),
                Some(c) => {
                    let noted = hits.push((r as usize, c));
                    if row_sum(h[r]) + h[r][c as int] != 0 && row_weight(h[r]) != 2 {
                        (flip(flip(h, r, c as int), j, c as int), true, noted)
                    } else {
                        (h, changed, noted)
                    }
                },
            }
        }
    }
}

/// The correction of row `j`. A row with entries of both signs is left as it is. Otherwise the
/// other rows are scanned; where the scan turned nothing over, the second noted entry and the
/// entry of row `j` in its column are turned over, and with fewer than two noted there is no
/// result.
pub open spec fn settle_row(g: Seq<Seq<i8>>, j: int) -> Option<Seq<Seq<i8>>> {
    let row = g[j];
    if abs_int(row_sum(row)) < row_weight(row) {
        Some(g)
    } else {
        let (h, changed, hits) = scan_rows(g, j, nonzero_columns(row), g.len() as int);
        if changed {
            Some(h)
        } else if hits.len() < 2 {
            None
        } else {
            Some(flip(flip(h, hits[1].0 as int, hits[1].1 as int), j, hits[1].1 as int))
        }
    }
}

/// The corrections of the first `n` rows, in order.
pub open spec fn settle_rows(g: Seq<Seq<i8>>, n: int) -> Option<Seq<Seq<i8>>>
    decreases n,
{
    if n <= 0 {
        Some(g)
    } else {
        match settle_rows(g, n - 1) {
            None => None,
            Some(h) => settle_row(h, n - 1),
        }
    }
}

/// The oriented matrix: the first guess in every column, then the corrections of every row;
/// `None` where a correction has no result.
pub open spec fn oriented(g: Seq<Seq<i8>>, columns: int) -> Option<Seq<Seq<i8>>> {
    settle_rows(first_guess(g, columns), g.len() as int)
}

/// Two matrices of the same shape that are nonzero at the same places, with the same magnitudes.
pub open spec fn same_support(a: Seq<Seq<i8>>, b: Seq<Seq<i8>>) -> bool {
    &&& a.len() == b.len()
    &&& forall|r: int| 0 <= r < a.len() ==> (#[trigger] a[r]).len() == b[r].len()
    &&& forall|r: int, c: int|
        0 <= r < a.len() && 0 <= c < a[r].len() ==> abs_int(#[trigger] a[r][c] as int) == abs_int(
            b[r][c] as int,
        )
}


proof fn lemma_cell(rows: int, columns: int, r: int, c: int)
    requires
        0 <= r < rows,
        0 <= c < columns,
    ensures
        0 <= columns * r,
        columns * r + columns <= rows * columns,
        0 <= c + columns * r < rows * columns,
{
    assert(0 <= columns * r) by (nonlinear_arith)
        requires
            0 <= r,
            0 <= columns,
    ;
    assert(columns * r + columns <= rows * columns) by (nonlinear_arith)
        requires
            0 <= r < rows,
            0 <= columns,
    ;
}

proof fn lemma_cell_unique(columns: int, r: int, c: int, r2: int, c2: int)
    requires
        0 <= r,
        0 <= r2,
        0 <= c < columns,
        0 <= c2 < columns,
        c + columns * r == c2 + columns * r2,
    ensures
        r == r2,
        c == c2,
{
    if r < r2 {
        assert(columns * r + columns <= columns * r2) by (nonlinear_arith)
            requires
                r < r2,
                0 <= columns,
        ;
    } else if r2 < r {
        assert(columns * r2 + columns <= columns * r) by (nonlinear_arith)
            requires
                r2 < r,
                0 <= columns,
        ;
    }
}

proof fn lemma_nonzero_columns_bound(row: Seq<i8>)
    requires
        row.len() <= usize::MAX,
    ensures
        forall|t: int|
            0 <= t < nonzero_columns(row).len() ==> #[trigger] nonzero_columns(row)[t] < row.len(),
    decreases row.len(),
{
    if row.len() > 0 {
        let rest = row.drop_last();
        lemma_nonzero_columns_bound(rest);
        assert forall|t: int| 0 <= t < nonzero_columns(row).len() implies #[trigger] nonzero_columns(
            row,
        )[t] < row.len() by {
            if t < nonzero_columns(rest).len() {
                assert(nonzero_columns(rest)[t] < rest.len());
            }
        }
    }
}

proof fn lemma_last_hit_bound(row: Seq<i8>, cols: Seq<usize>, b: int)
    requires
        forall|t: int| 0 <= t < cols.len() ==> #[trigger] cols[t] < b,
    ensures
        last_hit(row, cols) matches Some(c) ==> c < b,
    decreases cols.len(),
{
    if cols.len() > 0 {
        lemma_last_hit_bound(row, cols.drop_last(), b);
    }
}

proof fn lemma_scan_hits(g: Seq<Seq<i8>>, j: int, cols: Seq<usize>, k: int, b: int)
    requires
        0 <= k <= g.len(),
        g.len() <= usize::MAX,
        forall|t: int| 0 <= t < cols.len() ==> #[trigger] cols[t] < b,
    ensures
        forall|t: int|
            0 <= t < scan_rows(g, j, cols, k).2.len() ==> (#[trigger] scan_rows(g, j, cols, k).2[t]).0
                < k && scan_rows(g, j, cols, k).2[t].1 < b,
    decreases k,
{
    if k > 0 {
        lemma_scan_hits(g, j, cols, k - 1, b);
        let h = scan_rows(g, j, cols, k - 1).0;
        lemma_last_hit_bound(h[k - 1], cols, b);
    }
}

proof fn lemma_no_result_persists(g: Seq<Seq<i8>>, n: int, m: int)
    requires
        0 <= n <= m,
        settle_rows(g, n) is None,
    ensures
        settle_rows(g, m) is None,
    decreases m - n,
{
    if n < m {
        assert(settle_rows(g, n + 1) is None);
        lemma_no_result_persists(g, n + 1, m);
    }
}

proof fn lemma_flip_support(a: Seq<Seq<i8>>, b: Seq<Seq<i8>>, r: int, c: int)
    requires
        same_support(a, b),
        0 <= r < a.len(),
        0 <= c < a[r].len(),
        -1 <= a[r][c] <= 1,
    ensures
        same_support(flip(a, r, c), b),
{
    let f = flip(a, r, c);
    assert forall|r2: int, c2: int| 0 <= r2 < f.len() && 0 <= c2 < f[r2].len() implies abs_int(
        #[trigger] f[r2][c2] as int,
    ) == abs_int(b[r2][c2] as int) by {
        assert(a[r2].len() == b[r2].len());
        assert(abs_int(a[r2][c2] as int) == abs_int(b[r2][c2] as int));
    }
    assert forall|r2: int| 0 <= r2 < f.len() implies (#[trigger] f[r2]).len() == b[r2].len() by {
        assert(a[r2].len() == b[r2].len());
    }
}

proof fn lemma_support_trans(a: Seq<Seq<i8>>, b: Seq<Seq<i8>>, c: Seq<Seq<i8>>)
    requires
        same_support(a, b),
        same_support(b, c),
    ensures
        same_support(a, c),
{
    assert forall|r: int, k: int| 0 <= r < a.len() && 0 <= k < a[r].len() implies abs_int(
        #[trigger] a[r][k] as int,
    ) == abs_int(c[r][k] as int) by {
        assert(a[r].len() == b[r].len());
        assert(abs_int(b[r][k] as int) == abs_int(c[r][k] as int));
    }
    assert forall|r: int| 0 <= r < a.len() implies (#[trigger] a[r]).len() == c[r].len() by {
        assert(b[r].len() == c[r].len());
    }
}

proof fn lemma_last_one(g: Seq<Seq<i8>>, c: int, n: int)
    requires
        0 <= n,
    ensures
        last_one(g, c, n) < n,
        0 <= last_one(g, c, n) ==> g[last_one(g, c, n)][c] == 1,
        last_one(g, c, n) >= -1,
    decreases n,
{
    if n > 0 {
        lemma_last_one(g, c, n - 1);
    }
}

proof fn lemma_first_guess_support(g: Seq<Seq<i8>>, upto: int)
    ensures
        same_support(first_guess(g, upto), g),
{
    let f = first_guess(g, upto);
    assert forall|r: int, c: int| 0 <= r < f.len() && 0 <= c < f[r].len() implies abs_int(
        #[trigger] f[r][c] as int,
    ) == abs_int(g[r][c] as int) by {
        lemma_last_one(g, c, g.len() as int);
    }
}


/// The entry in row `r` and column `c`.
fn entry(m: &IncidenceMatrix, r: usize, c: usize) -> (v: i8)
    requires
        m.wf(),
        r < m.rows,
        c < m.columns,
    ensures
        v == m@[r as int][c as int],
        -1 <= v <= 1,
{
    let len = m.arr.len();
    proof {
        lemma_cell(m.rows as int, m.columns as int, r as int, c as int);
    }
    m.arr[c + m.columns * r]
}

/// Sets the entry in row `r` and column `c` to `v`.
fn set_entry(m: &mut IncidenceMatrix, r: usize, c: usize, v: i8)
    requires
        old(m).wf(),
        r < old(m).rows,
        c < old(m).columns,
        -1 <= v <= 1,
    ensures
        final(m).wf(),
        final(m).rows == old(m).rows,
        final(m).columns == old(m).columns,
        final(m)@ == old(m)@.update(r as int, old(m)@[r as int].update(c as int, v)),
{
    let ghost g = m@;
    let len = m.arr.len();
    proof {
        lemma_cell(m.rows as int, m.columns as int, r as int, c as int);
    }
    let k = c + m.columns * r;
    m.arr.set(k, v);
    proof {
        let e = g.update(r as int, g[r as int].update(c as int, v));
        assert forall|r2: int| 0 <= r2 < m.rows implies #[trigger] m@[r2] =~= e[r2] by {
            assert forall|c2: int| 0 <= c2 < m.columns implies m@[r2][c2] == e[r2][c2] by {
                lemma_cell(m.rows as int, m.columns as int, r2, c2);
                if c2 + m.columns * r2 == k {
                    lemma_cell_unique(m.columns as int, r as int, c as int, r2, c2);
                }
            }
        }
        assert(m@ =~= e);
    }
}

/// Turns over the sign of the entry in row `r` and column `c`.
fn flip_entry(m: &mut IncidenceMatrix, r: usize, c: usize)
    requires
        old(m).wf(),
        r < old(m).rows,
        c < old(m).columns,
    ensures
        final(m).wf(),
        final(m).rows == old(m).rows,
        final(m).columns == old(m).columns,
        final(m)@ == flip(old(m)@, r as int, c as int),
{
    let v = entry(m, r, c);
    set_entry(m, r, c, -v);
}

/// The sum and the weight of row `r`.
fn row_totals(m: &IncidenceMatrix, r: usize) -> (t: (i128, i128))
    requires
        m.wf(),
        r < m.rows,
    ensures
        t.0 == row_sum(m@[r as int]),
        t.1 == row_weight(m@[r as int]),
        -(m.columns as int) <= t.0 <= m.columns,
{
    let ghost row = m@[r as int];
    let mut sum: i128 = 0;
    let mut weight: i128 = 0;
    let mut i: usize = 0;
    while i < m.columns
        invariant
            i <= m.columns,
            m.wf(),
            r < m.rows,
            row == m@[r as int],
            sum == row_sum(row.take(i as int)),
            weight == row_weight(row.take(i as int)),
            -(i as int) <= sum <= i,
            0 <= weight <= i,
        decreases m.columns - i,
    {
        let v = entry(m, r, i);
        assert(row.take(i + 1).drop_last() =~= row.take(i as int));
        sum = sum + v as i128;
        weight = weight + if v < 0 {
            -(v as i128)
        } else {
            v as i128
        };
        i = i + 1;
    }
    assert(row.take(m.columns as int) =~= row);
    (sum, weight)
}

/// The columns at which row `r` is nonzero, in increasing order.
fn nonzero_cols(m: &IncidenceMatrix, r: usize) -> (cols: Vec<usize>)
    requires
        m.wf(),
        r < m.rows,
    ensures
        cols@ == nonzero_columns(m@[r as int]),
        forall|t: int| 0 <= t < cols@.len() ==> #[trigger] cols@[t] < m.columns,
{
    let ghost row = m@[r as int];
    let mut cols: Vec<usize> = Vec::new();
    let mut i: usize = 0;
    while i < m.columns
        invariant
            i <= m.columns,
            m.wf(),
            r < m.rows,
            row == m@[r as int],
            cols@ == nonzero_columns(row.take(i as int)),
        decreases m.columns - i,
    {
        let v = entry(m, r, i);
        assert(row.take(i + 1).drop_last() =~= row.take(i as int));
        if v != 0 {
            cols.push(i);
        }
        i = i + 1;
    }
    assert(row.take(m.columns as int) =~= row);
    proof {
        lemma_nonzero_columns_bound(row);
    }
    cols
}

/// The last of `cols` at which row `r` is nonzero.
fn last_nonzero_in(m: &IncidenceMatrix, r: usize, cols: &Vec<usize>) -> (hit: Option<usize>)
    requires
        m.wf(),
        r < m.rows,
        forall|t: int| 0 <= t < cols@.len() ==> #[trigger] cols@[t] < m.columns,
    ensures
        hit == last_hit(m@[r as int], cols@),
{
    let mut hit: Option<usize> = None;
    let mut k: usize = 0;
    while k < cols.len()
        invariant
            k <= cols@.len(),
            m.wf(),
            r < m.rows,
            forall|t: int| 0 <= t < cols@.len() ==> #[trigger] cols@[t] < m.columns,
            hit == last_hit(m@[r as int], cols@.take(k as int)),
        decreases cols.len() - k,
    {
        let c = cols[k];
        assert(cols@.take(k + 1).drop_last() =~= cols@.take(k as int));
        if entry(m, r, c) != 0 {
            hit = Some(c);
        }
        k = k + 1;
    }
    assert(cols@.take(cols@.len() as int) =~= cols@);
    hit
}


/// The scan of the other rows made while correcting row `j`, whose nonzero columns are `cols`.
fn scan_for_row(m: &mut IncidenceMatrix, j: usize, cols: &Vec<usize>) -> (res: (
    bool,
    Vec<(usize, usize)>,
))
    requires
        old(m).wf(),
        j < old(m).rows,
        forall|t: int| 0 <= t < cols@.len() ==> #[trigger] cols@[t] < old(m).columns,
    ensures
        final(m).wf(),
        final(m).rows == old(m).rows,
        final(m).columns == old(m).columns,
        final(m)@ == scan_rows(old(m)@, j as int, cols@, old(m).rows as int).0,
        res.0 == scan_rows(old(m)@, j as int, cols@, old(m).rows as int).1,
        res.1@ == scan_rows(old(m)@, j as int, cols@, old(m).rows as int).2,
        same_support(final(m)@, old(m)@),
{
    let ghost g0 = m@;
    let ghost rows0 = m.rows;
    let ghost columns0 = m.columns;
    let mut changed = false;
    let mut hits: Vec<(usize, usize)> = Vec::new();
    let mut r: usize = 0;
    while r < m.rows
        invariant
            r <= m.rows,
            m.wf(),
            m.rows == rows0,
            m.columns == columns0,
            j < m.rows,
            g0.len() == rows0,
            forall|t: int| 0 <= t < cols@.len() ==> #[trigger] cols@[t] < m.columns,
            m@ == scan_rows(g0, j as int, cols@, r as int).0,
            changed == scan_rows(g0, j as int, cols@, r as int).1,
            hits@ == scan_rows(g0, j as int, cols@, r as int).2,
            same_support(m@, g0),
        decreases m.rows - r,
    {
        if r != j {
            let hit = last_nonzero_in(m, r, cols);
            match hit {
                None => {},
                Some(c) => {
                    proof {
                        lemma_last_hit_bound(m@[r as int], cols@, m.columns as int);
                    }
                    hits.push((r, c));
                    let (sum, weight) = row_totals(m, r);
                    let v = entry(m, r, c);
                    if sum + v as i128 != 0 && weight != 2 {
                        let ghost h = m@;
                        flip_entry(m, r, c);
                        proof {
                            lemma_flip_support(h, g0, r as int, c as int);
                        }
                        let ghost h1 = m@;
                        flip_entry(m, j, c);
                        proof {
                            lemma_cell(m.rows as int, m.columns as int, j as int, c as int);
                            assert(-1 <= m.arr@[c + m.columns * j] <= 1);
                            lemma_flip_support(h1, g0, j as int, c as int);
                        }
                        changed = true;
                    }
                },
            }
        }
        r = r + 1;
    }
    (changed, hits)
}

/// The first guess in every column: the 1 of the last row that has one becomes -1.
fn guess(m: &mut IncidenceMatrix)
    requires
        old(m).wf(),
    ensures
        final(m).wf(),
        final(m).rows == old(m).rows,
        final(m).columns == old(m).columns,
        final(m)@ == first_guess(old(m)@, old(m).columns as int),
{
    let ghost g0 = m@;
    let ghost rows0 = m.rows;
    let ghost columns0 = m.columns;
    let mut i: usize = 0;
    assert(m@ =~= first_guess(g0, 0)) by {
        assert forall|r: int| 0 <= r < m.rows implies #[trigger] m@[r] =~= first_guess(g0, 0)[r] by {
        }
    }
    while i < m.columns
        invariant
            i <= m.columns,
            m.wf(),
            m.rows == rows0,
            m.columns == columns0,
            g0.len() == rows0,
            forall|r: int| 0 <= r < rows0 ==> (#[trigger] g0[r]).len() == columns0,
            m@ == first_guess(g0, i as int),
        decreases m.columns - i,
    {
        let mut j: usize = m.rows;
        let mut hit = false;
        while j > 0 && !hit
            invariant
                j <= m.rows,
                i < m.columns,
                m.wf(),
                m.rows == rows0,
                m.columns == columns0,
                g0.len() == rows0,
                forall|r: int| 0 <= r < rows0 ==> (#[trigger] g0[r]).len() == columns0,
                m@ == first_guess(g0, i as int),
                !hit ==> last_one(g0, i as int, rows0 as int) == last_one(g0, i as int, j as int),
                hit ==> j < rows0 && last_one(g0, i as int, rows0 as int) == j,
            decreases j,
        {
            j = j - 1;
            if entry(m, j, i) == 1 {
                hit = true;
            }
        }
        let ghost before = m@;
        if hit {
            set_entry(m, j, i, -1);
        }
        proof {
            let after = first_guess(g0, i + 1);
            assert forall|r: int| 0 <= r < rows0 implies #[trigger] m@[r] =~= after[r] by {
                assert forall|c: int| 0 <= c < columns0 implies m@[r][c] == after[r][c] by {
                    assert(before[r][c] == first_guess(g0, i as int)[r][c]);
                }
            }
            assert(m@ =~= after);
        }
        i = i + 1;
    }
}


/// The corrections of every row, in order; `false` where one has no result.
fn settle(m: &mut IncidenceMatrix) -> (ok: bool)
    requires
        old(m).wf(),
    ensures
        final(m).wf(),
        final(m).rows == old(m).rows,
        final(m).columns == old(m).columns,
        ok == settle_rows(old(m)@, old(m).rows as int) is Some,
        ok ==> final(m)@ == settle_rows(old(m)@, old(m).rows as int).unwrap(),
        ok ==> same_support(final(m)@, old(m)@),
{
    let ghost g0 = m@;
    let ghost rows0 = m.rows;
    let ghost columns0 = m.columns;
    let mut j: usize = 0;
    while j < m.rows
        invariant
            j <= m.rows,
            m.wf(),
            m.rows == rows0,
            m.columns == columns0,
            g0.len() == rows0,
            old(m).rows == rows0,
            old(m).columns == columns0,
            old(m)@ == g0,
            settle_rows(g0, j as int) == Some(m@),
            same_support(m@, g0),
        decreases m.rows - j,
    {
        let ghost h = m@;
        let (sum, weight) = row_totals(m, j);
        let magnitude = if sum < 0 {
            -sum
        } else {
            sum
        };
        if !(magnitude < weight) {
            let cols = nonzero_cols(m, j);
            let (changed, hits) = scan_for_row(m, j, &cols);
            proof {
                lemma_scan_hits(h, j as int, cols@, rows0 as int, columns0 as int);
                lemma_support_trans(m@, h, g0);
            }
            if !changed {
                if hits.len() < 2 {
                    proof {
                        lemma_no_result_persists(g0, j + 1, rows0 as int);
                    }
                    return false;
                }
                let (r1, c1) = hits[1];
                let ghost h1 = m@;
                proof {
                    lemma_cell(m.rows as int, m.columns as int, r1 as int, c1 as int);
                    assert(-1 <= m.arr@[c1 + m.columns * r1] <= 1);
                }
                flip_entry(m, r1, c1);
                proof {
                    lemma_flip_support(h1, g0, r1 as int, c1 as int);
                    lemma_cell(m.rows as int, m.columns as int, j as int, c1 as int);
                }
                let ghost h2 = m@;
                flip_entry(m, j, c1);
                proof {
                    assert(-1 <= m.arr@[c1 + m.columns * j] <= 1);
                    lemma_flip_support(h2, g0, j as int, c1 as int);
                }
            }
        }
        j = j + 1;
    }
    true
}

/// Orients the matrix; `false`, with the matrix left in some state, where the corrections have
/// no result.
fn orient(m: &mut IncidenceMatrix) -> (ok: bool)
    requires
        old(m).wf(),
    ensures
        final(m).wf(),
        final(m).rows == old(m).rows,
        final(m).columns == old(m).columns,
        ok == oriented(old(m)@, old(m).columns as int) is Some,
        ok ==> final(m)@ == oriented(old(m)@, old(m).columns as int).unwrap(),
        ok ==> same_support(final(m)@, old(m)@),
{
    let ghost g0 = m@;
    guess(m);
    proof {
        lemma_first_guess_support(g0, m.columns as int);
    }
    let ghost g1 = m@;
    let ok = settle(m);
    proof {
        if ok {
            lemma_support_trans(m@, g1, g0);
        }
    }
    ok
}

/// Gives each edge of the graph a direction: the first guess in every column, then the
/// corrections of every row (see `oriented`). Only signs change: every entry keeps its magnitude.
pub fn undirected_to_directed_matrix(m: &mut IncidenceMatrix)
    requires
        old(m).wf(),
        oriented(old(m)@, old(m).columns as int) is Some,
    ensures
        final(m).wf(),
        final(m).rows == old(m).rows,
        final(m).columns == old(m).columns,
        final(m)@ == oriented(old(m)@, old(m).columns as int).unwrap(),
        same_support(final(m)@, old(m)@),
{
    let _ = orient(m);
}

/// Whether `undirected_to_directed_matrix` can orient `m`: whether every correction has a result.
pub fn can_orient(m: &IncidenceMatrix) -> (b: bool)
    requires
        m.wf(),
    ensures
        b == oriented(m@, m.columns as int) is Some,
{
    let mut arr: Vec<i8> = Vec::new();
    let mut k: usize = 0;
    while k < m.arr.len()
        invariant
            k <= m.arr@.len(),
            arr@ == m.arr@.take(k as int),
        decreases m.arr@.len() - k,
    {
        arr.push(m.arr[k]);
        k = k + 1;
        assert(arr@ =~= m.arr@.take(k as int));
    }
    assert(arr@ =~= m.arr@);
    let mut copy = IncidenceMatrix { arr, rows: m.rows, columns: m.columns };
    assert(copy@ =~= m@);
    orient(&mut copy)
}

impl IncidenceMatrix {
    /// The matrix with the given entries, stored row by row; `None` unless there are
    /// `rows * columns` of them, each -1, 0 or 1.
    pub fn from_entries(arr: Vec<i8>, rows: usize, columns: usize) -> (m: Option<IncidenceMatrix>)
        ensures
            m is Some <==> (arr@.len() == rows * columns && forall|k: int|
                0 <= k < arr@.len() ==> -1 <= #[trigger] arr@[k] <= 1),
            m matches Some(x) ==> x.arr@ == arr@ && x.rows == rows && x.columns == columns,
    {
        let len = arr.len();
        match rows.checked_mul(columns) {
            None => {
                return None;
            },
            Some(n) => {
                if arr.len() != n {
                    return None;
                }
            },
        }
        let mut k: usize = 0;
        while k < arr.len()
            invariant
                k <= arr@.len(),
                forall|t: int| 0 <= t < k ==> -1 <= #[trigger] arr@[t] <= 1,
            decreases arr@.len() - k,
        {
            if arr[k] < -1 || arr[k] > 1 {
                return None;
            }
            k = k + 1;
        }
        Some(IncidenceMatrix { arr, rows, columns })
    }
}


// ---------------------------------------------------------------------------------------
// The fallback of a correction
// ---------------------------------------------------------------------------------------

/// Row `r` is nonzero in some column where row `j` is nonzero.
pub open spec fn shares_column(g: Seq<Seq<i8>>, j: int, r: int) -> bool {
    exists|c: int| 0 <= c < g[j].len() && g[j][c] != 0 && #[trigger] g[r][c] != 0
}

/// `c` is the last column in which rows `j` and `r` are both nonzero.
pub open spec fn last_shared_column(g: Seq<Seq<i8>>, j: int, r: int, c: int) -> bool {
    &&& 0 <= c < g[j].len()
    &&& g[j][c] != 0
    &&& g[r][c] != 0
    &&& forall|d: int| c < d < g[j].len() ==> !(g[j][d] != 0 && #[trigger] g[r][d] != 0)
}

/// The last column before `n` where `rj` and `rr` are both nonzero.
spec fn largest_shared(rj: Seq<i8>, rr: Seq<i8>, n: int) -> Option<usize>
    decreases n,
{
    if n <= 0 {
        None
    } else if rj[n - 1] != 0 && rr[n - 1] != 0 {
        Some((n - 1) as usize)
    } else {
        largest_shared(rj, rr, n - 1)
    }
}

proof fn lemma_last_hit_shared(rj: Seq<i8>, rr: Seq<i8>, n: int)
    requires
        0 <= n <= rj.len(),
        rj.len() <= usize::MAX,
    ensures
        last_hit(rr, nonzero_columns(rj.take(n))) == largest_shared(rj, rr, n),
    decreases n,
{
    if n > 0 {
        let t = rj.take(n);
        assert(t.drop_last() =~= rj.take(n - 1));
        assert(t.last() == rj[n - 1]);
        lemma_last_hit_shared(rj, rr, n - 1);
        let cols = nonzero_columns(t);
        if rj[n - 1] != 0 {
            assert(cols == nonzero_columns(rj.take(n - 1)).push((n - 1) as usize));
            assert(cols.drop_last() =~= nonzero_columns(rj.take(n - 1)));
        }
    }
}

proof fn lemma_largest_shared(rj: Seq<i8>, rr: Seq<i8>, n: int)
    requires
        0 <= n <= rj.len(),
        rj.len() <= usize::MAX,
    ensures
        largest_shared(rj, rr, n) matches Some(c) ==> 0 <= c < n && rj[c as int] != 0 && rr[c as int]
            != 0 && forall|d: int| c < d < n ==> !(rj[d] != 0 && #[trigger] rr[d] != 0),
        largest_shared(rj, rr, n) is None ==> forall|d: int|
            0 <= d < n ==> !(rj[d] != 0 && #[trigger] rr[d] != 0),
    decreases n,
{
    if n > 0 {
        lemma_largest_shared(rj, rr, n - 1);
    }
}

/// No row turns over while correcting row `j`: no scanned row meets the condition.
spec fn no_turn(g: Seq<Seq<i8>>, j: int, cols: Seq<usize>, k: int) -> bool {
    forall|r: int|
        0 <= r < k && r != j ==> match #[trigger] last_hit(g[r], cols) {
            Some(c) => !(row_sum(g[r]) + g[r][c as int] != 0 && row_weight(g[r]) != 2),
            None => true,
        }
}

proof fn lemma_scan_no_turn(g: Seq<Seq<i8>>, j: int, cols: Seq<usize>, k: int)
    requires
        no_turn(g, j, cols, k),
    ensures
        scan_rows(g, j, cols, k).0 == g,
        !scan_rows(g, j, cols, k).1,
        k > 0 ==> scan_rows(g, j, cols, k).2 == if k - 1 != j && last_hit(g[k - 1], cols) is Some {
            scan_rows(g, j, cols, k - 1).2.push(((k - 1) as usize, last_hit(g[k - 1], cols).unwrap()))
        } else {
            scan_rows(g, j, cols, k - 1).2
        },
    decreases k,
{
    if k > 0 {
        assert(no_turn(g, j, cols, k - 1));
        lemma_scan_no_turn(g, j, cols, k - 1);
        if k - 1 != j {
            assert(match last_hit(g[k - 1], cols) {
                Some(c) => !(row_sum(g[k - 1]) + g[k - 1][c as int] != 0 && row_weight(g[k - 1]) != 2),
                None => true,
            });
        }
    }
}

/// The rows noted, in order, with no row turned over: none before the first sharing row `r0`,
/// one up to the second sharing row `r1`, and from then on `r1` second.
proof fn lemma_hits_shape(
    g: Seq<Seq<i8>>,
    j: int,
    k: int,
    r0: int,
    r1: int,
    c1: int,
)
    requires
        0 <= k <= g.len(),
        g.len() <= usize::MAX,
        0 <= r0 < r1 < g.len(),
        r0 != j,
        r1 != j,
        no_turn(g, j, nonzero_columns(g[j]), g.len() as int),
        last_hit(g[r0], nonzero_columns(g[j])) is Some,
        last_hit(g[r1], nonzero_columns(g[j])) == Some(c1 as usize),
        forall|r: int|
            0 <= r < r1 && r != j && r != r0 ==> #[trigger] last_hit(g[r], nonzero_columns(g[j]))
                is None,
    ensures
        k <= r0 ==> scan_rows(g, j, nonzero_columns(g[j]), k).2.len() == 0,
        r0 < k <= r1 ==> scan_rows(g, j, nonzero_columns(g[j]), k).2.len() == 1,
        r1 < k ==> scan_rows(g, j, nonzero_columns(g[j]), k).2.len() >= 2 && scan_rows(
            g,
            j,
            nonzero_columns(g[j]),
            k,
        ).2[1] == (r1 as usize, c1 as usize),
    decreases k,
{
    let cols = nonzero_columns(g[j]);
    if k > 0 {
        assert(no_turn(g, j, cols, k));
        lemma_scan_no_turn(g, j, cols, k);
        lemma_hits_shape(g, j, k - 1, r0, r1, c1);
        if k - 1 < r1 && k - 1 != j && k - 1 != r0 {
            assert(last_hit(g[k - 1], cols) is None);
        }
    }
}

/// Where no row qualifies to be turned over while correcting row `j`, whose entries are all of
/// one sign, the correction turns over the entry of the second row (in row order) that shares
/// a nonzero column with row `j`, in the last column they share, together with row `j`'s
/// entry in that column; nothing else changes.
pub proof fn lemma_correction_falls_back_to_second_sharing_row(
    g: Seq<Seq<i8>>,
    j: int,
    r0: int,
    r1: int,
    c1: int,
)
    requires
        0 <= j < g.len(),
        g.len() <= usize::MAX,
        g[j].len() <= usize::MAX,
        forall|r: int| 0 <= r < g.len() ==> (#[trigger] g[r]).len() == g[j].len(),
        abs_int(row_sum(g[j])) >= row_weight(g[j]),
        forall|r: int, c: int|
            0 <= r < g.len() && r != j && 0 <= c < g[j].len() && g[j][c] != 0 && #[trigger] g[r][c]
                != 0 ==> !(row_sum(g[r]) + g[r][c] != 0 && row_weight(g[r]) != 2),
        0 <= r0 < r1 < g.len(),
        r0 != j,
        r1 != j,
        shares_column(g, j, r0),
        forall|r: int| 0 <= r < r1 && r != j && r != r0 ==> !shares_column(g, j, r),
        last_shared_column(g, j, r1, c1),
    ensures
        settle_row(g, j) == Some(flip(flip(g, r1, c1), j, c1)),
{
    let rj = g[j];
    let cols = nonzero_columns(rj);
    let n = rj.len() as int;
    assert(rj.take(n) =~= rj);
    // The column each row is noted with is the last one it shares with row `j`.
    assert forall|r: int| 0 <= r < g.len() implies #[trigger] last_hit(g[r], cols) == largest_shared(
        rj,
        g[r],
        n,
    ) by {
        lemma_last_hit_shared(rj, g[r], n);
    }
    assert forall|r: int| 0 <= r < g.len() && r != j implies match #[trigger] last_hit(g[r], cols) {
        Some(c) => !(row_sum(g[r]) + g[r][c as int] != 0 && row_weight(g[r]) != 2),
        None => true,
    } by {
        lemma_largest_shared(rj, g[r], n);
        match last_hit(g[r], cols) {
            Some(c) => {
                assert(g[r][c as int] != 0);
            },
            None => {},
        }
    }
    assert(no_turn(g, j, cols, g.len() as int));
    lemma_largest_shared(rj, g[r0], n);
    let w = choose|c: int| 0 <= c < g[j].len() && g[j][c] != 0 && #[trigger] g[r0][c] != 0;
    assert(last_hit(g[r0], cols) is Some) by {
        if last_hit(g[r0], cols) is None {
            assert(!(rj[w] != 0 && g[r0][w] != 0));
        }
    }
    lemma_largest_shared(rj, g[r1], n);
    assert(last_hit(g[r1], cols) == Some(c1 as usize)) by {
        match last_hit(g[r1], cols) {
            Some(c) => {
                if (c as int) < c1 {
                    assert(!(rj[c1] != 0 && g[r1][c1] != 0));
                } else if (c as int) > c1 {
                    assert(!(g[j][c as int] != 0 && g[r1][c as int] != 0));
                }
            },
            None => {
                assert(!(rj[c1] != 0 && g[r1][c1] != 0));
            },
        }
    }
    assert forall|r: int| 0 <= r < r1 && r != j && r != r0 implies #[trigger] last_hit(g[r], cols)
        is None by {
        lemma_largest_shared(rj, g[r], n);
        match last_hit(g[r], cols) {
            Some(c) => {
                assert(g[j][c as int] != 0 && g[r][c as int] != 0);
                assert(shares_column(g, j, r));
            },
            None => {},
        }
    }
    lemma_scan_no_turn(g, j, cols, g.len() as int);
    lemma_hits_shape(g, j, g.len() as int, r0, r1, c1);
}

} // verus!
