//! A grid of galaxies (`#`) and empty space (`.`), and the rows and columns
//! without any galaxy.

use vstd::prelude::*;

verus! {

/// Row-major order of cells: `p` comes before `q`.
pub open spec fn cell_before(p: (usize, usize), q: (usize, usize)) -> bool {
    p.0 < q.0 || (p.0 == q.0 && p.1 < q.1)
}

/// The cell `p` of the grid holds `c`.
pub open spec fn cell_holds(grid: Seq<Vec<char>>, p: (usize, usize), c: char) -> bool {
    p.0 < grid.len() && p.1 < grid[p.0 as int]@.len() && grid[p.0 as int]@[p.1 as int] == c
}

/// Row `i` holds nothing but `.`.
pub open spec fn row_is_empty(grid: Seq<Vec<char>>, i: int) -> bool {
    forall|j: int| 0 <= j < grid[i]@.len() ==> #[trigger] grid[i]@[j] == '.'
}

/// Column `j` holds nothing but `.`.
pub open spec fn column_is_empty(grid: Seq<Vec<char>>, j: int) -> bool {
    forall|i: int| 0 <= i < grid.len() ==> (#[trigger] grid[i])@[j] == '.'
}

/// Every row is as long as the first.
pub open spec fn rectangular<T>(grid: Seq<Vec<T>>) -> bool {
    forall|i: int| 0 <= i < grid.len() ==> (#[trigger] grid[i])@.len() == grid[0]@.len()
}

/// `list` holds, in ascending order and once each, exactly the rows below
/// `bound` that are empty.
pub open spec fn lists_empty_rows(list: Seq<usize>, grid: Seq<Vec<char>>, bound: int) -> bool {
    &&& forall|k: int|
        0 <= k < list.len() ==> (#[trigger] list[k]) < bound && row_is_empty(grid, list[k] as int)
    &&& forall|k: int, l: int| 0 <= k < l < list.len() ==> list[k] < list[l]
    &&& forall|i: int|
        0 <= i < bound && #[trigger] row_is_empty(grid, i) ==> exists|k: int|
            0 <= k < list.len() && #[trigger] list[k] == i
}

/// `list` holds, in ascending order and once each, exactly the columns below
/// `bound` that are empty.
pub open spec fn lists_empty_columns(list: Seq<usize>, grid: Seq<Vec<char>>, bound: int) -> bool {
    &&& forall|k: int|
        0 <= k < list.len() ==> (#[trigger] list[k]) < bound && column_is_empty(
            grid,
            list[k] as int,
        )
    &&& forall|k: int, l: int| 0 <= k < l < list.len() ==> list[k] < list[l]
    &&& forall|j: int|
        0 <= j < bound && #[trigger] column_is_empty(grid, j) ==> exists|k: int|
            0 <= k < list.len() && #[trigger] list[k] == j
}

/// Turns rows into columns: entry `i` of the `j`-th result row is entry `j`
/// of the `i`-th given row. The result has as many rows as the first given
/// row has entries; longer given rows are cut off there.
pub fn transpose2<T: Copy>(v: Vec<Vec<T>>) -> (t: Vec<Vec<T>>)
    requires
        v@.len() >= 1,
        forall|i: int| 0 <= i < v@.len() ==> (#[trigger] v@[i])@.len() >= v@[0]@.len(),
    ensures
        t@.len() == v@[0]@.len(),
        forall|j: int| 0 <= j < t@.len() ==> (#[trigger] t@[j])@.len() == v@.len(),
        forall|i: int, j: int|
            0 <= i < v@.len() && 0 <= j < t@.len() ==> (#[trigger] t@[j])@[i] == (#[trigger] v@[i])@[j],
{
    let rows = v.len();
    let cols = v[0].len();
    let mut t: Vec<Vec<T>> = Vec::new();
    let mut j: usize = 0;
    while j < cols
        invariant
            j <= cols,
            rows == v@.len(),
            rows >= 1,
            cols == v@[0]@.len(),
            forall|i: int| 0 <= i < v@.len() ==> (#[trigger] v@[i])@.len() >= cols,
            t@.len() == j,
            forall|b: int| 0 <= b < j ==> (#[trigger] t@[b])@.len() == rows,
            forall|i: int, b: int|
                0 <= i < rows && 0 <= b < j ==> (#[trigger] t@[b])@[i] == (#[trigger] v@[i])@[b],
        decreases cols - j,
    {
        let mut column: Vec<T> = Vec::new();
        let mut i: usize = 0;
        while i < rows
            invariant
                i <= rows,
                j < cols,
                rows == v@.len(),
                forall|a: int| 0 <= a < v@.len() ==> (#[trigger] v@[a])@.len() >= cols,
                column@.len() == i,
                forall|a: int| 0 <= a < i ==> #[trigger] column@[a] == v@[a]@[j as int],
            decreases rows - i,
        {
            column.push(v[i][j]);
            i += 1;
        }
        t.push(column);
        j += 1;
    }
    t
}

fn row_has_only_dots(row: &Vec<char>) -> (b: bool)
    ensures
        b == (forall|j: int| 0 <= j < row@.len() ==> #[trigger] row@[j] == '.'),
{
    let mut j: usize = 0;
    while j < row.len()
        invariant
            j <= row@.len(),
            forall|k: int| 0 <= k < j ==> #[trigger] row@[k] == '.',
        decreases row@.len() - j,
    {
        if row[j] != '.' {
            return false;
        }
        j += 1;
    }
    true
}

/// A picture of the sky: rows of cells, `#` for a galaxy.
#[derive(Debug)]
pub struct Universe(pub Vec<Vec<char>>);

impl Universe {
    /// The rows and the columns without a galaxy, each list ascending.
    pub fn expanded_places(&self) -> (r: (Vec<usize>, Vec<usize>))
        requires
            self.0@.len() >= 1,
            rectangular(self.0@),
        ensures
            lists_empty_rows(r.0@, self.0@, self.0@.len() as int),
            lists_empty_columns(r.1@, self.0@, self.0@[0]@.len() as int),
    {
        let grid = &self.0;
        let height = grid.len();
        let width = grid[0].len();
        let mut rows: Vec<usize> = Vec::new();
        let mut i: usize = 0;
        while i < height
            invariant
                i <= height,
                height == grid@.len(),
                lists_empty_rows(rows@, grid@, i as int),
            decreases height - i,
        {
            let ghost before = rows@;
            if row_has_only_dots(&grid[i]) {
                rows.push(i);
                assert forall|a: int| 0 <= a < i + 1 && row_is_empty(grid@, a) implies exists|k: int|
                    0 <= k < rows@.len() && #[trigger] rows@[k] == a by {
                    if a < i {
                        let k = choose|k: int| 0 <= k < before.len() && #[trigger] before[k] == a;
                        assert(rows@[k] == a);
                    } else {
                        assert(rows@[rows@.len() - 1] == a);
                    }
                }
            }
            i += 1;
        }
        let mut cols: Vec<usize> = Vec::new();
        let mut j: usize = 0;
        while j < width
            invariant
                j <= width,
                height == grid@.len(),
                height >= 1,
                width == grid@[0]@.len(),
                rectangular(grid@),
                lists_empty_columns(cols@, grid@, j as int),
            decreases width - j,
        {
            let mut empty = true;
            let mut i: usize = 0;
            while i < height
                invariant
                    i <= height,
                    j < width,
                    height == grid@.len(),
                    width == grid@[0]@.len(),
                    rectangular(grid@),
                    empty == (forall|a: int| 0 <= a < i ==> (#[trigger] grid@[a])@[j as int] == '.'),
                decreases height - i,
            {
                if grid[i][j] != '.' {
                    empty = false;
                }
                i += 1;
            }
            let ghost before = cols@;
            if empty {
                cols.push(j);
                assert forall|b: int| 0 <= b < j + 1 && column_is_empty(grid@, b) implies exists|
                    k: int,
                | 0 <= k < cols@.len() && #[trigger] cols@[k] == b by {
                    if b < j {
                        let k = choose|k: int| 0 <= k < before.len() && #[trigger] before[k] == b;
                        assert(cols@[k] == b);
                    } else {
                        assert(cols@[cols@.len() - 1] == b);
                    }
                }
            }
            j += 1;
        }
        (rows, cols)
    }

    /// The cells that hold a galaxy, row by row and left to right.
    pub fn get_galaxies(&self) -> (g: Vec<(usize, usize)>)
        ensures
            forall|k: int| 0 <= k < g@.len() ==> cell_holds(self.0@, #[trigger] g@[k], '#'),
            forall|k: int, l: int| 0 <= k < l < g@.len() ==> cell_before(g@[k], g@[l]),
            forall|p: (usize, usize)|
                cell_holds(self.0@, p, '#') ==> exists|k: int| 0 <= k < g@.len() && #[trigger] g@[k] == p,
    {
        let grid = &self.0;
        let height = grid.len();
        let mut g: Vec<(usize, usize)> = Vec::new();
        let mut i: usize = 0;
        while i < height
            invariant
                i <= height,
                height == grid@.len(),
                forall|k: int| 0 <= k < g@.len() ==> cell_holds(grid@, #[trigger] g@[k], '#'),
                forall|k: int| 0 <= k < g@.len() ==> (#[trigger] g@[k]).0 < i,
                forall|k: int, l: int| 0 <= k < l < g@.len() ==> cell_before(g@[k], g@[l]),
                forall|p: (usize, usize)|
                    cell_holds(grid@, p, '#') && p.0 < i ==> exists|k: int|
                        0 <= k < g@.len() && #[trigger] g@[k] == p,
            decreases height - i,
        {
            let row = &grid[i];
            let width = row.len();
            let mut j: usize = 0;
            while j < width
                invariant
                    j <= width,
                    i < height,
                    height == grid@.len(),
                    row@ == grid@[i as int]@,
                    width == row@.len(),
                    forall|k: int| 0 <= k < g@.len() ==> cell_holds(grid@, #[trigger] g@[k], '#'),
                    forall|k: int|
                        0 <= k < g@.len() ==> cell_before(#[trigger] g@[k], (i, j)),
                    forall|k: int, l: int| 0 <= k < l < g@.len() ==> cell_before(g@[k], g@[l]),
                    forall|p: (usize, usize)|
                        cell_holds(grid@, p, '#') && cell_before(p, (i, j)) ==> exists|k: int|
                            0 <= k < g@.len() && #[trigger] g@[k] == p,
                decreases width - j,
            {
                let ghost before = g@;
                if row[j] == '#' {
                    g.push((i, j));
                }
                assert forall|p: (usize, usize)|
                    cell_holds(grid@, p, '#') && cell_before(p, (i, (j + 1) as usize)) implies exists|
                    k: int,
                | 0 <= k < g@.len() && #[trigger] g@[k] == p by {
                    if cell_before(p, (i, j)) {
                        let k = choose|k: int| 0 <= k < before.len() && #[trigger] before[k] == p;
                        assert(g@[k] == p);
                    } else {
                        assert(p == (i, j));
                        assert(g@[g@.len() - 1] == p);
                    }
                }
                j += 1;
            }
            i += 1;
        }
        g
    }
}

/// `g` lists the galaxies of the grid: every cell that holds `#`, once, in
/// row-major order.
pub open spec fn is_galaxy_list(grid: Seq<Vec<char>>, g: Seq<(usize, usize)>) -> bool {
    &&& forall|k: int| 0 <= k < g.len() ==> cell_holds(grid, #[trigger] g[k], '#')
    &&& forall|k: int, l: int| 0 <= k < l < g.len() ==> cell_before(g[k], g[l])
    &&& forall|p: (usize, usize)|
        cell_holds(grid, p, '#') ==> exists|k: int| 0 <= k < g.len() && #[trigger] g[k] == p
}

/// The galaxies of the grid, in row-major order.
pub open spec fn galaxy_list(grid: Seq<Vec<char>>) -> Seq<(usize, usize)> {
    choose|g: Seq<(usize, usize)>| is_galaxy_list(grid, g)
}

/// What crossing one row or column costs: `coefficient` when it is empty,
/// and 1 otherwise.
pub open spec fn step_cost(empty: bool, coefficient: int) -> int {
    if empty {
        coefficient
    } else {
        1
    }
}

/// Cost of crossing the rows from `lo` up to, not including, `hi`.
pub open spec fn rows_cost(grid: Seq<Vec<char>>, lo: int, hi: int, coefficient: int) -> int
    decreases hi - lo,
{
    if hi <= lo {
        0
    } else {
        rows_cost(grid, lo, hi - 1, coefficient) + step_cost(
            row_is_empty(grid, hi - 1),
            coefficient,
        )
    }
}

/// Cost of crossing the columns from `lo` up to, not including, `hi`.
pub open spec fn columns_cost(grid: Seq<Vec<char>>, lo: int, hi: int, coefficient: int) -> int
    decreases hi - lo,
{
    if hi <= lo {
        0
    } else {
        columns_cost(grid, lo, hi - 1, coefficient) + step_cost(
            column_is_empty(grid, hi - 1),
            coefficient,
        )
    }
}

pub open spec fn lesser(a: int, b: int) -> int {
    if a <= b {
        a
    } else {
        b
    }
}

pub open spec fn greater(a: int, b: int) -> int {
    if a <= b {
        b
    } else {
        a
    }
}

/// Distance between two cells: the cost of the rows plus the cost of the
/// columns that lie between them.
pub open spec fn distance(
    grid: Seq<Vec<char>>,
    p: (usize, usize),
    q: (usize, usize),
    coefficient: int,
) -> int {
    rows_cost(grid, lesser(p.0 as int, q.0 as int), greater(p.0 as int, q.0 as int), coefficient)
        + columns_cost(
        grid,
        lesser(p.1 as int, q.1 as int),
        greater(p.1 as int, q.1 as int),
        coefficient,
    )
}

/// Sum of the distances from `g[i]` to the later cells before position `k`.
pub open spec fn distances_from(
    grid: Seq<Vec<char>>,
    g: Seq<(usize, usize)>,
    i: int,
    k: int,
    coefficient: int,
) -> int
    decreases k - i,
{
    if k <= i + 1 {
        0
    } else {
        distances_from(grid, g, i, k - 1, coefficient) + distance(grid, g[i], g[k - 1], coefficient)
    }
}

/// Sum of the distances of all pairs whose first cell is among the first
/// `m` of `g`.
pub open spec fn distances_total(
    grid: Seq<Vec<char>>,
    g: Seq<(usize, usize)>,
    m: int,
    coefficient: int,
) -> int
    decreases m,
{
    if m <= 0 {
        0
    } else {
        distances_total(grid, g, m - 1, coefficient) + distances_from(
            grid,
            g,
            m - 1,
            g.len() as int,
            coefficient,
        )
    }
}

/// Sum of the distances between every two galaxies of the grid.
pub open spec fn galaxy_distances(grid: Seq<Vec<char>>, coefficient: int) -> int {
    distances_total(grid, galaxy_list(grid), galaxy_list(grid).len() as int, coefficient)
}

proof fn lemma_lists_agree(grid: Seq<Vec<char>>, a: Seq<(usize, usize)>, b: Seq<(usize, usize)>, k: int)
    requires
        is_galaxy_list(grid, a),
        is_galaxy_list(grid, b),
        0 <= k <= a.len(),
        k <= b.len(),
    ensures
        forall|j: int| 0 <= j < k ==> a[j] == b[j],
    decreases k,
{
    if k > 0 {
        lemma_lists_agree(grid, a, b, k - 1);
        let i = k - 1;
        let m = choose|m: int| 0 <= m < b.len() && #[trigger] b[m] == a[i];
        let w = choose|w: int| 0 <= w < a.len() && #[trigger] a[w] == b[i];
        if m < i {
            assert(a[m] == b[m]);
            assert(cell_before(a[m], a[i]));
        }
        if w < i {
            assert(a[w] == b[w]);
            assert(cell_before(b[w], b[i]));
        }
        if m > i {
            assert(cell_before(b[i], b[m]));
            if w > i {
                assert(cell_before(a[i], a[w]));
            }
        }
    }
}

/// A grid has one list of galaxies only.
pub proof fn lemma_galaxy_list_unique(grid: Seq<Vec<char>>, g: Seq<(usize, usize)>)
    requires
        is_galaxy_list(grid, g),
    ensures
        galaxy_list(grid) == g,
{
    let c = galaxy_list(grid);
    assert(is_galaxy_list(grid, c));
    if c.len() < g.len() {
        lemma_lists_agree(grid, g, c, c.len() as int);
        let w = choose|w: int| 0 <= w < c.len() && #[trigger] c[w] == g[c.len() as int];
        assert(g[w] == c[w]);
        assert(cell_before(g[w], g[c.len() as int]));
    } else if g.len() < c.len() {
        lemma_lists_agree(grid, c, g, g.len() as int);
        let w = choose|w: int| 0 <= w < g.len() && #[trigger] g[w] == c[g.len() as int];
        assert(c[w] == g[w]);
        assert(cell_before(c[w], c[g.len() as int]));
    } else {
        lemma_lists_agree(grid, g, c, g.len() as int);
        assert(c =~= g);
    }
}

proof fn lemma_rows_cost_grows(grid: Seq<Vec<char>>, lo: int, k: int, hi: int, c: int)
    requires
        0 <= c,
        lo <= k <= hi,
    ensures
        0 <= rows_cost(grid, lo, k, c) <= rows_cost(grid, lo, hi, c),
    decreases hi - lo,
{
    if k < hi {
        lemma_rows_cost_grows(grid, lo, k, hi - 1, c);
    } else if lo < k {
        lemma_rows_cost_grows(grid, lo, k - 1, hi - 1, c);
    }
}

proof fn lemma_columns_cost_grows(grid: Seq<Vec<char>>, lo: int, k: int, hi: int, c: int)
    requires
        0 <= c,
        lo <= k <= hi,
    ensures
        0 <= columns_cost(grid, lo, k, c) <= columns_cost(grid, lo, hi, c),
    decreases hi - lo,
{
    if k < hi {
        lemma_columns_cost_grows(grid, lo, k, hi - 1, c);
    } else if lo < k {
        lemma_columns_cost_grows(grid, lo, k - 1, hi - 1, c);
    }
}

proof fn lemma_distance_sign(grid: Seq<Vec<char>>, p: (usize, usize), q: (usize, usize), c: int)
    requires
        0 <= c,
    ensures
        0 <= distance(grid, p, q, c),
{
    let r0 = lesser(p.0 as int, q.0 as int);
    let r1 = greater(p.0 as int, q.0 as int);
    let c0 = lesser(p.1 as int, q.1 as int);
    let c1 = greater(p.1 as int, q.1 as int);
    lemma_rows_cost_grows(grid, r0, r1, r1, c);
    lemma_columns_cost_grows(grid, c0, c1, c1, c);
}

proof fn lemma_from_grows(grid: Seq<Vec<char>>, g: Seq<(usize, usize)>, i: int, k: int, n: int, c: int)
    requires
        0 <= c,
        i < k <= n,
    ensures
        0 <= distances_from(grid, g, i, k, c) <= distances_from(grid, g, i, n, c),
    decreases n - i,
{
    if k < n {
        lemma_from_grows(grid, g, i, k, n - 1, c);
        lemma_distance_sign(grid, g[i], g[n - 1], c);
    } else if i + 1 < k {
        lemma_from_grows(grid, g, i, k - 1, n - 1, c);
        lemma_distance_sign(grid, g[i], g[k - 1], c);
    }
}

proof fn lemma_total_grows(grid: Seq<Vec<char>>, g: Seq<(usize, usize)>, m: int, n: int, c: int)
    requires
        0 <= c,
        0 <= m <= n,
    ensures
        0 <= distances_total(grid, g, m, c) <= distances_total(grid, g, n, c),
    decreases n,
{
    if m < n {
        lemma_total_grows(grid, g, m, n - 1, c);
        if n <= g.len() {
            lemma_from_grows(grid, g, n - 1, n, g.len() as int, c);
        }
    } else if m > 0 {
        lemma_total_grows(grid, g, m - 1, n - 1, c);
        if m <= g.len() {
            lemma_from_grows(grid, g, m - 1, m, g.len() as int, c);
        }
    }
}

fn is_listed(list: &Vec<usize>, v: usize) -> (b: bool)
    ensures
        b == (exists|k: int| 0 <= k < list@.len() && #[trigger] list@[k] == v),
{
    let mut i: usize = 0;
    while i < list.len()
        invariant
            i <= list@.len(),
            forall|k: int| 0 <= k < i ==> #[trigger] list@[k] != v,
        decreases list@.len() - i,
    {
        if list[i] == v {
            return true;
        }
        i += 1;
    }
    false
}

fn cross_rows(universe: &Universe, rows: &Vec<usize>, lo: usize, hi: usize, coefficient: usize) -> (r:
    usize)
    requires
        lo <= hi < universe.0@.len(),
        lists_empty_rows(rows@, universe.0@, universe.0@.len() as int),
        rows_cost(universe.0@, lo as int, hi as int, coefficient as int) <= usize::MAX,
    ensures
        r == rows_cost(universe.0@, lo as int, hi as int, coefficient as int),
{
    let mut sum: usize = 0;
    let mut k: usize = lo;
    while k < hi
        invariant
            lo <= k <= hi < universe.0@.len(),
            lists_empty_rows(rows@, universe.0@, universe.0@.len() as int),
            rows_cost(universe.0@, lo as int, hi as int, coefficient as int) <= usize::MAX,
            sum == rows_cost(universe.0@, lo as int, k as int, coefficient as int),
        decreases hi - k,
    {
        proof {
            lemma_rows_cost_grows(universe.0@, lo as int, k + 1, hi as int, coefficient as int);
        }
        let listed = is_listed(rows, k);
        assert(listed == row_is_empty(universe.0@, k as int));
        sum = sum + if listed {
            coefficient
        } else {
            1
        };
        k += 1;
    }
    sum
}

fn cross_columns(
    universe: &Universe,
    columns: &Vec<usize>,
    lo: usize,
    hi: usize,
    coefficient: usize,
) -> (r: usize)
    requires
        universe.0@.len() >= 1,
        lo <= hi < universe.0@[0]@.len(),
        lists_empty_columns(columns@, universe.0@, universe.0@[0]@.len() as int),
        columns_cost(universe.0@, lo as int, hi as int, coefficient as int) <= usize::MAX,
    ensures
        r == columns_cost(universe.0@, lo as int, hi as int, coefficient as int),
{
    let mut sum: usize = 0;
    let mut k: usize = lo;
    while k < hi
        invariant
            universe.0@.len() >= 1,
            lo <= k <= hi < universe.0@[0]@.len(),
            lists_empty_columns(columns@, universe.0@, universe.0@[0]@.len() as int),
            columns_cost(universe.0@, lo as int, hi as int, coefficient as int) <= usize::MAX,
            sum == columns_cost(universe.0@, lo as int, k as int, coefficient as int),
        decreases hi - k,
    {
        proof {
            lemma_columns_cost_grows(universe.0@, lo as int, k + 1, hi as int, coefficient as int);
        }
        let listed = is_listed(columns, k);
        assert(listed == column_is_empty(universe.0@, k as int));
        sum = sum + if listed {
            coefficient
        } else {
            1
        };
        k += 1;
    }
    sum
}

/// The sum of the distances between every two galaxies, where crossing an
/// empty row or column costs `coefficient` and any other costs 1.
pub fn solve(universe: &Universe, coefficient: usize) -> (r: usize)
    requires
        universe.0@.len() >= 1,
        rectangular(universe.0@),
        galaxy_distances(universe.0@, coefficient as int) <= usize::MAX,
    ensures
        r == galaxy_distances(universe.0@, coefficient as int),
{
    let galaxies = universe.get_galaxies();
    let (rows, columns) = universe.expanded_places();
    let ghost grid = universe.0@;
    let ghost g = galaxies@;
    let ghost c = coefficient as int;
    proof {
        lemma_galaxy_list_unique(grid, g);
    }
    let n = galaxies.len();
    let mut sum: usize = 0;
    let mut i: usize = 0;
    while i < n
        invariant
            i <= n,
            n == g.len(),
            g == galaxies@,
            grid == universe.0@,
            c == coefficient,
            grid.len() >= 1,
            rectangular(grid),
            is_galaxy_list(grid, g),
            lists_empty_rows(rows@, grid, grid.len() as int),
            lists_empty_columns(columns@, grid, grid[0]@.len() as int),
            distances_total(grid, g, n as int, c) <= usize::MAX,
            sum == distances_total(grid, g, i as int, c),
        decreases n - i,
    {
        let p = galaxies[i];
        let mut j: usize = i + 1;
        let ghost base = sum as int;
        while j < n
            invariant
                i < j <= n,
                n == g.len(),
                g == galaxies@,
                grid == universe.0@,
                c == coefficient,
                p == g[i as int],
                grid.len() >= 1,
                rectangular(grid),
                is_galaxy_list(grid, g),
                lists_empty_rows(rows@, grid, grid.len() as int),
                lists_empty_columns(columns@, grid, grid[0]@.len() as int),
                distances_total(grid, g, n as int, c) <= usize::MAX,
                base == distances_total(grid, g, i as int, c),
                sum == base + distances_from(grid, g, i as int, j as int, c),
            decreases n - j,
        {
            let q = galaxies[j];
            proof {
                assert(cell_holds(grid, g[i as int], '#'));
                assert(cell_holds(grid, g[j as int], '#'));
                lemma_total_grows(grid, g, i + 1, n as int, c);
                lemma_total_grows(grid, g, i as int, i as int, c);
                lemma_from_grows(grid, g, i as int, j + 1, n as int, c);
                lemma_from_grows(grid, g, i as int, j as int, j as int, c);
                let r0 = lesser(p.0 as int, q.0 as int);
                let r1 = greater(p.0 as int, q.0 as int);
                let c0 = lesser(p.1 as int, q.1 as int);
                let c1 = greater(p.1 as int, q.1 as int);
                lemma_rows_cost_grows(grid, r0, r1, r1, c);
                lemma_columns_cost_grows(grid, c0, c1, c1, c);
            }
            let (r0, r1) = if p.0 <= q.0 {
                (p.0, q.0)
            } else {
                (q.0, p.0)
            };
            let (c0, c1) = if p.1 <= q.1 {
                (p.1, q.1)
            } else {
                (q.1, p.1)
            };
            let down = cross_rows(universe, &rows, r0, r1, coefficient);
            let across = cross_columns(universe, &columns, c0, c1, coefficient);
            sum = sum + down + across;
            j += 1;
        }
        i += 1;
    }
    sum
}

} // verus!
