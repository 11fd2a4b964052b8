//! The radar grid reduced to a coarse map of cells: the strongest value in
//! each cell's window, the strongest value overall, and the sum and number
//! of the values visited.
use vstd::prelude::*;

verus! {

/// The sum of `s`.
pub open spec fn sum(s: Seq<i64>) -> int
    decreases s.len(),
{
    if s.len() == 0 {
        0
    } else {
        sum(s.drop_last()) + s.last()
    }
}

/// The largest of `s` and 0.
pub open spec fn max0(s: Seq<i64>) -> int
    decreases s.len(),
{
    if s.len() == 0 {
        0
    } else {
        let m = max0(s.drop_last());
        if m >= s.last() {
            m
        } else {
            s.last() as int
        }
    }
}

/// Whether adding up `s` from the front, and counting it, stays within `i64`
/// at every step.
pub open spec fn sums_in_range(s: Seq<i64>) -> bool
    decreases s.len(),
{
    if s.len() == 0 {
        true
    } else {
        &&& sums_in_range(s.drop_last())
        &&& i64::MIN <= sum(s) <= i64::MAX
        &&& s.len() <= i64::MAX
    }
}

proof fn lemma_sums_in_range_prefix(s: Seq<i64>, i: int)
    requires
        0 <= i <= s.len(),
        sums_in_range(s),
    ensures
        sums_in_range(s.take(i)),
    decreases s.len(),
{
    if i < s.len() {
        lemma_sums_in_range_prefix(s.drop_last(), i);
        assert(s.drop_last().take(i) =~= s.take(i));
    } else {
        assert(s.take(i) =~= s);
    }
}

/// The end of a window: the raw end, at most `len`, and at least one past
/// the start.
pub open spec fn clamp_end(start: int, raw_end: int, len: int) -> int {
    let e = if raw_end < len {
        raw_end
    } else {
        len
    };
    if e > start + 1 {
        e
    } else {
        start + 1
    }
}

/// The values of one grid row from `start` to before `end`, as far as the
/// row reaches.
pub open spec fn row_slice(row: Seq<i64>, start: int, end: int) -> Seq<i64> {
    let e = if end < row.len() {
        end
    } else {
        row.len() as int
    };
    if start < e {
        row.subrange(start, e)
    } else {
        seq![]
    }
}

/// The values of rows `lo` to before `hi`, each from column `start` to
/// before `end`, row by row.
pub open spec fn rows_slice(grid: Seq<Seq<i64>>, lo: int, hi: int, start: int, end: int) -> Seq<i64>
    decreases hi - lo,
{
    if hi <= lo {
        seq![]
    } else {
        rows_slice(grid, lo, hi - 1, start, end) + row_slice(grid[hi - 1], start, end)
    }
}

/// The number of columns of a grid: the length of its first row.
pub open spec fn columns(grid: Seq<Seq<i64>>) -> int {
    if grid.len() > 0 {
        grid[0].len() as int
    } else {
        0
    }
}

/// The values in the window of one cell, given the raw row span and column
/// span (start, end) of the cell.
pub open spec fn window(grid: Seq<Seq<i64>>, rs: (usize, usize), cs: (usize, usize)) -> Seq<i64> {
    let rend = clamp_end(rs.0 as int, rs.1 as int, grid.len() as int);
    let hi = if rend < grid.len() {
        rend
    } else {
        grid.len() as int
    };
    rows_slice(grid, rs.0 as int, hi, cs.0 as int, clamp_end(cs.0 as int, cs.1 as int, columns(grid)))
}

/// The values visited for the cells of row `y`, columns before `x`.
pub open spec fn row_visits(
    grid: Seq<Seq<i64>>,
    rows: Seq<(usize, usize)>,
    cols: Seq<(usize, usize)>,
    y: int,
    x: int,
) -> Seq<i64>
    decreases x,
{
    if x <= 0 {
        seq![]
    } else {
        row_visits(grid, rows, cols, y, x - 1) + window(grid, rows[y], cols[x - 1])
    }
}

/// The values visited for the cells of the rows before `y`.
pub open spec fn visits(
    grid: Seq<Seq<i64>>,
    rows: Seq<(usize, usize)>,
    cols: Seq<(usize, usize)>,
    y: int,
) -> Seq<i64>
    decreases y,
{
    if y <= 0 {
        seq![]
    } else {
        visits(grid, rows, cols, y - 1) + row_visits(grid, rows, cols, y - 1, cols.len() as int)
    }
}

/// The cell values of row `y`, columns before `x`.
pub open spec fn row_cells(
    grid: Seq<Seq<i64>>,
    rows: Seq<(usize, usize)>,
    cols: Seq<(usize, usize)>,
    y: int,
    x: int,
) -> Seq<i64>
    decreases x,
{
    if x <= 0 {
        seq![]
    } else {
        row_cells(grid, rows, cols, y, x - 1).push(max0(window(grid, rows[y], cols[x - 1])) as i64)
    }
}

/// The cell values of the rows before `y`, row by row.
pub open spec fn cells(
    grid: Seq<Seq<i64>>,
    rows: Seq<(usize, usize)>,
    cols: Seq<(usize, usize)>,
    y: int,
) -> Seq<i64>
    decreases y,
{
    if y <= 0 {
        seq![]
    } else {
        cells(grid, rows, cols, y - 1) + row_cells(grid, rows, cols, y - 1, cols.len() as int)
    }
}

/// The rows of a grid, by their values.
pub open spec fn grid_view(grid: Seq<Vec<i64>>) -> Seq<Seq<i64>> {
    grid.map_values(|r: Vec<i64>| r@)
}

/// The coarse radar map: one value per cell, row by row, and what was
/// summed over all visited values.
pub struct RadarTotals {
    pub cells: Vec<i64>,
    pub max_value: i64,
    pub total: i64,
    pub count: i64,
}

/// Running totals over the values visited so far.
struct Acc {
    max_value: i64,
    total: i64,
    count: i64,
}

/// Whether `acc` holds the totals of `vis`.
spec fn acc_of(acc: Acc, vis: Seq<i64>) -> bool {
    &&& acc.max_value == max0(vis)
    &&& acc.total == sum(vis)
    &&& acc.count == vis.len()
    &&& sums_in_range(vis)
}

fn add_value(acc: &mut Acc, v: i64, Ghost(vis): Ghost<Seq<i64>>) -> (ok: bool)
    requires
        acc_of(*old(acc), vis),
    ensures
        ok == sums_in_range(vis.push(v)),
        ok ==> acc_of(*final(acc), vis.push(v)),
{
    let ghost w = vis.push(v);
    assert(w.drop_last() =~= vis);
    match acc.total.checked_add(v) {
        Some(t) => match acc.count.checked_add(1) {
            Some(c) => {
                acc.total = t;
                acc.count = c;
                if v > acc.max_value {
                    acc.max_value = v;
                }
                true
            },
            None => false,
        },
        None => false,
    }
}

/// Whether `p` is a prefix of `s`.
pub open spec fn prefix_of(p: Seq<i64>, s: Seq<i64>) -> bool {
    p.len() <= s.len() && s.take(p.len() as int) == p
}

proof fn lemma_not_in_range_extends(p: Seq<i64>, s: Seq<i64>)
    requires
        !sums_in_range(p),
        prefix_of(p, s),
    ensures
        !sums_in_range(s),
{
    if sums_in_range(s) {
        lemma_sums_in_range_prefix(s, p.len() as int);
    }
}

proof fn lemma_prefix_trans(a: Seq<i64>, b: Seq<i64>, c: Seq<i64>)
    requires
        prefix_of(a, b),
        prefix_of(b, c),
    ensures
        prefix_of(a, c),
{
    assert(c.take(a.len() as int) =~= c.take(b.len() as int).take(a.len() as int));
}

proof fn lemma_prefix_append(v: Seq<i64>, a: Seq<i64>, b: Seq<i64>)
    requires
        prefix_of(a, b),
    ensures
        prefix_of(v + a, v + b),
{
    assert((v + b).take((v + a).len() as int) =~= v + b.take(a.len() as int));
}

proof fn lemma_rows_slice_prefix(g: Seq<Seq<i64>>, lo: int, k: int, hi: int, start: int, end: int)
    requires
        lo <= k <= hi,
    ensures
        prefix_of(rows_slice(g, lo, k, start, end), rows_slice(g, lo, hi, start, end)),
    decreases hi - k,
{
    if k == hi {
        assert(rows_slice(g, lo, hi, start, end).take(rows_slice(g, lo, hi, start, end).len() as int)
            =~= rows_slice(g, lo, hi, start, end));
    } else {
        lemma_rows_slice_prefix(g, lo, k, hi - 1, start, end);
        let a = rows_slice(g, lo, k, start, end);
        let b = rows_slice(g, lo, hi - 1, start, end);
        let c = rows_slice(g, lo, hi, start, end);
        assert(c == b + row_slice(g[hi - 1], start, end));
        assert(c.take(a.len() as int) =~= b.take(a.len() as int));
    }
}

proof fn lemma_max0_push_cell(w: Seq<i64>, v: i64)
    ensures
        max0(w.push(v)) == if max0(w) >= v {
            max0(w)
        } else {
            v as int
        },
{
    assert(w.push(v).drop_last() =~= w);
}

/// Visits one window: the largest of its values and 0, or nothing when the
/// totals leave `i64`.
fn visit_window(
    grid: &Vec<Vec<i64>>,
    rs: (usize, usize),
    cs: (usize, usize),
    acc: &mut Acc,
    Ghost(vis): Ghost<Seq<i64>>,
) -> (r: Option<i64>)
    requires
        acc_of(*old(acc), vis),
        rs.0 < usize::MAX,
        cs.0 < usize::MAX,
    ensures
        r is Some == sums_in_range(vis + window(grid_view(grid@), rs, cs)),
        r matches Some(m) ==> m == max0(window(grid_view(grid@), rs, cs)) && acc_of(
            *final(acc),
            vis + window(grid_view(grid@), rs, cs),
        ),
{
    let ghost g = grid_view(grid@);
    let rows = grid.len();
    let cols = if rows > 0 {
        grid[0].len()
    } else {
        0
    };
    assert(cols == columns(g));
    let (sy, ey_raw) = rs;
    let (sx, ex_raw) = cs;
    let e1 = if ey_raw < rows {
        ey_raw
    } else {
        rows
    };
    let rend = if e1 > sy + 1 {
        e1
    } else {
        sy + 1
    };
    let hi = if rend < rows {
        rend
    } else {
        rows
    };
    let c1 = if ex_raw < cols {
        ex_raw
    } else {
        cols
    };
    let cend = if c1 > sx + 1 {
        c1
    } else {
        sx + 1
    };
    let mut local: i64 = 0;
    let ghost mut done: Seq<i64> = seq![];
    let mut r: usize = sy;
    assert(rows_slice(g, sy as int, sy as int, sx as int, cend as int) =~= Seq::<i64>::empty());
    if r < hi {
        while r < hi
            invariant
                sy <= r <= hi,
                hi <= rows,
                rows == grid@.len(),
                g == grid_view(grid@),
                hi as int == (if clamp_end(sy as int, ey_raw as int, rows as int) < rows {
                    clamp_end(sy as int, ey_raw as int, rows as int)
                } else {
                    rows as int
                }),
                cend as int == clamp_end(sx as int, ex_raw as int, columns(g)),
                rs == (sy, ey_raw),
                cs == (sx, ex_raw),
                done == rows_slice(g, sy as int, r as int, sx as int, cend as int),
                local == max0(done),
                acc_of(*acc, vis + done),
            decreases hi - r,
        {
            let row = &grid[r];
            assert(g[r as int] == row@);
            let rl = row.len();
            let e = if cend < rl {
                cend
            } else {
                rl
            };
            let mut c: usize = sx;
            let ghost before = done;
            assert(row_slice(row@, sx as int, cend as int) == if sx < e {
                row@.subrange(sx as int, e as int)
            } else {
                Seq::<i64>::empty()
            });
            if c < e {
                assert(row@.subrange(sx as int, sx as int) =~= Seq::<i64>::empty());
                assert(before + row@.subrange(sx as int, sx as int) =~= before);
                while c < e
                    invariant
                        sx <= c <= e,
                        e <= rl,
                        rl == row@.len(),
                        sy <= r < hi,
                        hi <= rows,
                        rows == grid@.len(),
                        g == grid_view(grid@),
                        g[r as int] == row@,
                        before == rows_slice(g, sy as int, r as int, sx as int, cend as int),
                        row_slice(row@, sx as int, cend as int) == row@.subrange(sx as int, e as int),
                        hi as int == (if clamp_end(sy as int, ey_raw as int, rows as int) < rows {
                            clamp_end(sy as int, ey_raw as int, rows as int)
                        } else {
                            rows as int
                        }),
                        cend as int == clamp_end(sx as int, ex_raw as int, columns(g)),
                        rs == (sy, ey_raw),
                        cs == (sx, ex_raw),
                        done == before + row@.subrange(sx as int, c as int),
                        local == max0(done),
                        acc_of(*acc, vis + done),
                    decreases e - c,
                {
                    let v = row[c];
                    let ok = add_value(acc, v, Ghost(vis + done));
                    proof {
                        assert(done + row@.subrange(c as int, e as int) =~= before + row@.subrange(
                            sx as int,
                            e as int,
                        ));
                        assert(done.push(v) =~= before + row@.subrange(sx as int, c + 1));
                        assert((vis + done).push(v) =~= vis + done.push(v));
                    }
                    if !ok {
                        proof {
                            let upto = rows_slice(g, sy as int, r + 1, sx as int, cend as int);
                            assert(upto == before + row_slice(g[r as int], sx as int, cend as int));
                            assert(upto.take(done.push(v).len() as int) =~= done.push(v));
                            lemma_rows_slice_prefix(g, sy as int, r + 1, hi as int, sx as int, cend as int);
                            lemma_prefix_trans(done.push(v), upto, window(g, rs, cs));
                            lemma_prefix_append(vis, done.push(v), window(g, rs, cs));
                            lemma_not_in_range_extends(vis + done.push(v), vis + window(g, rs, cs));
                        }
                        return None;
                    }
                    proof {
                        lemma_max0_push_cell(done, v);
                        done = done.push(v);
                    }
                    if v > local {
                        local = v;
                    }
                    c = c + 1;
                }
            }
            proof {
                assert(rows_slice(g, sy as int, r + 1, sx as int, cend as int) == rows_slice(
                    g,
                    sy as int,
                    r as int,
                    sx as int,
                    cend as int,
                ) + row_slice(g[r as int], sx as int, cend as int));
                if sx < e {
                    assert(done =~= rows_slice(g, sy as int, r + 1, sx as int, cend as int));
                } else {
                    assert(done =~= rows_slice(g, sy as int, r + 1, sx as int, cend as int));
                }
            }
            r = r + 1;
        }
    }
    assert(done == window(g, rs, cs));
    Some(local)
}

proof fn lemma_row_visits_prefix(
    g: Seq<Seq<i64>>,
    rows: Seq<(usize, usize)>,
    cols: Seq<(usize, usize)>,
    y: int,
    x: int,
    n: int,
)
    requires
        0 <= x <= n,
    ensures
        prefix_of(row_visits(g, rows, cols, y, x), row_visits(g, rows, cols, y, n)),
    decreases n - x,
{
    if x == n {
        assert(row_visits(g, rows, cols, y, n).take(row_visits(g, rows, cols, y, n).len() as int)
            =~= row_visits(g, rows, cols, y, n));
    } else {
        lemma_row_visits_prefix(g, rows, cols, y, x, n - 1);
        let a = row_visits(g, rows, cols, y, x);
        let b = row_visits(g, rows, cols, y, n - 1);
        let c = row_visits(g, rows, cols, y, n);
        assert(c.take(a.len() as int) =~= b.take(a.len() as int));
    }
}

proof fn lemma_visits_prefix(
    g: Seq<Seq<i64>>,
    rows: Seq<(usize, usize)>,
    cols: Seq<(usize, usize)>,
    y: int,
    n: int,
)
    requires
        0 <= y <= n,
    ensures
        prefix_of(visits(g, rows, cols, y), visits(g, rows, cols, n)),
    decreases n - y,
{
    if y == n {
        assert(visits(g, rows, cols, n).take(visits(g, rows, cols, n).len() as int) =~= visits(
            g,
            rows,
            cols,
            n,
        ));
    } else {
        lemma_visits_prefix(g, rows, cols, y, n - 1);
        let a = visits(g, rows, cols, y);
        let b = visits(g, rows, cols, n - 1);
        let c = visits(g, rows, cols, n);
        assert(c.take(a.len() as int) =~= b.take(a.len() as int));
    }
}

/// The coarse radar map of `grid`: for each row span (start, raw end) in
/// `rows` and column span in `cols`, row by row, the largest value in the
/// cell's window (and 0); the largest value visited (and 0); and the sum and
/// the number of all values visited, a value counted once per window it lies
/// in, so the count is the number of grid positions the windows cover,
/// whatever the values. The largest value is the largest cell, and every
/// cell lies between 0 and it; on a rectangular grid whose spans cover every
/// row and column it is the largest value of the grid. Nothing when that sum or count leaves
/// `i64`.
pub fn radar_totals(grid: &Vec<Vec<i64>>, rows: &Vec<(usize, usize)>, cols: &Vec<(usize, usize)>) -> (r:
    Option<RadarTotals>)
    requires
        forall|i: int| 0 <= i < rows@.len() ==> (#[trigger] rows@[i]).0 < usize::MAX,
        forall|j: int| 0 <= j < cols@.len() ==> (#[trigger] cols@[j]).0 < usize::MAX,
    ensures
        r is Some == sums_in_range(visits(grid_view(grid@), rows@, cols@, rows@.len() as int)),
        r matches Some(t) ==> {
            let all = visits(grid_view(grid@), rows@, cols@, rows@.len() as int);
            &&& t.cells@ == cells(grid_view(grid@), rows@, cols@, rows@.len() as int)
            &&& t.max_value == max0(all)
            &&& t.total == sum(all)
            &&& t.count == all.len()
            &&& t.count == positions_read(grid_view(grid@), rows@, cols@, rows@.len() as int)
            &&& t.max_value == max0(t.cells@)
            &&& forall|k: int| 0 <= k < t.cells@.len() ==> 0 <= #[trigger] t.cells@[k] <= t.max_value
            &&& (rectangular(grid_view(grid@)) && spans_cover(rows@, grid@.len() as int)
                && spans_cover(cols@, columns(grid_view(grid@)))) ==> t.max_value == max0(
                grid_values(grid_view(grid@)),
            )
        },
{
    let ghost g = grid_view(grid@);
    let ny = rows.len();
    let nx = cols.len();
    let ghost total_visits = visits(g, rows@, cols@, ny as int);
    let mut acc = Acc { max_value: 0, total: 0, count: 0 };
    let mut out: Vec<i64> = Vec::new();
    let mut y: usize = 0;
    assert(visits(g, rows@, cols@, 0) =~= Seq::<i64>::empty());
    assert(out@ =~= cells(g, rows@, cols@, 0));
    while y < ny
        invariant
            y <= ny,
            ny == rows@.len(),
            nx == cols@.len(),
            g == grid_view(grid@),
            total_visits == visits(g, rows@, cols@, ny as int),
            forall|i: int| 0 <= i < rows@.len() ==> (#[trigger] rows@[i]).0 < usize::MAX,
            forall|j: int| 0 <= j < cols@.len() ==> (#[trigger] cols@[j]).0 < usize::MAX,
            acc_of(acc, visits(g, rows@, cols@, y as int)),
            out@ == cells(g, rows@, cols@, y as int),
        decreases ny - y,
    {
        let ghost base = visits(g, rows@, cols@, y as int);
        let ghost base_cells = out@;
        let mut x: usize = 0;
        assert(row_visits(g, rows@, cols@, y as int, 0) =~= Seq::<i64>::empty());
        assert(base + row_visits(g, rows@, cols@, y as int, 0) =~= base);
        assert(base_cells + row_cells(g, rows@, cols@, y as int, 0) =~= base_cells);
        while x < nx
            invariant
                x <= nx,
                y < ny,
                ny == rows@.len(),
                nx == cols@.len(),
                g == grid_view(grid@),
                total_visits == visits(g, rows@, cols@, ny as int),
                base == visits(g, rows@, cols@, y as int),
                base_cells == cells(g, rows@, cols@, y as int),
                forall|i: int| 0 <= i < rows@.len() ==> (#[trigger] rows@[i]).0 < usize::MAX,
                forall|j: int| 0 <= j < cols@.len() ==> (#[trigger] cols@[j]).0 < usize::MAX,
                acc_of(acc, base + row_visits(g, rows@, cols@, y as int, x as int)),
                out@ == base_cells + row_cells(g, rows@, cols@, y as int, x as int),
            decreases nx - x,
        {
            let ghost so_far = base + row_visits(g, rows@, cols@, y as int, x as int);
            let rs = rows[y];
            let cs = cols[x];
            assert(rs.0 < usize::MAX);
            assert(cs.0 < usize::MAX);
            let ghost w = window(g, rs, cs);
            let ghost next = row_visits(g, rows@, cols@, y as int, x + 1);
            assert(next == row_visits(g, rows@, cols@, y as int, x as int) + w);
            assert(so_far + w =~= base + next);
            match visit_window(grid, rs, cs, &mut acc, Ghost(so_far)) {
                Some(m) => {
                    let ghost before = out@;
                    out.push(m);
                    assert(row_cells(g, rows@, cols@, y as int, x + 1) == row_cells(g, rows@, cols@, y as int, x as int).push(max0(w) as i64));
                    assert(out@ =~= base_cells + row_cells(g, rows@, cols@, y as int, x + 1));
                },
                None => {
                    proof {
                        lemma_row_visits_prefix(g, rows@, cols@, y as int, x + 1, nx as int);
                        lemma_prefix_append(base, next, row_visits(g, rows@, cols@, y as int, nx as int));
                        assert(visits(g, rows@, cols@, y + 1) == base + row_visits(g, rows@, cols@, y as int, nx as int));
                        lemma_visits_prefix(g, rows@, cols@, y + 1, ny as int);
                        lemma_prefix_trans(base + next, visits(g, rows@, cols@, y + 1), total_visits);
                        lemma_not_in_range_extends(base + next, total_visits);
                    }
                    return None;
                },
            }
            x = x + 1;
        }
        assert(visits(g, rows@, cols@, y + 1) == base + row_visits(g, rows@, cols@, y as int, nx as int));
        assert(cells(g, rows@, cols@, y + 1) == base_cells + row_cells(g, rows@, cols@, y as int, nx as int));
        y = y + 1;
    }
    proof {
        lemma_radar_max_is_largest_cell(g, rows@, cols@);
        lemma_radar_count_is_positions(g, rows@, cols@, rows@.len() as int);
        if rectangular(g) && spans_cover(rows@, g.len() as int) && spans_cover(cols@, columns(g)) {
            lemma_radar_max_is_grid_max(g, rows@, cols@);
        }
    }
    Some(RadarTotals { cells: out, max_value: acc.max_value, total: acc.total, count: acc.count })
}


/// What the largest of `s` and 0 is: at least 0, at least every value of
/// `s`, and 0 or one of the values.
proof fn lemma_max0_facts(s: Seq<i64>)
    ensures
        0 <= max0(s) <= i64::MAX,
        forall|k: int| 0 <= k < s.len() ==> s[k] <= max0(s),
        max0(s) == 0 || exists|k: int| 0 <= k < s.len() && s[k] == max0(s),
    decreases s.len(),
{
    if s.len() > 0 {
        let p = s.drop_last();
        lemma_max0_facts(p);
        assert forall|k: int| 0 <= k < s.len() implies s[k] <= max0(s) by {
            if k < p.len() {
                assert(s[k] == p[k]);
            }
        }
        if max0(s) != 0 {
            if max0(p) >= s.last() {
                let k = choose|k: int| 0 <= k < p.len() && p[k] == max0(p);
                assert(s[k] == p[k]);
            } else {
                assert(s[s.len() - 1] == max0(s));
            }
        }
    }
}

/// The largest value of two sequences put together is the larger of their
/// largest values.
proof fn lemma_max0_concat(a: Seq<i64>, b: Seq<i64>)
    ensures
        max0(a + b) == if max0(a) >= max0(b) {
            max0(a)
        } else {
            max0(b)
        },
    decreases b.len(),
{
    lemma_max0_facts(a);
    lemma_max0_facts(b);
    if b.len() == 0 {
        assert(a + b =~= a);
    } else {
        lemma_max0_concat(a, b.drop_last());
        assert((a + b).drop_last() =~= a + b.drop_last());
        assert((a + b).last() == b.last());
    }
}

proof fn lemma_row_cells_max(
    g: Seq<Seq<i64>>,
    rows: Seq<(usize, usize)>,
    cols: Seq<(usize, usize)>,
    y: int,
    x: int,
)
    ensures
        max0(row_visits(g, rows, cols, y, x)) == max0(row_cells(g, rows, cols, y, x)),
        forall|k: int|
            0 <= k < row_cells(g, rows, cols, y, x).len() ==> 0 <= #[trigger] row_cells(
                g,
                rows,
                cols,
                y,
                x,
            )[k],
    decreases x,
{
    if x > 0 {
        lemma_row_cells_max(g, rows, cols, y, x - 1);
        let w = window(g, rows[y], cols[x - 1]);
        let pv = row_visits(g, rows, cols, y, x - 1);
        let pc = row_cells(g, rows, cols, y, x - 1);
        lemma_max0_facts(w);
        lemma_max0_concat(pv, w);
        lemma_max0_push_cell(pc, max0(w) as i64);
        let c = row_cells(g, rows, cols, y, x);
        assert(c == pc.push(max0(w) as i64));
        assert forall|k: int| 0 <= k < c.len() implies 0 <= #[trigger] c[k] by {
            if k < pc.len() {
                assert(c[k] == pc[k]);
            }
        }
    }
}

proof fn lemma_cells_max(
    g: Seq<Seq<i64>>,
    rows: Seq<(usize, usize)>,
    cols: Seq<(usize, usize)>,
    y: int,
)
    ensures
        max0(visits(g, rows, cols, y)) == max0(cells(g, rows, cols, y)),
        forall|k: int|
            0 <= k < cells(g, rows, cols, y).len() ==> 0 <= #[trigger] cells(g, rows, cols, y)[k],
    decreases y,
{
    if y > 0 {
        lemma_cells_max(g, rows, cols, y - 1);
        let n = cols.len() as int;
        lemma_row_cells_max(g, rows, cols, y - 1, n);
        let pv = visits(g, rows, cols, y - 1);
        let pc = cells(g, rows, cols, y - 1);
        let rv = row_visits(g, rows, cols, y - 1, n);
        let rc = row_cells(g, rows, cols, y - 1, n);
        lemma_max0_concat(pv, rv);
        lemma_max0_concat(pc, rc);
        let c = cells(g, rows, cols, y);
        assert(c == pc + rc);
        assert forall|k: int| 0 <= k < c.len() implies 0 <= #[trigger] c[k] by {
            if k < pc.len() {
                assert(c[k] == pc[k]);
            } else {
                assert(c[k] == rc[k - pc.len()]);
            }
        }
    }
}

/// The largest value of the coarse map is its largest cell: the largest of
/// all values visited (and 0) equals the largest cell value (and 0), and
/// every cell lies between 0 and it.
pub proof fn lemma_radar_max_is_largest_cell(
    grid: Seq<Seq<i64>>,
    rows: Seq<(usize, usize)>,
    cols: Seq<(usize, usize)>,
)
    ensures
        max0(visits(grid, rows, cols, rows.len() as int)) == max0(
            cells(grid, rows, cols, rows.len() as int),
        ),
        forall|k: int|
            0 <= k < cells(grid, rows, cols, rows.len() as int).len() ==> 0 <= #[trigger] cells(
                grid,
                rows,
                cols,
                rows.len() as int,
            )[k] <= max0(visits(grid, rows, cols, rows.len() as int)),
{
    let n = rows.len() as int;
    lemma_cells_max(grid, rows, cols, n);
    lemma_max0_facts(cells(grid, rows, cols, n));
}

/// Whether every row of the grid has the length of the first.
pub open spec fn rectangular(grid: Seq<Seq<i64>>) -> bool {
    forall|r: int| 0 <= r < grid.len() ==> #[trigger] grid[r].len() == columns(grid)
}

/// All values of a grid, row by row.
pub open spec fn grid_values(grid: Seq<Seq<i64>>) -> Seq<i64> {
    rows_slice(grid, 0, grid.len() as int, 0, columns(grid))
}

/// Whether index `p` (below `n`) lies in one of the spans (start, raw end),
/// each ending as a window does.
pub open spec fn span_covers(spans: Seq<(usize, usize)>, n: int, p: int) -> bool {
    exists|i: int|
        0 <= i < spans.len() && (#[trigger] spans[i]).0 <= p < clamp_end(
            spans[i].0 as int,
            spans[i].1 as int,
            n,
        )
}

/// Whether every index below `n` lies in one of the spans.
pub open spec fn spans_cover(spans: Seq<(usize, usize)>, n: int) -> bool {
    forall|p: int| 0 <= p < n ==> #[trigger] span_covers(spans, n, p)
}

/// Whether `v` is one of the grid's values.
spec fn in_grid(g: Seq<Seq<i64>>, v: i64) -> bool {
    exists|r: int, c: int| 0 <= r < g.len() && 0 <= c < g[r].len() && #[trigger] g[r][c] == v
}

/// Whether every value of `s` is one of the grid's values.
spec fn all_in_grid(g: Seq<Seq<i64>>, s: Seq<i64>) -> bool {
    forall|k: int| 0 <= k < s.len() ==> #[trigger] in_grid(g, s[k])
}

proof fn lemma_all_in_grid_concat(g: Seq<Seq<i64>>, a: Seq<i64>, b: Seq<i64>)
    requires
        all_in_grid(g, a),
        all_in_grid(g, b),
    ensures
        all_in_grid(g, a + b),
{
    assert forall|k: int| 0 <= k < (a + b).len() implies #[trigger] in_grid(g, (a + b)[k]) by {
        if k < a.len() {
            assert((a + b)[k] == a[k]);
        } else {
            assert((a + b)[k] == b[k - a.len()]);
        }
    }
}

proof fn lemma_rows_slice_in_grid(g: Seq<Seq<i64>>, lo: int, hi: int, start: int, end: int)
    requires
        0 <= lo,
        hi <= g.len(),
        0 <= start,
    ensures
        all_in_grid(g, rows_slice(g, lo, hi, start, end)),
    decreases hi - lo,
{
    if hi > lo {
        lemma_rows_slice_in_grid(g, lo, hi - 1, start, end);
        let row = g[hi - 1];
        let rs = row_slice(row, start, end);
        assert forall|k: int| 0 <= k < rs.len() implies #[trigger] in_grid(g, rs[k]) by {
            assert(rs[k] == row[start + k]);
            assert(g[hi - 1][start + k] == rs[k]);
        }
        lemma_all_in_grid_concat(g, rows_slice(g, lo, hi - 1, start, end), rs);
    }
}

proof fn lemma_visits_in_grid(
    g: Seq<Seq<i64>>,
    rows: Seq<(usize, usize)>,
    cols: Seq<(usize, usize)>,
    y: int,
)
    ensures
        all_in_grid(g, visits(g, rows, cols, y)),
    decreases y,
{
    if y > 0 {
        lemma_visits_in_grid(g, rows, cols, y - 1);
        lemma_row_visits_in_grid(g, rows, cols, y - 1, cols.len() as int);
        lemma_all_in_grid_concat(
            g,
            visits(g, rows, cols, y - 1),
            row_visits(g, rows, cols, y - 1, cols.len() as int),
        );
    }
}

proof fn lemma_row_visits_in_grid(
    g: Seq<Seq<i64>>,
    rows: Seq<(usize, usize)>,
    cols: Seq<(usize, usize)>,
    y: int,
    x: int,
)
    ensures
        all_in_grid(g, row_visits(g, rows, cols, y, x)),
    decreases x,
{
    if x > 0 {
        lemma_row_visits_in_grid(g, rows, cols, y, x - 1);
        let rs = rows[y];
        let cs = cols[x - 1];
        let rend = clamp_end(rs.0 as int, rs.1 as int, g.len() as int);
        let hi = if rend < g.len() {
            rend
        } else {
            g.len() as int
        };
        lemma_rows_slice_in_grid(
            g,
            rs.0 as int,
            hi,
            cs.0 as int,
            clamp_end(cs.0 as int, cs.1 as int, columns(g)),
        );
        lemma_all_in_grid_concat(g, row_visits(g, rows, cols, y, x - 1), window(g, rs, cs));
    }
}

proof fn lemma_rows_slice_contains(
    g: Seq<Seq<i64>>,
    lo: int,
    hi: int,
    start: int,
    end: int,
    r: int,
    c: int,
)
    requires
        0 <= lo <= r < hi <= g.len(),
        0 <= start <= c < end,
        c < g[r].len(),
    ensures
        rows_slice(g, lo, hi, start, end).contains(g[r][c]),
    decreases hi - lo,
{
    let a = rows_slice(g, lo, hi - 1, start, end);
    let b = row_slice(g[hi - 1], start, end);
    assert(rows_slice(g, lo, hi, start, end) == a + b);
    if r == hi - 1 {
        assert(b == g[r].subrange(start, if end < g[r].len() { end } else { g[r].len() as int }));
        assert(b[c - start] == g[r][c]);
        assert((a + b)[a.len() + c - start] == g[r][c]);
    } else {
        lemma_rows_slice_contains(g, lo, hi - 1, start, end, r, c);
        let k = choose|k: int| 0 <= k < a.len() && a[k] == g[r][c];
        assert((a + b)[k] == g[r][c]);
    }
}

proof fn lemma_prefix_contains(p: Seq<i64>, s: Seq<i64>, v: i64)
    requires
        prefix_of(p, s),
        p.contains(v),
    ensures
        s.contains(v),
{
    let k = choose|k: int| 0 <= k < p.len() && p[k] == v;
    assert(s.take(p.len() as int)[k] == s[k]);
}

proof fn lemma_window_in_visits(
    g: Seq<Seq<i64>>,
    rows: Seq<(usize, usize)>,
    cols: Seq<(usize, usize)>,
    i: int,
    j: int,
    v: i64,
)
    requires
        0 <= i < rows.len(),
        0 <= j < cols.len(),
        window(g, rows[i], cols[j]).contains(v),
    ensures
        visits(g, rows, cols, rows.len() as int).contains(v),
{
    let w = window(g, rows[i], cols[j]);
    let a = row_visits(g, rows, cols, i, j);
    let k = choose|k: int| 0 <= k < w.len() && w[k] == v;
    assert(row_visits(g, rows, cols, i, j + 1) == a + w);
    assert((a + w)[a.len() + k] == v);
    lemma_row_visits_prefix(g, rows, cols, i, j + 1, cols.len() as int);
    lemma_prefix_contains(row_visits(g, rows, cols, i, j + 1), row_visits(g, rows, cols, i, cols.len() as int), v);
    let b = visits(g, rows, cols, i);
    let rv = row_visits(g, rows, cols, i, cols.len() as int);
    assert(visits(g, rows, cols, i + 1) == b + rv);
    let k2 = choose|k2: int| 0 <= k2 < rv.len() && rv[k2] == v;
    assert((b + rv)[b.len() + k2] == v);
    lemma_visits_prefix(g, rows, cols, i + 1, rows.len() as int);
    lemma_prefix_contains(visits(g, rows, cols, i + 1), visits(g, rows, cols, rows.len() as int), v);
}

/// Nothing of a rectangular grid is skipped: where the row spans cover every
/// row and the column spans every column, the largest of all values visited
/// (and 0) is the largest of all values of the grid (and 0).
pub proof fn lemma_radar_max_is_grid_max(
    grid: Seq<Seq<i64>>,
    rows: Seq<(usize, usize)>,
    cols: Seq<(usize, usize)>,
)
    requires
        rectangular(grid),
        spans_cover(rows, grid.len() as int),
        spans_cover(cols, columns(grid)),
    ensures
        max0(visits(grid, rows, cols, rows.len() as int)) == max0(grid_values(grid)),
{
    let g = grid;
    let vs = visits(g, rows, cols, rows.len() as int);
    let gv = grid_values(g);
    lemma_max0_facts(vs);
    lemma_max0_facts(gv);
    lemma_visits_in_grid(g, rows, cols, rows.len() as int);
    lemma_rows_slice_in_grid(g, 0, g.len() as int, 0, columns(g));
    if max0(vs) != 0 {
        let k = choose|k: int| 0 <= k < vs.len() && vs[k] == max0(vs);
        assert(in_grid(g, vs[k]));
        let (r, c) = choose|r: int, c: int|
            0 <= r < g.len() && 0 <= c < g[r].len() && #[trigger] g[r][c] == vs[k];
        assert(g[r].len() == columns(g));
        lemma_rows_slice_contains(g, 0, g.len() as int, 0, columns(g), r, c);
        let k2 = choose|k2: int| 0 <= k2 < gv.len() && gv[k2] == g[r][c];
        assert(gv[k2] <= max0(gv));
    }
    if max0(gv) != 0 {
        let k = choose|k: int| 0 <= k < gv.len() && gv[k] == max0(gv);
        assert(in_grid(g, gv[k]));
        let (r, c) = choose|r: int, c: int|
            0 <= r < g.len() && 0 <= c < g[r].len() && #[trigger] g[r][c] == gv[k];
        assert(g[r].len() == columns(g));
        assert(span_covers(rows, g.len() as int, r));
        assert(span_covers(cols, columns(g), c));
        let i = choose|i: int|
            0 <= i < rows.len() && (#[trigger] rows[i]).0 <= r < clamp_end(
                rows[i].0 as int,
                rows[i].1 as int,
                g.len() as int,
            );
        let j = choose|j: int|
            0 <= j < cols.len() && (#[trigger] cols[j]).0 <= c < clamp_end(
                cols[j].0 as int,
                cols[j].1 as int,
                columns(g),
            );
        let rs = rows[i];
        let cs = cols[j];
        let rend = clamp_end(rs.0 as int, rs.1 as int, g.len() as int);
        let hi = if rend < g.len() {
            rend
        } else {
            g.len() as int
        };
        lemma_rows_slice_contains(
            g,
            rs.0 as int,
            hi,
            cs.0 as int,
            clamp_end(cs.0 as int, cs.1 as int, columns(g)),
            r,
            c,
        );
        lemma_window_in_visits(g, rows, cols, i, j, g[r][c]);
        let k2 = choose|k2: int| 0 <= k2 < vs.len() && vs[k2] == g[r][c];
        assert(vs[k2] <= max0(vs));
    }
}


/// How many columns of a row of length `len` lie from `start` to before
/// `end`.
pub open spec fn span_width(len: int, start: int, end: int) -> int {
    let e = if end < len {
        end
    } else {
        len
    };
    if start < e {
        e - start
    } else {
        0
    }
}

/// How many grid positions rows `lo` to before `hi` have from column `start`
/// to before `end`.
pub open spec fn rows_positions(grid: Seq<Seq<i64>>, lo: int, hi: int, start: int, end: int) -> int
    decreases hi - lo,
{
    if hi <= lo {
        0
    } else {
        rows_positions(grid, lo, hi - 1, start, end) + span_width(grid[hi - 1].len() as int, start, end)
    }
}

/// How many grid positions the window of one cell covers: the rows of its
/// clamped row span, each with the columns of its clamped column span that
/// the row has.
pub open spec fn window_positions(grid: Seq<Seq<i64>>, rs: (usize, usize), cs: (usize, usize)) -> int {
    let rend = clamp_end(rs.0 as int, rs.1 as int, grid.len() as int);
    let hi = if rend < grid.len() {
        rend
    } else {
        grid.len() as int
    };
    rows_positions(grid, rs.0 as int, hi, cs.0 as int, clamp_end(cs.0 as int, cs.1 as int, columns(grid)))
}

/// How many grid positions the cells of the rows before `y` cover, a
/// position counted once per cell whose window holds it.
pub open spec fn positions_read(
    grid: Seq<Seq<i64>>,
    rows: Seq<(usize, usize)>,
    cols: Seq<(usize, usize)>,
    y: int,
) -> int
    decreases y,
{
    if y <= 0 {
        0
    } else {
        positions_read(grid, rows, cols, y - 1) + row_positions_read(grid, rows, cols, y - 1, cols.len() as int)
    }
}

/// How many grid positions the cells of row `y`, columns before `x`, cover.
pub open spec fn row_positions_read(
    grid: Seq<Seq<i64>>,
    rows: Seq<(usize, usize)>,
    cols: Seq<(usize, usize)>,
    y: int,
    x: int,
) -> int
    decreases x,
{
    if x <= 0 {
        0
    } else {
        row_positions_read(grid, rows, cols, y, x - 1) + window_positions(grid, rows[y], cols[x - 1])
    }
}

proof fn lemma_rows_slice_len(g: Seq<Seq<i64>>, lo: int, hi: int, start: int, end: int)
    requires
        0 <= lo,
        hi <= g.len(),
        0 <= start,
    ensures
        rows_slice(g, lo, hi, start, end).len() == rows_positions(g, lo, hi, start, end),
    decreases hi - lo,
{
    if hi > lo {
        lemma_rows_slice_len(g, lo, hi - 1, start, end);
    }
}

proof fn lemma_window_len(g: Seq<Seq<i64>>, rs: (usize, usize), cs: (usize, usize))
    ensures
        window(g, rs, cs).len() == window_positions(g, rs, cs),
{
    let rend = clamp_end(rs.0 as int, rs.1 as int, g.len() as int);
    let hi = if rend < g.len() {
        rend
    } else {
        g.len() as int
    };
    lemma_rows_slice_len(g, rs.0 as int, hi, cs.0 as int, clamp_end(cs.0 as int, cs.1 as int, columns(g)));
}

proof fn lemma_row_visits_len(
    g: Seq<Seq<i64>>,
    rows: Seq<(usize, usize)>,
    cols: Seq<(usize, usize)>,
    y: int,
    x: int,
)
    ensures
        row_visits(g, rows, cols, y, x).len() == row_positions_read(g, rows, cols, y, x),
    decreases x,
{
    if x > 0 {
        lemma_row_visits_len(g, rows, cols, y, x - 1);
        lemma_window_len(g, rows[y], cols[x - 1]);
    }
}

/// Every value read is counted: the values visited for the cells are as
/// many as the grid positions that the cells' windows cover, whatever the
/// values are.
pub proof fn lemma_radar_count_is_positions(
    grid: Seq<Seq<i64>>,
    rows: Seq<(usize, usize)>,
    cols: Seq<(usize, usize)>,
    y: int,
)
    ensures
        visits(grid, rows, cols, y).len() == positions_read(grid, rows, cols, y),
    decreases y,
{
    if y > 0 {
        lemma_radar_count_is_positions(grid, rows, cols, y - 1);
        lemma_row_visits_len(grid, rows, cols, y - 1, cols.len() as int);
    }
}

proof fn lemma_positions_same_shape(
    g1: Seq<Seq<i64>>,
    g2: Seq<Seq<i64>>,
    rows: Seq<(usize, usize)>,
    cols: Seq<(usize, usize)>,
    y: int,
)
    requires
        g1.len() == g2.len(),
        forall|r: int| 0 <= r < g1.len() ==> (#[trigger] g1[r]).len() == g2[r].len(),
    ensures
        positions_read(g1, rows, cols, y) == positions_read(g2, rows, cols, y),
    decreases y,
{
    if y > 0 {
        lemma_positions_same_shape(g1, g2, rows, cols, y - 1);
        lemma_row_positions_same_shape(g1, g2, rows, cols, y - 1, cols.len() as int);
    }
}

proof fn lemma_row_positions_same_shape(
    g1: Seq<Seq<i64>>,
    g2: Seq<Seq<i64>>,
    rows: Seq<(usize, usize)>,
    cols: Seq<(usize, usize)>,
    y: int,
    x: int,
)
    requires
        g1.len() == g2.len(),
        forall|r: int| 0 <= r < g1.len() ==> (#[trigger] g1[r]).len() == g2[r].len(),
    ensures
        row_positions_read(g1, rows, cols, y, x) == row_positions_read(g2, rows, cols, y, x),
    decreases x,
{
    if x > 0 {
        lemma_row_positions_same_shape(g1, g2, rows, cols, y, x - 1);
        let rs = rows[y];
        let cs = cols[x - 1];
        assert(columns(g1) == columns(g2));
        let rend = clamp_end(rs.0 as int, rs.1 as int, g1.len() as int);
        let hi = if rend < g1.len() {
            rend
        } else {
            g1.len() as int
        };
        lemma_rows_positions_same_shape(
            g1,
            g2,
            rs.0 as int,
            hi,
            cs.0 as int,
            clamp_end(cs.0 as int, cs.1 as int, columns(g1)),
        );
    }
}

proof fn lemma_rows_positions_same_shape(
    g1: Seq<Seq<i64>>,
    g2: Seq<Seq<i64>>,
    lo: int,
    hi: int,
    start: int,
    end: int,
)
    requires
        0 <= lo,
        hi <= g1.len(),
        g1.len() == g2.len(),
        forall|r: int| 0 <= r < g1.len() ==> (#[trigger] g1[r]).len() == g2[r].len(),
    ensures
        rows_positions(g1, lo, hi, start, end) == rows_positions(g2, lo, hi, start, end),
    decreases hi - lo,
{
    if hi > lo {
        lemma_rows_positions_same_shape(g1, g2, lo, hi - 1, start, end);
        assert(g1[hi - 1].len() == g2[hi - 1].len());
    }
}

/// The count of values read depends only on the shape of the grid: two
/// grids with the same rows of the same lengths, read with the same spans,
/// have as many values visited, however their values differ (a dry pixel
/// counts as much as a wet one).
pub proof fn lemma_radar_count_ignores_values(
    g1: Seq<Seq<i64>>,
    g2: Seq<Seq<i64>>,
    rows: Seq<(usize, usize)>,
    cols: Seq<(usize, usize)>,
)
    requires
        g1.len() == g2.len(),
        forall|r: int| 0 <= r < g1.len() ==> (#[trigger] g1[r]).len() == g2[r].len(),
    ensures
        visits(g1, rows, cols, rows.len() as int).len() == visits(g2, rows, cols, rows.len() as int).len(),
{
    lemma_radar_count_is_positions(g1, rows, cols, rows.len() as int);
    lemma_radar_count_is_positions(g2, rows, cols, rows.len() as int);
    lemma_positions_same_shape(g1, g2, rows, cols, rows.len() as int);
}

} // verus!
