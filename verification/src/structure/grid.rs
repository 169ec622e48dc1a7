//! The cell grid of a candidate table, built from the positions of text spans.
use crate::geometry::{abs_i64, abs_int, coord_ok, Rect};
use crate::layout::TextSpan;
use crate::order::{is_stable_order, sorted_order, stable_sort_order};
use crate::structure::spatial_table_detector::TableDetectionConfig;
use crate::structure::table_extractor::{CellView, ExtractedTable, RowView, TableCell, TableRow, TableView};
use vstd::prelude::*;

verus! {

/// Positions along one axis (x for columns, y for rows) grouped together.
#[derive(Debug, Clone, Copy, PartialEq, Eq, Structural)]
pub struct AxisCluster {
    /// The representative position of the group.
    pub center: i64,
    /// The smallest position in the group.
    pub min: i64,
    /// The largest position in the group.
    pub max: i64,
}

/// Every span's box is well formed.
pub open spec fn spans_wf(spans: Seq<TextSpan>) -> bool {
    forall|i: int| 0 <= i < spans.len() ==> (#[trigger] spans[i]).bbox.wf()
}

/// Every position is within the coordinate limit.
pub open spec fn values_ok(vs: Seq<i64>) -> bool {
    forall|i: int| 0 <= i < vs.len() ==> coord_ok(#[trigger] vs[i] as int)
}

/// Every cluster's positions are within the coordinate limit.
pub open spec fn clusters_ok(cs: Seq<AxisCluster>) -> bool {
    forall|i: int|
        0 <= i < cs.len() ==> {
            &&& coord_ok((#[trigger] cs[i]).center as int)
            &&& coord_ok(cs[i].min as int)
            &&& coord_ok(cs[i].max as int)
        }
}

/// Index of the first cluster whose centre is closer than `tol` to `v`.
pub open spec fn first_within(cs: Seq<AxisCluster>, v: int, tol: int) -> Option<int>
    decreases cs.len(),
{
    if cs.len() == 0 {
        None
    } else if abs_int(v - cs[0].center) < tol {
        Some(0)
    } else {
        match first_within(cs.drop_first(), v, tol) {
            Some(k) => Some(k + 1),
            None => None,
        }
    }
}

/// Greedy grouping of positions in order: each position joins the first group
/// whose centre (its first position) is closer than `tol`, widening the
/// group's range, or else starts a new group.
pub open spec fn greedy_clusters(vs: Seq<i64>, tol: i64) -> Seq<AxisCluster>
    decreases vs.len(),
{
    if vs.len() == 0 {
        seq![]
    } else {
        let cs = greedy_clusters(vs.drop_last(), tol);
        let v = vs.last();
        match first_within(cs, v as int, tol as int) {
            Some(k) => if 0 <= k < cs.len() {
                cs.update(
                    k,
                    AxisCluster {
                        center: cs[k].center,
                        min: if v < cs[k].min { v } else { cs[k].min },
                        max: if v > cs[k].max { v } else { cs[k].max },
                    },
                )
            } else {
                cs
            },
            None => cs.push(AxisCluster { center: v, min: v, max: v }),
        }
    }
}

/// The centres of the clusters.
pub open spec fn centers(cs: Seq<AxisCluster>) -> Seq<i64> {
    cs.map_values(|c: AxisCluster| c.center)
}

/// The negated centres of the clusters (to order by descending centre).
pub open spec fn neg_centers(cs: Seq<AxisCluster>) -> Seq<i64> {
    cs.map_values(|c: AxisCluster| (-c.center) as i64)
}

/// The clusters taken in the given order of indices.
pub open spec fn reorder(cs: Seq<AxisCluster>, order: Seq<usize>) -> Seq<AxisCluster> {
    order.map_values(|i: usize| cs[i as int])
}

proof fn lemma_first_within(cs: Seq<AxisCluster>, v: int, tol: int, k: int)
    requires
        0 <= k <= cs.len(),
        forall|j: int| 0 <= j < k ==> !(abs_int(v - (#[trigger] cs[j]).center) < tol),
    ensures
        k < cs.len() && abs_int(v - cs[k].center) < tol ==> first_within(cs, v, tol) == Some(k),
        k == cs.len() ==> first_within(cs, v, tol) is None,
    decreases k,
{
    if k > 0 {
        let t = cs.drop_first();
        assert forall|j: int| 0 <= j < k - 1 implies !(abs_int(v - (#[trigger] t[j]).center) < tol) by {
            assert(t[j] == cs[j + 1]);
        }
        lemma_first_within(t, v, tol, k - 1);
    }
}

/// Group positions greedily, as `greedy_clusters` describes.
pub fn cluster_positions(vs: &Vec<i64>, tol: i64) -> (cs: Vec<AxisCluster>)
    requires
        values_ok(vs@),
    ensures
        cs@ == greedy_clusters(vs@, tol),
        clusters_ok(cs@),
{
    let n = vs.len();
    let mut cs: Vec<AxisCluster> = Vec::new();
    let mut i: usize = 0;
    while i < n
        invariant
            n == vs@.len(),
            i <= n,
            values_ok(vs@),
            cs@ == greedy_clusters(vs@.take(i as int), tol),
            clusters_ok(cs@),
        decreases n - i,
    {
        let v = vs[i];
        proof {
            assert(coord_ok(vs@[i as int] as int));
            assert(vs@.take(i + 1).drop_last() =~= vs@.take(i as int));
            assert(vs@.take(i + 1).last() == v);
        }
        let m = cs.len();
        let mut j: usize = 0;
        while j < m && !(abs_i64(v - cs[j].center) < tol)
            invariant
                m == cs@.len(),
                j <= m,
                coord_ok(v as int),
                clusters_ok(cs@),
                forall|q: int| 0 <= q < j ==> !(abs_int(v - (#[trigger] cs@[q]).center) < tol),
            decreases m - j,
        {
            j = j + 1;
        }
        proof {
            lemma_first_within(cs@, v as int, tol as int, j as int);
        }
        if j < m {
            let c = cs[j];
            let nc = AxisCluster {
                center: c.center,
                min: if v < c.min { v } else { c.min },
                max: if v > c.max { v } else { c.max },
            };
            cs.set(j, nc);
        } else {
            cs.push(AxisCluster { center: v, min: v, max: v });
        }
        i = i + 1;
    }
    proof {
        assert(vs@.take(n as int) =~= vs@);
    }
    cs
}

/// The clusters in stable order of their keys.
fn reorder_clusters(cs: &Vec<AxisCluster>, keys: &Vec<i64>) -> (r: Vec<AxisCluster>)
    requires
        keys@.len() == cs@.len(),
    ensures
        r@ == reorder(cs@, sorted_order(keys@)),
        is_stable_order(sorted_order(keys@), keys@, keys@.len()),
{
    let order = stable_sort_order(keys);
    let n = order.len();
    let mut r: Vec<AxisCluster> = Vec::new();
    let mut i: usize = 0;
    while i < n
        invariant
            n == order@.len(),
            order@ == sorted_order(keys@),
            is_stable_order(order@, keys@, keys@.len()),
            keys@.len() == cs@.len(),
            i <= n,
            r@ == reorder(cs@, order@.take(i as int)),
        decreases n - i,
    {
        proof {
            assert(order@[i as int] < keys@.len());
        }
        r.push(cs[order[i]]);
        proof {
            assert(r@ =~= reorder(cs@, order@.take(i + 1)));
        }
        i = i + 1;
    }
    proof {
        assert(order@.take(n as int) =~= order@);
    }
    r
}

/// The left edges of the spans' boxes.
pub open spec fn span_lefts(spans: Seq<TextSpan>) -> Seq<i64> {
    spans.map_values(|s: TextSpan| s.bbox.x)
}

/// The vertical centres of the spans' boxes.
pub open spec fn span_center_ys(spans: Seq<TextSpan>) -> Seq<i64> {
    spans.map_values(|s: TextSpan| s.bbox.spec_center_y() as i64)
}

/// The columns of a page: the spans' left edges grouped greedily with
/// tolerance `tol`, ordered left to right (stable on equal centres).
pub open spec fn columns_of(spans: Seq<TextSpan>, tol: i64) -> Seq<AxisCluster> {
    let g = greedy_clusters(span_lefts(spans), tol);
    reorder(g, sorted_order(centers(g)))
}

/// The rows of a page: the spans' vertical centres grouped greedily with
/// tolerance `tol`, ordered top to bottom (descending y, stable on equal centres).
pub open spec fn rows_of(spans: Seq<TextSpan>, tol: i64) -> Seq<AxisCluster> {
    let g = greedy_clusters(span_center_ys(spans), tol);
    reorder(g, sorted_order(neg_centers(g)))
}

/// Group the spans' left edges into columns, ordered left to right.
pub fn detect_columns(spans: &[TextSpan], column_tolerance: i64) -> (cols: Vec<AxisCluster>)
    requires
        spans_wf(spans@),
    ensures
        cols@ == columns_of(spans@, column_tolerance),
        clusters_ok(cols@),
{
    let n = spans.len();
    let mut xs: Vec<i64> = Vec::new();
    let mut i: usize = 0;
    while i < n
        invariant
            n == spans@.len(),
            i <= n,
            spans_wf(spans@),
            xs@ == span_lefts(spans@).take(i as int),
            values_ok(xs@),
        decreases n - i,
    {
        proof {
            assert(spans@[i as int].bbox.wf());
        }
        xs.push(spans[i].bbox.left());
        proof {
            assert(xs@ =~= span_lefts(spans@).take(i + 1));
        }
        i = i + 1;
    }
    proof {
        assert(span_lefts(spans@).take(n as int) =~= span_lefts(spans@));
    }
    let g = cluster_positions(&xs, column_tolerance);
    let mut keys: Vec<i64> = Vec::new();
    let m = g.len();
    let mut k: usize = 0;
    while k < m
        invariant
            m == g@.len(),
            k <= m,
            keys@ == centers(g@).take(k as int),
        decreases m - k,
    {
        keys.push(g[k].center);
        proof {
            assert(keys@ =~= centers(g@).take(k + 1));
        }
        k = k + 1;
    }
    proof {
        assert(centers(g@).take(m as int) =~= centers(g@));
    }
    let cols = reorder_clusters(&g, &keys);
    proof {
        let order = sorted_order(keys@);
        assert forall|q: int| 0 <= q < cols@.len() implies {
            &&& coord_ok((#[trigger] cols@[q]).center as int)
            &&& coord_ok(cols@[q].min as int)
            &&& coord_ok(cols@[q].max as int)
        } by {
            assert(order[q] < g@.len());
            assert(cols@[q] == g@[order[q] as int]);
        }
    }
    cols
}

/// Group the spans' vertical centres into rows, ordered top to bottom.
pub fn detect_rows(spans: &[TextSpan], row_tolerance: i64) -> (rows: Vec<AxisCluster>)
    requires
        spans_wf(spans@),
    ensures
        rows@ == rows_of(spans@, row_tolerance),
        clusters_ok(rows@),
{
    let n = spans.len();
    let mut ys: Vec<i64> = Vec::new();
    let mut i: usize = 0;
    while i < n
        invariant
            n == spans@.len(),
            i <= n,
            spans_wf(spans@),
            ys@ == span_center_ys(spans@).take(i as int),
            values_ok(ys@),
        decreases n - i,
    {
        proof {
            assert(spans@[i as int].bbox.wf());
        }
        ys.push(spans[i].bbox.center().y);
        proof {
            assert(ys@ =~= span_center_ys(spans@).take(i + 1));
        }
        i = i + 1;
    }
    proof {
        assert(span_center_ys(spans@).take(n as int) =~= span_center_ys(spans@));
    }
    let g = cluster_positions(&ys, row_tolerance);
    let mut keys: Vec<i64> = Vec::new();
    let m = g.len();
    let mut k: usize = 0;
    while k < m
        invariant
            m == g@.len(),
            k <= m,
            clusters_ok(g@),
            keys@ == neg_centers(g@).take(k as int),
        decreases m - k,
    {
        proof {
            assert(coord_ok(g@[k as int].center as int));
        }
        keys.push(-g[k].center);
        proof {
            assert(keys@ =~= neg_centers(g@).take(k + 1));
        }
        k = k + 1;
    }
    proof {
        assert(neg_centers(g@).take(m as int) =~= neg_centers(g@));
    }
    let rows = reorder_clusters(&g, &keys);
    proof {
        let order = sorted_order(keys@);
        assert forall|q: int| 0 <= q < rows@.len() implies {
            &&& coord_ok((#[trigger] rows@[q]).center as int)
            &&& coord_ok(rows@[q].min as int)
            &&& coord_ok(rows@[q].max as int)
        } by {
            assert(order[q] < g@.len());
            assert(rows@[q] == g@[order[q] as int]);
        }
    }
    rows
}

/// The candidate grid of a table: its columns, its rows and, for each row and
/// column, the indices of the spans in that cell.
#[derive(Debug, Clone)]
pub struct GridStructure {
    /// Columns, left to right.
    pub columns: Vec<AxisCluster>,
    /// Rows, top to bottom.
    pub rows: Vec<AxisCluster>,
    /// `cells[r][c]`: indices of the spans in row `r` and column `c`.
    pub cells: Vec<Vec<Vec<usize>>>,
}

/// The value of a grid.
pub struct GridView {
    pub columns: Seq<AxisCluster>,
    pub rows: Seq<AxisCluster>,
    pub cells: Seq<Seq<Seq<usize>>>,
}

/// The value of nested cell lists.
pub open spec fn cells_view(cells: Seq<Vec<Vec<usize>>>) -> Seq<Seq<Seq<usize>>> {
    cells.map_values(|row: Vec<Vec<usize>>| row@.map_values(|cell: Vec<usize>| cell@))
}

impl View for GridStructure {
    type V = GridView;

    open spec fn view(&self) -> GridView {
        GridView { columns: self.columns@, rows: self.rows@, cells: cells_view(self.cells@) }
    }
}

impl GridView {
    /// One list of cells per row, one cell per column, every index a span of
    /// `n_spans`; the grid's size stays within `u32`.
    pub open spec fn wf(self, n_spans: nat) -> bool {
        &&& self.shape_ok()
        &&& forall|r: int, c: int, k: int|
            0 <= r < self.cells.len() && 0 <= c < self.cells[r].len() && 0 <= k < self.cells[r][c].len()
                ==> #[trigger] self.cells[r][c][k] < n_spans
    }

    /// One list of cells per row and one cell per column, with the size and
    /// positions within limits.
    pub open spec fn shape_ok(self) -> bool {
        &&& self.cells.len() == self.rows.len()
        &&& self.rows.len() <= u32::MAX
        &&& self.columns.len() <= u32::MAX
        &&& forall|r: int| 0 <= r < self.cells.len() ==> (#[trigger] self.cells[r]).len() == self.columns.len()
        &&& clusters_ok(self.columns)
        &&& clusters_ok(self.rows)
    }
}

/// `min(|a - b|, i32::MAX)`: the distance a span is sorted to a cluster by.
pub open spec fn nearness(a: int, b: int) -> int {
    if abs_int(a - b) > i32::MAX {
        i32::MAX as int
    } else {
        abs_int(a - b)
    }
}

/// Among the first `n` clusters, the first whose centre is nearest to `v` (0 when there is none).
pub open spec fn nearest_in(cs: Seq<AxisCluster>, v: int, n: nat) -> int
    decreases n,
{
    if n <= 1 {
        0
    } else {
        let b = nearest_in(cs, v, (n - 1) as nat);
        if nearness(v, cs[n - 1].center as int) < nearness(v, cs[b].center as int) {
            n - 1
        } else {
            b
        }
    }
}

/// The first cluster whose centre is nearest to `v`.
pub open spec fn nearest(cs: Seq<AxisCluster>, v: int) -> int {
    nearest_in(cs, v, cs.len())
}

/// The spans among the first `n` whose centre is nearest to row `r` and column `c`, in order.
pub open spec fn cell_members(
    spans: Seq<TextSpan>,
    columns: Seq<AxisCluster>,
    rows: Seq<AxisCluster>,
    n: nat,
    r: int,
    c: int,
) -> Seq<usize>
    decreases n,
{
    if n == 0 {
        seq![]
    } else {
        let b = spans[n - 1].bbox;
        cell_members(spans, columns, rows, (n - 1) as nat, r, c) + if nearest(rows, b.spec_center_y()) == r
            && nearest(columns, b.spec_center_x()) == c {
            seq![(n - 1) as usize]
        } else {
            seq![]
        }
    }
}

/// The grid that puts each span in the row and column nearest to its centre.
pub open spec fn assigned_grid(spans: Seq<TextSpan>, columns: Seq<AxisCluster>, rows: Seq<AxisCluster>) -> GridView {
    GridView {
        columns,
        rows,
        cells: Seq::new(
            rows.len(),
            |r: int| Seq::new(columns.len(), |c: int| cell_members(spans, columns, rows, spans.len(), r, c)),
        ),
    }
}

proof fn lemma_nearest_in_bounds(cs: Seq<AxisCluster>, v: int, n: nat)
    requires
        n <= cs.len(),
    ensures
        0 <= nearest_in(cs, v, n) < if n == 0 { 1 } else { n },
    decreases n,
{
    if n > 1 {
        lemma_nearest_in_bounds(cs, v, (n - 1) as nat);
    }
}

proof fn lemma_members_exact(
    spans: Seq<TextSpan>,
    columns: Seq<AxisCluster>,
    rows: Seq<AxisCluster>,
    n: nat,
    r: int,
    c: int,
)
    requires
        n <= spans.len(),
        spans.len() <= usize::MAX,
    ensures
        forall|x: usize|
            #[trigger] cell_members(spans, columns, rows, n, r, c).contains(x) <==> (x < n && nearest(
                rows,
                spans[x as int].bbox.spec_center_y(),
            ) == r && nearest(columns, spans[x as int].bbox.spec_center_x()) == c),
        forall|a: int, b: int|
            0 <= a < b < cell_members(spans, columns, rows, n, r, c).len() ==> #[trigger] cell_members(
                spans,
                columns,
                rows,
                n,
                r,
                c,
            )[a] < #[trigger] cell_members(spans, columns, rows, n, r, c)[b],
    decreases n,
{
    if n > 0 {
        let m = (n - 1) as nat;
        lemma_members_exact(spans, columns, rows, m, r, c);
        lemma_members_below(spans, columns, rows, m, r, c);
        let p = cell_members(spans, columns, rows, m, r, c);
        let q = cell_members(spans, columns, rows, n, r, c);
        assert forall|x: usize| #[trigger] q.contains(x) <==> (x < n && nearest(
            rows,
            spans[x as int].bbox.spec_center_y(),
        ) == r && nearest(columns, spans[x as int].bbox.spec_center_x()) == c) by {
            if q.contains(x) {
                let k = choose|k: int| 0 <= k < q.len() && q[k] == x;
                if k < p.len() {
                    assert(p[k] == x);
                    assert(p.contains(x));
                }
            }
            if x < n && nearest(rows, spans[x as int].bbox.spec_center_y()) == r && nearest(
                columns,
                spans[x as int].bbox.spec_center_x(),
            ) == c {
                if x < m {
                    assert(p.contains(x));
                    let k = choose|k: int| 0 <= k < p.len() && p[k] == x;
                    assert(q[k] == x);
                } else {
                    assert(q[p.len() as int] == x);
                }
            }
        }
        assert forall|a: int, b: int| 0 <= a < b < q.len() implies #[trigger] q[a] < #[trigger] q[b] by {
            assert(q[a] == p[a]);
            if b < p.len() {
                assert(q[b] == p[b]);
            }
        }
    }
}

/// The assigned grid places every span in exactly one cell, once: the cell
/// of the row and the column whose centres are nearest to its own centre.
pub proof fn lemma_assigned_partition(spans: Seq<TextSpan>, columns: Seq<AxisCluster>, rows: Seq<AxisCluster>)
    requires
        columns.len() > 0,
        rows.len() > 0,
        spans.len() <= usize::MAX,
    ensures
        forall|i: int|
            0 <= i < spans.len() ==> 0 <= nearest(rows, (#[trigger] spans[i]).bbox.spec_center_y()) < rows.len()
                && 0 <= nearest(columns, spans[i].bbox.spec_center_x()) < columns.len(),
        forall|r: int, c: int, x: usize|
            0 <= r < rows.len() && 0 <= c < columns.len() ==> (#[trigger] assigned_grid(spans, columns, rows).cells[r][c].contains(x)
                <==> (x < spans.len() && nearest(rows, spans[x as int].bbox.spec_center_y()) == r && nearest(
                columns,
                spans[x as int].bbox.spec_center_x(),
            ) == c)),
        forall|r: int, c: int, a: int, b: int|
            0 <= r < rows.len() && 0 <= c < columns.len() && 0 <= a < b < assigned_grid(spans, columns, rows).cells[r][c].len()
                ==> #[trigger] assigned_grid(spans, columns, rows).cells[r][c][a] < #[trigger] assigned_grid(
                spans,
                columns,
                rows,
            ).cells[r][c][b],
{
    assert forall|i: int| 0 <= i < spans.len() implies 0 <= nearest(rows, (#[trigger] spans[i]).bbox.spec_center_y())
        < rows.len() && 0 <= nearest(columns, spans[i].bbox.spec_center_x()) < columns.len() by {
        lemma_nearest_in_bounds(rows, spans[i].bbox.spec_center_y(), rows.len());
        lemma_nearest_in_bounds(columns, spans[i].bbox.spec_center_x(), columns.len());
    }
    let g = assigned_grid(spans, columns, rows);
    assert forall|r: int, c: int, x: usize| 0 <= r < rows.len() && 0 <= c < columns.len() implies (#[trigger] g.cells[r][c].contains(x)
        <==> (x < spans.len() && nearest(rows, spans[x as int].bbox.spec_center_y()) == r && nearest(
        columns,
        spans[x as int].bbox.spec_center_x(),
    ) == c)) by {
        lemma_members_exact(spans, columns, rows, spans.len(), r, c);
    }
    assert forall|r: int, c: int, a: int, b: int|
        0 <= r < rows.len() && 0 <= c < columns.len() && 0 <= a < b < g.cells[r][c].len() implies #[trigger] g.cells[r][c][a]
        < #[trigger] g.cells[r][c][b] by {
        lemma_members_exact(spans, columns, rows, spans.len(), r, c);
    }
}

/// The first cluster whose centre is nearest to `v`.
fn nearest_cluster(cs: &Vec<AxisCluster>, v: i64) -> (k: usize)
    requires
        clusters_ok(cs@),
        coord_ok(v as int),
    ensures
        k == nearest(cs@, v as int),
        cs@.len() > 0 ==> k < cs@.len(),
        cs@.len() == 0 ==> k == 0,
{
    let n = cs.len();
    if n == 0 {
        return 0;
    }
    let mut best: usize = 0;
    let mut best_d: i64 = abs_i64(v - cs[0].center);
    if best_d > 0x7fff_ffff {
        best_d = 0x7fff_ffff;
    }
    let mut i: usize = 1;
    while i < n
        invariant
            n == cs@.len(),
            1 <= i <= n,
            clusters_ok(cs@),
            coord_ok(v as int),
            best == nearest_in(cs@, v as int, i as nat),
            best < i,
            best_d == nearness(v as int, cs@[best as int].center as int),
        decreases n - i,
    {
        proof {
            assert(coord_ok(cs@[i as int].center as int));
        }
        let mut d = abs_i64(v - cs[i].center);
        if d > 0x7fff_ffff {
            d = 0x7fff_ffff;
        }
        if d < best_d {
            best = i;
            best_d = d;
        }
        i = i + 1;
    }
    best
}

/// Append `idx` to the cell at row `r`, column `c`.
pub(crate) fn push_to_cell(cells: &mut Vec<Vec<Vec<usize>>>, r: usize, c: usize, idx: usize)
    requires
        r < old(cells)@.len(),
        c < old(cells)@[r as int]@.len(),
    ensures
        cells_view(final(cells)@) == cells_view(old(cells)@).update(
            r as int,
            cells_view(old(cells)@)[r as int].update(c as int, cells_view(old(cells)@)[r as int][c as int].push(idx)),
        ),
{
    let mut row = cells.remove(r);
    let mut cell = row.remove(c);
    cell.push(idx);
    row.insert(c, cell);
    cells.insert(r, row);
    proof {
        let old_v = cells_view(old(cells)@);
        let new_row = old_v[r as int].update(c as int, old_v[r as int][c as int].push(idx));
        assert(row@.map_values(|cell: Vec<usize>| cell@) =~= new_row);
        assert(cells_view(cells@) =~= old_v.update(r as int, new_row));
    }
}

/// A grid of `num_rows` by `num_cols` empty cells.
pub(crate) fn empty_cells(num_rows: usize, num_cols: usize) -> (cells: Vec<Vec<Vec<usize>>>)
    ensures
        cells@.len() == num_rows,
        cells_view(cells@) == Seq::new(num_rows as nat, |_r: int| Seq::new(num_cols as nat, |_c: int| Seq::<usize>::empty())),
{
    let mut cells: Vec<Vec<Vec<usize>>> = Vec::new();
    let mut r: usize = 0;
    while r < num_rows
        invariant
            r <= num_rows,
            cells@.len() == r,
            cells_view(cells@) == Seq::new(r as nat, |_r: int| Seq::new(num_cols as nat, |_c: int| Seq::<usize>::empty())),
        decreases num_rows - r,
    {
        let mut row: Vec<Vec<usize>> = Vec::new();
        let mut c: usize = 0;
        while c < num_cols
            invariant
                c <= num_cols,
                row@.len() == c,
                forall|j: int| 0 <= j < c ==> (#[trigger] row@[j])@ == Seq::<usize>::empty(),
            decreases num_cols - c,
        {
            let e: Vec<usize> = Vec::new();
            row.push(e);
            c = c + 1;
        }
        let ghost rv = row@.map_values(|cell: Vec<usize>| cell@);
        proof {
            assert(rv =~= Seq::new(num_cols as nat, |_c: int| Seq::<usize>::empty()));
        }
        let ghost before = cells_view(cells@);
        cells.push(row);
        proof {
            assert(cells_view(cells@) =~= before.push(rv));
            assert(cells_view(cells@) =~= Seq::new((r + 1) as nat, |_r: int| Seq::new(num_cols as nat, |_c: int| Seq::<usize>::empty())));
        }
        r = r + 1;
    }
    cells
}

/// Put each span in the row and column whose centres are nearest to its own
/// centre (the first such row and column on ties).
pub fn assign_spans_to_cells(spans: &[TextSpan], columns: &Vec<AxisCluster>, rows: &Vec<AxisCluster>) -> (grid: GridStructure)
    requires
        spans_wf(spans@),
        clusters_ok(columns@),
        clusters_ok(rows@),
        columns@.len() > 0,
        rows@.len() > 0,
        rows@.len() <= u32::MAX,
        columns@.len() <= u32::MAX,
    ensures
        grid@ == assigned_grid(spans@, columns@, rows@),
        grid@.wf(spans@.len()),
{
    let num_cols = columns.len();
    let num_rows = rows.len();
    let mut cells = empty_cells(num_rows, num_cols);
    proof {
        assert(cells_view(cells@) =~= Seq::new(
            num_rows as nat,
            |r: int| Seq::new(num_cols as nat, |c: int| cell_members(spans@, columns@, rows@, 0, r, c)),
        )) by {
            assert forall|r: int| 0 <= r < num_rows implies cells_view(cells@)[r] =~= Seq::new(
                num_cols as nat,
                |c: int| cell_members(spans@, columns@, rows@, 0, r, c),
            ) by {}
        }
        assert forall|q: int| 0 <= q < num_rows implies (#[trigger] cells@[q])@.len() == num_cols by {
            assert(cells_view(cells@)[q].len() == num_cols);
        }
    }
    let n = spans.len();
    let mut i: usize = 0;
    while i < n
        invariant
            n == spans@.len(),
            i <= n,
            num_rows == rows@.len(),
            num_cols == columns@.len(),
            num_rows > 0,
            num_cols > 0,
            spans_wf(spans@),
            clusters_ok(columns@),
            clusters_ok(rows@),
            cells@.len() == num_rows,
            forall|q: int| 0 <= q < num_rows ==> (#[trigger] cells@[q])@.len() == num_cols,
            cells_view(cells@) == Seq::new(
                num_rows as nat,
                |r: int| Seq::new(num_cols as nat, |c: int| cell_members(spans@, columns@, rows@, i as nat, r, c)),
            ),
        decreases n - i,
    {
        proof {
            assert(spans@[i as int].bbox.wf());
        }
        let center = spans[i].bbox.center();
        let col_idx = nearest_cluster(columns, center.x);
        let row_idx = nearest_cluster(rows, center.y);
        let ghost before = cells_view(cells@);
        push_to_cell(&mut cells, row_idx, col_idx, i);
        proof {
            assert(cells@.len() == num_rows) by {
                assert(cells_view(cells@).len() == num_rows);
            }
            assert forall|q: int| 0 <= q < num_rows implies (#[trigger] cells@[q])@.len() == num_cols by {
                assert(cells_view(cells@)[q].len() == num_cols);
            }
            assert(cells_view(cells@) =~= Seq::new(
                num_rows as nat,
                |r: int| Seq::new(num_cols as nat, |c: int| cell_members(spans@, columns@, rows@, (i + 1) as nat, r, c)),
            )) by {
                assert forall|r: int| 0 <= r < num_rows implies cells_view(cells@)[r] =~= Seq::new(
                    num_cols as nat,
                    |c: int| cell_members(spans@, columns@, rows@, (i + 1) as nat, r, c),
                ) by {
                    assert forall|c: int| 0 <= c < num_cols implies cells_view(cells@)[r][c]
                        == cell_members(spans@, columns@, rows@, (i + 1) as nat, r, c) by {
                        assert(before[r][c] == cell_members(spans@, columns@, rows@, i as nat, r, c));
                    }
                }
            }
        }
        i = i + 1;
    }
    let grid = GridStructure { columns: columns.clone(), rows: rows.clone(), cells };
    proof {
        assert(grid.columns@ =~= columns@);
        assert(grid.rows@ =~= rows@);
        assert(grid@.cells =~= assigned_grid(spans@, columns@, rows@).cells);
        let gv = grid@;
        assert forall|r: int, c: int, k: int|
            0 <= r < gv.cells.len() && 0 <= c < gv.cells[r].len() && 0 <= k < gv.cells[r][c].len()
                implies #[trigger] gv.cells[r][c][k] < n by {
            lemma_members_below(spans@, columns@, rows@, n as nat, r, c);
        }
    }
    grid
}

pub(crate) proof fn lemma_members_below(spans: Seq<TextSpan>, columns: Seq<AxisCluster>, rows: Seq<AxisCluster>, n: nat, r: int, c: int)
    ensures
        forall|k: int|
            0 <= k < cell_members(spans, columns, rows, n, r, c).len() ==> #[trigger] cell_members(
                spans,
                columns,
                rows,
                n,
                r,
                c,
            )[k] < n,
    decreases n,
{
    if n > 0 {
        lemma_members_below(spans, columns, rows, (n - 1) as nat, r, c);
        let prev = cell_members(spans, columns, rows, (n - 1) as nat, r, c);
        let cur = cell_members(spans, columns, rows, n, r, c);
        assert forall|k: int| 0 <= k < cur.len() implies #[trigger] cur[k] < n by {
            if k < prev.len() {
                assert(cur[k] == prev[k]);
            }
        }
    }
}

/// Number of non-empty cells in a row.
pub open spec fn filled(row: Seq<Seq<usize>>) -> nat
    decreases row.len(),
{
    if row.len() == 0 {
        0
    } else {
        filled(row.drop_last()) + if row.last().len() > 0 { 1nat } else { 0nat }
    }
}

/// A row's count of non-empty cells is at most its length; it is zero
/// exactly when every cell is empty, and the full length exactly when no
/// cell is.
pub proof fn lemma_filled_counts(row: Seq<Seq<usize>>)
    ensures
        filled(row) <= row.len(),
        (filled(row) == 0) == (forall|c: int| 0 <= c < row.len() ==> (#[trigger] row[c]).len() == 0),
        (filled(row) == row.len()) == (forall|c: int| 0 <= c < row.len() ==> (#[trigger] row[c]).len() > 0),
    decreases row.len(),
{
    if row.len() > 0 {
        let p = row.drop_last();
        lemma_filled_counts(p);
        assert forall|c: int| 0 <= c < p.len() implies #[trigger] p[c] == row[c] by {}
        if forall|c: int| 0 <= c < row.len() ==> (#[trigger] row[c]).len() == 0 {
            assert(row[row.len() - 1].len() == 0);
        }
        if forall|c: int| 0 <= c < row.len() ==> (#[trigger] row[c]).len() > 0 {
            assert(row[row.len() - 1].len() > 0);
        }
        if filled(row) == 0 {
            assert forall|c: int| 0 <= c < row.len() implies (#[trigger] row[c]).len() == 0 by {
                if c < p.len() {
                    assert(p[c] == row[c]);
                }
            }
        }
        if filled(row) == row.len() {
            assert forall|c: int| 0 <= c < row.len() implies (#[trigger] row[c]).len() > 0 by {
                if c < p.len() {
                    assert(p[c] == row[c]);
                }
            }
        }
    }
}

/// Number of non-empty cells in a grid.
pub open spec fn filled_total(cells: Seq<Seq<Seq<usize>>>) -> nat
    decreases cells.len(),
{
    if cells.len() == 0 {
        0
    } else {
        filled_total(cells.drop_last()) + filled(cells.last())
    }
}

/// The number of non-empty cells of each row.
pub open spec fn row_fills(cells: Seq<Seq<Seq<usize>>>) -> Seq<int> {
    cells.map_values(|row: Seq<Seq<usize>>| filled(row) as int)
}

/// The values as mathematical integers.
pub open spec fn as_ints(s: Seq<usize>) -> Seq<int> {
    s.map_values(|x: usize| x as int)
}

/// How often `v` occurs in `s`.
pub open spec fn occurrences(s: Seq<int>, v: int) -> nat
    decreases s.len(),
{
    if s.len() == 0 {
        0
    } else {
        occurrences(s.drop_last(), v) + if s.last() == v { 1nat } else { 0nat }
    }
}

/// Among the first `n` values, the last of those that occur most often.
pub open spec fn most_common_in(s: Seq<int>, n: nat) -> int
    decreases n,
{
    if n <= 1 {
        s[0]
    } else {
        let b = most_common_in(s, (n - 1) as nat);
        if occurrences(s, s[n - 1]) >= occurrences(s, b) {
            s[n - 1]
        } else {
            b
        }
    }
}

/// The value `most_common_in` picks occurs most often among the first `n`
/// values, is one of them, and is the value of the last of them that occurs
/// that often.
pub proof fn lemma_most_common(s: Seq<int>, n: nat)
    requires
        1 <= n <= s.len(),
    ensures
        exists|i: int| 0 <= i < n && #[trigger] s[i] == most_common_in(s, n),
        forall|i: int| 0 <= i < n ==> occurrences(s, #[trigger] s[i]) <= occurrences(s, most_common_in(s, n)),
        forall|i: int|
            0 <= i < n && occurrences(s, #[trigger] s[i]) == occurrences(s, most_common_in(s, n)) && (forall|j: int|
                i < j < n ==> occurrences(s, #[trigger] s[j]) < occurrences(s, most_common_in(s, n))) ==> s[i]
                == most_common_in(s, n),
    decreases n,
{
    lemma_most_common_member(s, n);
    if n > 1 {
        lemma_most_common(s, (n - 1) as nat);
        let b = most_common_in(s, (n - 1) as nat);
        let m = most_common_in(s, n);
        assert forall|i: int| 0 <= i < n implies occurrences(s, #[trigger] s[i]) <= occurrences(s, m) by {
            if i < n - 1 {
                assert(occurrences(s, s[i]) <= occurrences(s, b));
            }
        }
        assert forall|i: int|
            0 <= i < n && occurrences(s, #[trigger] s[i]) == occurrences(s, m) && (forall|j: int|
                i < j < n ==> occurrences(s, #[trigger] s[j]) < occurrences(s, m)) implies s[i] == m by {
            if i < n - 1 {
                assert(occurrences(s, s[n - 1]) < occurrences(s, m));
                assert(m == b);
                assert forall|j: int| i < j < n - 1 implies occurrences(s, #[trigger] s[j]) < occurrences(s, b) by {}
            }
        }
    }
}

/// Whether a grid has the shape of a table: enough filled cells, and enough
/// rows with the most common (non-zero) number of filled cells.
pub open spec fn table_structure_ok(grid: GridView, config: TableDetectionConfig) -> bool {
    let counts = row_fills(grid.cells);
    let common = most_common_in(counts, counts.len());
    &&& filled_total(grid.cells) >= config.min_table_cells
    &&& counts.len() > 0
    &&& common != 0
    &&& occurrences(counts, common) * 1000 >= config.regular_row_ratio * counts.len()
}

proof fn lemma_filled_le(row: Seq<Seq<usize>>)
    ensures
        filled(row) <= row.len(),
    decreases row.len(),
{
    if row.len() > 0 {
        lemma_filled_le(row.drop_last());
    }
}

proof fn lemma_occurrences_le(s: Seq<int>, v: int)
    ensures
        occurrences(s, v) <= s.len(),
    decreases s.len(),
{
    if s.len() > 0 {
        lemma_occurrences_le(s.drop_last(), v);
    }
}

/// Number of non-empty cells in a row.
fn count_filled(row: &Vec<Vec<usize>>) -> (n: usize)
    ensures
        n == filled(row@.map_values(|cell: Vec<usize>| cell@)),
{
    let ghost rv = row@.map_values(|cell: Vec<usize>| cell@);
    let m = row.len();
    let mut n: usize = 0;
    let mut c: usize = 0;
    while c < m
        invariant
            m == row@.len(),
            rv == row@.map_values(|cell: Vec<usize>| cell@),
            c <= m,
            n == filled(rv.take(c as int)),
            n <= c,
        decreases m - c,
    {
        proof {
            assert(rv.take(c + 1).drop_last() =~= rv.take(c as int));
            assert(rv.take(c + 1).last() == row@[c as int]@);
        }
        if row[c].len() > 0 {
            n = n + 1;
        }
        c = c + 1;
    }
    proof {
        assert(rv.take(m as int) =~= rv);
    }
    n
}

/// How often `v` occurs in `s`.
fn count_occurrences(s: &Vec<usize>, v: usize) -> (n: usize)
    ensures
        n == occurrences(as_ints(s@), v as int),
        n <= s@.len(),
{
    let ghost sv = as_ints(s@);
    let m = s.len();
    let mut n: usize = 0;
    let mut i: usize = 0;
    while i < m
        invariant
            m == s@.len(),
            sv == as_ints(s@),
            i <= m,
            n == occurrences(sv.take(i as int), v as int),
            n <= i,
        decreases m - i,
    {
        proof {
            assert(sv.take(i + 1).drop_last() =~= sv.take(i as int));
        }
        if s[i] == v {
            n = n + 1;
        }
        i = i + 1;
    }
    proof {
        assert(sv.take(m as int) =~= sv);
    }
    n
}

/// Whether the grid has the shape of a table under `config`.
pub fn validate_table_structure_internal(grid: &GridStructure, config: &TableDetectionConfig) -> (ok: bool)
    requires
        grid@.shape_ok(),
    ensures
        ok == table_structure_ok(grid@, *config),
{
    let ghost cv = grid@.cells;
    let nr = grid.cells.len();
    let mut counts: Vec<usize> = Vec::new();
    let mut total: u64 = 0;
    let mut r: usize = 0;
    while r < nr
        invariant
            nr == grid.cells@.len(),
            cv == grid@.cells,
            grid@.shape_ok(),
            r <= nr,
            as_ints(counts@) == row_fills(cv.take(r as int)),
            counts@.len() == r,
            total == filled_total(cv.take(r as int)),
            total <= r * (u32::MAX as int),
        decreases nr - r,
    {
        let ghost old_counts = as_ints(counts@);
        let ghost old_raw = counts@;
        let k = count_filled(&grid.cells[r]);
        proof {
            assert(cv[r as int] == grid.cells@[r as int]@.map_values(|cell: Vec<usize>| cell@));
            lemma_filled_le(cv[r as int]);
            assert(cv[r as int].len() <= u32::MAX);
            assert(cv.take(r + 1).drop_last() =~= cv.take(r as int));
            assert(total + k <= (r + 1) * (u32::MAX as int)) by (nonlinear_arith)
                requires
                    total <= r * (u32::MAX as int),
                    k <= u32::MAX,
            ;
            assert(nr <= u32::MAX);
            assert((r + 1) * (u32::MAX as int) <= (u32::MAX as int) * (u32::MAX as int)) by (nonlinear_arith)
                requires
                    r + 1 <= u32::MAX,
            ;
        }
        counts.push(k);
        total = total + k as u64;
        proof {
            assert(row_fills(cv.take(r + 1))[r as int] == filled(cv[r as int]));
            assert forall|j: int| 0 <= j < r + 1 implies #[trigger] as_ints(counts@)[j] == row_fills(cv.take(r + 1))[j] by {
                if j < r {
                    assert(row_fills(cv.take(r as int))[j] == filled(cv[j]));
                    assert(old_counts[j] == old_raw[j] as int);
                    assert(counts@[j] == old_raw[j]);
                } else {
                    assert(counts@[j] == k);
                }
            }
            assert(as_ints(counts@) =~= row_fills(cv.take(r + 1)));
        }
        r = r + 1;
    }
    proof {
        assert(cv.take(nr as int) =~= cv);
    }
    let ghost cs = as_ints(counts@);
    if total < config.min_table_cells as u64 {
        return false;
    }
    if counts.len() == 0 {
        return false;
    }
    let mut best: usize = counts[0];
    let mut best_occ: usize = count_occurrences(&counts, best);
    let mut i: usize = 1;
    while i < nr
        invariant
            nr == counts@.len(),
            cs == as_ints(counts@),
            1 <= i <= nr,
            best as int == most_common_in(cs, i as nat),
            best_occ == occurrences(cs, best as int),
        decreases nr - i,
    {
        let o = count_occurrences(&counts, counts[i]);
        if o >= best_occ {
            best = counts[i];
            best_occ = o;
        }
        i = i + 1;
    }
    if best == 0 {
        return false;
    }
    proof {
        lemma_occurrences_le(cs, best as int);
        assert(best_occ as int * 1000 <= (u32::MAX as int) * 1000) by (nonlinear_arith)
            requires
                best_occ <= u32::MAX,
        ;
        assert(config.regular_row_ratio as int * nr <= (u32::MAX as int) * (u32::MAX as int)) by (nonlinear_arith)
            requires
                config.regular_row_ratio <= u32::MAX,
                nr <= u32::MAX,
        ;
    }
    (best_occ as u64) * 1000 >= (config.regular_row_ratio as u64) * (nr as u64)
}

/// Whether some cell of the row holds the index of an existing span.
pub open spec fn row_has_span(row: Seq<Seq<usize>>, n_spans: nat) -> bool {
    exists|c: int, k: int| 0 <= c < row.len() && 0 <= k < row[c].len() && #[trigger] row[c][k] < n_spans
}

/// The header row of a grid: the first row, when the grid has at least two
/// rows, the first row holds a span and some later row holds a span.
pub open spec fn header_row_of(grid: GridView, n_spans: nat) -> Option<usize> {
    if grid.cells.len() < 2 {
        None
    } else if !row_has_span(grid.cells[0], n_spans) {
        None
    } else if !(exists|r: int| 1 <= r < grid.cells.len() && row_has_span(#[trigger] grid.cells[r], n_spans)) {
        None
    } else {
        Some(0)
    }
}

/// Whether some cell of the row holds the index of an existing span.
fn row_holds_span(row: &Vec<Vec<usize>>, n_spans: usize) -> (b: bool)
    ensures
        b == row_has_span(row@.map_values(|cell: Vec<usize>| cell@), n_spans as nat),
{
    let ghost rv = row@.map_values(|cell: Vec<usize>| cell@);
    let m = row.len();
    let mut c: usize = 0;
    while c < m
        invariant
            m == row@.len(),
            rv == row@.map_values(|cell: Vec<usize>| cell@),
            c <= m,
            forall|cc: int, k: int| 0 <= cc < c && 0 <= k < rv[cc].len() ==> #[trigger] rv[cc][k] >= n_spans,
        decreases m - c,
    {
        let cell = &row[c];
        let l = cell.len();
        let mut k: usize = 0;
        while k < l
            invariant
                l == cell@.len(),
                rv == row@.map_values(|cell: Vec<usize>| cell@),
                c < m,
                m == rv.len(),
                cell@ == rv[c as int],
                k <= l,
                forall|kk: int| 0 <= kk < k ==> #[trigger] cell@[kk] >= n_spans,
            decreases l - k,
        {
            if cell[k] < n_spans {
                proof {
                    assert(0 <= k < rv[c as int].len());
                    assert(rv[c as int][k as int] < n_spans);
                    assert(row_has_span(rv, n_spans as nat));
                }
                return true;
            }
            k = k + 1;
        }
        c = c + 1;
    }
    false
}

/// The header row of the grid, as `header_row_of` describes it.
pub fn detect_header_row(grid: &GridStructure, spans: &[TextSpan]) -> (h: Option<usize>)
    ensures
        h == header_row_of(grid@, spans@.len()),
{
    let ghost cv = grid@.cells;
    let nr = grid.cells.len();
    if nr < 2 {
        return None;
    }
    proof {
        assert(cv[0] == grid.cells@[0]@.map_values(|cell: Vec<usize>| cell@));
    }
    if !row_holds_span(&grid.cells[0], spans.len()) {
        return None;
    }
    let mut r: usize = 1;
    while r < nr
        invariant
            nr == grid.cells@.len(),
            cv == grid@.cells,
            1 <= r <= nr,
            forall|q: int| 1 <= q < r ==> !row_has_span(#[trigger] cv[q], spans@.len()),
            row_has_span(cv[0], spans@.len()),
        decreases nr - r,
    {
        proof {
            assert(cv[r as int] == grid.cells@[r as int]@.map_values(|cell: Vec<usize>| cell@));
        }
        if row_holds_span(&grid.cells[r], spans.len()) {
            proof {
                assert(cv[r as int] == grid.cells@[r as int]@.map_values(|cell: Vec<usize>| cell@));
                assert(row_has_span(cv[r as int], spans@.len()));
                assert(cv[0] == grid.cells@[0]@.map_values(|cell: Vec<usize>| cell@));
            }
            return Some(0);
        }
        r = r + 1;
    }
    None
}

/// How far a cell spreads over its neighbours, and whether a neighbour's
/// spread covers it.
#[derive(Debug, Clone, Copy, PartialEq, Eq, Structural)]
pub struct CellMergeInfo {
    /// Columns the cell spans.
    pub colspan: u32,
    /// Rows the cell spans.
    pub rowspan: u32,
    /// Whether another cell spans over this one.
    pub covered: bool,
}

/// The value of a table of merge information.
pub open spec fn merge_view(m: Seq<Vec<CellMergeInfo>>) -> Seq<Seq<CellMergeInfo>> {
    m.map_values(|row: Vec<CellMergeInfo>| row@)
}

/// The rightmost right edge among the spans of a cell (indices that name no
/// span are skipped), if there is one.
pub open spec fn max_right(spans: Seq<TextSpan>, cell: Seq<usize>) -> Option<int>
    decreases cell.len(),
{
    if cell.len() == 0 {
        None
    } else {
        let prev = max_right(spans, cell.drop_last());
        let i = cell.last();
        if i < spans.len() {
            let x = spans[i as int].bbox.spec_right();
            match prev {
                None => Some(x),
                Some(p) => Some(if x > p { x } else { p }),
            }
        } else {
            prev
        }
    }
}

/// The lowest bottom edge (`y + height`) among the spans of a cell, if there is one.
pub open spec fn min_bottom(spans: Seq<TextSpan>, cell: Seq<usize>) -> Option<int>
    decreases cell.len(),
{
    if cell.len() == 0 {
        None
    } else {
        let prev = min_bottom(spans, cell.drop_last());
        let i = cell.last();
        if i < spans.len() {
            let x = spans[i as int].bbox.spec_bottom();
            match prev {
                None => Some(x),
                Some(p) => Some(if x < p { x } else { p }),
            }
        } else {
            prev
        }
    }
}

/// How many empty cells from column `from` on, in row `r`, have their column
/// centre left of `right`.
pub open spec fn run_right(grid: GridView, r: int, from: int, right: int) -> nat
    decreases grid.columns.len() - from,
{
    if from < 0 || from >= grid.columns.len() || grid.cells[r][from].len() > 0 || !(right
        > grid.columns[from].center) {
        0
    } else {
        1 + run_right(grid, r, from + 1, right)
    }
}

/// How many empty cells from row `from` down, in column `c`, have their row
/// centre above `bottom`.
pub open spec fn run_down(grid: GridView, c: int, from: int, bottom: int) -> nat
    decreases grid.rows.len() - from,
{
    if from < 0 || from >= grid.rows.len() || grid.cells[from][c].len() > 0 || !(bottom
        < grid.rows[from].center) {
        0
    } else {
        1 + run_down(grid, c, from + 1, bottom)
    }
}

/// How many empty columns to its right a non-empty cell's text reaches over.
pub open spec fn extra_cols(grid: GridView, spans: Seq<TextSpan>, r: int, c: int) -> nat {
    if grid.cells[r][c].len() == 0 {
        0
    } else {
        match max_right(spans, grid.cells[r][c]) {
            None => 0,
            Some(x) => run_right(grid, r, c + 1, x),
        }
    }
}

/// How many empty rows below it a non-empty cell's text reaches into.
pub open spec fn extra_rows(grid: GridView, spans: Seq<TextSpan>, r: int, c: int) -> nat {
    if grid.cells[r][c].len() == 0 {
        0
    } else {
        match min_bottom(spans, grid.cells[r][c]) {
            None => 0,
            Some(b) => run_down(grid, c, r + 1, b),
        }
    }
}

/// Whether a cell to the left in the row, or above in the column, reaches over this one.
pub open spec fn covered_by_text(grid: GridView, spans: Seq<TextSpan>, r: int, c: int) -> bool {
    ||| exists|j: int| 0 <= j < c && j + #[trigger] extra_cols(grid, spans, r, j) >= c
    ||| exists|i: int| 0 <= i < r && i + #[trigger] extra_rows(grid, spans, i, c) >= r
}

/// Merge information from text extents: a non-empty cell spans the empty
/// cells its text reaches over, to the right and downwards.
pub open spec fn text_merge(grid: GridView, spans: Seq<TextSpan>) -> Seq<Seq<CellMergeInfo>> {
    Seq::new(
        grid.rows.len(),
        |r: int|
            Seq::new(
                grid.columns.len(),
                |c: int|
                    CellMergeInfo {
                        colspan: (1 + extra_cols(grid, spans, r, c)) as u32,
                        rowspan: (1 + extra_rows(grid, spans, r, c)) as u32,
                        covered: covered_by_text(grid, spans, r, c),
                    },
            ),
    )
}

/// The rightmost right edge among a cell's spans.
fn cell_max_right(spans: &[TextSpan], cell: &Vec<usize>) -> (m: Option<i64>)
    requires
        spans_wf(spans@),
    ensures
        match m {
            Some(x) => max_right(spans@, cell@) == Some(x as int),
            None => max_right(spans@, cell@) is None,
        },
{
    let n = cell.len();
    let mut m: Option<i64> = None;
    let mut k: usize = 0;
    while k < n
        invariant
            n == cell@.len(),
            k <= n,
            spans_wf(spans@),
            match m {
                Some(x) => max_right(spans@, cell@.take(k as int)) == Some(x as int),
                None => max_right(spans@, cell@.take(k as int)) is None,
            },
        decreases n - k,
    {
        proof {
            assert(cell@.take(k + 1).drop_last() =~= cell@.take(k as int));
        }
        let i = cell[k];
        if i < spans.len() {
            proof {
                assert(spans@[i as int].bbox.wf());
            }
            let x = spans[i].bbox.right();
            m = match m {
                None => Some(x),
                Some(p) => Some(if x > p { x } else { p }),
            };
        }
        k = k + 1;
    }
    proof {
        assert(cell@.take(n as int) =~= cell@);
    }
    m
}

/// The lowest bottom edge among a cell's spans.
fn cell_min_bottom(spans: &[TextSpan], cell: &Vec<usize>) -> (m: Option<i64>)
    requires
        spans_wf(spans@),
    ensures
        match m {
            Some(x) => min_bottom(spans@, cell@) == Some(x as int),
            None => min_bottom(spans@, cell@) is None,
        },
{
    let n = cell.len();
    let mut m: Option<i64> = None;
    let mut k: usize = 0;
    while k < n
        invariant
            n == cell@.len(),
            k <= n,
            spans_wf(spans@),
            match m {
                Some(x) => min_bottom(spans@, cell@.take(k as int)) == Some(x as int),
                None => min_bottom(spans@, cell@.take(k as int)) is None,
            },
        decreases n - k,
    {
        proof {
            assert(cell@.take(k + 1).drop_last() =~= cell@.take(k as int));
        }
        let i = cell[k];
        if i < spans.len() {
            proof {
                assert(spans@[i as int].bbox.wf());
            }
            let x = spans[i].bbox.bottom();
            m = match m {
                None => Some(x),
                Some(p) => Some(if x < p { x } else { p }),
            };
        }
        k = k + 1;
    }
    proof {
        assert(cell@.take(n as int) =~= cell@);
    }
    m
}

/// `run_right(grid, r, from, right)`.
fn run_right_len(grid: &GridStructure, r: usize, from: usize, right: i64) -> (k: usize)
    requires
        grid@.shape_ok(),
        r < grid@.rows.len(),
    ensures
        k == run_right(grid@, r as int, from as int, right as int),
{
    let ghost g = grid@;
    let nc = grid.columns.len();
    let mut j: usize = from;
    proof {
        assert(g.cells[r as int] == grid.cells@[r as int]@.map_values(|cell: Vec<usize>| cell@));
    }
    while j < nc && grid.cells[r][j].len() == 0 && right > grid.columns[j].center
        invariant
            g == grid@,
            g.shape_ok(),
            nc == g.columns.len(),
            r < g.rows.len(),
            g.cells[r as int] == grid.cells@[r as int]@.map_values(|cell: Vec<usize>| cell@),
            from <= j,
            run_right(g, r as int, from as int, right as int) == (j - from) + run_right(g, r as int, j as int, right as int),
        decreases nc - j,
    {
        proof {
            assert(g.cells[r as int][j as int] == grid.cells@[r as int]@[j as int]@);
        }
        j = j + 1;
    }
    proof {
        if j < nc {
            assert(g.cells[r as int][j as int] == grid.cells@[r as int]@[j as int]@);
        }
    }
    j - from
}

/// `run_down(grid, c, from, bottom)`.
fn run_down_len(grid: &GridStructure, c: usize, from: usize, bottom: i64) -> (k: usize)
    requires
        grid@.shape_ok(),
        c < grid@.columns.len(),
    ensures
        k == run_down(grid@, c as int, from as int, bottom as int),
{
    let ghost g = grid@;
    let nr = grid.rows.len();
    let mut i: usize = from;
    while i < nr && grid.cells[i][c].len() == 0 && bottom < grid.rows[i].center
        invariant
            g == grid@,
            g.shape_ok(),
            nr == g.rows.len(),
            c < g.columns.len(),
            from <= i,
            run_down(g, c as int, from as int, bottom as int) == (i - from) + run_down(g, c as int, i as int, bottom as int),
        decreases nr - i,
    {
        proof {
            assert(g.cells[i as int] == grid.cells@[i as int]@.map_values(|cell: Vec<usize>| cell@));
            assert(g.cells[i as int][c as int] == grid.cells@[i as int]@[c as int]@);
        }
        i = i + 1;
    }
    proof {
        if i < nr {
            assert(g.cells[i as int] == grid.cells@[i as int]@.map_values(|cell: Vec<usize>| cell@));
            assert(g.cells[i as int][c as int] == grid.cells@[i as int]@[c as int]@);
        }
    }
    i - from
}

/// One past the last column reached by the cells left of column `c` in row `r`.
pub open spec fn right_end(grid: GridView, spans: Seq<TextSpan>, r: int, c: int) -> int
    decreases c,
{
    if c <= 0 {
        0
    } else {
        let p = right_end(grid, spans, r, c - 1);
        let e = (c - 1) + extra_cols(grid, spans, r, c - 1) + 1;
        if e > p { e } else { p }
    }
}

/// One past the last row reached by the cells above row `r` in column `c`.
pub open spec fn down_end(grid: GridView, spans: Seq<TextSpan>, r: int, c: int) -> int
    decreases r,
{
    if r <= 0 {
        0
    } else {
        let p = down_end(grid, spans, r - 1, c);
        let e = (r - 1) + extra_rows(grid, spans, r - 1, c) + 1;
        if e > p { e } else { p }
    }
}

proof fn lemma_right_end(grid: GridView, spans: Seq<TextSpan>, r: int, c: int, t: int)
    requires
        c >= 0,
        t >= 0,
    ensures
        right_end(grid, spans, r, c) > t <==> exists|j: int| 0 <= j < c && j + #[trigger] extra_cols(grid, spans, r, j) >= t,
        right_end(grid, spans, r, c) >= 0,
    decreases c,
{
    if c > 0 {
        lemma_right_end(grid, spans, r, c - 1, t);
        if right_end(grid, spans, r, c) > t {
            if right_end(grid, spans, r, c - 1) <= t {
                assert((c - 1) + extra_cols(grid, spans, r, c - 1) >= t);
            } else {
                let j = choose|j: int| 0 <= j < c - 1 && j + #[trigger] extra_cols(grid, spans, r, j) >= t;
                assert(0 <= j < c && j + extra_cols(grid, spans, r, j) >= t);
            }
        }
        if exists|j: int| 0 <= j < c && j + #[trigger] extra_cols(grid, spans, r, j) >= t {
            let j = choose|j: int| 0 <= j < c && j + #[trigger] extra_cols(grid, spans, r, j) >= t;
            if j < c - 1 {
                assert(right_end(grid, spans, r, c - 1) > t);
            }
        }
    }
}

proof fn lemma_down_end(grid: GridView, spans: Seq<TextSpan>, r: int, c: int, t: int)
    requires
        r >= 0,
        t >= 0,
    ensures
        down_end(grid, spans, r, c) > t <==> exists|i: int| 0 <= i < r && i + #[trigger] extra_rows(grid, spans, i, c) >= t,
        down_end(grid, spans, r, c) >= 0,
    decreases r,
{
    if r > 0 {
        lemma_down_end(grid, spans, r - 1, c, t);
        if down_end(grid, spans, r, c) > t {
            if down_end(grid, spans, r - 1, c) <= t {
                assert((r - 1) + extra_rows(grid, spans, r - 1, c) >= t);
            } else {
                let i = choose|i: int| 0 <= i < r - 1 && i + #[trigger] extra_rows(grid, spans, i, c) >= t;
                assert(0 <= i < r && i + extra_rows(grid, spans, i, c) >= t);
            }
        }
        if exists|i: int| 0 <= i < r && i + #[trigger] extra_rows(grid, spans, i, c) >= t {
            let i = choose|i: int| 0 <= i < r && i + #[trigger] extra_rows(grid, spans, i, c) >= t;
            if i < r - 1 {
                assert(down_end(grid, spans, r - 1, c) > t);
            }
        }
    }
}

proof fn lemma_run_right_empty(grid: GridView, r: int, from: int, right: int, k: int)
    requires
        0 <= k < run_right(grid, r, from, right),
    ensures
        grid.cells[r][from + k].len() == 0,
    decreases k,
{
    if k > 0 {
        lemma_run_right_empty(grid, r, from + 1, right, k - 1);
    }
}

proof fn lemma_run_down_empty(grid: GridView, c: int, from: int, bottom: int, k: int)
    requires
        0 <= k < run_down(grid, c, from, bottom),
    ensures
        grid.cells[from + k][c].len() == 0,
    decreases k,
{
    if k > 0 {
        lemma_run_down_empty(grid, c, from + 1, bottom, k - 1);
    }
}

/// Text merges stay inside the grid and only reach over empty cells: each
/// cell spans at least itself and no further than the last row and column;
/// a covered cell is empty; a cell that spans more than itself holds text
/// and is not covered.
pub proof fn lemma_text_merge_shape(grid: GridView, spans: Seq<TextSpan>)
    requires
        grid.shape_ok(),
    ensures
        text_merge(grid, spans).len() == grid.rows.len(),
        forall|r: int| 0 <= r < grid.rows.len() ==> (#[trigger] text_merge(grid, spans)[r]).len() == grid.columns.len(),
        forall|r: int, c: int|
            0 <= r < grid.rows.len() && 0 <= c < grid.columns.len() ==> {
                let m = #[trigger] text_merge(grid, spans)[r][c];
                &&& m.colspan >= 1
                &&& m.rowspan >= 1
                &&& c + m.colspan <= grid.columns.len()
                &&& r + m.rowspan <= grid.rows.len()
                &&& m.covered ==> grid.cells[r][c].len() == 0
                &&& (m.colspan > 1 || m.rowspan > 1) ==> grid.cells[r][c].len() > 0 && !m.covered
            },
{
    assert forall|r: int, c: int| 0 <= r < grid.rows.len() && 0 <= c < grid.columns.len() implies {
        let m = #[trigger] text_merge(grid, spans)[r][c];
        &&& m.colspan >= 1
        &&& m.rowspan >= 1
        &&& c + m.colspan <= grid.columns.len()
        &&& r + m.rowspan <= grid.rows.len()
        &&& m.covered ==> grid.cells[r][c].len() == 0
        &&& (m.colspan > 1 || m.rowspan > 1) ==> grid.cells[r][c].len() > 0 && !m.covered
    } by {
        let ec = extra_cols(grid, spans, r, c);
        let er = extra_rows(grid, spans, r, c);
        if grid.cells[r][c].len() > 0 {
            if let Some(x) = max_right(spans, grid.cells[r][c]) {
                lemma_run_right_bound(grid, r, c + 1, x);
            }
            if let Some(b) = min_bottom(spans, grid.cells[r][c]) {
                lemma_run_down_bound(grid, c, r + 1, b);
            }
        }
        assert(c + 1 + ec <= grid.columns.len());
        assert(r + 1 + er <= grid.rows.len());
        if covered_by_text(grid, spans, r, c) {
            if exists|j: int| 0 <= j < c && j + #[trigger] extra_cols(grid, spans, r, j) >= c {
                let j = choose|j: int| 0 <= j < c && j + #[trigger] extra_cols(grid, spans, r, j) >= c;
                let x = max_right(spans, grid.cells[r][j])->0;
                lemma_run_right_empty(grid, r, j + 1, x, c - j - 1);
            } else {
                let i = choose|i: int| 0 <= i < r && i + #[trigger] extra_rows(grid, spans, i, c) >= r;
                let b = min_bottom(spans, grid.cells[i][c])->0;
                lemma_run_down_empty(grid, c, i + 1, b, r - i - 1);
            }
        }
    }
}

proof fn lemma_run_right_bound(grid: GridView, r: int, from: int, right: int)
    requires
        from >= 0,
    ensures
        from + run_right(grid, r, from, right) <= if from <= grid.columns.len() { grid.columns.len() as int } else { from },
    decreases grid.columns.len() - from,
{
    if from < grid.columns.len() && run_right(grid, r, from, right) > 0 {
        lemma_run_right_bound(grid, r, from + 1, right);
    }
}

proof fn lemma_run_down_bound(grid: GridView, c: int, from: int, bottom: int)
    requires
        from >= 0,
    ensures
        from + run_down(grid, c, from, bottom) <= if from <= grid.rows.len() { grid.rows.len() as int } else { from },
    decreases grid.rows.len() - from,
{
    if from < grid.rows.len() && run_down(grid, c, from, bottom) > 0 {
        lemma_run_down_bound(grid, c, from + 1, bottom);
    }
}

/// `extra_cols(grid, spans, r, c)`.
fn extra_cols_of(grid: &GridStructure, spans: &[TextSpan], r: usize, c: usize) -> (k: usize)
    requires
        grid@.shape_ok(),
        spans_wf(spans@),
        r < grid@.rows.len(),
        c < grid@.columns.len(),
    ensures
        k == extra_cols(grid@, spans@, r as int, c as int),
        c + k < grid@.columns.len(),
{
    let ghost g = grid@;
    proof {
        assert(g.cells[r as int] == grid.cells@[r as int]@.map_values(|cell: Vec<usize>| cell@));
        assert(g.cells[r as int][c as int] == grid.cells@[r as int]@[c as int]@);
    }
    let cell = &grid.cells[r][c];
    if cell.len() == 0 {
        return 0;
    }
    match cell_max_right(spans, cell) {
        None => 0,
        Some(x) => {
            let k = run_right_len(grid, r, c + 1, x);
            proof {
                lemma_run_right_bound(g, r as int, c + 1, x as int);
            }
            k
        },
    }
}

/// `extra_rows(grid, spans, r, c)`.
fn extra_rows_of(grid: &GridStructure, spans: &[TextSpan], r: usize, c: usize) -> (k: usize)
    requires
        grid@.shape_ok(),
        spans_wf(spans@),
        r < grid@.rows.len(),
        c < grid@.columns.len(),
    ensures
        k == extra_rows(grid@, spans@, r as int, c as int),
        r + k < grid@.rows.len(),
{
    let ghost g = grid@;
    proof {
        assert(g.cells[r as int] == grid.cells@[r as int]@.map_values(|cell: Vec<usize>| cell@));
        assert(g.cells[r as int][c as int] == grid.cells@[r as int]@[c as int]@);
    }
    let cell = &grid.cells[r][c];
    if cell.len() == 0 {
        return 0;
    }
    match cell_min_bottom(spans, cell) {
        None => 0,
        Some(b) => {
            let k = run_down_len(grid, c, r + 1, b);
            proof {
                lemma_run_down_bound(g, c as int, r + 1, b as int);
            }
            k
        },
    }
}

/// Merge information from text extents, as `text_merge` describes it.
pub fn detect_merged_cells(grid: &GridStructure, spans: &[TextSpan]) -> (m: Vec<Vec<CellMergeInfo>>)
    requires
        grid@.shape_ok(),
        spans_wf(spans@),
    ensures
        merge_view(m@) == text_merge(grid@, spans@),
{
    let ghost g = grid@;
    let nr = grid.rows.len();
    let nc = grid.columns.len();
    let mut down: Vec<usize> = Vec::new();
    let mut c0: usize = 0;
    while c0 < nc
        invariant
            c0 <= nc,
            down@.len() == c0,
            forall|q: int| 0 <= q < c0 ==> #[trigger] down@[q] == 0,
        decreases nc - c0,
    {
        down.push(0);
        c0 = c0 + 1;
    }
    let mut m: Vec<Vec<CellMergeInfo>> = Vec::new();
    let mut r: usize = 0;
    while r < nr
        invariant
            g == grid@,
            g.shape_ok(),
            spans_wf(spans@),
            nr == g.rows.len(),
            nc == g.columns.len(),
            r <= nr,
            down@.len() == nc,
            forall|q: int| 0 <= q < nc ==> #[trigger] down@[q] == down_end(g, spans@, r as int, q),
            merge_view(m@) == text_merge(g, spans@).take(r as int),
        decreases nr - r,
    {
        let mut row: Vec<CellMergeInfo> = Vec::new();
        let mut rend: usize = 0;
        let mut c: usize = 0;
        while c < nc
            invariant
                g == grid@,
                g.shape_ok(),
                spans_wf(spans@),
                nr == g.rows.len(),
                nc == g.columns.len(),
                r < nr,
                c <= nc,
                down@.len() == nc,
                forall|q: int| 0 <= q < c ==> #[trigger] down@[q] == down_end(g, spans@, r + 1, q),
                forall|q: int| c <= q < nc ==> #[trigger] down@[q] == down_end(g, spans@, r as int, q),
                rend == right_end(g, spans@, r as int, c as int),
                rend <= nc,
                row@ == text_merge(g, spans@)[r as int].take(c as int),
            decreases nc - c,
        {
            let ec = extra_cols_of(grid, spans, r, c);
            let er = extra_rows_of(grid, spans, r, c);
            proof {
                lemma_right_end(g, spans@, r as int, c as int, c as int);
                lemma_down_end(g, spans@, r as int, c as int, r as int);
                assert(nc <= u32::MAX);
                assert(nr <= u32::MAX);
            }
            let covered = rend > c || down[c] > r;
            let info = CellMergeInfo { colspan: (1 + ec) as u32, rowspan: (1 + er) as u32, covered };
            row.push(info);
            proof {
                assert(row@ =~= text_merge(g, spans@)[r as int].take(c + 1));
            }
            if c + ec + 1 > rend {
                rend = c + ec + 1;
            }
            let d = down[c];
            if r + er + 1 > d {
                down.set(c, r + er + 1);
            }
            c = c + 1;
        }
        let ghost before = merge_view(m@);
        m.push(row);
        proof {
            assert(row@ =~= text_merge(g, spans@)[r as int]);
            assert(merge_view(m@) =~= before.push(row@));
            assert(merge_view(m@) =~= text_merge(g, spans@).take(r + 1));
        }
        r = r + 1;
    }
    proof {
        assert(text_merge(g, spans@).take(nr as int) =~= text_merge(g, spans@));
    }
    m
}

/// Vertical distance, in thousandths of a point, within which spans of a cell
/// count as one line of text.
pub const SAME_LINE_TOL: i64 = 2000;

/// The indices in `cell` that name one of `n` spans, in order.
pub open spec fn valid_members(cell: Seq<usize>, n: nat) -> Seq<usize>
    decreases cell.len(),
{
    if cell.len() == 0 {
        seq![]
    } else {
        valid_members(cell.drop_last(), n) + if cell.last() < n { seq![cell.last()] } else { seq![] }
    }
}

/// The negated vertical centres of the spans named by `idxs` (to order top to bottom).
pub open spec fn neg_center_ys(spans: Seq<TextSpan>, idxs: Seq<usize>) -> Seq<i64> {
    idxs.map_values(|i: usize| (-spans[i as int].bbox.spec_center_y()) as i64)
}

/// The line position and the text after joining the first `n` entries: an
/// entry within `SAME_LINE_TOL` of the current line's first entry continues
/// the line after a space; any other starts a new line.
pub open spec fn cell_text_fold(spans: Seq<TextSpan>, es: Seq<usize>, n: nat) -> (int, Seq<char>)
    decreases n,
{
    if n <= 1 {
        (spans[es[0] as int].bbox.spec_center_y(), spans[es[0] as int].text@)
    } else {
        let (ly, acc) = cell_text_fold(spans, es, (n - 1) as nat);
        let y = spans[es[n - 1] as int].bbox.spec_center_y();
        let t = spans[es[n - 1] as int].text@;
        if abs_int(ly - y) <= SAME_LINE_TOL {
            (ly, acc + " "@ + t)
        } else {
            (y, acc + "\n"@ + t)
        }
    }
}

/// The entries of a cell ordered top to bottom (stable on equal centres).
pub open spec fn cell_entries(spans: Seq<TextSpan>, cell: Seq<usize>) -> Seq<usize> {
    let idxs = valid_members(cell, spans.len());
    sorted_order(neg_center_ys(spans, idxs)).map_values(|k: usize| idxs[k as int])
}

/// The text of a cell: its spans' texts top to bottom, lines joined by
/// newlines and spans within a line by spaces.
pub open spec fn cell_text(spans: Seq<TextSpan>, cell: Seq<usize>) -> Seq<char> {
    let es = cell_entries(spans, cell);
    if es.len() == 0 {
        seq![]
    } else {
        cell_text_fold(spans, es, es.len()).1
    }
}

proof fn lemma_valid_members(cell: Seq<usize>, n: nat)
    ensures
        forall|k: int| 0 <= k < valid_members(cell, n).len() ==> #[trigger] valid_members(cell, n)[k] < n,
    decreases cell.len(),
{
    if cell.len() > 0 {
        lemma_valid_members(cell.drop_last(), n);
        let p = valid_members(cell.drop_last(), n);
        let v = valid_members(cell, n);
        assert forall|k: int| 0 <= k < v.len() implies #[trigger] v[k] < n by {
            if k < p.len() {
                assert(v[k] == p[k]);
            }
        }
    }
}

/// A cell's text reads its spans top to bottom: its entries are the cell's
/// indices that name a span, reordered by descending vertical centre, with
/// those of equal centre kept in the cell's order; a cell with one such
/// entry reads as that span's text.
pub proof fn lemma_cell_entries_top_to_bottom(spans: Seq<TextSpan>, cell: Seq<usize>)
    requires
        spans_wf(spans),
        cell.len() <= usize::MAX,
    ensures
        exists|o: Seq<usize>|
            is_stable_order(o, neg_center_ys(spans, valid_members(cell, spans.len())), valid_members(cell, spans.len()).len())
                && cell_entries(spans, cell) == o.map_values(|k: usize| valid_members(cell, spans.len())[k as int]),
        forall|k: int| 0 <= k < cell_entries(spans, cell).len() ==> #[trigger] cell_entries(spans, cell)[k] < spans.len(),
        forall|i: int, j: int|
            0 <= i < j < cell_entries(spans, cell).len() ==> spans[#[trigger] cell_entries(spans, cell)[i] as int].bbox.spec_center_y()
                >= spans[#[trigger] cell_entries(spans, cell)[j] as int].bbox.spec_center_y(),
        cell_entries(spans, cell).len() == 1 ==> cell_text(spans, cell) == spans[cell_entries(spans, cell)[0] as int].text@,
{
    let idxs = valid_members(cell, spans.len());
    lemma_valid_members(cell, spans.len());
    lemma_valid_members_len(cell, spans.len());
    let keys = neg_center_ys(spans, idxs);
    crate::order::lemma_stable_order(keys, keys.len());
    let o = sorted_order(keys);
    let es = cell_entries(spans, cell);
    assert(is_stable_order(o, keys, idxs.len()) && es == o.map_values(|k: usize| idxs[k as int]));
    assert forall|k: int| 0 <= k < es.len() implies #[trigger] es[k] < spans.len() by {
        assert(o[k] < idxs.len());
    }
    assert forall|i: int, j: int| 0 <= i < j < es.len() implies spans[#[trigger] es[i] as int].bbox.spec_center_y()
        >= spans[#[trigger] es[j] as int].bbox.spec_center_y() by {
        let a = spans[es[i] as int].bbox;
        let b = spans[es[j] as int].bbox;
        assert(o[i] < idxs.len() && o[j] < idxs.len());
        assert(a.wf() && b.wf());
        assert(keys[o[i] as int] <= keys[o[j] as int]);
        assert(keys[o[i] as int] == -a.spec_center_y());
        assert(keys[o[j] as int] == -b.spec_center_y());
    }
}

proof fn lemma_valid_members_len(cell: Seq<usize>, n: nat)
    ensures
        valid_members(cell, n).len() <= cell.len(),
    decreases cell.len(),
{
    if cell.len() > 0 {
        lemma_valid_members_len(cell.drop_last(), n);
    }
}

/// The text of a cell, as `cell_text` describes it.
pub fn extract_cell_text(cell_span_indices: &Vec<usize>, spans: &[TextSpan]) -> (t: String)
    requires
        spans_wf(spans@),
    ensures
        t@ == cell_text(spans@, cell_span_indices@),
{
    let cell = cell_span_indices;
    let n = cell.len();
    let ns = spans.len();
    let mut idxs: Vec<usize> = Vec::new();
    let mut k: usize = 0;
    while k < n
        invariant
            n == cell@.len(),
            ns == spans@.len(),
            k <= n,
            idxs@ == valid_members(cell@.take(k as int), ns as nat),
        decreases n - k,
    {
        proof {
            assert(cell@.take(k + 1).drop_last() =~= cell@.take(k as int));
        }
        if cell[k] < ns {
            idxs.push(cell[k]);
        }
        k = k + 1;
    }
    proof {
        assert(cell@.take(n as int) =~= cell@);
        lemma_valid_members(cell@, ns as nat);
    }
    let m = idxs.len();
    if m == 0 {
        return String::new();
    }
    let mut keys: Vec<i64> = Vec::new();
    let mut q: usize = 0;
    while q < m
        invariant
            m == idxs@.len(),
            q <= m,
            spans_wf(spans@),
            forall|j: int| 0 <= j < m ==> #[trigger] idxs@[j] < spans@.len(),
            keys@ == neg_center_ys(spans@, idxs@).take(q as int),
        decreases m - q,
    {
        proof {
            assert(spans@[idxs@[q as int] as int].bbox.wf());
        }
        let c = spans[idxs[q]].bbox.center();
        keys.push(-c.y);
        proof {
            assert(keys@ =~= neg_center_ys(spans@, idxs@).take(q + 1));
        }
        q = q + 1;
    }
    proof {
        assert(neg_center_ys(spans@, idxs@).take(m as int) =~= neg_center_ys(spans@, idxs@));
    }
    let order = stable_sort_order(&keys);
    let ghost es = cell_entries(spans@, cell@);
    proof {
        assert(es =~= order@.map_values(|k: usize| idxs@[k as int]));
        assert forall|j: int| 0 <= j < es.len() implies #[trigger] es[j] < spans@.len() by {
            assert(order@[j] < m);
        }
    }
    let e0 = idxs[order[0]];
    proof {
        assert(e0 == es[0]);
        assert(spans@[e0 as int].bbox.wf());
    }
    let mut text = spans[e0].text.clone();
    let mut line_y = spans[e0].bbox.center().y;
    let mut j: usize = 1;
    while j < m
        invariant
            m == es.len(),
            m == order@.len(),
            es == order@.map_values(|k: usize| idxs@[k as int]),
            forall|i: int| 0 <= i < m ==> #[trigger] order@[i] < m,
            forall|i: int| 0 <= i < m ==> #[trigger] idxs@[i] < spans@.len(),
            m == idxs@.len(),
            spans_wf(spans@),
            1 <= j <= m,
            (line_y as int, text@) == cell_text_fold(spans@, es, j as nat),
        decreases m - j,
    {
        let e = idxs[order[j]];
        proof {
            assert(e == es[j as int]);
            assert(spans@[e as int].bbox.wf());
            reveal_strlit(" ");
            reveal_strlit("\n");
        }
        let y = spans[e].bbox.center().y;
        let d = abs_i64(line_y - y);
        if d <= SAME_LINE_TOL {
            text.append(" ");
            text.append(spans[e].text.as_str());
        } else {
            text.append("\n");
            text.append(spans[e].text.as_str());
            line_y = y;
        }
        j = j + 1;
    }
    text
}

/// `acc` widened by the box of span `i` (an index that names no span is skipped).
pub open spec fn bbox_add(spans: Seq<TextSpan>, acc: Option<Rect>, i: usize) -> Option<Rect> {
    if i < spans.len() {
        match acc {
            None => Some(spans[i as int].bbox),
            Some(a) => Some(a.spec_union(spans[i as int].bbox)),
        }
    } else {
        acc
    }
}

/// `acc` widened by the boxes of the spans named by `idxs`, in order.
pub open spec fn bbox_fold(spans: Seq<TextSpan>, idxs: Seq<usize>, acc: Option<Rect>) -> Option<Rect>
    decreases idxs.len(),
{
    if idxs.len() == 0 {
        acc
    } else {
        bbox_add(spans, bbox_fold(spans, idxs.drop_last(), acc), idxs.last())
    }
}

/// `acc` widened by the boxes of the spans of a row's cells, in order.
pub open spec fn row_bbox_fold(spans: Seq<TextSpan>, row: Seq<Seq<usize>>, acc: Option<Rect>) -> Option<Rect>
    decreases row.len(),
{
    if row.len() == 0 {
        acc
    } else {
        bbox_fold(spans, row.last(), row_bbox_fold(spans, row.drop_last(), acc))
    }
}

/// The box spanning all the spans of a grid, if it has any.
pub open spec fn grid_bbox_fold(spans: Seq<TextSpan>, cells: Seq<Seq<Seq<usize>>>, acc: Option<Rect>) -> Option<Rect>
    decreases cells.len(),
{
    if cells.len() == 0 {
        acc
    } else {
        row_bbox_fold(spans, cells.last(), grid_bbox_fold(spans, cells.drop_last(), acc))
    }
}

/// The marked-content identifiers of a cell's spans, in order.
pub open spec fn cell_mcids(spans: Seq<TextSpan>, cell: Seq<usize>) -> Seq<u32>
    decreases cell.len(),
{
    if cell.len() == 0 {
        seq![]
    } else {
        let i = cell.last();
        cell_mcids(spans, cell.drop_last()) + if i < spans.len() && spans[i as int].mcid is Some {
            seq![spans[i as int].mcid->0]
        } else {
            seq![]
        }
    }
}

/// `a` if it is at most `b`, else `b`.
pub open spec fn min_u32(a: u32, b: u32) -> u32 {
    if a <= b { a } else { b }
}

/// The table cell made from grid cell `(r, c)`; its spans are clipped to the grid.
pub open spec fn cell_at(
    grid: GridView,
    spans: Seq<TextSpan>,
    merge: Seq<Seq<CellMergeInfo>>,
    r: int,
    c: int,
    is_header: bool,
) -> CellView {
    let cell = grid.cells[r][c];
    CellView {
        text: cell_text(spans, cell),
        colspan: min_u32(merge[r][c].colspan, (grid.columns.len() - c) as u32),
        rowspan: min_u32(merge[r][c].rowspan, (grid.rows.len() - r) as u32),
        mcids: cell_mcids(spans, cell),
        bbox: bbox_fold(spans, cell, None),
        is_header,
    }
}

/// The cells of row `r` among its first `n` grid cells that no other cell covers.
pub open spec fn row_cells(
    grid: GridView,
    spans: Seq<TextSpan>,
    merge: Seq<Seq<CellMergeInfo>>,
    r: int,
    is_header: bool,
    n: nat,
) -> Seq<CellView>
    decreases n,
{
    if n == 0 {
        seq![]
    } else {
        row_cells(grid, spans, merge, r, is_header, (n - 1) as nat) + if merge[r][n - 1].covered {
            seq![]
        } else {
            seq![cell_at(grid, spans, merge, r, n - 1, is_header)]
        }
    }
}

/// The table read off a grid with the given merge information: one row per
/// grid row; the header row (if any) marks its row and cells as header; the
/// column count is the grid's; the region spans all of the grid's spans.
pub open spec fn grid_table(grid: GridView, spans: Seq<TextSpan>, merge: Seq<Seq<CellMergeInfo>>) -> TableView {
    let header = header_row_of(grid, spans.len());
    TableView {
        rows: Seq::new(
            grid.rows.len(),
            |r: int|
                RowView {
                    cells: row_cells(grid, spans, merge, r, header == Some(r as usize), grid.columns.len()),
                    is_header: header == Some(r as usize),
                },
        ),
        has_header: header is Some,
        col_count: grid.columns.len() as usize,
        bbox: grid_bbox_fold(spans, grid.cells, None),
    }
}

/// Whether every cell of every header row of the table is a header cell.
pub open spec fn header_cells_ok(t: TableView) -> bool {
    forall|r: int, c: int|
        0 <= r < t.rows.len() && (#[trigger] t.rows[r]).is_header && 0 <= c < t.rows[r].cells.len()
            ==> (#[trigger] t.rows[r].cells[c]).is_header
}

proof fn lemma_row_cells_flag(
    grid: GridView,
    spans: Seq<TextSpan>,
    merge: Seq<Seq<CellMergeInfo>>,
    r: int,
    is_header: bool,
    n: nat,
)
    ensures
        forall|c: int|
            0 <= c < row_cells(grid, spans, merge, r, is_header, n).len() ==> (#[trigger] row_cells(
                grid,
                spans,
                merge,
                r,
                is_header,
                n,
            )[c]).is_header == is_header,
    decreases n,
{
    if n > 0 {
        lemma_row_cells_flag(grid, spans, merge, r, is_header, (n - 1) as nat);
        let p = row_cells(grid, spans, merge, r, is_header, (n - 1) as nat);
        let q = row_cells(grid, spans, merge, r, is_header, n);
        assert forall|c: int| 0 <= c < q.len() implies (#[trigger] q[c]).is_header == is_header by {
            if c < p.len() {
                assert(q[c] == p[c]);
            }
        }
    }
}

/// In a table read off a grid, every cell of the header row is a header cell.
pub proof fn lemma_grid_table_header_cells(grid: GridView, spans: Seq<TextSpan>, merge: Seq<Seq<CellMergeInfo>>)
    ensures
        header_cells_ok(grid_table(grid, spans, merge)),
{
    let t = grid_table(grid, spans, merge);
    let header = header_row_of(grid, spans.len());
    assert forall|r: int, c: int|
        0 <= r < t.rows.len() && (#[trigger] t.rows[r]).is_header && 0 <= c < t.rows[r].cells.len()
            implies (#[trigger] t.rows[r].cells[c]).is_header by {
        lemma_row_cells_flag(grid, spans, merge, r, header == Some(r as usize), grid.columns.len());
    }
}

/// The header row of a text grid is its first row whenever the grid has at
/// least two rows, the first row holds a span (in any of its cells) and a
/// later row holds a span: the table then has a header, its first row and
/// all that row's cells are header ones, and no other row is a header row.
pub proof fn lemma_first_row_header(
    grid: GridView,
    spans: Seq<TextSpan>,
    merge: Seq<Seq<CellMergeInfo>>,
    c0: int,
    k0: int,
    r1: int,
    c1: int,
    k1: int,
)
    requires
        grid.shape_ok(),
        grid.cells.len() >= 2,
        0 <= c0 < grid.cells[0].len(),
        0 <= k0 < grid.cells[0][c0].len(),
        grid.cells[0][c0][k0] < spans.len(),
        1 <= r1 < grid.cells.len(),
        0 <= c1 < grid.cells[r1].len(),
        0 <= k1 < grid.cells[r1][c1].len(),
        grid.cells[r1][c1][k1] < spans.len(),
    ensures
        grid_table(grid, spans, merge).has_header,
        grid_table(grid, spans, merge).rows[0].is_header,
        forall|c: int|
            0 <= c < grid_table(grid, spans, merge).rows[0].cells.len() ==> (#[trigger] grid_table(
                grid,
                spans,
                merge,
            ).rows[0].cells[c]).is_header,
        forall|r: int| 1 <= r < grid.rows.len() ==> !(#[trigger] grid_table(grid, spans, merge).rows[r]).is_header,
{
    assert(row_has_span(grid.cells[0], spans.len()));
    assert(row_has_span(grid.cells[r1], spans.len()));
    assert(header_row_of(grid, spans.len()) == Some(0usize));
    lemma_row_cells_flag(grid, spans, merge, 0, true, grid.columns.len());
}

/// A grid whose first row holds no span, or whose later rows hold none, gives
/// a table without a header row.
pub proof fn lemma_no_header_row(grid: GridView, spans: Seq<TextSpan>, merge: Seq<Seq<CellMergeInfo>>)
    requires
        grid.shape_ok(),
        (forall|c: int, k: int|
            0 <= c < grid.cells[0].len() && 0 <= k < grid.cells[0][c].len() ==> #[trigger] grid.cells[0][c][k]
                >= spans.len()) || (forall|r: int, c: int, k: int|
            1 <= r < grid.cells.len() && 0 <= c < grid.cells[r].len() && 0 <= k < grid.cells[r][c].len()
                ==> #[trigger] grid.cells[r][c][k] >= spans.len()),
    ensures
        !grid_table(grid, spans, merge).has_header,
        forall|r: int| 0 <= r < grid.rows.len() ==> !(#[trigger] grid_table(grid, spans, merge).rows[r]).is_header,
{
    if grid.cells.len() >= 2 && row_has_span(grid.cells[0], spans.len()) {
        assert forall|r: int| 1 <= r < grid.cells.len() implies !row_has_span(#[trigger] grid.cells[r], spans.len()) by {
            if row_has_span(grid.cells[r], spans.len()) {
                let (c, k) = choose|c: int, k: int|
                    0 <= c < grid.cells[r].len() && 0 <= k < grid.cells[r][c].len() && #[trigger] grid.cells[r][c][k]
                        < spans.len();
                let (c0, k0) = choose|c: int, k: int|
                    0 <= c < grid.cells[0].len() && 0 <= k < grid.cells[0][c].len() && #[trigger] grid.cells[0][c][k]
                        < spans.len();
                assert(grid.cells[0][c0][k0] < spans.len());
                assert(grid.cells[r][c][k] < spans.len());
            }
        }
    }
    assert(header_row_of(grid, spans.len()) is None);
}

/// Merge information shaped like the grid.
pub open spec fn merge_fits(merge: Seq<Seq<CellMergeInfo>>, grid: GridView) -> bool {
    &&& merge.len() == grid.rows.len()
    &&& forall|r: int| 0 <= r < merge.len() ==> (#[trigger] merge[r]).len() == grid.columns.len()
}

proof fn lemma_bbox_fold_some(spans: Seq<TextSpan>, idxs: Seq<usize>, acc: Option<Rect>)
    ensures
        acc is Some ==> bbox_fold(spans, idxs, acc) is Some,
        (exists|k: int| 0 <= k < idxs.len() && #[trigger] idxs[k] < spans.len()) ==> bbox_fold(spans, idxs, acc) is Some,
    decreases idxs.len(),
{
    if idxs.len() > 0 {
        let prev = idxs.drop_last();
        lemma_bbox_fold_some(spans, prev, acc);
        if exists|k: int| 0 <= k < idxs.len() && #[trigger] idxs[k] < spans.len() {
            let k = choose|k: int| 0 <= k < idxs.len() && #[trigger] idxs[k] < spans.len();
            if k < idxs.len() - 1 {
                assert(prev[k] == idxs[k]);
            }
        }
    }
}

proof fn lemma_row_bbox_fold_some(spans: Seq<TextSpan>, row: Seq<Seq<usize>>, acc: Option<Rect>)
    ensures
        acc is Some ==> row_bbox_fold(spans, row, acc) is Some,
        (exists|c: int, k: int| 0 <= c < row.len() && 0 <= k < row[c].len() && #[trigger] row[c][k] < spans.len())
            ==> row_bbox_fold(spans, row, acc) is Some,
    decreases row.len(),
{
    if row.len() > 0 {
        let prev = row.drop_last();
        lemma_row_bbox_fold_some(spans, prev, acc);
        let inner = row_bbox_fold(spans, prev, acc);
        lemma_bbox_fold_some(spans, row.last(), inner);
        if exists|c: int, k: int| 0 <= c < row.len() && 0 <= k < row[c].len() && #[trigger] row[c][k] < spans.len() {
            let (c, k) = choose|c: int, k: int|
                0 <= c < row.len() && 0 <= k < row[c].len() && #[trigger] row[c][k] < spans.len();
            if c < row.len() - 1 {
                assert(prev[c][k] == row[c][k]);
            } else {
                assert(row.last()[k] < spans.len());
            }
        }
    }
}

proof fn lemma_grid_bbox_fold_some(spans: Seq<TextSpan>, cells: Seq<Seq<Seq<usize>>>, acc: Option<Rect>)
    ensures
        acc is Some ==> grid_bbox_fold(spans, cells, acc) is Some,
        (exists|r: int, c: int, k: int|
            0 <= r < cells.len() && 0 <= c < cells[r].len() && 0 <= k < cells[r][c].len() && #[trigger] cells[r][c][k]
                < spans.len()) ==> grid_bbox_fold(spans, cells, acc) is Some,
    decreases cells.len(),
{
    if cells.len() > 0 {
        let prev = cells.drop_last();
        lemma_grid_bbox_fold_some(spans, prev, acc);
        let inner = grid_bbox_fold(spans, prev, acc);
        lemma_row_bbox_fold_some(spans, cells.last(), inner);
        if exists|r: int, c: int, k: int|
            0 <= r < cells.len() && 0 <= c < cells[r].len() && 0 <= k < cells[r][c].len() && #[trigger] cells[r][c][k]
                < spans.len() {
            let (r, c, k) = choose|r: int, c: int, k: int|
                0 <= r < cells.len() && 0 <= c < cells[r].len() && 0 <= k < cells[r][c].len() && #[trigger] cells[r][c][k]
                    < spans.len();
            if r < cells.len() - 1 {
                assert(prev[r][c][k] == cells[r][c][k]);
            } else {
                assert(cells.last()[c][k] < spans.len());
            }
        }
    }
}

proof fn lemma_most_common_member(s: Seq<int>, n: nat)
    requires
        1 <= n <= s.len(),
    ensures
        exists|i: int| 0 <= i < n && #[trigger] s[i] == most_common_in(s, n),
    decreases n,
{
    if n > 1 {
        lemma_most_common_member(s, (n - 1) as nat);
        if occurrences(s, s[n - 1]) < occurrences(s, most_common_in(s, (n - 1) as nat)) {
            let i = choose|i: int| 0 <= i < n - 1 && #[trigger] s[i] == most_common_in(s, (n - 1) as nat);
            assert(s[i] == most_common_in(s, n));
        } else {
            assert(s[n - 1] == most_common_in(s, n));
        }
    } else {
        assert(s[0] == most_common_in(s, n));
    }
}

proof fn lemma_filled_has_cell(row: Seq<Seq<usize>>)
    requires
        filled(row) > 0,
    ensures
        exists|c: int| 0 <= c < row.len() && (#[trigger] row[c]).len() > 0,
    decreases row.len(),
{
    let prev = row.drop_last();
    if row.last().len() > 0 {
        assert(row[row.len() - 1].len() > 0);
    } else {
        lemma_filled_has_cell(prev);
        let c = choose|c: int| 0 <= c < prev.len() && (#[trigger] prev[c]).len() > 0;
        assert(row[c] == prev[c]);
    }
}

/// A grid with the shape of a table holds a span in some cell, so its table
/// has a bounding box.
pub proof fn lemma_table_grid_has_bbox(
    grid: GridView,
    spans: Seq<TextSpan>,
    merge: Seq<Seq<CellMergeInfo>>,
    config: TableDetectionConfig,
)
    requires
        table_structure_ok(grid, config),
        forall|r: int, c: int, k: int|
            0 <= r < grid.cells.len() && 0 <= c < grid.cells[r].len() && 0 <= k < grid.cells[r][c].len()
                ==> #[trigger] grid.cells[r][c][k] < spans.len(),
    ensures
        grid_table(grid, spans, merge).bbox is Some,
{
    let counts = row_fills(grid.cells);
    lemma_most_common_member(counts, counts.len());
    let r = choose|i: int| 0 <= i < counts.len() && #[trigger] counts[i] == most_common_in(counts, counts.len());
    assert(filled(grid.cells[r]) > 0);
    lemma_filled_has_cell(grid.cells[r]);
    let c = choose|c: int| 0 <= c < grid.cells[r].len() && (#[trigger] grid.cells[r][c]).len() > 0;
    assert(grid.cells[r][c][0] < spans.len());
    lemma_grid_bbox_fold_some(spans, grid.cells, None);
}

proof fn lemma_bbox_add_wf(spans: Seq<TextSpan>, acc: Option<Rect>, i: usize)
    requires
        spans_wf(spans),
        acc matches Some(a) ==> a.wf(),
    ensures
        bbox_add(spans, acc, i) matches Some(b) ==> b.wf(),
{
    if i < spans.len() {
        assert(spans[i as int].bbox.wf());
        if let Some(a) = acc {
            let b = spans[i as int].bbox;
            let u = a.spec_union(b);
            assert(u.wf());
        }
    }
}

/// Widen `acc` by the boxes of the spans named by `idxs`.
fn fold_bbox(spans: &[TextSpan], idxs: &Vec<usize>, acc: Option<Rect>) -> (r: Option<Rect>)
    requires
        spans_wf(spans@),
        acc matches Some(a) ==> a.wf(),
    ensures
        r == bbox_fold(spans@, idxs@, acc),
        r matches Some(b) ==> b.wf(),
{
    let n = idxs.len();
    let mut cur = acc;
    let mut k: usize = 0;
    while k < n
        invariant
            n == idxs@.len(),
            k <= n,
            spans_wf(spans@),
            cur == bbox_fold(spans@, idxs@.take(k as int), acc),
            cur matches Some(a) ==> a.wf(),
        decreases n - k,
    {
        proof {
            assert(idxs@.take(k + 1).drop_last() =~= idxs@.take(k as int));
            lemma_bbox_add_wf(spans@, cur, idxs@[k as int]);
        }
        let i = idxs[k];
        if i < spans.len() {
            cur = match cur {
                None => Some(spans[i].bbox),
                Some(a) => Some(a.union(&spans[i].bbox)),
            };
        }
        k = k + 1;
    }
    proof {
        assert(idxs@.take(n as int) =~= idxs@);
    }
    cur
}

/// The marked-content identifiers of a cell's spans.
fn collect_cell_mcids(spans: &[TextSpan], cell: &Vec<usize>) -> (m: Vec<u32>)
    ensures
        m@ == cell_mcids(spans@, cell@),
{
    let n = cell.len();
    let mut m: Vec<u32> = Vec::new();
    let mut k: usize = 0;
    while k < n
        invariant
            n == cell@.len(),
            k <= n,
            m@ == cell_mcids(spans@, cell@.take(k as int)),
        decreases n - k,
    {
        proof {
            assert(cell@.take(k + 1).drop_last() =~= cell@.take(k as int));
        }
        let i = cell[k];
        if i < spans.len() {
            match spans[i].mcid {
                Some(x) => {
                    m.push(x);
                },
                None => {},
            }
        }
        proof {
            assert(m@ =~= cell_mcids(spans@, cell@.take(k + 1)));
        }
        k = k + 1;
    }
    proof {
        assert(cell@.take(n as int) =~= cell@);
    }
    m
}

/// Read the table off a grid. Merge information comes from ruling lines
/// when given, else from the text extents (`text_merge`).
pub fn grid_to_extracted_table(
    grid: &GridStructure,
    spans: &[TextSpan],
    visual_merge_info: Option<Vec<Vec<CellMergeInfo>>>,
) -> (t: ExtractedTable)
    requires
        grid@.wf(spans@.len()),
        spans_wf(spans@),
        visual_merge_info matches Some(m) ==> merge_fits(merge_view(m@), grid@),
    ensures
        t@ == grid_table(
            grid@,
            spans@,
            match visual_merge_info {
                Some(m) => merge_view(m@),
                None => text_merge(grid@, spans@),
            },
        ),
{
    let ghost g = grid@;
    let nr = grid.cells.len();
    let nc = grid.columns.len();
    let merge_info = match visual_merge_info {
        Some(m) => m,
        None => detect_merged_cells(grid, spans),
    };
    let ghost mv = merge_view(merge_info@);
    let header = detect_header_row(grid, spans);
    let mut table_rows: Vec<TableRow> = Vec::new();
    let mut bbox: Option<Rect> = None;
    let mut r: usize = 0;
    while r < nr
        invariant
            g == grid@,
            g.wf(spans@.len()),
            spans_wf(spans@),
            nr == g.rows.len(),
            nc == g.columns.len(),
            mv == merge_view(merge_info@),
            merge_fits(mv, g),
            header == header_row_of(g, spans@.len()),
            r <= nr,
            table_rows@.map_values(|row: TableRow| row@) == grid_table(g, spans@, mv).rows.take(r as int),
            bbox == grid_bbox_fold(spans@, g.cells.take(r as int), None),
            bbox matches Some(b) ==> b.wf(),
        decreases nr - r,
    {
        let is_header = match header {
            Some(h) => h == r,
            None => false,
        };
        let mut table_row = TableRow::new(is_header);
        let ghost row_before_bbox = bbox;
        proof {
            assert(g.cells[r as int] == grid.cells@[r as int]@.map_values(|cell: Vec<usize>| cell@));
            assert(mv[r as int] == merge_info@[r as int]@);
        }
        let mut c: usize = 0;
        while c < nc
            invariant
                g == grid@,
                g.wf(spans@.len()),
                spans_wf(spans@),
                nr == g.rows.len(),
                nc == g.columns.len(),
                r < nr,
                c <= nc,
                mv == merge_view(merge_info@),
                merge_fits(mv, g),
                g.cells[r as int] == grid.cells@[r as int]@.map_values(|cell: Vec<usize>| cell@),
                mv[r as int] == merge_info@[r as int]@,
                is_header == (header_row_of(g, spans@.len()) == Some(r)),
                table_row@.is_header == is_header,
                table_row@.cells == row_cells(g, spans@, mv, r as int, is_header, c as nat),
                bbox == row_bbox_fold(spans@, g.cells[r as int].take(c as int), row_before_bbox),
                bbox matches Some(b) ==> b.wf(),
            decreases nc - c,
        {
            let cell = &grid.cells[r][c];
            proof {
                assert(g.cells[r as int][c as int] == cell@);
                assert(g.cells[r as int].take(c + 1).drop_last() =~= g.cells[r as int].take(c as int));
            }
            bbox = fold_bbox(spans, cell, bbox);
            let mi = merge_info[r][c];
            if !mi.covered {
                let text = extract_cell_text(cell, spans);
                let cell_bbox = fold_bbox(spans, cell, None);
                let mcids = collect_cell_mcids(spans, cell);
                let cspan_limit = (nc - c) as u32;
                let rspan_limit = (nr - r) as u32;
                let colspan = if mi.colspan <= cspan_limit { mi.colspan } else { cspan_limit };
                let rowspan = if mi.rowspan <= rspan_limit { mi.rowspan } else { rspan_limit };
                let tc = TableCell { text, colspan, rowspan, mcids, bbox: cell_bbox, is_header };
                proof {
                    assert(tc@ == cell_at(g, spans@, mv, r as int, c as int, is_header));
                }
                table_row.add_cell(tc);
            }
            c = c + 1;
        }
        proof {
            assert(g.cells[r as int].take(nc as int) =~= g.cells[r as int]);
            assert(g.cells.take(r + 1).drop_last() =~= g.cells.take(r as int));
            assert(table_row@ == grid_table(g, spans@, mv).rows[r as int]);
        }
        let ghost before = table_rows@.map_values(|row: TableRow| row@);
        table_rows.push(table_row);
        proof {
            assert(table_rows@.map_values(|row: TableRow| row@) =~= before.push(table_row@));
            assert(table_rows@.map_values(|row: TableRow| row@) =~= grid_table(g, spans@, mv).rows.take(r + 1));
        }
        r = r + 1;
    }
    proof {
        assert(grid_table(g, spans@, mv).rows.take(nr as int) =~= grid_table(g, spans@, mv).rows);
        assert(g.cells.take(nr as int) =~= g.cells);
    }
    let has_header = header.is_some();
    ExtractedTable { rows: table_rows, has_header, col_count: nc, bbox }
}

/// Grouping never makes more groups than positions.
pub proof fn lemma_greedy_clusters_len(vs: Seq<i64>, tol: i64)
    ensures
        greedy_clusters(vs, tol).len() <= vs.len(),
    decreases vs.len(),
{
    if vs.len() > 0 {
        lemma_greedy_clusters_len(vs.drop_last(), tol);
    }
}

proof fn lemma_first_within_result(cs: Seq<AxisCluster>, v: int, tol: int)
    ensures
        first_within(cs, v, tol) matches Some(k) ==> 0 <= k < cs.len() && abs_int(v - cs[k].center) < tol,
        first_within(cs, v, tol) is None ==> forall|j: int| 0 <= j < cs.len() ==> !(abs_int(v - (#[trigger] cs[j]).center) < tol),
    decreases cs.len(),
{
    if cs.len() > 0 {
        let t = cs.drop_first();
        lemma_first_within_result(t, v, tol);
        if first_within(cs, v, tol) is None {
            assert forall|j: int| 0 <= j < cs.len() implies !(abs_int(v - (#[trigger] cs[j]).center) < tol) by {
                if j > 0 {
                    assert(cs[j] == t[j - 1]);
                }
            }
        }
    }
}

/// Whether `x` is one of the positions `vs`.
#[verifier::opaque]
pub open spec fn is_position(vs: Seq<i64>, x: int) -> bool {
    exists|i: int| 0 <= i < vs.len() && vs[i] == x
}

/// Whether cluster `k` takes position `x`: its range holds `x` and its centre
/// is closer than `tol` to it.
pub open spec fn in_cluster(cs: Seq<AxisCluster>, k: int, x: int, tol: int) -> bool {
    0 <= k < cs.len() && abs_int(x - cs[k].center) < tol && cs[k].min <= x <= cs[k].max
}

/// Whether some cluster takes position `x`.
pub open spec fn has_cluster(cs: Seq<AxisCluster>, x: int, tol: int) -> bool {
    exists|k: int| #[trigger] in_cluster(cs, k, x, tol)
}

/// Whether the clusters hold the positions `vs` with tolerance `tol`: each
/// cluster's range holds its centre, which is one of the positions; every
/// position lies in the range of a cluster whose centre is closer than `tol`;
/// and centres lie at least `tol` apart.
pub open spec fn groups_positions(cs: Seq<AxisCluster>, vs: Seq<i64>, tol: int) -> bool {
    &&& forall|k: int|
        0 <= k < cs.len() ==> (#[trigger] cs[k]).min <= cs[k].center <= cs[k].max && is_position(vs, cs[k].center as int)
    &&& forall|i: int| 0 <= i < vs.len() ==> #[trigger] has_cluster(cs, vs[i] as int, tol)
    &&& forall|j: int, k: int|
        0 <= j < cs.len() && 0 <= k < cs.len() && j != k ==> abs_int((#[trigger] cs[j]).center - (#[trigger] cs[k]).center)
            >= tol
}

proof fn lemma_greedy_groups(vs: Seq<i64>, tol: i64)
    requires
        tol > 0,
    ensures
        groups_positions(greedy_clusters(vs, tol), vs, tol as int),
    decreases vs.len(),
{
    if vs.len() > 0 {
        let pv = vs.drop_last();
        lemma_greedy_groups(pv, tol);
        let cs = greedy_clusters(pv, tol);
        let g = greedy_clusters(vs, tol);
        let v = vs.last();
        let n = vs.len() - 1;
        lemma_first_within_result(cs, v as int, tol as int);
        assert forall|i: int| 0 <= i < n implies #[trigger] pv[i] == vs[i] by {}
        match first_within(cs, v as int, tol as int) {
            Some(k) => {
                assert(g == cs.update(k, AxisCluster {
                    center: cs[k].center,
                    min: if v < cs[k].min { v } else { cs[k].min },
                    max: if v > cs[k].max { v } else { cs[k].max },
                }));
                assert forall|q: int| 0 <= q < g.len() implies (#[trigger] g[q]).min <= g[q].center <= g[q].max
                    && is_position(vs, g[q].center as int) by {
                    reveal(is_position);
                    assert(is_position(pv, cs[q].center as int));
                    let i = choose|i: int| 0 <= i < pv.len() && pv[i] == cs[q].center;
                    assert(vs[i] == g[q].center);
                }
                assert forall|i: int| 0 <= i < vs.len() implies #[trigger] has_cluster(g, vs[i] as int, tol as int) by {
                    if i < n {
                        assert(pv[i] == vs[i]);
                        assert(has_cluster(cs, pv[i] as int, tol as int));
                        let q = choose|q: int| #[trigger] in_cluster(cs, q, pv[i] as int, tol as int);
                        assert(in_cluster(g, q, vs[i] as int, tol as int));
                    } else {
                        assert(vs[i] == v);
                        assert(in_cluster(g, k, vs[i] as int, tol as int));
                    }
                }
                assert forall|j: int, q: int| 0 <= j < g.len() && 0 <= q < g.len() && j != q implies abs_int(
                    (#[trigger] g[j]).center - (#[trigger] g[q]).center,
                ) >= tol by {
                    assert(g[j].center == cs[j].center && g[q].center == cs[q].center);
                    assert(abs_int(cs[j].center - cs[q].center) >= tol);
                }
            },
            None => {
                let nc = AxisCluster { center: v, min: v, max: v };
                assert(g == cs.push(nc));
                assert forall|q: int| 0 <= q < g.len() implies (#[trigger] g[q]).min <= g[q].center <= g[q].max
                    && is_position(vs, g[q].center as int) by {
                    reveal(is_position);
                    if q < cs.len() {
                        assert(is_position(pv, cs[q].center as int));
                        let i = choose|i: int| 0 <= i < pv.len() && pv[i] == cs[q].center;
                        assert(vs[i] == g[q].center);
                    } else {
                        assert(vs[n] == g[q].center);
                    }
                }
                assert forall|i: int| 0 <= i < vs.len() implies #[trigger] has_cluster(g, vs[i] as int, tol as int) by {
                    if i < n {
                        assert(pv[i] == vs[i]);
                        assert(has_cluster(cs, pv[i] as int, tol as int));
                        let q = choose|q: int| #[trigger] in_cluster(cs, q, pv[i] as int, tol as int);
                        assert(g[q] == cs[q]);
                        assert(in_cluster(g, q, vs[i] as int, tol as int));
                    } else {
                        assert(g[cs.len() as int] == nc);
                        assert(in_cluster(g, cs.len() as int, vs[i] as int, tol as int));
                    }
                }
                assert forall|j: int, q: int| 0 <= j < g.len() && 0 <= q < g.len() && j != q implies abs_int(
                    (#[trigger] g[j]).center - (#[trigger] g[q]).center,
                ) >= tol by {
                    if j < cs.len() && q < cs.len() {
                        assert(g[j] == cs[j] && g[q] == cs[q]);
                    } else if j < cs.len() {
                        assert(g[j] == cs[j] && g[q] == nc);
                        assert(!(abs_int(v - cs[j].center) < tol));
                    } else {
                        assert(g[q] == cs[q] && g[j] == nc);
                        assert(!(abs_int(v - cs[q].center) < tol));
                    }
                }
            },
        }
    }
}

proof fn lemma_reorder_groups(cs: Seq<AxisCluster>, vs: Seq<i64>, tol: int, o: Seq<usize>)
    requires
        groups_positions(cs, vs, tol),
        o.len() == cs.len(),
        forall|i: int| 0 <= i < o.len() ==> (#[trigger] o[i]) < cs.len(),
        forall|i: int, j: int| 0 <= i < j < o.len() ==> o[i] != o[j],
    ensures
        groups_positions(reorder(cs, o), vs, tol),
{
    let r = reorder(cs, o);
    assert forall|k: int| 0 <= k < r.len() implies (#[trigger] r[k]).min <= r[k].center <= r[k].max && is_position(
        vs,
        r[k].center as int,
    ) by {
        assert(r[k] == cs[o[k] as int]);
        assert(cs[o[k] as int].min <= cs[o[k] as int].center);
    }
    assert forall|i: int| 0 <= i < vs.len() implies #[trigger] has_cluster(r, vs[i] as int, tol) by {
        assert(has_cluster(cs, vs[i] as int, tol));
        let q = choose|q: int| #[trigger] in_cluster(cs, q, vs[i] as int, tol);
        crate::order::lemma_order_onto(o, cs.len(), q);
        let k = choose|k: int| 0 <= k < cs.len() && o[k] == q;
        assert(r[k] == cs[q]);
        assert(in_cluster(r, k, vs[i] as int, tol));
    }
    assert forall|j: int, k: int| 0 <= j < r.len() && 0 <= k < r.len() && j != k implies abs_int(
        (#[trigger] r[j]).center - (#[trigger] r[k]).center,
    ) >= tol by {
        assert(r[j] == cs[o[j] as int] && r[k] == cs[o[k] as int]);
        if j < k {
            assert(o[j] != o[k]);
        } else {
            assert(o[k] != o[j]);
        }
        assert(cs[o[j] as int].min <= cs[o[j] as int].center);
        assert(cs[o[k] as int].min <= cs[o[k] as int].center);
    }
}

/// The columns group the spans' left edges: each column's range holds its
/// centre, the left edge of one of the spans; every span's left edge lies in
/// the range of a column whose centre is closer than the tolerance; and the
/// columns run left to right, their centres at least the tolerance apart.
pub proof fn lemma_columns_group_spans(spans: Seq<TextSpan>, tol: i64)
    requires
        tol > 0,
        spans.len() <= usize::MAX,
    ensures
        groups_positions(columns_of(spans, tol), span_lefts(spans), tol as int),
        forall|j: int, k: int|
            0 <= j < k < columns_of(spans, tol).len() ==> (#[trigger] columns_of(spans, tol)[j]).center + tol
                <= (#[trigger] columns_of(spans, tol)[k]).center,
{
    let vs = span_lefts(spans);
    let g = greedy_clusters(vs, tol);
    lemma_greedy_groups(vs, tol);
    lemma_greedy_clusters_len(vs, tol);
    let keys = centers(g);
    crate::order::lemma_stable_order(keys, keys.len());
    let o = sorted_order(keys);
    lemma_reorder_groups(g, vs, tol as int, o);
    let cs = columns_of(spans, tol);
    assert forall|j: int, k: int| 0 <= j < k < cs.len() implies (#[trigger] cs[j]).center + tol <= (#[trigger] cs[k]).center by {
        assert(keys[o[j] as int] <= keys[o[k] as int]);
        assert(cs[j] == g[o[j] as int] && cs[k] == g[o[k] as int]);
        assert(abs_int(cs[j].center - cs[k].center) >= tol);
    }
}

/// The rows group the spans' vertical centres: each row's range holds its
/// centre, the vertical centre of one of the spans; every span's centre lies
/// in the range of a row whose centre is closer than the tolerance; and the
/// rows run top to bottom, their centres at least the tolerance apart.
pub proof fn lemma_rows_group_spans(spans: Seq<TextSpan>, tol: i64)
    requires
        tol > 0,
        spans.len() <= usize::MAX,
        spans_wf(spans),
    ensures
        groups_positions(rows_of(spans, tol), span_center_ys(spans), tol as int),
        forall|j: int, k: int|
            0 <= j < k < rows_of(spans, tol).len() ==> (#[trigger] rows_of(spans, tol)[j]).center
                >= (#[trigger] rows_of(spans, tol)[k]).center + tol,
{
    let vs = span_center_ys(spans);
    let g = greedy_clusters(vs, tol);
    lemma_greedy_groups(vs, tol);
    lemma_greedy_clusters_len(vs, tol);
    let keys = neg_centers(g);
    crate::order::lemma_stable_order(keys, keys.len());
    let o = sorted_order(keys);
    lemma_reorder_groups(g, vs, tol as int, o);
    let cs = rows_of(spans, tol);
    assert forall|j: int, k: int| 0 <= j < k < cs.len() implies (#[trigger] cs[j]).center >= (#[trigger] cs[k]).center + tol by {
        assert(cs[j] == g[o[j] as int] && cs[k] == g[o[k] as int]);
        assert(o[j] < g.len() && o[k] < g.len());
        reveal(is_position);
        assert(is_position(vs, g[o[j] as int].center as int));
        assert(is_position(vs, g[o[k] as int].center as int));
        let ij = choose|i: int| 0 <= i < vs.len() && vs[i] == g[o[j] as int].center;
        let ik = choose|i: int| 0 <= i < vs.len() && vs[i] == g[o[k] as int].center;
        assert(spans[ij].bbox.wf() && spans[ik].bbox.wf());
        assert(keys[o[j] as int] <= keys[o[k] as int]);
        assert(abs_int(cs[j].center - cs[k].center) >= tol);
    }
}

/// A page has at most as many columns and rows as spans.
pub proof fn lemma_columns_rows_len(spans: Seq<TextSpan>, col_tol: i64, row_tol: i64)
    requires
        spans.len() <= usize::MAX,
    ensures
        columns_of(spans, col_tol).len() <= spans.len(),
        rows_of(spans, row_tol).len() <= spans.len(),
{
    let gc = greedy_clusters(span_lefts(spans), col_tol);
    let gr = greedy_clusters(span_center_ys(spans), row_tol);
    lemma_greedy_clusters_len(span_lefts(spans), col_tol);
    lemma_greedy_clusters_len(span_center_ys(spans), row_tol);
    crate::order::lemma_stable_order(centers(gc), gc.len());
    crate::order::lemma_stable_order(neg_centers(gr), gr.len());
}

/// Whether every cell of row `r` is empty.
pub open spec fn row_empty(grid: GridView, r: int) -> bool {
    forall|c: int| 0 <= c < grid.cells[r].len() ==> (#[trigger] grid.cells[r][c]).len() == 0
}

/// Whether the cell of column `c` is empty in every row.
pub open spec fn col_empty(grid: GridView, c: int) -> bool {
    forall|r: int| 0 <= r < grid.cells.len() ==> (#[trigger] grid.cells[r][c]).len() == 0
}

/// The first non-empty column at or after `c` (the column count when there is none).
pub open spec fn first_filled_col(grid: GridView, c: int) -> int
    decreases grid.columns.len() - c,
{
    if c >= grid.columns.len() {
        grid.columns.len() as int
    } else if !col_empty(grid, c) {
        c
    } else {
        first_filled_col(grid, c + 1)
    }
}

/// One past the last non-empty column before `e`, not going below `first`.
pub open spec fn last_filled_end(grid: GridView, first: int, e: int) -> int
    decreases e,
{
    if e > first && e > 0 && col_empty(grid, e - 1) {
        last_filled_end(grid, first, e - 1)
    } else {
        e
    }
}

/// Columns narrower than this (in thousandths of a point) are dropped when empty.
pub const NARROW_COLUMN: i64 = 2000;

/// The columns from `first` up to (not including) `c` that are kept: all but
/// the empty ones narrower than `NARROW_COLUMN`.
pub open spec fn kept_cols(grid: GridView, first: int, c: int) -> Seq<int>
    decreases c - first,
{
    if c <= first {
        seq![]
    } else {
        kept_cols(grid, first, c - 1) + if grid.columns[c - 1].max - grid.columns[c - 1].min < NARROW_COLUMN
            && col_empty(grid, c - 1) {
            seq![]
        } else {
            seq![c - 1]
        }
    }
}

/// The grid restricted to the given columns.
pub open spec fn select_cols(grid: GridView, cols: Seq<int>) -> GridView {
    GridView {
        columns: cols.map_values(|c: int| grid.columns[c]),
        rows: grid.rows,
        cells: Seq::new(grid.cells.len(), |r: int| cols.map_values(|c: int| grid.cells[r][c])),
    }
}

/// The grid without its empty outer columns and its narrow empty inner
/// columns; a grid with no non-empty column is left as it is.
pub open spec fn trimmed(grid: GridView) -> GridView {
    let f = first_filled_col(grid, 0);
    let l = last_filled_end(grid, f, grid.columns.len() as int);
    if f >= l {
        grid
    } else {
        let keep = kept_cols(grid, f, l);
        if keep.len() == 0 {
            grid
        } else {
            select_cols(grid, keep)
        }
    }
}

proof fn lemma_kept_cols_range(grid: GridView, first: int, c: int)
    requires
        first >= 0,
    ensures
        forall|k: int| 0 <= k < kept_cols(grid, first, c).len() ==> first <= #[trigger] kept_cols(grid, first, c)[k] < c,
        kept_cols(grid, first, c).len() <= if c >= first { c - first } else { 0 },
    decreases c - first,
{
    if c > first {
        lemma_kept_cols_range(grid, first, c - 1);
        let p = kept_cols(grid, first, c - 1);
        let q = kept_cols(grid, first, c);
        assert forall|k: int| 0 <= k < q.len() implies first <= #[trigger] q[k] < c by {
            if k < p.len() {
                assert(q[k] == p[k]);
            }
        }
    }
}

proof fn lemma_first_filled(grid: GridView, c: int)
    requires
        0 <= c <= grid.columns.len(),
    ensures
        c <= first_filled_col(grid, c) <= grid.columns.len(),
    decreases grid.columns.len() - c,
{
    if c < grid.columns.len() && col_empty(grid, c) {
        lemma_first_filled(grid, c + 1);
    }
}

proof fn lemma_last_filled(grid: GridView, first: int, e: int)
    requires
        0 <= e,
    ensures
        0 <= last_filled_end(grid, first, e) <= e,
    decreases e,
{
    if e > first && e > 0 && col_empty(grid, e - 1) {
        lemma_last_filled(grid, first, e - 1);
    }
}

proof fn lemma_first_filled_empties(grid: GridView, c: int)
    requires
        0 <= c <= grid.columns.len(),
    ensures
        forall|x: int| c <= x < first_filled_col(grid, c) ==> #[trigger] col_empty(grid, x),
        first_filled_col(grid, c) < grid.columns.len() ==> !col_empty(grid, first_filled_col(grid, c)),
    decreases grid.columns.len() - c,
{
    if c < grid.columns.len() && col_empty(grid, c) {
        lemma_first_filled_empties(grid, c + 1);
    }
}

proof fn lemma_last_filled_empties(grid: GridView, first: int, e: int)
    requires
        0 <= first <= e,
    ensures
        first <= last_filled_end(grid, first, e) <= e,
        forall|x: int| last_filled_end(grid, first, e) <= x < e ==> #[trigger] col_empty(grid, x),
        last_filled_end(grid, first, e) > first ==> !col_empty(grid, last_filled_end(grid, first, e) - 1),
    decreases e,
{
    if e > first && e > 0 && col_empty(grid, e - 1) {
        lemma_last_filled_empties(grid, first, e - 1);
    }
}

/// Whether column `c` survives trimming between its outer filled columns:
/// it is not both narrow and empty.
pub open spec fn kept_col(grid: GridView, c: int) -> bool {
    !(grid.columns[c].max - grid.columns[c].min < NARROW_COLUMN && col_empty(grid, c))
}

proof fn lemma_kept_cols_props(grid: GridView, first: int, c: int)
    requires
        0 <= first,
    ensures
        forall|i: int, j: int|
            0 <= i < j < kept_cols(grid, first, c).len() ==> #[trigger] kept_cols(grid, first, c)[i]
                < #[trigger] kept_cols(grid, first, c)[j],
        forall|x: int| first <= x < c && kept_col(grid, x) ==> #[trigger] kept_cols(grid, first, c).contains(x),
        c > first && kept_col(grid, first) ==> kept_cols(grid, first, c).len() > 0 && kept_cols(grid, first, c)[0]
            == first,
    decreases c - first,
{
    lemma_kept_cols_range(grid, first, c);
    if c > first {
        lemma_kept_cols_props(grid, first, c - 1);
        lemma_kept_cols_range(grid, first, c - 1);
        let p = kept_cols(grid, first, c - 1);
        let q = kept_cols(grid, first, c);
        assert forall|i: int, j: int| 0 <= i < j < q.len() implies #[trigger] q[i] < #[trigger] q[j] by {
            assert(q[i] == p[i]);
            if j < p.len() {
                assert(q[j] == p[j]);
            }
        }
        assert forall|x: int| first <= x < c && kept_col(grid, x) implies #[trigger] q.contains(x) by {
            if x < c - 1 {
                assert(p.contains(x));
                let w = choose|w: int| 0 <= w < p.len() && p[w] == x;
                assert(q[w] == x);
            } else {
                assert(q[p.len() as int] == x);
            }
        }
        if kept_col(grid, first) {
            if c - 1 > first {
                assert(q[0] == p[0]);
            } else {
                assert(p.len() == 0);
                assert(q[0] == first);
            }
        }
    }
}

/// Whether `keep` lists, in increasing order, columns of a grid with `n` columns.
pub open spec fn is_selection(keep: Seq<int>, n: int) -> bool {
    &&& forall|k: int| 0 <= k < keep.len() ==> 0 <= #[trigger] keep[k] < n
    &&& forall|i: int, j: int| 0 <= i < j < keep.len() ==> #[trigger] keep[i] < #[trigger] keep[j]
}

/// Whether some column of the grid holds a span index.
pub open spec fn some_filled_col(grid: GridView) -> bool {
    exists|c: int| 0 <= c < grid.columns.len() && !#[trigger] col_empty(grid, c)
}

/// Trimming keeps the rows and selects columns: an increasing selection
/// that holds every non-empty column and, when there is one, begins and ends
/// with a non-empty column; a grid with no non-empty column is kept whole.
pub proof fn lemma_trim_selects_columns(grid: GridView)
    requires
        grid.shape_ok(),
    ensures
        trimmed(grid).rows == grid.rows,
        trimmed(grid).cells.len() == grid.cells.len(),
        !some_filled_col(grid) ==> trimmed(grid) == grid,
        exists|keep: Seq<int>|
            {
                &&& is_selection(keep, grid.columns.len() as int)
                &&& trimmed(grid).columns == keep.map_values(|c: int| grid.columns[c])
                &&& forall|r: int|
                    0 <= r < grid.cells.len() ==> #[trigger] trimmed(grid).cells[r] == keep.map_values(
                        |c: int| grid.cells[r][c],
                    )
                &&& forall|c: int|
                    0 <= c < grid.columns.len() && !col_empty(grid, c) ==> #[trigger] keep.contains(c)
                &&& some_filled_col(grid) ==> keep.len() > 0 && !col_empty(grid, keep[0]) && !col_empty(
                    grid,
                    keep.last(),
                )
            },
{
    let n = grid.columns.len() as int;
    let f = first_filled_col(grid, 0);
    lemma_first_filled(grid, 0);
    lemma_first_filled_empties(grid, 0);
    let l = last_filled_end(grid, f, n);
    lemma_last_filled_empties(grid, f, n);
    let all = Seq::new(n as nat, |c: int| c);
    if !some_filled_col(grid) {
        assert(f == n) by {
            if f < n {
                assert(!col_empty(grid, f));
            }
        }
        assert(grid.columns =~= all.map_values(|c: int| grid.columns[c]));
        assert forall|r: int| 0 <= r < grid.cells.len() implies #[trigger] trimmed(grid).cells[r] == all.map_values(
            |c: int| grid.cells[r][c],
        ) by {
            assert(grid.cells[r] =~= all.map_values(|c: int| grid.cells[r][c]));
        }
        assert(is_selection(all, n));
    } else {
        let c0 = choose|c: int| 0 <= c < n && !col_empty(grid, c);
        assert(f < n) by {
            if f >= n {
                assert(col_empty(grid, c0));
            }
        }
        assert(!col_empty(grid, f));
        assert(l > f) by {
            if l <= f {
                assert(col_empty(grid, f));
            }
        }
        assert(!col_empty(grid, l - 1));
        let keep = kept_cols(grid, f, l);
        lemma_kept_cols_range(grid, f, l);
        lemma_kept_cols_props(grid, f, l);
        assert(kept_col(grid, f));
        assert(kept_col(grid, l - 1));
        assert(keep.contains(l - 1));
        assert(keep.last() == l - 1) by {
            let w = choose|w: int| 0 <= w < keep.len() && keep[w] == l - 1;
            if w < keep.len() - 1 {
                assert(keep[w] < keep[keep.len() - 1]);
            }
        }
        assert(trimmed(grid) == select_cols(grid, keep));
        assert forall|c: int| 0 <= c < n && !col_empty(grid, c) implies #[trigger] keep.contains(c) by {
            assert(f <= c) by {
                if c < f {
                    assert(col_empty(grid, c));
                }
            }
            assert(c < l) by {
                if c >= l {
                    assert(col_empty(grid, c));
                }
            }
            assert(kept_col(grid, c));
        }
        assert(is_selection(keep, n));
        assert forall|r: int| 0 <= r < grid.cells.len() implies #[trigger] trimmed(grid).cells[r] == keep.map_values(
            |c: int| grid.cells[r][c],
        ) by {}
    }
}

/// Trimming keeps the rows, and a well-formed grid stays well formed.
pub proof fn lemma_trimmed_wf(grid: GridView, n: nat)
    requires
        grid.wf(n),
    ensures
        trimmed(grid).wf(n),
        trimmed(grid).rows == grid.rows,
        trimmed(grid).columns.len() <= grid.columns.len(),
{
    let f = first_filled_col(grid, 0);
    lemma_first_filled(grid, 0);
    let l = last_filled_end(grid, f, grid.columns.len() as int);
    lemma_last_filled(grid, f, grid.columns.len() as int);
    if f < l {
        let keep = kept_cols(grid, f, l);
        lemma_kept_cols_range(grid, f, l);
        if keep.len() > 0 {
            let t = select_cols(grid, keep);
            assert(t == trimmed(grid));
            assert forall|i: int| 0 <= i < t.columns.len() implies {
                &&& coord_ok((#[trigger] t.columns[i]).center as int)
                &&& coord_ok(t.columns[i].min as int)
                &&& coord_ok(t.columns[i].max as int)
            } by {
                assert(t.columns[i] == grid.columns[keep[i]]);
            }
            assert forall|r: int| 0 <= r < t.cells.len() implies (#[trigger] t.cells[r]).len() == t.columns.len() by {}
            assert forall|r: int, c: int, k: int|
                0 <= r < t.cells.len() && 0 <= c < t.cells[r].len() && 0 <= k < t.cells[r][c].len()
                    implies #[trigger] t.cells[r][c][k] < n by {
                assert(t.cells[r][c] == grid.cells[r][keep[c]]);
            }
        }
    }
}

impl GridStructure {
    /// Whether every cell of row `row_idx` is empty.
    pub fn is_row_empty(&self, row_idx: usize) -> (b: bool)
        requires
            row_idx < self@.cells.len(),
        ensures
            b == row_empty(self@, row_idx as int),
    {
        let row = &self.cells[row_idx];
        proof {
            assert(self@.cells[row_idx as int] == row@.map_values(|cell: Vec<usize>| cell@));
        }
        let n = row.len();
        let mut c: usize = 0;
        while c < n
            invariant
                n == row@.len(),
                self@.cells[row_idx as int] == row@.map_values(|cell: Vec<usize>| cell@),
                c <= n,
                forall|q: int| 0 <= q < c ==> (#[trigger] self@.cells[row_idx as int][q]).len() == 0,
            decreases n - c,
        {
            if row[c].len() > 0 {
                proof {
                    assert(self@.cells[row_idx as int][c as int] == row@[c as int]@);
                }
                return false;
            }
            proof {
                assert(self@.cells[row_idx as int][c as int] == row@[c as int]@);
            }
            c = c + 1;
        }
        true
    }

    /// Whether the cell of column `col_idx` is empty in every row.
    pub fn is_column_empty(&self, col_idx: usize) -> (b: bool)
        requires
            self@.shape_ok(),
            col_idx < self@.columns.len(),
        ensures
            b == col_empty(self@, col_idx as int),
    {
        let n = self.cells.len();
        let mut r: usize = 0;
        while r < n
            invariant
                n == self@.cells.len(),
                self@.shape_ok(),
                col_idx < self@.columns.len(),
                r <= n,
                forall|q: int| 0 <= q < r ==> (#[trigger] self@.cells[q][col_idx as int]).len() == 0,
            decreases n - r,
        {
            proof {
                assert(self@.cells[r as int] == self.cells@[r as int]@.map_values(|cell: Vec<usize>| cell@));
                assert(self@.cells[r as int][col_idx as int] == self.cells@[r as int]@[col_idx as int]@);
            }
            if self.cells[r][col_idx].len() > 0 {
                return false;
            }
            r = r + 1;
        }
        true
    }

    /// A copy of the grid.
    pub fn copy(&self) -> (g: GridStructure)
        ensures
            g@ == self@,
    {
        let ghost gv = self@;
        let nr = self.cells.len();
        let mut cells: Vec<Vec<Vec<usize>>> = Vec::new();
        let mut r: usize = 0;
        while r < nr
            invariant
                nr == self.cells@.len(),
                gv == self@,
                r <= nr,
                cells_view(cells@) == gv.cells.take(r as int),
            decreases nr - r,
        {
            let src = &self.cells[r];
            proof {
                assert(gv.cells[r as int] == src@.map_values(|cell: Vec<usize>| cell@));
            }
            let m = src.len();
            let mut row: Vec<Vec<usize>> = Vec::new();
            let mut k: usize = 0;
            while k < m
                invariant
                    m == src@.len(),
                    k <= m,
                    row@.len() == k,
                    forall|j: int| 0 <= j < k ==> #[trigger] row@[j]@ == src@[j]@,
                decreases m - k,
            {
                let cell = copy_cell(&src[k]);
                row.push(cell);
                k = k + 1;
            }
            proof {
                assert(row@.map_values(|cell: Vec<usize>| cell@) =~= gv.cells[r as int]);
            }
            let ghost before = cells_view(cells@);
            cells.push(row);
            proof {
                assert(cells_view(cells@) =~= before.push(gv.cells[r as int]));
                assert(cells_view(cells@) =~= gv.cells.take(r + 1));
            }
            r = r + 1;
        }
        proof {
            assert(gv.cells.take(nr as int) =~= gv.cells);
        }
        let columns = self.columns.clone();
        let rows = self.rows.clone();
        let g = GridStructure { columns, rows, cells };
        proof {
            assert(g.columns@ =~= self.columns@);
            assert(g.rows@ =~= self.rows@);
        }
        g
    }

    /// The grid without its empty outer columns and its narrow empty inner columns.
    pub fn trim_empty_columns(&self) -> (g: GridStructure)
        requires
            self@.shape_ok(),
        ensures
            g@ == trimmed(self@),
    {
        let ghost gv = self@;
        let num_cols = self.columns.len();
        let mut first_col: usize = 0;
        proof {
            lemma_first_filled(gv, 0);
        }
        while first_col < num_cols && self.is_column_empty(first_col)
            invariant
                gv == self@,
                gv.shape_ok(),
                num_cols == gv.columns.len(),
                first_col <= num_cols,
                first_filled_col(gv, 0) == first_filled_col(gv, first_col as int),
            decreases num_cols - first_col,
        {
            first_col = first_col + 1;
        }
        let mut last_col: usize = num_cols;
        while last_col > first_col && self.is_column_empty(last_col - 1)
            invariant
                gv == self@,
                gv.shape_ok(),
                num_cols == gv.columns.len(),
                first_col <= last_col <= num_cols,
                first_col == first_filled_col(gv, 0),
                last_filled_end(gv, first_col as int, num_cols as int) == last_filled_end(gv, first_col as int, last_col as int),
            decreases last_col,
        {
            last_col = last_col - 1;
        }
        if first_col >= last_col {
            return self.copy();
        }
        let mut active: Vec<usize> = Vec::new();
        let mut c: usize = first_col;
        while c < last_col
            invariant
                gv == self@,
                gv.shape_ok(),
                num_cols == gv.columns.len(),
                first_col <= c <= last_col <= num_cols,
                active@.map_values(|k: usize| k as int) == kept_cols(gv, first_col as int, c as int),
                forall|k: int| 0 <= k < active@.len() ==> #[trigger] active@[k] < num_cols,
            decreases last_col - c,
        {
            proof {
                assert(clusters_ok(gv.columns));
                assert(coord_ok(gv.columns[c as int].max as int) && coord_ok(gv.columns[c as int].min as int));
            }
            let col_width = self.columns[c].max - self.columns[c].min;
            let skip = col_width < NARROW_COLUMN && self.is_column_empty(c);
            let ghost before = active@;
            if !skip {
                active.push(c);
            }
            proof {
                assert(active@.map_values(|k: usize| k as int) =~= kept_cols(gv, first_col as int, c + 1));
            }
            c = c + 1;
        }
        if active.len() == 0 {
            return self.copy();
        }
        select_columns(self, &active)
    }
}

/// A copy of the cell list `cell`.
pub(crate) fn copy_cell(cell: &Vec<usize>) -> (c: Vec<usize>)
    ensures
        c@ == cell@,
{
    let mut c: Vec<usize> = Vec::new();
    let n = cell.len();
    let mut i: usize = 0;
    while i < n
        invariant
            n == cell@.len(),
            i <= n,
            c@ == cell@.take(i as int),
        decreases n - i,
    {
        c.push(cell[i]);
        proof {
            assert(c@ =~= cell@.take(i + 1));
        }
        i = i + 1;
    }
    proof {
        assert(cell@.take(n as int) =~= cell@);
    }
    c
}

/// The grid restricted to the listed columns.
fn select_columns(grid: &GridStructure, cols: &Vec<usize>) -> (g: GridStructure)
    requires
        forall|k: int| 0 <= k < cols@.len() ==> #[trigger] cols@[k] < grid@.columns.len(),
        forall|r: int| 0 <= r < grid@.cells.len() ==> (#[trigger] grid@.cells[r]).len() == grid@.columns.len(),
    ensures
        g@ == select_cols(grid@, cols@.map_values(|k: usize| k as int)),
{
    let ghost gv = grid@;
    let ghost cv = cols@.map_values(|k: usize| k as int);
    let m = cols.len();
    let mut columns: Vec<AxisCluster> = Vec::new();
    let mut k: usize = 0;
    while k < m
        invariant
            m == cols@.len(),
            cv == cols@.map_values(|k: usize| k as int),
            gv == grid@,
            forall|q: int| 0 <= q < m ==> #[trigger] cols@[q] < gv.columns.len(),
            k <= m,
            columns@ == cv.take(k as int).map_values(|c: int| gv.columns[c]),
        decreases m - k,
    {
        columns.push(grid.columns[cols[k]]);
        proof {
            assert(columns@ =~= cv.take(k + 1).map_values(|c: int| gv.columns[c]));
        }
        k = k + 1;
    }
    proof {
        assert(cv.take(m as int) =~= cv);
    }
    let nr = grid.cells.len();
    let mut cells: Vec<Vec<Vec<usize>>> = Vec::new();
    let mut r: usize = 0;
    while r < nr
        invariant
            nr == grid.cells@.len(),
            m == cols@.len(),
            cv == cols@.map_values(|k: usize| k as int),
            gv == grid@,
            forall|q: int| 0 <= q < m ==> #[trigger] cols@[q] < gv.columns.len(),
            forall|q: int| 0 <= q < gv.cells.len() ==> (#[trigger] gv.cells[q]).len() == gv.columns.len(),
            r <= nr,
            cells_view(cells@) == Seq::new(r as nat, |q: int| cv.map_values(|c: int| gv.cells[q][c])),
        decreases nr - r,
    {
        let src = &grid.cells[r];
        proof {
            assert(gv.cells[r as int] == src@.map_values(|cell: Vec<usize>| cell@));
        }
        let mut row: Vec<Vec<usize>> = Vec::new();
        let mut k: usize = 0;
        while k < m
            invariant
                m == cols@.len(),
                cv == cols@.map_values(|k: usize| k as int),
                gv == grid@,
                r < gv.cells.len(),
                forall|q: int| 0 <= q < m ==> #[trigger] cols@[q] < gv.columns.len(),
                gv.cells[r as int].len() == gv.columns.len(),
                gv.cells[r as int] == src@.map_values(|cell: Vec<usize>| cell@),
                k <= m,
                row@.len() == k,
                row@.map_values(|cell: Vec<usize>| cell@) == cv.take(k as int).map_values(|c: int| gv.cells[r as int][c]),
            decreases m - k,
        {
            let cell = copy_cell(&src[cols[k]]);
            proof {
                assert(gv.cells[r as int][cols@[k as int] as int] == src@[cols@[k as int] as int]@);
            }
            let ghost before = row@;
            row.push(cell);
            proof {
                assert forall|j: int| 0 <= j < k + 1 implies #[trigger] row@[j]@ == gv.cells[r as int][cv[j]] by {
                    if j < k {
                        assert(row@[j] == before[j]);
                        assert(before.map_values(|cell: Vec<usize>| cell@)[j] == cv.take(k as int).map_values(|c: int| gv.cells[r as int][c])[j]);
                    } else {
                        assert(cv[j] == cols@[k as int] as int);
                    }
                }
                assert(row@.map_values(|cell: Vec<usize>| cell@) =~= cv.take(k + 1).map_values(|c: int| gv.cells[r as int][c]));
            }
            k = k + 1;
        }
        proof {
            assert(cv.take(m as int) =~= cv);
        }
        let ghost before = cells_view(cells@);
        cells.push(row);
        proof {
            assert(cells_view(cells@) =~= before.push(cv.map_values(|c: int| gv.cells[r as int][c])));
            assert(cells_view(cells@) =~= Seq::new((r + 1) as nat, |q: int| cv.map_values(|c: int| gv.cells[q][c])));
        }
        r = r + 1;
    }
    let mut rows: Vec<AxisCluster> = Vec::new();
    let nrows = grid.rows.len();
    let mut q: usize = 0;
    while q < nrows
        invariant
            nrows == gv.rows.len(),
            gv == grid@,
            q <= nrows,
            rows@ == gv.rows.take(q as int),
        decreases nrows - q,
    {
        rows.push(grid.rows[q]);
        proof {
            assert(rows@ =~= gv.rows.take(q + 1));
        }
        q = q + 1;
    }
    proof {
        assert(gv.rows.take(nrows as int) =~= gv.rows);
    }
    let g = GridStructure { columns, rows, cells };
    proof {
        assert(g@.cells =~= select_cols(gv, cv).cells);
    }
    g
}

} // verus!
