//! Tables bounded by ruling lines: grid positions from line positions, and
//! merged cells from missing separators.
use crate::elements::PathContent;
use crate::geometry::{abs_i64, abs_int, coord_ok, floor_half, half_floor, Rect, COORD_LIMIT};
use crate::layout::TextSpan;
use crate::order::{is_stable_order, sorted_order, stable_sort_order};
use crate::structure::grid::{
    cells_view, clusters_ok, copy_cell, empty_cells, grid_table, grid_to_extracted_table, lemma_trimmed_wf,
    push_to_cell, row_empty, spans_wf, table_structure_ok, trimmed, validate_table_structure_internal, values_ok,
    AxisCluster, GridStructure, GridView,
};
use crate::structure::spatial_table_detector::{tables_view, TableDetectionConfig};
use crate::structure::visual_merge::{detect_merged_cells_visually, visual_merge};
use crate::structure::line_clusters::{LineCluster, LineClusterView};
use crate::structure::table_extractor::{row_has_colspan, CellView, ExtractedTable, RowView, TableView};
use crate::structure::visual_merge::{line_refs_ok, SEPARATOR_TOL};
use vstd::prelude::*;

verus! {

/// Index of the first group (sum, count) whose mean, rounded down, is closer than `tol` to `v`.
pub open spec fn first_mean_within(gs: Seq<(int, int)>, v: int, tol: int) -> Option<int>
    decreases gs.len(),
{
    if gs.len() == 0 {
        None
    } else if abs_int(v - gs[0].0 / gs[0].1) < tol {
        Some(0)
    } else {
        match first_mean_within(gs.drop_first(), v, tol) {
            Some(k) => Some(k + 1),
            None => None,
        }
    }
}

/// Greedy grouping of values in order: each value joins the first group whose
/// mean is closer than `tol`, or starts a new group. Groups are (sum, count).
pub open spec fn mean_groups(vs: Seq<i64>, tol: i64) -> Seq<(int, int)>
    decreases vs.len(),
{
    if vs.len() == 0 {
        seq![]
    } else {
        let gs = mean_groups(vs.drop_last(), tol);
        let v = vs.last() as int;
        match first_mean_within(gs, v, tol as int) {
            Some(k) => if 0 <= k < gs.len() {
                gs.update(k, (gs[k].0 + v, gs[k].1 + 1))
            } else {
                gs
            },
            None => gs.push((v, 1)),
        }
    }
}

/// The groups' means, rounded down, in the order the groups were started.
pub open spec fn cluster_means(vs: Seq<i64>, tol: i64) -> Seq<i64> {
    mean_groups(vs, tol).map_values(|g: (int, int)| (g.0 / g.1) as i64)
}

/// `floor(a / b)` for `b > 0`.
fn floor_div(a: i128, b: i128) -> (q: i128)
    requires
        0 < b <= 0x1_0000_0000_0000_0000,
        -0x1_0000_0000_0000_0000_0000_0000_0000 <= a <= 0x1_0000_0000_0000_0000_0000_0000_0000,
    ensures
        q == a as int / b as int,
{
    if a >= 0 {
        a / b
    } else {
        let m: i128 = -a;
        let q: i128 = (m + b - 1) / b;
        proof {
            let ai = a as int;
            let bi = b as int;
            let mi = m as int;
            let qi = q as int;
            let t = (mi + bi - 1) % bi;
            assert(mi + bi - 1 == qi * bi + t && 0 <= t < bi) by (nonlinear_arith)
                requires
                    qi == (mi + bi - 1) / bi,
                    t == (mi + bi - 1) % bi,
                    bi > 0,
                    mi + bi - 1 >= 0,
            ;
            assert(ai == (-qi) * bi + (bi - 1 - t)) by (nonlinear_arith)
                requires
                    mi + bi - 1 == qi * bi + t,
                    ai == -mi,
            ;
            vstd::arithmetic::div_mod::lemma_fundamental_div_mod_converse(ai, bi, -qi, bi - 1 - t);
        }
        -q
    }
}

proof fn lemma_mean_bounds(sum: int, count: int)
    requires
        count >= 1,
        -(COORD_LIMIT as int) * count <= sum <= (COORD_LIMIT as int) * count,
    ensures
        coord_ok(sum / count),
{
    let q = sum / count;
    let r = sum % count;
    assert(sum == q * count + r && 0 <= r < count) by (nonlinear_arith)
        requires
            count >= 1,
            q == sum / count,
            r == sum % count,
    ;
    assert(-(COORD_LIMIT as int) <= q <= COORD_LIMIT as int) by (nonlinear_arith)
        requires
            sum == q * count + r,
            0 <= r < count,
            count >= 1,
            -(COORD_LIMIT as int) * count <= sum <= (COORD_LIMIT as int) * count,
    ;
}

proof fn lemma_first_mean_within(gs: Seq<(int, int)>, v: int, tol: int, k: int)
    requires
        0 <= k <= gs.len(),
        forall|j: int| 0 <= j < k ==> !(abs_int(v - (#[trigger] gs[j]).0 / gs[j].1) < tol),
    ensures
        k < gs.len() && abs_int(v - gs[k].0 / gs[k].1) < tol ==> first_mean_within(gs, v, tol) == Some(k),
        k == gs.len() ==> first_mean_within(gs, v, tol) is None,
    decreases k,
{
    if k > 0 {
        let t = gs.drop_first();
        assert forall|j: int| 0 <= j < k - 1 implies !(abs_int(v - (#[trigger] t[j]).0 / t[j].1) < tol) by {
            assert(t[j] == gs[j + 1]);
        }
        lemma_first_mean_within(t, v, tol, k - 1);
    }
}

/// Group values greedily by running mean, as `mean_groups` describes it, and
/// give each group's mean (rounded down).
pub fn cluster_values(values: &Vec<i64>, tolerance: i64) -> (means: Vec<i64>)
    requires
        values_ok(values@),
    ensures
        means@ == cluster_means(values@, tolerance),
        values_ok(means@),
        means@.len() <= values@.len(),
{
    let n = values.len();
    let mut sums: Vec<i128> = Vec::new();
    let mut counts: Vec<u64> = Vec::new();
    let mut means: Vec<i64> = Vec::new();
    let mut i: usize = 0;
    while i < n
        invariant
            n == values@.len(),
            i <= n,
            n <= usize::MAX,
            values_ok(values@),
            sums@.len() == counts@.len(),
            means@.len() == counts@.len(),
            means@.len() <= i,
            mean_groups(values@.take(i as int), tolerance) == Seq::new(
                sums@.len(),
                |k: int| (sums@[k] as int, counts@[k] as int),
            ),
            forall|k: int|
                0 <= k < counts@.len() ==> {
                    &&& 1 <= #[trigger] counts@[k] <= i
                    &&& -(COORD_LIMIT as int) * counts@[k] <= sums@[k] <= (COORD_LIMIT as int) * counts@[k]
                    &&& means@[k] as int == sums@[k] as int / counts@[k] as int
                    &&& coord_ok(means@[k] as int)
                },
        decreases n - i,
    {
        let v = values[i];
        let ghost gs = Seq::new(sums@.len(), |k: int| (sums@[k] as int, counts@[k] as int));
        proof {
            assert(coord_ok(values@[i as int] as int));
            assert(values@.take(i + 1).drop_last() =~= values@.take(i as int));
            assert(values@.take(i + 1).last() == v);
        }
        let m = means.len();
        proof {
            assert forall|k: int| 0 <= k < m implies coord_ok(#[trigger] means@[k] as int) by {
                assert(1 <= counts@[k]);
            }
        }
        let mut j: usize = 0;
        while j < m && !(abs_i64(v - means[j]) < tolerance)
            invariant
                m == means@.len(),
                m == gs.len(),
                j <= m,
                coord_ok(v as int),
                forall|k: int| 0 <= k < m ==> coord_ok(#[trigger] means@[k] as int),
                forall|k: int| 0 <= k < m ==> #[trigger] gs[k].0 / gs[k].1 == means@[k] as int,
                forall|q: int| 0 <= q < j ==> !(abs_int(v - (#[trigger] gs[q]).0 / gs[q].1) < tolerance),
            decreases m - j,
        {
            proof {
                assert(gs[j as int].0 / gs[j as int].1 == means@[j as int] as int);
            }
            j = j + 1;
        }
        proof {
            if j < m {
                assert(gs[j as int].0 / gs[j as int].1 == means@[j as int] as int);
            }
            lemma_first_mean_within(gs, v as int, tolerance as int, j as int);
        }
        let ghost old_counts = counts@;
        let ghost old_sums = sums@;
        let ghost old_means = means@;
        if j < m {
            let s = sums[j] + v as i128;
            let c = counts[j] + 1;
            proof {
                assert((COORD_LIMIT as int) * counts@[j as int] + (COORD_LIMIT as int) == (COORD_LIMIT as int) * (
                counts@[j as int] + 1)) by (nonlinear_arith);
                assert(-(COORD_LIMIT as int) * counts@[j as int] - (COORD_LIMIT as int) == -(COORD_LIMIT as int) * (
                counts@[j as int] + 1)) by (nonlinear_arith);
                assert((COORD_LIMIT as int) * (c as int) <= (COORD_LIMIT as int) * 0x1_0000_0000_0000_0000) by (nonlinear_arith)
                    requires
                        c <= 0x1_0000_0000_0000_0000,
                ;
                lemma_mean_bounds(s as int, c as int);
            }
            let mean = floor_div(s, c as i128) as i64;
            sums.set(j, s);
            counts.set(j, c);
            means.set(j, mean);
        } else {
            sums.push(v as i128);
            counts.push(1);
            means.push(v);
        }
        proof {
            assert forall|k: int| 0 <= k < counts@.len() implies {
                &&& 1 <= #[trigger] counts@[k] <= i + 1
                &&& -(COORD_LIMIT as int) * counts@[k] <= sums@[k] <= (COORD_LIMIT as int) * counts@[k]
                &&& means@[k] as int == sums@[k] as int / counts@[k] as int
                &&& coord_ok(means@[k] as int)
            } by {
                if k != j {
                    assert(counts@[k] == old_counts[k] && sums@[k] == old_sums[k] && means@[k] == old_means[k]);
                }
            }
            assert(mean_groups(values@.take(i + 1), tolerance) =~= Seq::new(
                sums@.len(),
                |k: int| (sums@[k] as int, counts@[k] as int),
            ));
        }
        i = i + 1;
    }
    proof {
        assert(values@.take(n as int) =~= values@);
        let gs = mean_groups(values@, tolerance);
        assert(means@ =~= cluster_means(values@, tolerance));
    }
    means
}

/// Shortest extent, in thousandths of a point, of a rule that bounds rows or columns.
pub const MIN_RULE_LENGTH: i64 = 5000;

/// A horizontal rule long enough to bound a row.
pub open spec fn row_rule(p: PathContent) -> bool {
    p.spec_is_horizontal_line(SEPARATOR_TOL as int) && p.bbox.width > MIN_RULE_LENGTH
}

/// A vertical rule long enough to bound a column.
pub open spec fn column_rule(p: PathContent) -> bool {
    p.spec_is_vertical_line(SEPARATOR_TOL as int) && abs_int(p.bbox.height as int) > MIN_RULE_LENGTH
}

/// The heights (centre y) of the row rules among the paths named by `idxs`, in order.
pub open spec fn rule_ys(lines: Seq<PathContent>, idxs: Seq<usize>) -> Seq<i64>
    decreases idxs.len(),
{
    if idxs.len() == 0 {
        seq![]
    } else {
        let p = lines[idxs.last() as int];
        rule_ys(lines, idxs.drop_last()) + if row_rule(p) {
            seq![p.bbox.spec_center_y() as i64]
        } else {
            seq![]
        }
    }
}

/// The positions (centre x) of the column rules among the paths named by `idxs`, in order.
pub open spec fn rule_xs(lines: Seq<PathContent>, idxs: Seq<usize>) -> Seq<i64>
    decreases idxs.len(),
{
    if idxs.len() == 0 {
        seq![]
    } else {
        let p = lines[idxs.last() as int];
        rule_xs(lines, idxs.drop_last()) + if column_rule(p) {
            seq![p.bbox.spec_center_x() as i64]
        } else {
            seq![]
        }
    }
}

/// `(rule_ys, rule_xs)` of the paths named by `idxs`.
fn rule_positions(lines: &[PathContent], idxs: &Vec<usize>) -> (r: (Vec<i64>, Vec<i64>))
    requires
        line_refs_ok(lines@, idxs@),
    ensures
        r.0@ == rule_ys(lines@, idxs@),
        r.1@ == rule_xs(lines@, idxs@),
        values_ok(r.0@),
        values_ok(r.1@),
        r.0@.len() <= idxs@.len(),
        r.1@.len() <= idxs@.len(),
{
    let n = idxs.len();
    let mut ys: Vec<i64> = Vec::new();
    let mut xs: Vec<i64> = Vec::new();
    let mut k: usize = 0;
    while k < n
        invariant
            n == idxs@.len(),
            k <= n,
            line_refs_ok(lines@, idxs@),
            ys@ == rule_ys(lines@, idxs@.take(k as int)),
            xs@ == rule_xs(lines@, idxs@.take(k as int)),
            values_ok(ys@),
            values_ok(xs@),
            ys@.len() <= k,
            xs@.len() <= k,
        decreases n - k,
    {
        proof {
            assert(idxs@.take(k + 1).drop_last() =~= idxs@.take(k as int));
            assert(idxs@.take(k + 1).last() == idxs@[k as int]);
            assert(idxs@[k as int] < lines@.len());
            assert(lines@[idxs@[k as int] as int].bbox.wf());
        }
        let p = &lines[idxs[k]];
        if p.is_horizontal_line(SEPARATOR_TOL) && p.bbox.width > MIN_RULE_LENGTH {
            let c = p.bbox.center();
            ys.push(c.y);
        }
        if p.is_vertical_line(SEPARATOR_TOL) && abs_i64(p.bbox.height) > MIN_RULE_LENGTH {
            let c = p.bbox.center();
            xs.push(c.x);
        }
        proof {
            assert(ys@ =~= rule_ys(lines@, idxs@.take(k + 1)));
            assert(xs@ =~= rule_xs(lines@, idxs@.take(k + 1)));
        }
        k = k + 1;
    }
    proof {
        assert(idxs@.take(n as int) =~= idxs@);
    }
    (ys, xs)
}

/// The values in ascending order.
pub open spec fn ascending(vs: Seq<i64>) -> Seq<i64> {
    sorted_order(vs).map_values(|i: usize| vs[i as int])
}

/// The values negated.
pub open spec fn negated(vs: Seq<i64>) -> Seq<i64> {
    vs.map_values(|v: i64| (-v) as i64)
}

/// The values in descending order.
pub open spec fn descending(vs: Seq<i64>) -> Seq<i64> {
    sorted_order(negated(vs)).map_values(|i: usize| vs[i as int])
}

/// Sorting keeps the number of values.
pub proof fn lemma_sorted_len(vs: Seq<i64>)
    requires
        vs.len() <= usize::MAX,
    ensures
        ascending(vs).len() == vs.len(),
        descending(vs).len() == vs.len(),
{
    crate::order::lemma_stable_order(vs, vs.len());
    crate::order::lemma_stable_order(negated(vs), vs.len());
}

/// The values sorted, descending when `desc` holds, else ascending.
fn sort_values(vs: &Vec<i64>, desc: bool) -> (s: Vec<i64>)
    requires
        values_ok(vs@),
    ensures
        s@ == if desc { descending(vs@) } else { ascending(vs@) },
        s@.len() == vs@.len(),
        values_ok(s@),
        forall|i: int, j: int| 0 <= i < j < s@.len() ==> if desc { s@[i] >= s@[j] } else { s@[i] <= s@[j] },
{
    let n = vs.len();
    let mut keys: Vec<i64> = Vec::new();
    let mut k: usize = 0;
    while k < n
        invariant
            n == vs@.len(),
            k <= n,
            values_ok(vs@),
            keys@ == (if desc { negated(vs@) } else { vs@ }).take(k as int),
        decreases n - k,
    {
        proof {
            assert(coord_ok(vs@[k as int] as int));
        }
        let v = vs[k];
        if desc {
            keys.push(-v);
        } else {
            keys.push(v);
        }
        proof {
            assert(keys@ =~= (if desc { negated(vs@) } else { vs@ }).take(k + 1));
        }
        k = k + 1;
    }
    proof {
        assert(keys@ =~= if desc { negated(vs@) } else { vs@ });
    }
    let order = stable_sort_order(&keys);
    proof {
        assert(order@.len() == n);
    }
    let mut s: Vec<i64> = Vec::new();
    let mut q: usize = 0;
    while q < n
        invariant
            n == vs@.len(),
            n == order@.len(),
            n == keys@.len(),
            q <= n,
            is_stable_order(order@, keys@, keys@.len()),
            keys@ == if desc { negated(vs@) } else { vs@ },
            s@ == order@.map_values(|i: usize| vs@[i as int]).take(q as int),
        decreases n - q,
    {
        proof {
            assert(order@[q as int] < n);
        }
        s.push(vs[order[q]]);
        proof {
            assert(s@ =~= order@.map_values(|i: usize| vs@[i as int]).take(q + 1));
        }
        q = q + 1;
    }
    proof {
        assert(s@ =~= order@.map_values(|i: usize| vs@[i as int]));
        assert forall|i: int| 0 <= i < s@.len() implies coord_ok(#[trigger] s@[i] as int) by {
            assert(order@[i] < n);
            assert(s@[i] == vs@[order@[i] as int]);
        }
        assert forall|i: int, j: int| 0 <= i < j < s@.len() implies if desc { s@[i] >= s@[j] } else { s@[i] <= s@[j] } by {
            assert(keys@[order@[i] as int] <= keys@[order@[j] as int]);
            assert(order@[i] < n && order@[j] < n);
            assert(s@[i] == vs@[order@[i] as int]);
            assert(s@[j] == vs@[order@[j] as int]);
            if desc {
                assert(keys@[order@[i] as int] == -vs@[order@[i] as int]);
                assert(keys@[order@[j] as int] == -vs@[order@[j] as int]);
            }
        }
    }
    s
}

/// The first row band, from `r` on, that holds height `y`: band `r` lies
/// between the rules at `ys[r + 1]` (below) and `ys[r]` (above), edges included.
pub open spec fn row_slot(ys: Seq<i64>, y: int, r: int) -> Option<int>
    decreases ys.len() - r,
{
    if r < 0 || r + 1 >= ys.len() {
        None
    } else if ys[r + 1] <= y <= ys[r] {
        Some(r)
    } else {
        row_slot(ys, y, r + 1)
    }
}

/// The first column band, from `c` on, that holds position `x`: band `c`
/// lies between the rules at `xs[c]` and `xs[c + 1]`, edges included.
pub open spec fn col_slot(xs: Seq<i64>, x: int, c: int) -> Option<int>
    decreases xs.len() - c,
{
    if c < 0 || c + 1 >= xs.len() {
        None
    } else if xs[c] <= x <= xs[c + 1] {
        Some(c)
    } else {
        col_slot(xs, x, c + 1)
    }
}

proof fn lemma_row_slot_range(ys: Seq<i64>, y: int, r: int)
    requires
        0 <= r,
    ensures
        row_slot(ys, y, r) matches Some(q) ==> r <= q && q + 1 < ys.len(),
    decreases ys.len() - r,
{
    if r + 1 < ys.len() && !(ys[r + 1] <= y <= ys[r]) {
        lemma_row_slot_range(ys, y, r + 1);
    }
}

proof fn lemma_col_slot_range(xs: Seq<i64>, x: int, c: int)
    requires
        0 <= c,
    ensures
        col_slot(xs, x, c) matches Some(q) ==> c <= q && q + 1 < xs.len(),
    decreases xs.len() - c,
{
    if c + 1 < xs.len() && !(xs[c] <= x <= xs[c + 1]) {
        lemma_col_slot_range(xs, x, c + 1);
    }
}

/// `row_slot(ys, y, 0)`.
fn find_row_slot(ys: &Vec<i64>, y: i64) -> (s: Option<usize>)
    ensures
        match s {
            Some(r) => row_slot(ys@, y as int, 0) == Some(r as int) && r + 1 < ys@.len(),
            None => row_slot(ys@, y as int, 0) is None,
        },
{
    let n = ys.len();
    let mut r: usize = 0;
    while r < n && r + 1 < n
        invariant
            n == ys@.len(),
            row_slot(ys@, y as int, 0) == row_slot(ys@, y as int, r as int),
        decreases n - r,
    {
        if ys[r + 1] <= y && y <= ys[r] {
            return Some(r);
        }
        r = r + 1;
    }
    None
}

/// `col_slot(xs, x, 0)`.
fn find_col_slot(xs: &Vec<i64>, x: i64) -> (s: Option<usize>)
    ensures
        match s {
            Some(c) => col_slot(xs@, x as int, 0) == Some(c as int) && c + 1 < xs@.len(),
            None => col_slot(xs@, x as int, 0) is None,
        },
{
    let n = xs.len();
    let mut c: usize = 0;
    while c < n && c + 1 < n
        invariant
            n == xs@.len(),
            col_slot(xs@, x as int, 0) == col_slot(xs@, x as int, c as int),
        decreases n - c,
    {
        if xs[c] <= x && x <= xs[c + 1] {
            return Some(c);
        }
        c = c + 1;
    }
    None
}

/// Whether span `i` lies in row band `r` and column band `c`: its box
/// overlaps `region` and its centre falls in those bands.
pub open spec fn in_band(spans: Seq<TextSpan>, region: Rect, ys: Seq<i64>, xs: Seq<i64>, i: int, r: int, c: int) -> bool {
    let b = spans[i].bbox;
    &&& region.spec_intersects(b)
    &&& row_slot(ys, b.spec_center_y(), 0) == Some(r)
    &&& col_slot(xs, b.spec_center_x(), 0) == Some(c)
}

/// The indices of the spans among the first `n` in row band `r` and column band `c`, in order.
pub open spec fn band_members(spans: Seq<TextSpan>, region: Rect, ys: Seq<i64>, xs: Seq<i64>, n: nat, r: int, c: int) -> Seq<usize>
    decreases n,
{
    if n == 0 {
        seq![]
    } else {
        band_members(spans, region, ys, xs, (n - 1) as nat, r, c) + if in_band(spans, region, ys, xs, n - 1, r, c) {
            seq![(n - 1) as usize]
        } else {
            seq![]
        }
    }
}

/// Whether one of the first `n` spans falls in some band.
pub open spec fn any_in_band(spans: Seq<TextSpan>, region: Rect, ys: Seq<i64>, xs: Seq<i64>, n: nat) -> bool
    decreases n,
{
    if n == 0 {
        false
    } else {
        let b = spans[n - 1].bbox;
        any_in_band(spans, region, ys, xs, (n - 1) as nat) || (region.spec_intersects(b) && row_slot(
            ys,
            b.spec_center_y(),
            0,
        ) is Some && col_slot(xs, b.spec_center_x(), 0) is Some)
    }
}

/// The columns between consecutive rules at `xs`, left to right.
pub open spec fn band_columns(xs: Seq<i64>) -> Seq<AxisCluster> {
    Seq::new(
        (xs.len() - 1) as nat,
        |c: int| AxisCluster { center: half_floor(xs[c] + xs[c + 1]) as i64, min: xs[c], max: xs[c + 1] },
    )
}

/// The rows between consecutive rules at `ys`, top (highest) first.
pub open spec fn band_rows(ys: Seq<i64>) -> Seq<AxisCluster> {
    Seq::new(
        (ys.len() - 1) as nat,
        |r: int| AxisCluster { center: half_floor(ys[r] + ys[r + 1]) as i64, min: ys[r + 1], max: ys[r] },
    )
}

/// The grid of the bands between the rules at `ys` (descending) and `xs`
/// (ascending), each cell holding the spans of `region` that fall in it.
pub open spec fn band_grid(spans: Seq<TextSpan>, region: Rect, ys: Seq<i64>, xs: Seq<i64>) -> GridView {
    GridView {
        columns: band_columns(xs),
        rows: band_rows(ys),
        cells: Seq::new(
            (ys.len() - 1) as nat,
            |r: int| Seq::new((xs.len() - 1) as nat, |c: int| band_members(spans, region, ys, xs, spans.len(), r, c)),
        ),
    }
}

/// `band_columns(xs)`.
fn band_columns_of(xs: &Vec<i64>) -> (cs: Vec<AxisCluster>)
    requires
        xs@.len() >= 1,
        values_ok(xs@),
    ensures
        cs@ == band_columns(xs@),
        clusters_ok(cs@),
{
    let n = xs.len() - 1;
    let mut cs: Vec<AxisCluster> = Vec::new();
    let mut c: usize = 0;
    while c < n
        invariant
            n + 1 == xs@.len(),
            values_ok(xs@),
            c <= n,
            cs@ == band_columns(xs@).take(c as int),
            clusters_ok(cs@),
        decreases n - c,
    {
        proof {
            assert(coord_ok(xs@[c as int] as int) && coord_ok(xs@[c + 1] as int));
        }
        let center = floor_half(xs[c] + xs[c + 1]);
        cs.push(AxisCluster { center, min: xs[c], max: xs[c + 1] });
        proof {
            assert(cs@ =~= band_columns(xs@).take(c + 1));
        }
        c = c + 1;
    }
    proof {
        assert(band_columns(xs@).take(n as int) =~= band_columns(xs@));
    }
    cs
}

/// `band_rows(ys)`.
fn band_rows_of(ys: &Vec<i64>) -> (rs: Vec<AxisCluster>)
    requires
        ys@.len() >= 1,
        values_ok(ys@),
    ensures
        rs@ == band_rows(ys@),
        clusters_ok(rs@),
{
    let n = ys.len() - 1;
    let mut rs: Vec<AxisCluster> = Vec::new();
    let mut r: usize = 0;
    while r < n
        invariant
            n + 1 == ys@.len(),
            values_ok(ys@),
            r <= n,
            rs@ == band_rows(ys@).take(r as int),
            clusters_ok(rs@),
        decreases n - r,
    {
        proof {
            assert(coord_ok(ys@[r as int] as int) && coord_ok(ys@[r + 1] as int));
        }
        let center = floor_half(ys[r] + ys[r + 1]);
        rs.push(AxisCluster { center, min: ys[r + 1], max: ys[r] });
        proof {
            assert(rs@ =~= band_rows(ys@).take(r + 1));
        }
        r = r + 1;
    }
    proof {
        assert(band_rows(ys@).take(n as int) =~= band_rows(ys@));
    }
    rs
}

proof fn lemma_band_members_below(spans: Seq<TextSpan>, region: Rect, ys: Seq<i64>, xs: Seq<i64>, n: nat, r: int, c: int)
    ensures
        forall|k: int|
            0 <= k < band_members(spans, region, ys, xs, n, r, c).len() ==> #[trigger] band_members(
                spans,
                region,
                ys,
                xs,
                n,
                r,
                c,
            )[k] < n,
    decreases n,
{
    if n > 0 {
        lemma_band_members_below(spans, region, ys, xs, (n - 1) as nat, r, c);
        let prev = band_members(spans, region, ys, xs, (n - 1) as nat, r, c);
        let cur = band_members(spans, region, ys, xs, n, r, c);
        assert forall|k: int| 0 <= k < cur.len() implies #[trigger] cur[k] < n by {
            if k < prev.len() {
                assert(cur[k] == prev[k]);
            }
        }
    }
}

/// The cells of `band_grid`, and whether any span falls in a band.
fn band_cells(spans: &[TextSpan], region: &Rect, ys: &Vec<i64>, xs: &Vec<i64>) -> (r: (Vec<Vec<Vec<usize>>>, bool))
    requires
        spans_wf(spans@),
        region.wf(),
        ys@.len() >= 2,
        xs@.len() >= 2,
    ensures
        cells_view(r.0@) == band_grid(spans@, *region, ys@, xs@).cells,
        r.1 == any_in_band(spans@, *region, ys@, xs@, spans@.len()),
{
    let num_rows = ys.len() - 1;
    let num_cols = xs.len() - 1;
    let mut cells = empty_cells(num_rows, num_cols);
    proof {
        assert(cells_view(cells@) =~= Seq::new(
            num_rows as nat,
            |r: int| Seq::new(num_cols as nat, |c: int| band_members(spans@, *region, ys@, xs@, 0, r, c)),
        )) by {
            assert forall|r: int| 0 <= r < num_rows implies cells_view(cells@)[r] =~= Seq::new(
                num_cols as nat,
                |c: int| band_members(spans@, *region, ys@, xs@, 0, r, c),
            ) by {}
        }
        assert forall|q: int| 0 <= q < num_rows implies (#[trigger] cells@[q])@.len() == num_cols by {
            assert(cells_view(cells@)[q].len() == num_cols);
        }
    }
    let mut any = false;
    let n = spans.len();
    let mut i: usize = 0;
    while i < n
        invariant
            n == spans@.len(),
            i <= n,
            num_rows + 1 == ys@.len(),
            num_cols + 1 == xs@.len(),
            spans_wf(spans@),
            region.wf(),
            cells@.len() == num_rows,
            forall|q: int| 0 <= q < num_rows ==> (#[trigger] cells@[q])@.len() == num_cols,
            cells_view(cells@) == Seq::new(
                num_rows as nat,
                |r: int| Seq::new(num_cols as nat, |c: int| band_members(spans@, *region, ys@, xs@, i as nat, r, c)),
            ),
            any == any_in_band(spans@, *region, ys@, xs@, i as nat),
        decreases n - i,
    {
        proof {
            assert(spans@[i as int].bbox.wf());
        }
        let b = spans[i].bbox;
        if region.intersects(&b) {
            let center = b.center();
            let row_idx = find_row_slot(ys, center.y);
            let col_idx = find_col_slot(xs, center.x);
            match (row_idx, col_idx) {
                (Some(r), Some(c)) => {
                    let ghost before = cells_view(cells@);
                    push_to_cell(&mut cells, r, c, i);
                    any = true;
                    proof {
                        assert(cells@.len() == num_rows) by {
                            assert(cells_view(cells@).len() == num_rows);
                        }
                        assert forall|q: int| 0 <= q < num_rows implies (#[trigger] cells@[q])@.len() == num_cols by {
                            assert(cells_view(cells@)[q].len() == num_cols);
                        }
                        assert(cells_view(cells@) =~= Seq::new(
                            num_rows as nat,
                            |rr: int| Seq::new(num_cols as nat, |cc: int| band_members(spans@, *region, ys@, xs@, (i + 1) as nat, rr, cc)),
                        )) by {
                            assert forall|rr: int| 0 <= rr < num_rows implies cells_view(cells@)[rr] =~= Seq::new(
                                num_cols as nat,
                                |cc: int| band_members(spans@, *region, ys@, xs@, (i + 1) as nat, rr, cc),
                            ) by {
                                assert forall|cc: int| 0 <= cc < num_cols implies cells_view(cells@)[rr][cc]
                                    == band_members(spans@, *region, ys@, xs@, (i + 1) as nat, rr, cc) by {
                                    assert(before[rr][cc] == band_members(spans@, *region, ys@, xs@, i as nat, rr, cc));
                                }
                            }
                        }
                    }
                },
                _ => {
                    proof {
                        assert(cells_view(cells@) =~= Seq::new(
                            num_rows as nat,
                            |rr: int| Seq::new(num_cols as nat, |cc: int| band_members(spans@, *region, ys@, xs@, (i + 1) as nat, rr, cc)),
                        )) by {
                            assert forall|rr: int| 0 <= rr < num_rows implies cells_view(cells@)[rr] =~= Seq::new(
                                num_cols as nat,
                                |cc: int| band_members(spans@, *region, ys@, xs@, (i + 1) as nat, rr, cc),
                            ) by {
                                assert forall|cc: int| 0 <= cc < num_cols implies cells_view(cells@)[rr][cc]
                                    == band_members(spans@, *region, ys@, xs@, (i + 1) as nat, rr, cc) by {
                                    assert(band_members(spans@, *region, ys@, xs@, (i + 1) as nat, rr, cc)
                                        =~= band_members(spans@, *region, ys@, xs@, i as nat, rr, cc));
                                }
                            }
                        }
                    }
                },
            }
        } else {
            proof {
                assert(cells_view(cells@) =~= Seq::new(
                    num_rows as nat,
                    |rr: int| Seq::new(num_cols as nat, |cc: int| band_members(spans@, *region, ys@, xs@, (i + 1) as nat, rr, cc)),
                )) by {
                    assert forall|rr: int| 0 <= rr < num_rows implies cells_view(cells@)[rr] =~= Seq::new(
                        num_cols as nat,
                        |cc: int| band_members(spans@, *region, ys@, xs@, (i + 1) as nat, rr, cc),
                    ) by {
                        assert forall|cc: int| 0 <= cc < num_cols implies cells_view(cells@)[rr][cc]
                            == band_members(spans@, *region, ys@, xs@, (i + 1) as nat, rr, cc) by {
                            assert(band_members(spans@, *region, ys@, xs@, (i + 1) as nat, rr, cc)
                                =~= band_members(spans@, *region, ys@, xs@, i as nat, rr, cc));
                        }
                    }
                }
            }
        }
        i = i + 1;
    }
    (cells, any)
}

/// Whether path `p` is a horizontal rule wider than four fifths of `width`
/// whose height is within `tol` of `y`.
pub open spec fn wide_rule_at(p: PathContent, width: int, y: int, tol: int) -> bool {
    &&& p.spec_is_horizontal_line(SEPARATOR_TOL as int)
    &&& 5 * p.bbox.width > 4 * width
    &&& abs_int(p.bbox.spec_center_y() - y) < tol
}

/// Whether one of the paths named by `idxs` is such a rule.
pub open spec fn has_wide_rule(lines: Seq<PathContent>, idxs: Seq<usize>, width: int, y: int, tol: int) -> bool {
    exists|k: int| 0 <= k < idxs.len() && #[trigger] wide_rule_at(lines[idxs[k] as int], width, y, tol)
}

/// `has_wide_rule`.
fn find_wide_rule(lines: &[PathContent], idxs: &Vec<usize>, width: i64, y: i64, tol: i64) -> (b: bool)
    requires
        line_refs_ok(lines@, idxs@),
        coord_ok(y as int),
        -2 * COORD_LIMIT <= width <= 2 * COORD_LIMIT,
    ensures
        b == has_wide_rule(lines@, idxs@, width as int, y as int, tol as int),
{
    let n = idxs.len();
    let mut k: usize = 0;
    while k < n
        invariant
            n == idxs@.len(),
            k <= n,
            line_refs_ok(lines@, idxs@),
            coord_ok(y as int),
            -2 * COORD_LIMIT <= width <= 2 * COORD_LIMIT,
            forall|q: int| 0 <= q < k ==> !#[trigger] wide_rule_at(lines@[idxs@[q] as int], width as int, y as int, tol as int),
        decreases n - k,
    {
        let i = idxs[k];
        proof {
            assert(idxs@[k as int] < lines@.len());
            assert(lines@[i as int].bbox.wf());
        }
        let p = &lines[i];
        if p.is_horizontal_line(SEPARATOR_TOL) && 5 * p.bbox.width > 4 * width {
            let c = p.bbox.center();
            if abs_i64(c.y - y) < tol {
                proof {
                    assert(wide_rule_at(lines@[idxs@[k as int] as int], width as int, y as int, tol as int));
                }
                return true;
            }
        }
        k = k + 1;
    }
    false
}

/// How many leading rows, from `r` on and among the first three, are header
/// rows: a row is one when a wide rule lies along its lower edge, or, for
/// the first row, when one of its cells spans several columns.
pub open spec fn header_run(t: TableView, g: GridView, lines: Seq<PathContent>, cl: LineClusterView, tol: int, r: nat) -> nat
    decreases 3 - r,
{
    if r >= 3 || r >= t.rows.len() {
        r
    } else if has_wide_rule(lines, cl.lines, cl.bbox.width as int, g.rows[r as int].min as int, tol) || (r == 0
        && row_has_colspan(t.rows[0])) {
        header_run(t, g, lines, cl, tol, r + 1)
    } else {
        r
    }
}

/// Whether row `r` of a ruled table reads as a header row: a wide rule lies
/// along its lower edge, or it is the first row and one of its cells spans
/// several columns.
pub open spec fn reads_as_header(t: TableView, g: GridView, lines: Seq<PathContent>, cl: LineClusterView, tol: int, r: int) -> bool {
    has_wide_rule(lines, cl.lines, cl.bbox.width as int, g.rows[r].min as int, tol) || (r == 0 && row_has_colspan(t.rows[0]))
}

proof fn lemma_header_run_from(t: TableView, g: GridView, lines: Seq<PathContent>, cl: LineClusterView, tol: int, r: nat)
    requires
        r <= 3,
        r <= t.rows.len(),
    ensures
        r <= header_run(t, g, lines, cl, tol, r) <= 3,
        header_run(t, g, lines, cl, tol, r) <= t.rows.len(),
        forall|q: int| r <= q < header_run(t, g, lines, cl, tol, r) ==> #[trigger] reads_as_header(t, g, lines, cl, tol, q),
        header_run(t, g, lines, cl, tol, r) < 3 && header_run(t, g, lines, cl, tol, r) < t.rows.len() ==> !reads_as_header(
            t,
            g,
            lines,
            cl,
            tol,
            header_run(t, g, lines, cl, tol, r) as int,
        ),
    decreases 3 - r,
{
    if r < 3 && r < t.rows.len() && reads_as_header(t, g, lines, cl, tol, r as int) {
        lemma_header_run_from(t, g, lines, cl, tol, r + 1);
    }
}

/// The header rows marked on a ruled table are its longest run of leading
/// rows, at most three, each of which reads as a header row.
pub proof fn lemma_header_run(t: TableView, g: GridView, lines: Seq<PathContent>, cl: LineClusterView, tol: int)
    ensures
        header_run(t, g, lines, cl, tol, 0) <= 3,
        header_run(t, g, lines, cl, tol, 0) <= t.rows.len(),
        forall|q: int| 0 <= q < header_run(t, g, lines, cl, tol, 0) ==> #[trigger] reads_as_header(t, g, lines, cl, tol, q),
        header_run(t, g, lines, cl, tol, 0) < 3 && header_run(t, g, lines, cl, tol, 0) < t.rows.len() ==> !reads_as_header(
            t,
            g,
            lines,
            cl,
            tol,
            header_run(t, g, lines, cl, tol, 0) as int,
        ),
{
    lemma_header_run_from(t, g, lines, cl, tol, 0);
}

/// A cell marked as a header cell.
pub open spec fn header_cell(c: CellView) -> CellView {
    CellView { text: c.text, colspan: c.colspan, rowspan: c.rowspan, mcids: c.mcids, bbox: c.bbox, is_header: true }
}

/// A row marked as a header row, with all its cells.
pub open spec fn header_row(row: RowView) -> RowView {
    RowView { cells: row.cells.map_values(|c: CellView| header_cell(c)), is_header: true }
}

/// The table with its first `h` rows marked as header rows (unchanged when `h` is 0).
pub open spec fn with_header_rows(t: TableView, h: nat) -> TableView {
    if h == 0 {
        t
    } else {
        TableView {
            rows: Seq::new(t.rows.len(), |r: int| if r < h { header_row(t.rows[r]) } else { t.rows[r] }),
            has_header: true,
            col_count: t.col_count,
            bbox: t.bbox,
        }
    }
}

/// `header_run(table, grid, .., 0)`.
fn header_rows_count(table: &ExtractedTable, grid: &GridStructure, lines: &[PathContent], cluster: &LineCluster, tol: i64) -> (h: usize)
    requires
        line_refs_ok(lines@, cluster@.lines),
        cluster.bbox.wf(),
        clusters_ok(grid@.rows),
        table@.rows.len() <= grid@.rows.len(),
    ensures
        h == header_run(table@, grid@, lines@, cluster@, tol as int, 0),
        h <= table@.rows.len(),
{
    let n = table.rows.len();
    let lim = if n < 3 { n } else { 3 };
    let mut r: usize = 0;
    while r < lim && (find_wide_rule(lines, &cluster.lines, cluster.bbox.width, grid.rows[r].min, tol) || (r == 0
        && table.rows[0].has_colspan()))
        invariant
            n == table@.rows.len(),
            lim <= 3,
            lim <= n,
            lim == 3 || lim == n,
            r <= lim,
            n <= grid@.rows.len(),
            line_refs_ok(lines@, cluster@.lines),
            cluster.bbox.wf(),
            clusters_ok(grid@.rows),
            header_run(table@, grid@, lines@, cluster@, tol as int, 0) == header_run(
                table@,
                grid@,
                lines@,
                cluster@,
                tol as int,
                r as nat,
            ),
        decreases lim - r,
    {
        proof {
            assert(coord_ok(grid@.rows[r as int].min as int));
        }
        r = r + 1;
    }
    proof {
        if r < lim {
            assert(table@.rows[0] == table.rows@[0]@);
        }
    }
    r
}

/// Mark the first `h` rows, and all their cells, as header rows.
fn mark_header_rows(table: &mut ExtractedTable, h: usize)
    requires
        h > 0,
    ensures
        final(table)@ == with_header_rows(old(table)@, h as nat),
{
    let ghost t0 = old(table)@;
    table.has_header = true;
    let n = table.rows.len();
    let mut r: usize = 0;
    while r < h && r < n
        invariant
            n == table@.rows.len(),
            t0.rows.len() == n,
            table@.has_header,
            table@.col_count == t0.col_count,
            table@.bbox == t0.bbox,
            r <= n,
            r <= h,
            forall|q: int| 0 <= q < n ==> #[trigger] table@.rows[q] == if q < r { header_row(t0.rows[q]) } else { t0.rows[q] },
        decreases n - r,
    {
        let ghost rows_before = table@.rows;
        let mut row = table.rows.remove(r);
        proof {
            assert(row@ == rows_before[r as int]);
        }
        row.is_header = true;
        let m = row.cells.len();
        let mut j: usize = 0;
        while j < m
            invariant
                m == row.cells@.len(),
                m == t0.rows[r as int].cells.len(),
                t0.rows.len() == n,
                r < n,
                row@.is_header,
                j <= m,
                forall|q: int| 0 <= q < m ==> #[trigger] row@.cells[q] == if q < j { header_cell(t0.rows[r as int].cells[q]) } else { t0.rows[r as int].cells[q] },
            decreases m - j,
        {
            let ghost cells_before = row@.cells;
            let mut cell = row.cells.remove(j);
            proof {
                assert(cell@ == cells_before[j as int]);
            }
            cell.is_header = true;
            row.cells.insert(j, cell);
            proof {
                assert forall|q: int| 0 <= q < m implies #[trigger] row@.cells[q] == if q < j + 1 { header_cell(t0.rows[r as int].cells[q]) } else { t0.rows[r as int].cells[q] } by {
                    if q != j {
                        assert(row@.cells[q] == cells_before[q]);
                    }
                }
            }
            j = j + 1;
        }
        proof {
            assert(row@ == header_row(t0.rows[r as int])) by {
                assert(row@.cells =~= t0.rows[r as int].cells.map_values(|c: CellView| header_cell(c)));
            }
        }
        table.rows.insert(r, row);
        proof {
            assert forall|q: int| 0 <= q < n implies #[trigger] table@.rows[q] == if q < r + 1 { header_row(t0.rows[q]) } else { t0.rows[q] } by {
                if q != r {
                    assert(table@.rows[q] == rows_before[q]);
                }
            }
        }
        r = r + 1;
    }
    proof {
        let w = with_header_rows(t0, h as nat);
        assert forall|q: int| 0 <= q < n implies #[trigger] table@.rows[q] == w.rows[q] by {
            assert(table@.rows[q] == if q < r { header_row(t0.rows[q]) } else { t0.rows[q] });
        }
        assert(table@.rows =~= w.rows);
    }
}

/// The grid cut down to rows `s..e`.
pub open spec fn sub_rows(g: GridView, s: int, e: int) -> GridView {
    GridView { columns: g.columns, rows: g.rows.subrange(s, e), cells: g.cells.subrange(s, e) }
}

/// The lowest lower edge among the rows.
pub open spec fn lowest(rows: Seq<AxisCluster>) -> int
    decreases rows.len(),
{
    if rows.len() <= 1 {
        rows[0].min as int
    } else {
        let l = lowest(rows.drop_last());
        if (rows.last().min as int) < l {
            rows.last().min as int
        } else {
            l
        }
    }
}

/// The highest upper edge among the rows.
pub open spec fn highest(rows: Seq<AxisCluster>) -> int
    decreases rows.len(),
{
    if rows.len() <= 1 {
        rows[0].max as int
    } else {
        let h = highest(rows.drop_last());
        if (rows.last().max as int) > h {
            rows.last().max as int
        } else {
            h
        }
    }
}

/// `(lowest(rows), highest(rows))`.
fn row_extent(rows: &Vec<AxisCluster>) -> (r: (i64, i64))
    requires
        rows@.len() >= 1,
        clusters_ok(rows@),
    ensures
        r.0 == lowest(rows@),
        r.1 == highest(rows@),
        coord_ok(r.0 as int),
        coord_ok(r.1 as int),
{
    let n = rows.len();
    proof {
        assert(coord_ok(rows@[0].min as int) && coord_ok(rows@[0].max as int));
        assert(rows@.take(1).len() == 1 && rows@.take(1)[0] == rows@[0]);
    }
    let mut lo = rows[0].min;
    let mut hi = rows[0].max;
    let mut k: usize = 1;
    while k < n
        invariant
            n == rows@.len(),
            1 <= k <= n,
            clusters_ok(rows@),
            lo == lowest(rows@.take(k as int)),
            hi == highest(rows@.take(k as int)),
            coord_ok(lo as int),
            coord_ok(hi as int),
        decreases n - k,
    {
        proof {
            assert(rows@.take(k + 1).drop_last() =~= rows@.take(k as int));
            assert(coord_ok(rows@[k as int].min as int) && coord_ok(rows@[k as int].max as int));
        }
        if rows[k].min < lo {
            lo = rows[k].min;
        }
        if rows[k].max > hi {
            hi = rows[k].max;
        }
        k = k + 1;
    }
    proof {
        assert(rows@.take(n as int) =~= rows@);
    }
    (lo, hi)
}

/// The table read off rows `s..e` of a ruled grid: the rows with their empty
/// outer columns trimmed, if they have the shape of a table and keep between
/// `min_table_columns` and `max_table_columns` columns; merge
/// information from the rules; the cluster's width and the rows' height as
/// its region; its leading rows marked as `header_run` finds them.
pub open spec fn segment_table(
    g: GridView,
    spans: Seq<TextSpan>,
    lines: Seq<PathContent>,
    cl: LineClusterView,
    config: TableDetectionConfig,
    s: int,
    e: int,
) -> Option<TableView> {
    let sub = trimmed(sub_rows(g, s, e));
    if !table_structure_ok(sub, config) || sub.columns.len() < config.min_table_columns || sub.columns.len()
        > config.max_table_columns {
        None
    } else {
        let t = grid_table(sub, spans, visual_merge(sub, spans, lines, cl.lines));
        let lo = lowest(sub.rows);
        let hi = highest(sub.rows);
        let framed = TableView {
            rows: t.rows,
            has_header: t.has_header,
            col_count: t.col_count,
            bbox: Some(Rect { x: cl.bbox.x, y: lo as i64, width: cl.bbox.width, height: (hi - lo) as i64 }),
        };
        Some(with_header_rows(framed, header_run(framed, sub, lines, cl, config.row_tolerance as int, 0)))
    }
}

/// A copy of rows `s..e` of the grid.
fn rows_between(grid: &GridStructure, s: usize, e: usize) -> (g: GridStructure)
    requires
        s <= e <= grid@.rows.len(),
        grid@.cells.len() == grid@.rows.len(),
    ensures
        g@ == sub_rows(grid@, s as int, e as int),
{
    let ghost gv = grid@;
    let nc = grid.columns.len();
    let mut columns: Vec<AxisCluster> = Vec::new();
    let mut c: usize = 0;
    while c < nc
        invariant
            gv == grid@,
            nc == gv.columns.len(),
            c <= nc,
            columns@ == gv.columns.take(c as int),
        decreases nc - c,
    {
        columns.push(grid.columns[c]);
        proof {
            assert(columns@ =~= gv.columns.take(c + 1));
        }
        c = c + 1;
    }
    let mut rows: Vec<AxisCluster> = Vec::new();
    let mut cells: Vec<Vec<Vec<usize>>> = Vec::new();
    let mut r: usize = s;
    while r < e
        invariant
            gv == grid@,
            s <= r <= e,
            e <= gv.rows.len(),
            gv.cells.len() == gv.rows.len(),
            rows@ == gv.rows.subrange(s as int, r as int),
            cells_view(cells@) == gv.cells.subrange(s as int, r as int),
        decreases e - r,
    {
        rows.push(grid.rows[r]);
        let src = &grid.cells[r];
        proof {
            assert(gv.cells[r as int] == src@.map_values(|cell: Vec<usize>| cell@));
        }
        let m = src.len();
        let mut row: Vec<Vec<usize>> = Vec::new();
        let mut k: usize = 0;
        while k < m
            invariant
                m == src@.len(),
                k <= m,
                row@.len() == k,
                forall|q: int| 0 <= q < k ==> #[trigger] row@[q]@ == src@[q]@,
            decreases m - k,
        {
            let cell = copy_cell(&src[k]);
            row.push(cell);
            k = k + 1;
        }
        proof {
            assert(row@.map_values(|cell: Vec<usize>| cell@) =~= src@.map_values(|cell: Vec<usize>| cell@));
        }
        let ghost before = cells_view(cells@);
        cells.push(row);
        proof {
            assert(rows@ =~= gv.rows.subrange(s as int, r + 1));
            assert(cells_view(cells@) =~= before.push(gv.cells[r as int]));
            assert(cells_view(cells@) =~= gv.cells.subrange(s as int, r + 1));
        }
        r = r + 1;
    }
    proof {
        assert(gv.columns.take(nc as int) =~= gv.columns);
    }
    GridStructure { columns, rows, cells }
}

/// `segment_table(grid, .., s, e)`.
fn segment_table_of(
    full: &GridStructure,
    spans: &[TextSpan],
    lines: &[PathContent],
    cluster: &LineCluster,
    config: &TableDetectionConfig,
    s: usize,
    e: usize,
) -> (t: Option<ExtractedTable>)
    requires
        full@.wf(spans@.len()),
        spans_wf(spans@),
        line_refs_ok(lines@, cluster@.lines),
        cluster.bbox.wf(),
        s < e <= full@.rows.len(),
    ensures
        match t {
            Some(x) => segment_table(full@, spans@, lines@, cluster@, *config, s as int, e as int) == Some(x@),
            None => segment_table(full@, spans@, lines@, cluster@, *config, s as int, e as int) is None,
        },
{
    let sub = rows_between(full, s, e);
    proof {
        let sv = sub@;
        let fv = full@;
        assert(sv.cells.len() == sv.rows.len());
        assert forall|i: int| 0 <= i < sv.rows.len() implies {
            &&& coord_ok((#[trigger] sv.rows[i]).center as int)
            &&& coord_ok(sv.rows[i].min as int)
            &&& coord_ok(sv.rows[i].max as int)
        } by {
            assert(sv.rows[i] == fv.rows[s + i]);
        }
        assert forall|r: int| 0 <= r < sv.cells.len() implies (#[trigger] sv.cells[r]).len() == sv.columns.len() by {
            assert(sv.cells[r] == fv.cells[s + r]);
        }
        assert forall|r: int, c: int, k: int|
            0 <= r < sv.cells.len() && 0 <= c < sv.cells[r].len() && 0 <= k < sv.cells[r][c].len()
                implies #[trigger] sv.cells[r][c][k] < spans@.len() by {
            assert(sv.cells[r] == fv.cells[s + r]);
        }
        assert(sv.wf(spans@.len()));
        lemma_trimmed_wf(sv, spans@.len());
    }
    let grid = sub.trim_empty_columns();
    if !validate_table_structure_internal(&grid, config) {
        return None;
    }
    if grid.columns.len() < config.min_table_columns || grid.columns.len() > config.max_table_columns {
        return None;
    }
    let merge = detect_merged_cells_visually(&grid, spans, cluster, lines);
    let mut table = grid_to_extracted_table(&grid, spans, Some(merge));
    proof {
        assert(grid@.rows.len() == e - s);
        assert(clusters_ok(grid@.rows));
    }
    let (lo, hi) = row_extent(&grid.rows);
    table.bbox = Some(Rect::new(cluster.bbox.x, lo, cluster.bbox.width, hi - lo));
    let h = header_rows_count(&table, &grid, lines, cluster, config.row_tolerance);
    if h > 0 {
        mark_header_rows(&mut table, h);
    }
    Some(table)
}

/// One past the last row, from `s` on, of the run of rows that hold spans.
pub open spec fn filled_run_end(g: GridView, s: int) -> int
    decreases g.rows.len() - s,
{
    if s < 0 || s >= g.rows.len() || row_empty(g, s) {
        s
    } else {
        filled_run_end(g, s + 1)
    }
}

/// A run that starts inside the grid ends inside it, not before it starts.
pub proof fn lemma_filled_run_end(g: GridView, s: int)
    requires
        0 <= s <= g.rows.len(),
    ensures
        s <= filled_run_end(g, s) <= g.rows.len(),
    decreases g.rows.len() - s,
{
    if s < g.rows.len() && !row_empty(g, s) {
        lemma_filled_run_end(g, s + 1);
    }
}

/// The tables of a ruled grid from row `s` on: each run of consecutive rows
/// that hold spans is read as one table (`segment_table`), top to bottom;
/// empty rows part the runs.
pub open spec fn segment_tables(
    g: GridView,
    spans: Seq<TextSpan>,
    lines: Seq<PathContent>,
    cl: LineClusterView,
    config: TableDetectionConfig,
    s: int,
) -> Seq<TableView>
    decreases g.rows.len() + 1 - s,
{
    if s < 0 || s >= g.rows.len() {
        seq![]
    } else if row_empty(g, s) {
        segment_tables(g, spans, lines, cl, config, s + 1)
    } else {
        let e = filled_run_end(g, s + 1);
        proof {
            lemma_filled_run_end(g, s + 1);
        }
        (match segment_table(g, spans, lines, cl, config, s, e) {
            Some(t) => seq![t],
            None => seq![],
        }) + segment_tables(g, spans, lines, cl, config, e + 1)
    }
}

/// The tables of one group of ruling lines: the row rules' heights and the
/// column rules' positions, each grouped by `cluster_means` under the row
/// and column tolerances and sorted (rows top first, columns left first),
/// bound the bands of a grid; with at least two of each, a column count
/// within the configured range and some span of the group's region falling
/// in a band, the grid's runs of filled rows give the tables
/// (`segment_tables`).
pub open spec fn cluster_tables(
    spans: Seq<TextSpan>,
    lines: Seq<PathContent>,
    cl: LineClusterView,
    config: TableDetectionConfig,
) -> Seq<TableView> {
    let ys = descending(cluster_means(rule_ys(lines, cl.lines), config.row_tolerance));
    let xs = ascending(cluster_means(rule_xs(lines, cl.lines), config.column_tolerance));
    if ys.len() < 2 || xs.len() < 2 {
        seq![]
    } else if xs.len() - 1 < config.min_table_columns || xs.len() - 1 > config.max_table_columns {
        seq![]
    } else if !any_in_band(spans, cl.bbox, ys, xs, spans.len()) {
        seq![]
    } else {
        segment_tables(band_grid(spans, cl.bbox, ys, xs), spans, lines, cl, config, 0)
    }
}

/// The tables bounded by one group of ruling lines, as `cluster_tables` describes them.
/// At most `u32::MAX` lines are taken: a table's row and column spans are `u32`.
pub fn detect_tables_in_cluster(
    spans: &[TextSpan],
    all_lines: &[PathContent],
    cluster: &LineCluster,
    config: &TableDetectionConfig,
) -> (tables: Vec<ExtractedTable>)
    requires
        spans_wf(spans@),
        line_refs_ok(all_lines@, cluster@.lines),
        cluster.bbox.wf(),
        cluster@.lines.len() <= u32::MAX,
    ensures
        tables_view(tables@) == cluster_tables(spans@, all_lines@, cluster@, *config),
{
    let (h_ys, v_xs) = rule_positions(all_lines, &cluster.lines);
    let row_means = cluster_values(&h_ys, config.row_tolerance);
    let col_means = cluster_values(&v_xs, config.column_tolerance);
    proof {
        lemma_sorted_len(row_means@);
        lemma_sorted_len(col_means@);
    }
    if row_means.len() < 2 || col_means.len() < 2 {
        let v: Vec<ExtractedTable> = Vec::new();
        proof {
            assert(tables_view(v@) =~= Seq::<TableView>::empty());
        }
        return v;
    }
    let row_ys = sort_values(&row_means, true);
    let col_xs = sort_values(&col_means, false);
    let num_rows = row_ys.len() - 1;
    let num_cols = col_xs.len() - 1;
    if num_cols < config.min_table_columns || num_cols > config.max_table_columns {
        let v: Vec<ExtractedTable> = Vec::new();
        proof {
            assert(tables_view(v@) =~= Seq::<TableView>::empty());
        }
        return v;
    }
    let (cells, assigned_any) = band_cells(spans, &cluster.bbox, &row_ys, &col_xs);
    if !assigned_any {
        let v: Vec<ExtractedTable> = Vec::new();
        proof {
            assert(tables_view(v@) =~= Seq::<TableView>::empty());
        }
        return v;
    }
    let columns = band_columns_of(&col_xs);
    let rows = band_rows_of(&row_ys);
    let grid_full = GridStructure { columns, rows, cells };
    let ghost g = band_grid(spans@, cluster.bbox, row_ys@, col_xs@);
    proof {
        assert(grid_full@.cells == g.cells);
        assert(grid_full@ == g);
        assert forall|r: int| 0 <= r < g.cells.len() implies (#[trigger] g.cells[r]).len() == g.columns.len() by {}
        assert forall|r: int, c: int, k: int|
            0 <= r < g.cells.len() && 0 <= c < g.cells[r].len() && 0 <= k < g.cells[r][c].len()
                implies #[trigger] g.cells[r][c][k] < spans@.len() by {
            lemma_band_members_below(spans@, cluster.bbox, row_ys@, col_xs@, spans@.len(), r, c);
        }
        assert(g.wf(spans@.len()));
    }
    let ghost target = segment_tables(g, spans@, all_lines@, cluster@, *config, 0);
    let mut tables: Vec<ExtractedTable> = Vec::new();
    let mut start: usize = 0;
    while start < num_rows
        invariant
            g == grid_full@,
            g.wf(spans@.len()),
            spans_wf(spans@),
            line_refs_ok(all_lines@, cluster@.lines),
            cluster.bbox.wf(),
            num_rows == g.rows.len(),
            num_rows < usize::MAX,
            tables_view(tables@) + segment_tables(g, spans@, all_lines@, cluster@, *config, start as int) == target,
        decreases num_rows + 1 - start,
    {
        if grid_full.is_row_empty(start) {
            start = start + 1;
        } else {
            let mut end: usize = start + 1;
            proof {
                lemma_filled_run_end(g, start + 1);
            }
            while end < num_rows && !grid_full.is_row_empty(end)
                invariant
                    g == grid_full@,
                    g.wf(spans@.len()),
                    num_rows == g.rows.len(),
                    start < end <= num_rows,
                    num_rows < usize::MAX,
                    filled_run_end(g, start + 1) == filled_run_end(g, end as int),
                decreases num_rows - end,
            {
                end = end + 1;
            }
            let ghost before = tables_view(tables@);
            let found = segment_table_of(&grid_full, spans, all_lines, cluster, config, start, end);
            match found {
                Some(t) => {
                    tables.push(t);
                    proof {
                        assert(tables_view(tables@) =~= before.push(t@));
                    }
                },
                None => {},
            }
            proof {
                let here = match segment_table(g, spans@, all_lines@, cluster@, *config, start as int, end as int) {
                    Some(t) => seq![t],
                    None => seq![],
                };
                assert(segment_tables(g, spans@, all_lines@, cluster@, *config, start as int) == here + segment_tables(
                    g,
                    spans@,
                    all_lines@,
                    cluster@,
                    *config,
                    end + 1,
                ));
                assert(tables_view(tables@) =~= before + here);
            }
            start = end + 1;
        }
    }
    proof {
        assert(tables_view(tables@) =~= target);
    }
    tables
}

/// Whether a table's region starts at the left edge of `b` and is as wide.
pub open spec fn spans_width_of(t: TableView, b: Rect) -> bool {
    t.bbox matches Some(r) && r.x == b.x && r.width == b.width
}

/// Whether a table spans the width of `b`, fits the configuration, and has
/// every cell of its header rows marked as a header cell.
pub open spec fn ruled_table_ok(t: TableView, b: Rect, config: TableDetectionConfig) -> bool {
    spans_width_of(t, b) && fits_config(t, config) && crate::structure::grid::header_cells_ok(t)
}

/// Marking the first rows of a table as header rows marks all their cells,
/// and keeps every cell of the other header rows a header cell.
pub proof fn lemma_with_header_rows_cells(t: TableView, h: nat)
    requires
        crate::structure::grid::header_cells_ok(t),
    ensures
        crate::structure::grid::header_cells_ok(with_header_rows(t, h)),
        forall|r: int| 0 <= r < h && r < t.rows.len() ==> (#[trigger] with_header_rows(t, h).rows[r]).is_header,
{
    let u = with_header_rows(t, h);
    if h > 0 {
        assert forall|r: int, c: int|
            0 <= r < u.rows.len() && (#[trigger] u.rows[r]).is_header && 0 <= c < u.rows[r].cells.len()
                implies (#[trigger] u.rows[r].cells[c]).is_header by {
            if r < h {
                assert(u.rows[r] == header_row(t.rows[r]));
                assert(u.rows[r].cells[c] == header_cell(t.rows[r].cells[c]));
            } else {
                assert(u.rows[r] == t.rows[r]);
            }
        }
    }
}

/// Whether a table has a row, and a column count within the configured range.
pub open spec fn fits_config(t: TableView, config: TableDetectionConfig) -> bool {
    &&& t.rows.len() >= 1
    &&& config.min_table_columns <= t.col_count <= config.max_table_columns
}

proof fn lemma_segment_table_region(
    g: GridView,
    spans: Seq<TextSpan>,
    lines: Seq<PathContent>,
    cl: LineClusterView,
    config: TableDetectionConfig,
    s: int,
    e: int,
)
    requires
        0 <= s < e <= g.rows.len(),
    ensures
        segment_table(g, spans, lines, cl, config, s, e) matches Some(t) ==> spans_width_of(t, cl.bbox)
            && fits_config(t, config) && crate::structure::grid::header_cells_ok(t),
{
    let sub = trimmed(sub_rows(g, s, e));
    assert(sub.rows == sub_rows(g, s, e).rows);
    if table_structure_ok(sub, config) && config.min_table_columns <= sub.columns.len() <= config.max_table_columns {
        let t = grid_table(sub, spans, visual_merge(sub, spans, lines, cl.lines));
        let lo = lowest(sub.rows);
        let hi = highest(sub.rows);
        let framed = TableView {
            rows: t.rows,
            has_header: t.has_header,
            col_count: t.col_count,
            bbox: Some(Rect { x: cl.bbox.x, y: lo as i64, width: cl.bbox.width, height: (hi - lo) as i64 }),
        };
        let h = header_run(framed, sub, lines, cl, config.row_tolerance as int, 0);
        crate::structure::grid::lemma_grid_table_header_cells(sub, spans, visual_merge(sub, spans, lines, cl.lines));
        assert(crate::structure::grid::header_cells_ok(framed)) by {
            assert(framed.rows == t.rows);
        }
        lemma_with_header_rows_cells(framed, h);
        assert(with_header_rows(framed, h).bbox == framed.bbox);
        assert(with_header_rows(framed, h).rows.len() == framed.rows.len());
        assert(with_header_rows(framed, h).col_count == framed.col_count);
    }
}

proof fn lemma_segment_tables_region(
    g: GridView,
    spans: Seq<TextSpan>,
    lines: Seq<PathContent>,
    cl: LineClusterView,
    config: TableDetectionConfig,
    s: int,
)
    ensures
        forall|k: int|
            0 <= k < segment_tables(g, spans, lines, cl, config, s).len() ==> ruled_table_ok(
                #[trigger] segment_tables(g, spans, lines, cl, config, s)[k],
                cl.bbox,
                config,
            ),
    decreases g.rows.len() + 1 - s,
{
    if 0 <= s < g.rows.len() {
        if row_empty(g, s) {
            lemma_segment_tables_region(g, spans, lines, cl, config, s + 1);
            assert(segment_tables(g, spans, lines, cl, config, s) == segment_tables(g, spans, lines, cl, config, s + 1));
        } else {
            let e = filled_run_end(g, s + 1);
            lemma_filled_run_end(g, s + 1);
            lemma_segment_tables_region(g, spans, lines, cl, config, e + 1);
            lemma_segment_table_region(g, spans, lines, cl, config, s, e);
            let here = match segment_table(g, spans, lines, cl, config, s, e) {
                Some(t) => seq![t],
                None => seq![],
            };
            let rest = segment_tables(g, spans, lines, cl, config, e + 1);
            let all = segment_tables(g, spans, lines, cl, config, s);
            assert(all == here + rest);
            assert forall|k: int| 0 <= k < all.len() implies ruled_table_ok(#[trigger] all[k], cl.bbox, config) by {
                if k < here.len() {
                    assert(all[k] == here[k]);
                    assert(here[k] == segment_table(g, spans, lines, cl, config, s, e)->0);
                } else {
                    assert(all[k] == rest[k - here.len()]);
                }
            }
        }
    }
}

/// Every table found from a group of ruling lines starts at the group's left
/// edge and is as wide as the group, has a row, has a column count between
/// `min_table_columns` and `max_table_columns`, and has every cell of its
/// header rows marked as a header cell.
pub proof fn lemma_cluster_tables_region(
    spans: Seq<TextSpan>,
    lines: Seq<PathContent>,
    cl: LineClusterView,
    config: TableDetectionConfig,
)
    ensures
        forall|k: int|
            0 <= k < cluster_tables(spans, lines, cl, config).len() ==> ruled_table_ok(
                #[trigger] cluster_tables(spans, lines, cl, config)[k],
                cl.bbox,
                config,
            ),
{
    let ys = descending(cluster_means(rule_ys(lines, cl.lines), config.row_tolerance));
    let xs = ascending(cluster_means(rule_xs(lines, cl.lines), config.column_tolerance));
    lemma_segment_tables_region(band_grid(spans, cl.bbox, ys, xs), spans, lines, cl, config, 0);
}

} // verus!
