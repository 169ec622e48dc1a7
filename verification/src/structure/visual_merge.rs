//! Merged cells of a ruled table: a cell spreads over its neighbours where
//! the ruling line between them is missing.
use crate::elements::PathContent;
use crate::geometry::{abs_i64, abs_int, coord_ok, COORD_LIMIT};
use crate::layout::TextSpan;
use crate::structure::grid::{clusters_ok, merge_fits, merge_view, spans_wf, CellMergeInfo, GridStructure, GridView};
use crate::structure::line_clusters::{lines_wf, LineCluster};
use vstd::prelude::*;

verus! {

/// Distance, in thousandths of a point, within which a ruling line lies on a
/// cell border.
pub const SEPARATOR_TOL: i64 = 2000;

/// Amount, in thousandths of a point, by which text may be wider than its
/// cells before it is taken to run into the next one.
pub const TEXT_SLACK: i64 = 2000;

/// Whether path `p` is a vertical rule at `x` that reaches into the band
/// between `y_min` and `y_max`.
pub open spec fn v_separates(p: PathContent, x: int, y_min: int, y_max: int) -> bool {
    &&& p.spec_is_vertical_line(SEPARATOR_TOL as int)
    &&& abs_int(p.bbox.spec_center_x() - x) < SEPARATOR_TOL
    &&& p.bbox.y < y_max
    &&& p.bbox.spec_bottom() > y_min
}

/// Whether path `p` is a horizontal rule at `y` that reaches into the band
/// between `x_min` and `x_max`.
pub open spec fn h_separates(p: PathContent, y: int, x_min: int, x_max: int) -> bool {
    &&& p.spec_is_horizontal_line(SEPARATOR_TOL as int)
    &&& abs_int(p.bbox.spec_center_y() - y) < SEPARATOR_TOL
    &&& p.bbox.x < x_max
    &&& p.bbox.spec_right() > x_min
}

/// Whether one of the paths named by `idxs` is a vertical rule at `x` in the given band.
pub open spec fn has_v_separator(lines: Seq<PathContent>, idxs: Seq<usize>, x: int, y_min: int, y_max: int) -> bool {
    exists|k: int| 0 <= k < idxs.len() && #[trigger] v_separates(lines[idxs[k] as int], x, y_min, y_max)
}

/// Whether one of the paths named by `idxs` is a horizontal rule at `y` in the given band.
pub open spec fn has_h_separator(lines: Seq<PathContent>, idxs: Seq<usize>, y: int, x_min: int, x_max: int) -> bool {
    exists|k: int| 0 <= k < idxs.len() && #[trigger] h_separates(lines[idxs[k] as int], y, x_min, x_max)
}

/// Every index names one of the paths, and every path's box is well formed.
pub open spec fn line_refs_ok(lines: Seq<PathContent>, idxs: Seq<usize>) -> bool {
    &&& lines_wf(lines)
    &&& forall|k: int| 0 <= k < idxs.len() ==> #[trigger] idxs[k] < lines.len()
}

/// `has_v_separator`.
pub fn find_v_separator(lines: &[PathContent], idxs: &Vec<usize>, x: i64, y_min: i64, y_max: i64) -> (b: bool)
    requires
        line_refs_ok(lines@, idxs@),
        coord_ok(x as int),
    ensures
        b == has_v_separator(lines@, idxs@, x as int, y_min as int, y_max as int),
{
    let n = idxs.len();
    let mut k: usize = 0;
    while k < n
        invariant
            n == idxs@.len(),
            k <= n,
            line_refs_ok(lines@, idxs@),
            coord_ok(x as int),
            forall|q: int| 0 <= q < k ==> !#[trigger] v_separates(lines@[idxs@[q] as int], x as int, y_min as int, y_max as int),
        decreases n - k,
    {
        let i = idxs[k];
        proof {
            assert(idxs@[k as int] < lines@.len());
            assert(lines@[i as int].bbox.wf());
        }
        let p = &lines[i];
        if p.is_vertical_line(SEPARATOR_TOL) {
            let c = p.bbox.center();
            if abs_i64(c.x - x) < SEPARATOR_TOL && p.bbox.y < y_max && p.bbox.bottom() > y_min {
                proof {
                    assert(v_separates(lines@[idxs@[k as int] as int], x as int, y_min as int, y_max as int));
                }
                return true;
            }
        }
        k = k + 1;
    }
    false
}

/// `has_h_separator`.
pub fn find_h_separator(lines: &[PathContent], idxs: &Vec<usize>, y: i64, x_min: i64, x_max: i64) -> (b: bool)
    requires
        line_refs_ok(lines@, idxs@),
        coord_ok(y as int),
    ensures
        b == has_h_separator(lines@, idxs@, y as int, x_min as int, x_max as int),
{
    let n = idxs.len();
    let mut k: usize = 0;
    while k < n
        invariant
            n == idxs@.len(),
            k <= n,
            line_refs_ok(lines@, idxs@),
            coord_ok(y as int),
            forall|q: int| 0 <= q < k ==> !#[trigger] h_separates(lines@[idxs@[q] as int], y as int, x_min as int, x_max as int),
        decreases n - k,
    {
        let i = idxs[k];
        proof {
            assert(idxs@[k as int] < lines@.len());
            assert(lines@[i as int].bbox.wf());
        }
        let p = &lines[i];
        if p.is_horizontal_line(SEPARATOR_TOL) {
            let c = p.bbox.center();
            if abs_i64(c.y - y) < SEPARATOR_TOL && p.bbox.x < x_max && p.bbox.right() > x_min {
                proof {
                    assert(h_separates(lines@[idxs@[k as int] as int], y as int, x_min as int, x_max as int));
                }
                return true;
            }
        }
        k = k + 1;
    }
    false
}

/// The widest span of a cell, or 0 when none is wider (indices that name no
/// span are skipped).
pub open spec fn text_width(spans: Seq<TextSpan>, cell: Seq<usize>) -> int
    decreases cell.len(),
{
    if cell.len() == 0 {
        0
    } else {
        let w = text_width(spans, cell.drop_last());
        let i = cell.last();
        if i < spans.len() && spans[i as int].bbox.width > w {
            spans[i as int].bbox.width as int
        } else {
            w
        }
    }
}

/// `text_width`.
fn cell_text_width(spans: &[TextSpan], cell: &Vec<usize>) -> (w: i64)
    requires
        spans_wf(spans@),
    ensures
        w == text_width(spans@, cell@),
        0 <= w <= 2 * COORD_LIMIT,
{
    let n = cell.len();
    let mut w: i64 = 0;
    let mut k: usize = 0;
    while k < n
        invariant
            n == cell@.len(),
            k <= n,
            spans_wf(spans@),
            w == text_width(spans@, cell@.take(k as int)),
            0 <= w <= 2 * COORD_LIMIT,
        decreases n - k,
    {
        proof {
            assert(cell@.take(k + 1).drop_last() =~= cell@.take(k as int));
        }
        let i = cell[k];
        if i < spans.len() {
            proof {
                assert(spans@[i as int].bbox.wf());
            }
            if spans[i].bbox.width > w {
                w = spans[i].bbox.width;
            }
        }
        k = k + 1;
    }
    proof {
        assert(cell@.take(n as int) =~= cell@);
    }
    w
}

/// Width of column `c`.
pub open spec fn col_width(g: GridView, c: int) -> int {
    g.columns[c].max - g.columns[c].min
}

/// How many columns from `next` on a cell of row `r` runs into: it runs on
/// while no rule parts the columns, or while its text (`width` wide) is wider
/// than the columns it covers so far (`total`) by more than `TEXT_SLACK`.
pub open spec fn spread_right(
    g: GridView,
    lines: Seq<PathContent>,
    idxs: Seq<usize>,
    r: int,
    next: int,
    width: int,
    total: int,
) -> nat
    decreases g.columns.len() - next,
{
    if next < 0 || next >= g.columns.len() {
        0
    } else if !has_v_separator(lines, idxs, g.columns[next].min as int, g.rows[r].min as int, g.rows[r].max as int)
        || width > total + TEXT_SLACK {
        1 + spread_right(g, lines, idxs, r, next + 1, width, total + col_width(g, next))
    } else {
        0
    }
}

/// The number of columns cell `(r, c)` spans.
pub open spec fn ruled_colspan(g: GridView, spans: Seq<TextSpan>, lines: Seq<PathContent>, idxs: Seq<usize>, r: int, c: int) -> nat {
    1 + spread_right(g, lines, idxs, r, c + 1, text_width(spans, g.cells[r][c]), col_width(g, c))
}

/// A cell that another cell spans over.
pub open spec fn covered_info() -> CellMergeInfo {
    CellMergeInfo { colspan: 1, rowspan: 1, covered: true }
}

/// Merge information of row `r` from column `c` on, walking left to right:
/// each cell that is reached spans `ruled_colspan` columns and covers the
/// ones it spans over.
pub open spec fn row_merge_from(g: GridView, spans: Seq<TextSpan>, lines: Seq<PathContent>, idxs: Seq<usize>, r: int, c: int) -> Seq<CellMergeInfo>
    decreases g.columns.len() - c,
{
    if c < 0 || c >= g.columns.len() {
        seq![]
    } else {
        let k = ruled_colspan(g, spans, lines, idxs, r, c);
        proof {
            lemma_spread_right_bound(g, lines, idxs, r, c + 1, text_width(spans, g.cells[r][c]), col_width(g, c));
        }
        seq![CellMergeInfo { colspan: k as u32, rowspan: 1, covered: false }] + Seq::new(
            (k - 1) as nat,
            |_i: int| covered_info(),
        ) + row_merge_from(g, spans, lines, idxs, r, c + k)
    }
}

/// A cell never runs past the last column.
pub proof fn lemma_spread_right_bound(g: GridView, lines: Seq<PathContent>, idxs: Seq<usize>, r: int, next: int, width: int, total: int)
    requires
        0 <= next,
    ensures
        next + spread_right(g, lines, idxs, r, next, width, total) <= if next <= g.columns.len() { g.columns.len() as int } else { next },
    decreases g.columns.len() - next,
{
    if next < g.columns.len() {
        lemma_spread_right_bound(g, lines, idxs, r, next + 1, width, total + col_width(g, next));
    }
}

proof fn lemma_row_merge_from(g: GridView, spans: Seq<TextSpan>, lines: Seq<PathContent>, idxs: Seq<usize>, r: int, c: int)
    requires
        0 <= c <= g.columns.len(),
        g.columns.len() <= u32::MAX,
    ensures
        row_merge_from(g, spans, lines, idxs, r, c).len() == g.columns.len() - c,
        forall|j: int|
            0 <= j < g.columns.len() - c ==> {
                &&& 1 <= (#[trigger] row_merge_from(g, spans, lines, idxs, r, c)[j]).colspan
                &&& c + j + row_merge_from(g, spans, lines, idxs, r, c)[j].colspan <= g.columns.len()
            },
    decreases g.columns.len() - c,
{
    if c < g.columns.len() {
        let k = ruled_colspan(g, spans, lines, idxs, r, c);
        lemma_spread_right_bound(g, lines, idxs, r, c + 1, text_width(spans, g.cells[r][c]), col_width(g, c));
        lemma_row_merge_from(g, spans, lines, idxs, r, c + k);
        let head = seq![CellMergeInfo { colspan: k as u32, rowspan: 1, covered: false }] + Seq::new(
            (k - 1) as nat,
            |_i: int| covered_info(),
        );
        let rest = row_merge_from(g, spans, lines, idxs, r, c + k);
        let all = row_merge_from(g, spans, lines, idxs, r, c);
        assert(all == head + rest);
        assert forall|j: int| 0 <= j < g.columns.len() - c implies {
            &&& 1 <= (#[trigger] all[j]).colspan
            &&& c + j + all[j].colspan <= g.columns.len()
        } by {
            if j >= k {
                assert(all[j] == rest[j - k]);
            } else if j > 0 {
                assert(all[j] == head[j]);
            }
        }
    }
}

proof fn lemma_row_merge_cover(g: GridView, spans: Seq<TextSpan>, lines: Seq<PathContent>, idxs: Seq<usize>, r: int, c: int)
    requires
        0 <= c <= g.columns.len(),
        g.columns.len() <= u32::MAX,
    ensures
        forall|j: int| 0 <= j < g.columns.len() - c ==> (#[trigger] row_merge_from(g, spans, lines, idxs, r, c)[j]).rowspan == 1,
        forall|j: int, q: int|
            #![trigger row_merge_from(g, spans, lines, idxs, r, c)[j], row_merge_from(g, spans, lines, idxs, r, c)[q]]
            0 <= j < q < g.columns.len() - c && !row_merge_from(g, spans, lines, idxs, r, c)[j].covered && q < j
                + row_merge_from(g, spans, lines, idxs, r, c)[j].colspan ==> row_merge_from(g, spans, lines, idxs, r, c)[q].covered,
    decreases g.columns.len() - c,
{
    if c < g.columns.len() {
        let k = ruled_colspan(g, spans, lines, idxs, r, c);
        lemma_spread_right_bound(g, lines, idxs, r, c + 1, text_width(spans, g.cells[r][c]), col_width(g, c));
        lemma_row_merge_from(g, spans, lines, idxs, r, c + k);
        lemma_row_merge_cover(g, spans, lines, idxs, r, c + k);
        let head = seq![CellMergeInfo { colspan: k as u32, rowspan: 1, covered: false }] + Seq::new(
            (k - 1) as nat,
            |_i: int| covered_info(),
        );
        let rest = row_merge_from(g, spans, lines, idxs, r, c + k);
        let all = row_merge_from(g, spans, lines, idxs, r, c);
        assert(all == head + rest);
        assert forall|j: int| 0 <= j < g.columns.len() - c implies (#[trigger] all[j]).rowspan == 1 by {
            if j >= k {
                assert(all[j] == rest[j - k]);
            } else {
                assert(all[j] == head[j]);
            }
        }
        assert forall|j: int, q: int|
            #![trigger all[j], all[q]]
            0 <= j < q < g.columns.len() - c && !all[j].covered && q < j + all[j].colspan implies all[q].covered by {
            if j >= k {
                assert(all[j] == rest[j - k]);
                assert(all[q] == rest[q - k]);
            } else if j == 0 {
                assert(all[0].colspan == k);
                assert(all[q] == head[q]);
            } else {
                assert(all[j] == head[j]);
            }
        }
    }
}

/// `row_merge_from(grid, .., r, 0)`: the merge information of row `r` after
/// the left-to-right pass.
fn row_pass_row(grid: &GridStructure, spans: &[TextSpan], lines: &[PathContent], idxs: &Vec<usize>, r: usize) -> (row: Vec<CellMergeInfo>)
    requires
        grid@.wf(spans@.len()),
        spans_wf(spans@),
        line_refs_ok(lines@, idxs@),
        r < grid@.rows.len(),
    ensures
        row@ == row_merge_from(grid@, spans@, lines@, idxs@, r as int, 0),
{
    let ghost g = grid@;
    let ghost target = row_merge_from(g, spans@, lines@, idxs@, r as int, 0);
    let nc = grid.columns.len();
    proof {
        assert(g.cells[r as int] == grid.cells@[r as int]@.map_values(|cell: Vec<usize>| cell@));
        assert(clusters_ok(g.rows));
        assert(coord_ok(g.rows[r as int].min as int));
    }
    let mut row: Vec<CellMergeInfo> = Vec::new();
    let mut c: usize = 0;
    while c < nc
        invariant
            g == grid@,
            g.wf(spans@.len()),
            spans_wf(spans@),
            line_refs_ok(lines@, idxs@),
            nc == g.columns.len(),
            r < g.rows.len(),
            g.cells[r as int] == grid.cells@[r as int]@.map_values(|cell: Vec<usize>| cell@),
            c <= nc,
            row@.len() == c,
            row@ + row_merge_from(g, spans@, lines@, idxs@, r as int, c as int) == target,
        decreases nc - c,
    {
        proof {
            assert(g.cells[r as int][c as int] == grid.cells@[r as int]@[c as int]@);
            assert(coord_ok(g.columns[c as int].min as int) && coord_ok(g.columns[c as int].max as int));
        }
        let w = cell_text_width(spans, &grid.cells[r][c]);
        let ghost total0 = col_width(g, c as int);
        let mut total: i128 = (grid.columns[c].max - grid.columns[c].min) as i128;
        let mut next: usize = c + 1;
        proof {
            assert(-2 * COORD_LIMIT <= total <= 2 * COORD_LIMIT);
            assert(nc <= u32::MAX);
        }
        while next < nc && (!find_v_separator(lines, idxs, grid.columns[next].min, grid.rows[r].min, grid.rows[r].max)
            || w as i128 > total + TEXT_SLACK as i128)
            invariant
                g == grid@,
                g.shape_ok(),
                line_refs_ok(lines@, idxs@),
                nc == g.columns.len(),
                r < g.rows.len(),
                c < next <= nc,
                nc <= u32::MAX,
                0 <= w <= 2 * COORD_LIMIT,
                -2_000_000_000_000 * (next - c) <= total <= 2_000_000_000_000 * (next - c),
                spread_right(g, lines@, idxs@, r as int, c + 1, w as int, total0) == (next - c - 1) + spread_right(
                    g,
                    lines@,
                    idxs@,
                    r as int,
                    next as int,
                    w as int,
                    total as int,
                ),
            decreases nc - next,
        {
            proof {
                assert(coord_ok(g.columns[next as int].min as int) && coord_ok(g.columns[next as int].max as int));
            }
            total = total + (grid.columns[next].max - grid.columns[next].min) as i128;
            next = next + 1;
        }
        let k = next - c;
        proof {
            assert(spread_right(g, lines@, idxs@, r as int, next as int, w as int, total as int) == 0);
            assert(k == ruled_colspan(g, spans@, lines@, idxs@, r as int, c as int));
            assert(nc <= u32::MAX);
        }
        let ghost before = row@;
        row.push(CellMergeInfo { colspan: k as u32, rowspan: 1, covered: false });
        let mut i: usize = 1;
        while i < k
            invariant
                1 <= i <= k,
                k <= u32::MAX,
                row@ == before + seq![CellMergeInfo { colspan: k as u32, rowspan: 1, covered: false }] + Seq::new(
                    (i - 1) as nat,
                    |_i: int| covered_info(),
                ),
            decreases k - i,
        {
            row.push(CellMergeInfo { colspan: 1, rowspan: 1, covered: true });
            proof {
                assert(row@ =~= before + seq![CellMergeInfo { colspan: k as u32, rowspan: 1, covered: false }] + Seq::new(
                    i as nat,
                    |_i: int| covered_info(),
                ));
            }
            i = i + 1;
        }
        proof {
            let head = seq![CellMergeInfo { colspan: k as u32, rowspan: 1, covered: false }] + Seq::new(
                (k - 1) as nat,
                |_i: int| covered_info(),
            );
            let rest = row_merge_from(g, spans@, lines@, idxs@, r as int, next as int);
            assert(row_merge_from(g, spans@, lines@, idxs@, r as int, c as int) == head + rest);
            assert(row@ + rest =~= before + (head + rest));
        }
        c = next;
    }
    proof {
        assert(row_merge_from(g, spans@, lines@, idxs@, r as int, c as int) =~= Seq::<CellMergeInfo>::empty());
        assert(row@ =~= target);
    }
    row
}

/// Merge information after the left-to-right pass over every row.
pub open spec fn row_merge(g: GridView, spans: Seq<TextSpan>, lines: Seq<PathContent>, idxs: Seq<usize>) -> Seq<Seq<CellMergeInfo>> {
    Seq::new(g.rows.len(), |r: int| row_merge_from(g, spans, lines, idxs, r, 0))
}

/// How many rows from `next` on a cell in column `c` (reaching to column
/// `last`) runs down into: it runs on while no rule parts the rows.
pub open spec fn spread_down(g: GridView, lines: Seq<PathContent>, idxs: Seq<usize>, c: int, last: int, next: int) -> nat
    decreases g.rows.len() - next,
{
    if next < 0 || next >= g.rows.len() {
        0
    } else if !has_h_separator(lines, idxs, g.rows[next].max as int, g.columns[c].min as int, g.columns[last].max as int) {
        1 + spread_down(g, lines, idxs, c, last, next + 1)
    } else {
        0
    }
}

/// A cell never runs past the last row.
pub proof fn lemma_spread_down_bound(g: GridView, lines: Seq<PathContent>, idxs: Seq<usize>, c: int, last: int, next: int)
    requires
        0 <= next,
    ensures
        next + spread_down(g, lines, idxs, c, last, next) <= if next <= g.rows.len() { g.rows.len() as int } else { next },
    decreases g.rows.len() - next,
{
    if next < g.rows.len() {
        lemma_spread_down_bound(g, lines, idxs, c, last, next + 1);
    }
}

/// `m` with the cells in rows `r0..r1` and columns `c0..c1` marked covered.
pub open spec fn cover_region(m: Seq<Seq<CellMergeInfo>>, r0: int, r1: int, c0: int, c1: int) -> Seq<Seq<CellMergeInfo>> {
    Seq::new(
        m.len(),
        |i: int|
            Seq::new(
                m[i].len(),
                |j: int|
                    if r0 <= i < r1 && c0 <= j < c1 {
                        CellMergeInfo { colspan: m[i][j].colspan, rowspan: m[i][j].rowspan, covered: true }
                    } else {
                        m[i][j]
                    },
            ),
    )
}

/// `m` with cell `(r, c)` spanning `k` rows.
pub open spec fn with_rowspan(m: Seq<Seq<CellMergeInfo>>, r: int, c: int, k: nat) -> Seq<Seq<CellMergeInfo>> {
    m.update(r, m[r].update(c, CellMergeInfo { colspan: m[r][c].colspan, rowspan: k as u32, covered: m[r][c].covered }))
}

/// The top-to-bottom pass over column `c` from row `r` on: each cell that is
/// not covered spans down `1 + spread_down` rows and covers the cells below
/// it across its own column span.
pub open spec fn column_merge_from(
    g: GridView,
    lines: Seq<PathContent>,
    idxs: Seq<usize>,
    m: Seq<Seq<CellMergeInfo>>,
    c: int,
    r: int,
) -> Seq<Seq<CellMergeInfo>>
    decreases g.rows.len() - r,
{
    if r < 0 || r >= g.rows.len() {
        m
    } else if m[r][c].covered {
        column_merge_from(g, lines, idxs, m, c, r + 1)
    } else {
        let cs = m[r][c].colspan as int;
        let k = 1 + spread_down(g, lines, idxs, c, c + cs - 1, r + 1);
        proof {
            lemma_spread_down_bound(g, lines, idxs, c, c + cs - 1, r + 1);
        }
        let m2 = if k > 1 {
            cover_region(with_rowspan(m, r, c, k), r + 1, r + k, c, c + cs)
        } else {
            m
        };
        column_merge_from(g, lines, idxs, m2, c, r + k)
    }
}

/// The top-to-bottom passes over columns `c` and on, left to right.
pub open spec fn columns_merge_from(g: GridView, lines: Seq<PathContent>, idxs: Seq<usize>, m: Seq<Seq<CellMergeInfo>>, c: int) -> Seq<Seq<CellMergeInfo>>
    decreases g.columns.len() - c,
{
    if c < 0 || c >= g.columns.len() {
        m
    } else {
        columns_merge_from(g, lines, idxs, column_merge_from(g, lines, idxs, m, c, 0), c + 1)
    }
}

/// Merge information of a ruled grid: a pass over each row, left to right,
/// joins a cell with the next column while no vertical rule parts them in the
/// row's band (or while its text is wider than the columns it spans so far);
/// then a pass down each column, left to right, joins a cell that is not
/// covered with the next row while no horizontal rule parts them across its
/// column span.
pub open spec fn visual_merge(g: GridView, spans: Seq<TextSpan>, lines: Seq<PathContent>, idxs: Seq<usize>) -> Seq<Seq<CellMergeInfo>> {
    columns_merge_from(g, lines, idxs, row_merge(g, spans, lines, idxs), 0)
}

/// Merge information shaped like the grid, each cell spanning at least one
/// column and not past the last.
pub open spec fn merge_ok(m: Seq<Seq<CellMergeInfo>>, g: GridView) -> bool {
    &&& merge_fits(m, g)
    &&& forall|r: int, c: int|
        0 <= r < m.len() && 0 <= c < m[r].len() ==> {
            &&& 1 <= (#[trigger] m[r][c]).colspan
            &&& c + m[r][c].colspan <= g.columns.len()
        }
}

/// Merge information in which every cell spans at least one row and none
/// past the last.
pub open spec fn rowspans_ok(m: Seq<Seq<CellMergeInfo>>, g: GridView) -> bool {
    forall|r: int, c: int|
        0 <= r < m.len() && 0 <= c < m[r].len() ==> {
            &&& 1 <= (#[trigger] m[r][c]).rowspan
            &&& r + m[r][c].rowspan <= g.rows.len()
        }
}

/// Every cell that is not covered covers the other cells of its block (the
/// rows and columns it spans).
pub open spec fn anchors_cover(m: Seq<Seq<CellMergeInfo>>) -> bool {
    forall|r: int, c: int, i: int, j: int|
        #![trigger m[r][c], m[i][j]]
        0 <= r < m.len() && 0 <= c < m[r].len() && !m[r][c].covered && r <= i < r + m[r][c].rowspan && c <= j < c
            + m[r][c].colspan && (i != r || j != c) ==> m[i][j].covered
}

proof fn lemma_column_merge_blocks(
    g: GridView,
    lines: Seq<PathContent>,
    idxs: Seq<usize>,
    m: Seq<Seq<CellMergeInfo>>,
    c: int,
    r: int,
)
    requires
        merge_ok(m, g),
        rowspans_ok(m, g),
        anchors_cover(m),
        g.rows.len() <= u32::MAX,
        0 <= c < g.columns.len(),
    ensures
        rowspans_ok(column_merge_from(g, lines, idxs, m, c, r), g),
        anchors_cover(column_merge_from(g, lines, idxs, m, c, r)),
    decreases g.rows.len() - r,
{
    if 0 <= r < g.rows.len() {
        if m[r][c].covered {
            lemma_column_merge_blocks(g, lines, idxs, m, c, r + 1);
        } else {
            let cs = m[r][c].colspan as int;
            let k = 1 + spread_down(g, lines, idxs, c, c + cs - 1, r + 1);
            lemma_spread_down_bound(g, lines, idxs, c, c + cs - 1, r + 1);
            lemma_column_merge_ok(g, lines, idxs, m, c, r);
            if k > 1 {
                let w = with_rowspan(m, r, c, k);
                let m2 = cover_region(w, r + 1, r + k, c, c + cs);
                assert(merge_ok(m2, g)) by {
                    assert forall|i: int, j: int| 0 <= i < m2.len() && 0 <= j < m2[i].len() implies {
                        &&& 1 <= (#[trigger] m2[i][j]).colspan
                        &&& j + m2[i][j].colspan <= g.columns.len()
                    } by {
                        assert(m2[i][j].colspan == w[i][j].colspan);
                        assert(w[i][j].colspan == m[i][j].colspan);
                    }
                }
                assert forall|i: int, j: int| 0 <= i < m2.len() && 0 <= j < m2[i].len() implies {
                    &&& 1 <= (#[trigger] m2[i][j]).rowspan
                    &&& i + m2[i][j].rowspan <= g.rows.len()
                } by {
                    assert(m2[i][j].rowspan == w[i][j].rowspan);
                    if i != r || j != c {
                        assert(w[i][j] == m[i][j]);
                    }
                }
                assert forall|a: int, b: int, i: int, j: int|
                    #![trigger m2[a][b], m2[i][j]]
                    0 <= a < m2.len() && 0 <= b < m2[a].len() && !m2[a][b].covered && a <= i < a + m2[a][b].rowspan && b
                        <= j < b + m2[a][b].colspan && (i != a || j != b) implies m2[i][j].covered by {
                    assert(m2[a][b].covered == (w[a][b].covered || (r + 1 <= a < r + k && c <= b < c + cs)));
                    if a != r || b != c {
                        assert(w[a][b] == m[a][b]);
                    }
                    assert(0 <= i < m2.len() && 0 <= j < m2[i].len());
                    if i != r || j != c {
                        assert(w[i][j] == m[i][j]);
                    }
                    if a == r && b == c && i > r {
                    } else {
                        assert(m[i][j].covered);
                    }
                }
                lemma_column_merge_blocks(g, lines, idxs, m2, c, r + k);
            } else {
                lemma_column_merge_blocks(g, lines, idxs, m, c, r + k);
            }
        }
    }
}

proof fn lemma_columns_merge_blocks(g: GridView, lines: Seq<PathContent>, idxs: Seq<usize>, m: Seq<Seq<CellMergeInfo>>, c: int)
    requires
        merge_ok(m, g),
        rowspans_ok(m, g),
        anchors_cover(m),
        g.rows.len() <= u32::MAX,
        0 <= c,
    ensures
        rowspans_ok(columns_merge_from(g, lines, idxs, m, c), g),
        anchors_cover(columns_merge_from(g, lines, idxs, m, c)),
    decreases g.columns.len() - c,
{
    if c < g.columns.len() {
        lemma_column_merge_ok(g, lines, idxs, m, c, 0);
        lemma_column_merge_blocks(g, lines, idxs, m, c, 0);
        lemma_columns_merge_blocks(g, lines, idxs, column_merge_from(g, lines, idxs, m, c, 0), c + 1);
    }
}

proof fn lemma_column_merge_ok(g: GridView, lines: Seq<PathContent>, idxs: Seq<usize>, m: Seq<Seq<CellMergeInfo>>, c: int, r: int)
    requires
        merge_ok(m, g),
        g.rows.len() <= u32::MAX,
        0 <= c < g.columns.len(),
    ensures
        merge_ok(column_merge_from(g, lines, idxs, m, c, r), g),
    decreases g.rows.len() - r,
{
    if 0 <= r < g.rows.len() {
        if m[r][c].covered {
            lemma_column_merge_ok(g, lines, idxs, m, c, r + 1);
        } else {
            let cs = m[r][c].colspan as int;
            let k = 1 + spread_down(g, lines, idxs, c, c + cs - 1, r + 1);
            lemma_spread_down_bound(g, lines, idxs, c, c + cs - 1, r + 1);
            if k > 1 {
                let w = with_rowspan(m, r, c, k);
                let m2 = cover_region(w, r + 1, r + k, c, c + cs);
                assert forall|i: int, j: int| 0 <= i < m2.len() && 0 <= j < m2[i].len() implies {
                    &&& 1 <= (#[trigger] m2[i][j]).colspan
                    &&& j + m2[i][j].colspan <= g.columns.len()
                } by {
                    assert(m2[i][j].colspan == w[i][j].colspan);
                    assert(w[i][j].colspan == m[i][j].colspan);
                }
                lemma_column_merge_ok(g, lines, idxs, m2, c, r + k);
            } else {
                lemma_column_merge_ok(g, lines, idxs, m, c, r + k);
            }
        }
    }
}

proof fn lemma_columns_merge_ok(g: GridView, lines: Seq<PathContent>, idxs: Seq<usize>, m: Seq<Seq<CellMergeInfo>>, c: int)
    requires
        merge_ok(m, g),
        g.rows.len() <= u32::MAX,
        0 <= c,
    ensures
        merge_ok(columns_merge_from(g, lines, idxs, m, c), g),
    decreases g.columns.len() - c,
{
    if c < g.columns.len() {
        lemma_column_merge_ok(g, lines, idxs, m, c, 0);
        lemma_columns_merge_ok(g, lines, idxs, column_merge_from(g, lines, idxs, m, c, 0), c + 1);
    }
}

/// `m` with the cells in rows `r0..i` and columns `c0..c1`, and those in row
/// `i` and columns `c0..j`, marked covered.
spec fn cover_partial(m: Seq<Seq<CellMergeInfo>>, r0: int, i: int, c0: int, c1: int, j: int) -> Seq<Seq<CellMergeInfo>> {
    Seq::new(
        m.len(),
        |x: int|
            Seq::new(
                m[x].len(),
                |y: int|
                    if (r0 <= x < i && c0 <= y < c1) || (x == i && c0 <= y < j) {
                        CellMergeInfo { colspan: m[x][y].colspan, rowspan: m[x][y].rowspan, covered: true }
                    } else {
                        m[x][y]
                    },
            ),
    )
}

/// Mark cell `(i, j)` covered.
fn set_covered(m: &mut Vec<Vec<CellMergeInfo>>, i: usize, j: usize)
    requires
        i < old(m)@.len(),
        j < old(m)@[i as int]@.len(),
    ensures
        merge_view(final(m)@) == merge_view(old(m)@).update(
            i as int,
            merge_view(old(m)@)[i as int].update(
                j as int,
                CellMergeInfo {
                    colspan: merge_view(old(m)@)[i as int][j as int].colspan,
                    rowspan: merge_view(old(m)@)[i as int][j as int].rowspan,
                    covered: true,
                },
            ),
        ),
{
    let ghost mv = merge_view(m@);
    let mut row = m.remove(i);
    let x = row[j];
    row.set(j, CellMergeInfo { colspan: x.colspan, rowspan: x.rowspan, covered: true });
    m.insert(i, row);
    proof {
        assert(merge_view(m@) =~= mv.update(
            i as int,
            mv[i as int].update(j as int, CellMergeInfo { colspan: x.colspan, rowspan: x.rowspan, covered: true }),
        ));
    }
}

/// Let cell `(r, c)` span `k` rows.
fn set_rowspan(m: &mut Vec<Vec<CellMergeInfo>>, r: usize, c: usize, k: u32)
    requires
        r < old(m)@.len(),
        c < old(m)@[r as int]@.len(),
    ensures
        merge_view(final(m)@) == with_rowspan(merge_view(old(m)@), r as int, c as int, k as nat),
{
    let ghost mv = merge_view(m@);
    let mut row = m.remove(r);
    let x = row[c];
    row.set(c, CellMergeInfo { colspan: x.colspan, rowspan: k, covered: x.covered });
    m.insert(r, row);
    proof {
        assert(merge_view(m@) =~= with_rowspan(mv, r as int, c as int, k as nat));
    }
}

/// Mark the cells in rows `r0..r1` and columns `c0..c1` covered.
fn cover_cells(m: &mut Vec<Vec<CellMergeInfo>>, r0: usize, r1: usize, c0: usize, c1: usize)
    requires
        r0 <= r1 <= old(m)@.len(),
        c0 <= c1,
        forall|i: int| 0 <= i < old(m)@.len() ==> c1 <= (#[trigger] old(m)@[i])@.len(),
    ensures
        merge_view(final(m)@) == cover_region(merge_view(old(m)@), r0 as int, r1 as int, c0 as int, c1 as int),
{
    let ghost m0 = merge_view(m@);
    let mut i: usize = r0;
    proof {
        assert(m0 =~~= cover_region(m0, r0 as int, i as int, c0 as int, c1 as int));
    }
    while i < r1
        invariant
            r0 <= i <= r1,
            r1 <= m0.len(),
            c0 <= c1,
            m@.len() == m0.len(),
            forall|x: int| 0 <= x < m0.len() ==> c1 <= (#[trigger] m0[x]).len(),
            merge_view(m@) == cover_region(m0, r0 as int, i as int, c0 as int, c1 as int),
        decreases r1 - i,
    {
        let mut j: usize = c0;
        proof {
            assert(cover_region(m0, r0 as int, i as int, c0 as int, c1 as int) =~~= cover_partial(
                m0,
                r0 as int,
                i as int,
                c0 as int,
                c1 as int,
                j as int,
            ));
        }
        while j < c1
            invariant
                r0 <= i < r1,
                r1 <= m0.len(),
                c0 <= j <= c1,
                m@.len() == m0.len(),
                forall|x: int| 0 <= x < m0.len() ==> c1 <= (#[trigger] m0[x]).len(),
                merge_view(m@) == cover_partial(m0, r0 as int, i as int, c0 as int, c1 as int, j as int),
            decreases c1 - j,
        {
            proof {
                assert(m@[i as int]@ == merge_view(m@)[i as int]);
            }
            let ghost before = merge_view(m@);
            set_covered(m, i, j);
            proof {
                assert(merge_view(m@) =~~= cover_partial(m0, r0 as int, i as int, c0 as int, c1 as int, j + 1));
                assert(m@.len() == merge_view(m@).len());
            }
            j = j + 1;
        }
        proof {
            assert(cover_partial(m0, r0 as int, i as int, c0 as int, c1 as int, c1 as int) =~~= cover_region(
                m0,
                r0 as int,
                i + 1,
                c0 as int,
                c1 as int,
            ));
        }
        i = i + 1;
    }
}

/// The top-to-bottom pass over column `c`, as `column_merge_from` describes it.
fn column_pass(grid: &GridStructure, lines: &[PathContent], idxs: &Vec<usize>, m: &mut Vec<Vec<CellMergeInfo>>, c: usize)
    requires
        grid@.shape_ok(),
        line_refs_ok(lines@, idxs@),
        c < grid@.columns.len(),
        merge_ok(merge_view(old(m)@), grid@),
    ensures
        merge_view(final(m)@) == column_merge_from(grid@, lines@, idxs@, merge_view(old(m)@), c as int, 0),
        merge_ok(merge_view(final(m)@), grid@),
{
    let ghost g = grid@;
    let ghost target = column_merge_from(g, lines@, idxs@, merge_view(m@), c as int, 0);
    proof {
        lemma_column_merge_ok(g, lines@, idxs@, merge_view(m@), c as int, 0);
        assert(clusters_ok(g.columns));
        assert(coord_ok(g.columns[c as int].min as int));
    }
    let nr = grid.rows.len();
    let mut r: usize = 0;
    while r < nr
        invariant
            g == grid@,
            g.shape_ok(),
            line_refs_ok(lines@, idxs@),
            nr == g.rows.len(),
            c < g.columns.len(),
            r <= nr,
            merge_ok(merge_view(m@), g),
            column_merge_from(g, lines@, idxs@, merge_view(m@), c as int, r as int) == target,
        decreases nr - r,
    {
        proof {
            assert(merge_view(m@)[r as int] == m@[r as int]@);
            assert(merge_view(m@)[r as int].len() == g.columns.len());
        }
        let info = m[r][c];
        if info.covered {
            r = r + 1;
        } else {
            proof {
                assert(merge_view(m@)[r as int][c as int] == info);
                assert(1 <= info.colspan && c + info.colspan <= g.columns.len());
            }
            let last = c + info.colspan as usize - 1;
            proof {
                assert(coord_ok(g.columns[last as int].max as int));
            }
            let mut next: usize = r + 1;
            while next < nr && !find_h_separator(lines, idxs, grid.rows[next].max, grid.columns[c].min, grid.columns[last].max)
                invariant
                    g == grid@,
                    g.shape_ok(),
                    line_refs_ok(lines@, idxs@),
                    nr == g.rows.len(),
                    c <= last < g.columns.len(),
                    r < next <= nr,
                    spread_down(g, lines@, idxs@, c as int, last as int, r + 1) == (next - r - 1) + spread_down(
                        g,
                        lines@,
                        idxs@,
                        c as int,
                        last as int,
                        next as int,
                    ),
                decreases nr - next,
            {
                proof {
                    assert(coord_ok(g.rows[next as int].max as int));
                }
                next = next + 1;
            }
            let k = next - r;
            proof {
                assert(spread_down(g, lines@, idxs@, c as int, last as int, next as int) == 0);
                assert(nr <= u32::MAX);
            }
            if k > 1 {
                let ghost m0 = merge_view(m@);
                set_rowspan(m, r, c, k as u32);
                let ghost w = merge_view(m@);
                proof {
                    assert(w == with_rowspan(m0, r as int, c as int, k as nat));
                    assert forall|i: int| 0 <= i < m@.len() implies last + 1 <= (#[trigger] m@[i])@.len() by {
                        assert(w[i] == m@[i]@);
                        assert(w[i].len() == m0[i].len());
                    }
                }
                cover_cells(m, r + 1, next, c, last + 1);
                proof {
                    let m2 = merge_view(m@);
                    assert forall|i: int, j: int| 0 <= i < m2.len() && 0 <= j < m2[i].len() implies {
                        &&& 1 <= (#[trigger] m2[i][j]).colspan
                        &&& j + m2[i][j].colspan <= g.columns.len()
                    } by {
                        assert(m2[i][j].colspan == w[i][j].colspan);
                        assert(w[i][j].colspan == m0[i][j].colspan);
                    }
                }
            }
            r = next;
        }
    }
}

/// Merge information of a ruled grid, as `visual_merge` describes it, with
/// the rules of `cluster` among `all_lines`.
pub fn detect_merged_cells_visually(
    grid: &GridStructure,
    spans: &[TextSpan],
    cluster: &LineCluster,
    all_lines: &[PathContent],
) -> (m: Vec<Vec<CellMergeInfo>>)
    requires
        grid@.wf(spans@.len()),
        spans_wf(spans@),
        line_refs_ok(all_lines@, cluster@.lines),
    ensures
        merge_view(m@) == visual_merge(grid@, spans@, all_lines@, cluster@.lines),
        merge_fits(merge_view(m@), grid@),
{
    let ghost g = grid@;
    let ghost idxs = cluster@.lines;
    let nr = grid.cells.len();
    let nc = grid.columns.len();
    let mut m: Vec<Vec<CellMergeInfo>> = Vec::new();
    let mut r: usize = 0;
    while r < nr
        invariant
            g == grid@,
            g.wf(spans@.len()),
            spans_wf(spans@),
            line_refs_ok(all_lines@, idxs),
            idxs == cluster.lines@,
            nr == g.rows.len(),
            r <= nr,
            merge_view(m@) == row_merge(g, spans@, all_lines@, idxs).take(r as int),
        decreases nr - r,
    {
        let row = row_pass_row(grid, spans, all_lines, &cluster.lines, r);
        let ghost before = merge_view(m@);
        m.push(row);
        proof {
            assert(merge_view(m@) =~= before.push(row@));
            assert(merge_view(m@) =~= row_merge(g, spans@, all_lines@, idxs).take(r + 1));
        }
        r = r + 1;
    }
    proof {
        let rm = row_merge(g, spans@, all_lines@, idxs);
        assert(rm.take(nr as int) =~= rm);
        assert forall|q: int| 0 <= q < rm.len() implies (#[trigger] rm[q]).len() == g.columns.len() by {
            lemma_row_merge_from(g, spans@, all_lines@, idxs, q, 0);
        }
        assert forall|q: int, j: int| 0 <= q < rm.len() && 0 <= j < rm[q].len() implies {
            &&& 1 <= (#[trigger] rm[q][j]).colspan
            &&& j + rm[q][j].colspan <= g.columns.len()
        } by {
            lemma_row_merge_from(g, spans@, all_lines@, idxs, q, 0);
        }
        assert(merge_ok(rm, g));
    }
    let mut c: usize = 0;
    while c < nc
        invariant
            g == grid@,
            g.shape_ok(),
            line_refs_ok(all_lines@, idxs),
            idxs == cluster.lines@,
            nc == g.columns.len(),
            c <= nc,
            merge_ok(merge_view(m@), g),
            columns_merge_from(g, all_lines@, idxs, merge_view(m@), c as int) == visual_merge(g, spans@, all_lines@, idxs),
        decreases nc - c,
    {
        column_pass(grid, all_lines, &cluster.lines, &mut m, c);
        c = c + 1;
    }
    m
}

/// Merge information of a ruled grid has the grid's shape; every cell spans
/// at least one column and one row and none past the last; and every cell
/// that is not covered covers the other cells of the block it spans.
pub proof fn lemma_visual_merge_shape(g: GridView, spans: Seq<TextSpan>, lines: Seq<PathContent>, idxs: Seq<usize>)
    requires
        g.shape_ok(),
    ensures
        merge_ok(visual_merge(g, spans, lines, idxs), g),
        rowspans_ok(visual_merge(g, spans, lines, idxs), g),
        anchors_cover(visual_merge(g, spans, lines, idxs)),
{
    let rm = row_merge(g, spans, lines, idxs);
    assert forall|q: int| 0 <= q < rm.len() implies (#[trigger] rm[q]).len() == g.columns.len() by {
        lemma_row_merge_from(g, spans, lines, idxs, q, 0);
    }
    assert forall|q: int, j: int| 0 <= q < rm.len() && 0 <= j < rm[q].len() implies {
        &&& 1 <= (#[trigger] rm[q][j]).colspan
        &&& j + rm[q][j].colspan <= g.columns.len()
    } by {
        lemma_row_merge_from(g, spans, lines, idxs, q, 0);
    }
    assert forall|q: int, j: int| 0 <= q < rm.len() && 0 <= j < rm[q].len() implies {
        &&& 1 <= (#[trigger] rm[q][j]).rowspan
        &&& q + rm[q][j].rowspan <= g.rows.len()
    } by {
        lemma_row_merge_from(g, spans, lines, idxs, q, 0);
        lemma_row_merge_cover(g, spans, lines, idxs, q, 0);
    }
    assert forall|a: int, b: int, i: int, j: int|
        #![trigger rm[a][b], rm[i][j]]
        0 <= a < rm.len() && 0 <= b < rm[a].len() && !rm[a][b].covered && a <= i < a + rm[a][b].rowspan && b <= j < b
            + rm[a][b].colspan && (i != a || j != b) implies rm[i][j].covered by {
        lemma_row_merge_from(g, spans, lines, idxs, a, 0);
        lemma_row_merge_cover(g, spans, lines, idxs, a, 0);
        assert(i == a);
        assert(rm[a] == row_merge_from(g, spans, lines, idxs, a, 0));
    }
    lemma_columns_merge_ok(g, lines, idxs, rm, 0);
    lemma_columns_merge_blocks(g, lines, idxs, rm, 0);
}

} // verus!
