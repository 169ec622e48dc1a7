//! Table detection from the spatial layout of text spans and ruling lines.
//!
//! Coordinates are fixed-point: thousandths of a PDF point (see `geometry`).
//! Tolerances are given in the same unit, ratios in thousandths.
use crate::geometry::Rect;
use crate::layout::TextSpan;
use crate::structure::grid::{
    header_cells_ok,
    assign_spans_to_cells, GridStructure, GridView, assigned_grid, columns_of, detect_columns, detect_rows, grid_table,
    grid_to_extracted_table, lemma_columns_rows_len, lemma_members_below, lemma_table_grid_has_bbox, rows_of, spans_wf, table_structure_ok,
    text_merge, validate_table_structure_internal,
};
use crate::elements::PathContent;
use crate::structure::line_clusters::{clusters_view, clusters_wf, group_lines_into_clusters, line_clusters, lines_wf, LineClusterView};
use crate::structure::ruled_tables::{cluster_tables, detect_tables_in_cluster};
use crate::structure::table_extractor::{ExtractedTable, TableView};
use vstd::prelude::*;

verus! {

/// Strategy for detecting table boundaries.
#[derive(Debug, Clone, Copy, PartialEq, Eq, Structural)]
pub enum TableStrategy {
    /// Use only vector lines to define boundaries.
    Lines,
    /// Use only text alignment to define boundaries.
    Text,
    /// Use both text and lines.
    Both,
}

impl Default for TableStrategy {
    fn default() -> (s: TableStrategy)
        ensures
            s == TableStrategy::Both,
    {
        TableStrategy::Both
    }
}

/// Configuration for spatial table detection.
#[derive(Debug, Clone, Copy, PartialEq, Eq, Structural)]
pub struct TableDetectionConfig {
    /// Whether table detection is enabled.
    pub enabled: bool,
    /// Strategy for horizontal boundary detection.
    pub horizontal_strategy: TableStrategy,
    /// Strategy for vertical boundary detection.
    pub vertical_strategy: TableStrategy,
    /// X tolerance for grouping columns, in thousandths of a point.
    pub column_tolerance: i64,
    /// Y tolerance for grouping rows, in thousandths of a point.
    pub row_tolerance: i64,
    /// Minimum number of non-empty cells of a valid table.
    pub min_table_cells: usize,
    /// Minimum number of columns of a valid table.
    pub min_table_columns: usize,
    /// Share of rows, in thousandths, that must have the most common number
    /// of filled cells.
    pub regular_row_ratio: u32,
    /// Maximum number of columns before a candidate is rejected.
    pub max_table_columns: usize,
}

impl Default for TableDetectionConfig {
    /// Both strategies, 5 pt column and 2.8 pt row tolerance, at least 4 cells
    /// in at least 2 columns, 30% regular rows, at most 15 columns.
    fn default() -> (c: TableDetectionConfig)
        ensures
            c == (TableDetectionConfig {
                enabled: true,
                horizontal_strategy: TableStrategy::Both,
                vertical_strategy: TableStrategy::Both,
                column_tolerance: 5000,
                row_tolerance: 2800,
                min_table_cells: 4,
                min_table_columns: 2,
                regular_row_ratio: 300,
                max_table_columns: 15,
            }),
    {
        TableDetectionConfig {
            enabled: true,
            horizontal_strategy: TableStrategy::Both,
            vertical_strategy: TableStrategy::Both,
            column_tolerance: 5000,
            row_tolerance: 2800,
            min_table_cells: 4,
            min_table_columns: 2,
            regular_row_ratio: 300,
            max_table_columns: 15,
        }
    }
}

impl TableDetectionConfig {
    /// Lines only, 2 pt column and 1 pt row tolerance, at least 6 cells in at
    /// least 3 columns, 80% regular rows, at most 12 columns.
    pub fn strict() -> (c: TableDetectionConfig)
        ensures
            c == (TableDetectionConfig {
                enabled: true,
                horizontal_strategy: TableStrategy::Lines,
                vertical_strategy: TableStrategy::Lines,
                column_tolerance: 2000,
                row_tolerance: 1000,
                min_table_cells: 6,
                min_table_columns: 3,
                regular_row_ratio: 800,
                max_table_columns: 12,
            }),
    {
        TableDetectionConfig {
            enabled: true,
            horizontal_strategy: TableStrategy::Lines,
            vertical_strategy: TableStrategy::Lines,
            column_tolerance: 2000,
            row_tolerance: 1000,
            min_table_cells: 6,
            min_table_columns: 3,
            regular_row_ratio: 800,
            max_table_columns: 12,
        }
    }

    /// Text only, 10 pt column and 5 pt row tolerance, at least 4 cells in at
    /// least 2 columns, 30% regular rows, at most 20 columns.
    pub fn relaxed() -> (c: TableDetectionConfig)
        ensures
            c == (TableDetectionConfig {
                enabled: true,
                horizontal_strategy: TableStrategy::Text,
                vertical_strategy: TableStrategy::Text,
                column_tolerance: 10000,
                row_tolerance: 5000,
                min_table_cells: 4,
                min_table_columns: 2,
                regular_row_ratio: 300,
                max_table_columns: 20,
            }),
    {
        TableDetectionConfig {
            enabled: true,
            horizontal_strategy: TableStrategy::Text,
            vertical_strategy: TableStrategy::Text,
            column_tolerance: 10000,
            row_tolerance: 5000,
            min_table_cells: 4,
            min_table_columns: 2,
            regular_row_ratio: 300,
            max_table_columns: 20,
        }
    }
}

/// `max(a, b)`.
pub open spec fn max_usize(a: usize, b: usize) -> usize {
    if a >= b { a } else { b }
}

/// The grid of the table found from text alignment alone, if there is one:
/// when detection is enabled and there are spans, the spans' columns
/// (between `max(min_table_columns, 2)` and `max_table_columns` of them) and
/// rows (at least two) form a grid, kept if it has the shape of a table.
pub open spec fn text_grid(spans: Seq<TextSpan>, config: TableDetectionConfig) -> Option<GridView> {
    if !config.enabled || spans.len() == 0 {
        None
    } else {
        let cols = columns_of(spans, config.column_tolerance);
        if cols.len() < max_usize(config.min_table_columns, 2) || cols.len() > config.max_table_columns {
            None
        } else {
            let rows = rows_of(spans, config.row_tolerance);
            if rows.len() < 2 {
                None
            } else {
                let grid = assigned_grid(spans, cols, rows);
                if !table_structure_ok(grid, config) {
                    None
                } else {
                    Some(grid)
                }
            }
        }
    }
}

/// The tables found from text alignment alone: the table of `text_grid`, if
/// any, read with merge information from the text extents.
pub open spec fn text_tables(spans: Seq<TextSpan>, config: TableDetectionConfig) -> Seq<TableView> {
    match text_grid(spans, config) {
        Some(grid) => seq![grid_table(grid, spans, text_merge(grid, spans))],
        None => seq![],
    }
}

/// Every table found from text alignment has a bounding box.
pub proof fn lemma_text_tables_have_bbox(spans: Seq<TextSpan>, config: TableDetectionConfig)
    ensures
        forall|k: int|
            0 <= k < text_tables(spans, config).len() ==> (#[trigger] text_tables(spans, config)[k]).bbox is Some,
{
    if let Some(grid) = text_grid(spans, config) {
        let cols = columns_of(spans, config.column_tolerance);
        let rows = rows_of(spans, config.row_tolerance);
        assert(grid == assigned_grid(spans, cols, rows));
        assert forall|r: int, c: int, k: int|
            0 <= r < grid.cells.len() && 0 <= c < grid.cells[r].len() && 0 <= k < grid.cells[r][c].len()
                implies #[trigger] grid.cells[r][c][k] < spans.len() by {
            lemma_members_below(spans, cols, rows, spans.len(), r, c);
        }
        lemma_table_grid_has_bbox(grid, spans, text_merge(grid, spans), config);
    }
}

/// The span indices held by a row's cells, cell by cell.
pub open spec fn row_span_indices(row: Seq<Seq<usize>>) -> Seq<usize>
    decreases row.len(),
{
    if row.len() == 0 {
        seq![]
    } else {
        row_span_indices(row.drop_last()) + row.last()
    }
}

/// The span indices held by a grid's cells, row by row.
pub open spec fn grid_span_indices(cells: Seq<Seq<Seq<usize>>>) -> Seq<usize>
    decreases cells.len(),
{
    if cells.len() == 0 {
        seq![]
    } else {
        grid_span_indices(cells.drop_last()) + row_span_indices(cells.last())
    }
}

/// For each table found from text alignment, the indices of its spans, row
/// by row and cell by cell.
pub open spec fn text_table_spans(spans: Seq<TextSpan>, config: TableDetectionConfig) -> Seq<Seq<usize>> {
    match text_grid(spans, config) {
        Some(grid) => seq![grid_span_indices(grid.cells)],
        None => seq![],
    }
}

/// The values of a list of tables.
pub open spec fn tables_view(tables: Seq<ExtractedTable>) -> Seq<TableView> {
    tables.map_values(|t: ExtractedTable| t@)
}

/// The grid of `text_grid`.
fn find_text_grid(spans: &[TextSpan], config: &TableDetectionConfig) -> (g: Option<GridStructure>)
    requires
        spans_wf(spans@),
        spans@.len() <= u32::MAX,
    ensures
        match g {
            Some(grid) => text_grid(spans@, *config) == Some(grid@) && grid@.wf(spans@.len()),
            None => text_grid(spans@, *config) is None,
        },
{
    if !config.enabled || spans.len() == 0 {
        return None;
    }
    let columns = detect_columns(spans, config.column_tolerance);
    let min_cols = if config.min_table_columns >= 2 { config.min_table_columns } else { 2 };
    if columns.len() < min_cols || columns.len() > config.max_table_columns {
        return None;
    }
    let rows = detect_rows(spans, config.row_tolerance);
    if rows.len() < 2 {
        return None;
    }
    proof {
        lemma_columns_rows_len(spans@, config.column_tolerance, config.row_tolerance);
    }
    let grid = assign_spans_to_cells(spans, &columns, &rows);
    if !validate_table_structure_internal(&grid, config) {
        return None;
    }
    Some(grid)
}

/// Detect tables from the spatial layout of text spans, as `text_tables` describes it.
/// At most `u32::MAX` spans are taken: a table's row and column spans are `u32`.
pub fn detect_tables_from_spans(spans: &[TextSpan], config: &TableDetectionConfig) -> (tables: Vec<ExtractedTable>)
    requires
        spans_wf(spans@),
        spans@.len() <= u32::MAX,
    ensures
        tables_view(tables@) == text_tables(spans@, *config),
{
    let mut v: Vec<ExtractedTable> = Vec::new();
    match find_text_grid(spans, config) {
        Some(grid) => {
            let table = grid_to_extracted_table(&grid, spans, None);
            v.push(table);
            proof {
                assert(tables_view(v@) =~= seq![table@]);
            }
        },
        None => {
            proof {
                assert(tables_view(v@) =~= Seq::<TableView>::empty());
            }
        },
    }
    v
}

/// The span indices of a grid's cells, row by row and cell by cell.
fn grid_indices(grid: &GridStructure) -> (v: Vec<usize>)
    ensures
        v@ == grid_span_indices(grid@.cells),
{
    let ghost cv = grid@.cells;
    let nr = grid.cells.len();
    let mut v: Vec<usize> = Vec::new();
    let mut r: usize = 0;
    while r < nr
        invariant
            nr == grid.cells@.len(),
            cv == grid@.cells,
            r <= nr,
            v@ == grid_span_indices(cv.take(r as int)),
        decreases nr - r,
    {
        let row = &grid.cells[r];
        let ghost rv = cv[r as int];
        proof {
            assert(rv == row@.map_values(|cell: Vec<usize>| cell@));
        }
        let ghost before = v@;
        let nc = row.len();
        let mut c: usize = 0;
        while c < nc
            invariant
                nc == row@.len(),
                rv == row@.map_values(|cell: Vec<usize>| cell@),
                c <= nc,
                v@ == before + row_span_indices(rv.take(c as int)),
            decreases nc - c,
        {
            let cell = &row[c];
            let ghost mid = v@;
            let m = cell.len();
            let mut k: usize = 0;
            while k < m
                invariant
                    m == cell@.len(),
                    k <= m,
                    v@ == mid + cell@.take(k as int),
                decreases m - k,
            {
                v.push(cell[k]);
                proof {
                    assert(v@ =~= mid + cell@.take(k + 1));
                }
                k = k + 1;
            }
            proof {
                assert(cell@.take(m as int) =~= cell@);
                assert(rv.take(c + 1).drop_last() =~= rv.take(c as int));
                assert(rv.take(c + 1).last() == cell@);
                assert(v@ =~= before + row_span_indices(rv.take(c + 1)));
            }
            c = c + 1;
        }
        proof {
            assert(rv.take(nc as int) =~= rv);
            assert(cv.take(r + 1).drop_last() =~= cv.take(r as int));
            assert(cv.take(r + 1).last() == rv);
        }
        r = r + 1;
    }
    proof {
        assert(cv.take(nr as int) =~= cv);
    }
    v
}

/// Whether a table region meets `b`: the two overlap, or one holds the other.
pub open spec fn region_meets(region: Option<Rect>, b: Rect) -> bool {
    match region {
        Some(r) => r.spec_intersects(b) || r.spec_contains_rect(b) || b.spec_contains_rect(r),
        None => false,
    }
}

/// Whether the region of one of the tables meets `b`.
pub open spec fn meets_any(ts: Seq<TableView>, b: Rect) -> bool {
    exists|k: int| 0 <= k < ts.len() && #[trigger] region_meets(ts[k].bbox, b)
}

/// The tables of the groups of ruling lines, group by group.
pub open spec fn tables_of_clusters(
    spans: Seq<TextSpan>,
    lines: Seq<PathContent>,
    cls: Seq<LineClusterView>,
    config: TableDetectionConfig,
) -> Seq<TableView>
    decreases cls.len(),
{
    if cls.len() == 0 {
        seq![]
    } else {
        tables_of_clusters(spans, lines, cls.drop_last(), config) + cluster_tables(spans, lines, cls.last(), config)
    }
}

/// `found`, with each of the `text` tables added in turn when it has a region
/// and that region meets none of the tables kept so far.
pub open spec fn add_text_tables(found: Seq<TableView>, text: Seq<TableView>) -> Seq<TableView>
    decreases text.len(),
{
    if text.len() == 0 {
        found
    } else {
        let acc = add_text_tables(found, text.drop_last());
        match text.last().bbox {
            Some(b) => if meets_any(acc, b) {
                acc
            } else {
                acc.push(text.last())
            },
            None => acc,
        }
    }
}

/// The tables found from ruling lines and text: none when detection is off
/// or there are no spans; the text tables alone when both strategies are
/// `Text`; the tables of the line groups alone when both are `Lines`;
/// otherwise the tables of the line groups, followed by the text tables
/// whose regions meet none of them.
pub open spec fn tables_with_lines(spans: Seq<TextSpan>, lines: Seq<PathContent>, config: TableDetectionConfig) -> Seq<TableView> {
    if !config.enabled || spans.len() == 0 {
        seq![]
    } else if config.horizontal_strategy == TableStrategy::Text && config.vertical_strategy == TableStrategy::Text {
        text_tables(spans, config)
    } else {
        let ruled = tables_of_clusters(spans, lines, line_clusters(lines), config);
        if config.horizontal_strategy == TableStrategy::Lines && config.vertical_strategy == TableStrategy::Lines {
            ruled
        } else {
            add_text_tables(ruled, text_tables(spans, config))
        }
    }
}

/// Whether the two rectangles overlap or one holds the other.
fn boxes_meet(a: &Rect, b: &Rect) -> (m: bool)
    ensures
        m == (a.spec_intersects(*b) || a.spec_contains_rect(*b) || b.spec_contains_rect(*a)),
{
    let ax = a.x as i128;
    let ay = a.y as i128;
    let ar = a.x as i128 + a.width as i128;
    let ab = a.y as i128 + a.height as i128;
    let bx = b.x as i128;
    let by = b.y as i128;
    let br = b.x as i128 + b.width as i128;
    let bb = b.y as i128 + b.height as i128;
    let overlap = ax < br && ar > bx && ay < bb && ab > by;
    let a_holds_b = bx >= ax && br <= ar && by >= ay && bb <= ab;
    let b_holds_a = ax >= bx && ar <= br && ay >= by && ab <= bb;
    overlap || a_holds_b || b_holds_a
}

/// `meets_any(tables_view(ts), b)`.
fn meets_any_table(ts: &Vec<ExtractedTable>, b: &Rect) -> (m: bool)
    ensures
        m == meets_any(tables_view(ts@), *b),
{
    let n = ts.len();
    let mut k: usize = 0;
    while k < n
        invariant
            n == ts@.len(),
            k <= n,
            forall|q: int| 0 <= q < k ==> !#[trigger] region_meets(tables_view(ts@)[q].bbox, *b),
        decreases n - k,
    {
        proof {
            assert(tables_view(ts@)[k as int] == ts@[k as int]@);
        }
        match ts[k].bbox {
            Some(r) => {
                if boxes_meet(&r, b) {
                    proof {
                        assert(region_meets(tables_view(ts@)[k as int].bbox, *b));
                    }
                    return true;
                }
            },
            None => {},
        }
        k = k + 1;
    }
    false
}

/// Detect tables from ruling lines and text spans, as `tables_with_lines` describes it.
/// At most `u32::MAX` spans and lines are taken: a table's row and column spans are `u32`.
pub fn detect_tables_with_lines(spans: &[TextSpan], lines: &[PathContent], config: &TableDetectionConfig) -> (tables: Vec<ExtractedTable>)
    requires
        spans_wf(spans@),
        spans@.len() <= u32::MAX,
        lines_wf(lines@),
        lines@.len() <= u32::MAX,
    ensures
        tables_view(tables@) == tables_with_lines(spans@, lines@, *config),
{
    if !config.enabled || spans.len() == 0 {
        let v: Vec<ExtractedTable> = Vec::new();
        proof {
            assert(tables_view(v@) =~= Seq::<TableView>::empty());
        }
        return v;
    }
    if config.horizontal_strategy == TableStrategy::Text && config.vertical_strategy == TableStrategy::Text {
        return detect_tables_from_spans(spans, config);
    }
    let clusters = group_lines_into_clusters(lines);
    let ghost cls = line_clusters(lines@);
    let nc = clusters.len();
    let mut final_tables: Vec<ExtractedTable> = Vec::new();
    let mut k: usize = 0;
    while k < nc
        invariant
            nc == clusters@.len(),
            k <= nc,
            spans_wf(spans@),
            lines_wf(lines@),
            lines@.len() <= u32::MAX,
            clusters_view(clusters@) == cls,
            clusters_wf(cls, lines@.len()),
            tables_view(final_tables@) == tables_of_clusters(spans@, lines@, cls.take(k as int), *config),
        decreases nc - k,
    {
        proof {
            assert(cls[k as int] == clusters@[k as int]@);
            assert(cls[k as int].bbox.wf());
        }
        let mut found = detect_tables_in_cluster(spans, lines, &clusters[k], config);
        let ghost before = tables_view(final_tables@);
        let ghost got = tables_view(found@);
        final_tables.append(&mut found);
        proof {
            assert(cls.take(k + 1).drop_last() =~= cls.take(k as int));
            assert(tables_view(final_tables@) =~= before + got);
        }
        k = k + 1;
    }
    proof {
        assert(cls.take(nc as int) =~= cls);
    }
    if config.horizontal_strategy == TableStrategy::Lines && config.vertical_strategy == TableStrategy::Lines {
        return final_tables;
    }
    let mut text_candidates = detect_tables_from_spans(spans, config);
    let ghost text = tables_view(text_candidates@);
    let ghost ruled = tables_view(final_tables@);
    let nt = text_candidates.len();
    proof {
        assert(text.skip(0) =~= text);
        assert(ruled == add_text_tables(ruled, text.take(0)));
    }
    let mut j: usize = 0;
    while j < nt
        invariant
            nt == text.len(),
            j <= nt,
            tables_view(text_candidates@) == text.skip(j as int),
            text_candidates@.len() == nt - j,
            tables_view(final_tables@) == add_text_tables(ruled, text.take(j as int)),
        decreases nt - j,
    {
        let ghost cands = text_candidates@;
        proof {
            assert(tables_view(cands)[0] == cands[0]@);
            assert(text.skip(j as int)[0] == text[j as int]);
        }
        let text_table = text_candidates.remove(0);
        proof {
            assert(text_table@ == text[j as int]);
            assert(text.take(j + 1).drop_last() =~= text.take(j as int));
            assert(text.take(j + 1).last() == text[j as int]);
            assert forall|i: int| 0 <= i < text_candidates@.len() implies #[trigger] tables_view(text_candidates@)[i] == text.skip(j + 1)[i] by {
                assert(text_candidates@[i] == cands[i + 1]);
                assert(tables_view(cands)[i + 1] == cands[i + 1]@);
                assert(text.skip(j as int)[i + 1] == text[j + 1 + i]);
            }
            assert(tables_view(text_candidates@) =~= text.skip(j + 1));
        }
        match text_table.bbox {
            Some(b) => {
                if !meets_any_table(&final_tables, &b) {
                    let ghost before = tables_view(final_tables@);
                    final_tables.push(text_table);
                    proof {
                        assert(tables_view(final_tables@) =~= before.push(text[j as int]));
                    }
                }
            },
            None => {},
        }
        j = j + 1;
    }
    proof {
        assert(text.take(nt as int) =~= text);
    }
    final_tables
}

/// Indices of the spans that belong to a table.
#[derive(Debug, Clone)]
pub struct DetectedTable {
    /// Indices of spans that belong to this table.
    pub span_indices: Vec<usize>,
}

/// A table detector that holds its configuration.
pub struct SpatialTableDetector {
    /// Configuration for this detector.
    pub config: TableDetectionConfig,
}

impl SpatialTableDetector {
    /// A detector with the given configuration.
    pub fn with_config(config: TableDetectionConfig) -> (d: SpatialTableDetector)
        ensures
            d.config == config,
    {
        SpatialTableDetector { config }
    }

    /// Detect tables from text alignment and report, for each table found,
    /// the indices of the spans that belong to it (row by row, cell by cell).
    /// At most `u32::MAX` spans are taken: a table's row and column spans are `u32`.
    pub fn detect_tables(&self, spans: &[TextSpan]) -> (r: Vec<DetectedTable>)
        requires
            spans_wf(spans@),
            spans@.len() <= u32::MAX,
        ensures
            r@.map_values(|d: DetectedTable| d.span_indices@) == text_table_spans(spans@, self.config),
            r@.len() == text_tables(spans@, self.config).len(),
    {
        let mut r: Vec<DetectedTable> = Vec::new();
        match find_text_grid(spans, &self.config) {
            Some(grid) => {
                let span_indices = grid_indices(&grid);
                let d = DetectedTable { span_indices };
                r.push(d);
                proof {
                    assert(r@.map_values(|d: DetectedTable| d.span_indices@) =~= seq![d.span_indices@]);
                }
            },
            None => {
                proof {
                    assert(r@.map_values(|d: DetectedTable| d.span_indices@) =~= Seq::<Seq<usize>>::empty());
                }
            },
        }
        r
    }

    /// Detect tables from ruling lines and text, as `detect_tables_with_lines` does.
    /// At most `u32::MAX` spans and lines are taken: a table's row and column spans are `u32`.
    pub fn detect_tables_hybrid(&self, spans: &[TextSpan], lines: &[PathContent]) -> (tables: Vec<ExtractedTable>)
        requires
            spans_wf(spans@),
            spans@.len() <= u32::MAX,
            lines_wf(lines@),
            lines@.len() <= u32::MAX,
        ensures
            tables_view(tables@) == tables_with_lines(spans@, lines@, self.config),
    {
        detect_tables_with_lines(spans, lines, &self.config)
    }
}

/// With both strategies set to `Lines` and no ruling lines, no table is found.
pub proof fn lemma_no_rules_no_tables(spans: Seq<TextSpan>, config: TableDetectionConfig)
    requires
        config.horizontal_strategy == TableStrategy::Lines,
        config.vertical_strategy == TableStrategy::Lines,
    ensures
        tables_with_lines(spans, Seq::<PathContent>::empty(), config) == Seq::<TableView>::empty(),
{
    let lines = Seq::<PathContent>::empty();
    assert(crate::structure::line_clusters::primitive_lines(lines, 0) =~= Seq::<usize>::empty());
    crate::order::lemma_stable_order(crate::structure::line_clusters::lefts_of(lines, Seq::<usize>::empty()), 0);
    assert(crate::structure::line_clusters::sweep_order(lines).len() == 0);
    assert(line_clusters(lines) =~= Seq::<LineClusterView>::empty());
    assert(tables_of_clusters(spans, lines, line_clusters(lines), config) =~= Seq::<TableView>::empty());
}

/// The text tables added to the ruled ones keep the ruled ones first, and
/// each added table has a region that meets none of the ruled tables.
pub proof fn lemma_text_tables_apart(found: Seq<TableView>, text: Seq<TableView>)
    ensures
        add_text_tables(found, text).len() >= found.len(),
        add_text_tables(found, text).take(found.len() as int) == found,
        forall|i: int|
            found.len() <= i < add_text_tables(found, text).len() ==> {
                &&& (#[trigger] add_text_tables(found, text)[i]).bbox is Some
                &&& !meets_any(found, add_text_tables(found, text)[i].bbox->0)
                &&& text.contains(add_text_tables(found, text)[i])
            },
    decreases text.len(),
{
    if text.len() > 0 {
        let prev = add_text_tables(found, text.drop_last());
        lemma_text_tables_apart(found, text.drop_last());
        let cur = add_text_tables(found, text);
        assert forall|i: int| found.len() <= i < prev.len() implies text.contains(#[trigger] prev[i]) by {
            let w = choose|w: int| 0 <= w < text.drop_last().len() && text.drop_last()[w] == prev[i];
            assert(text[w] == prev[i]);
        }
        if let Some(b) = text.last().bbox {
            if !meets_any(prev, b) {
                assert(cur == prev.push(text.last()));
                assert(!meets_any(found, b)) by {
                    if meets_any(found, b) {
                        let k = choose|k: int| 0 <= k < found.len() && #[trigger] region_meets(found[k].bbox, b);
                        assert(prev[k] == found[k]);
                        assert(region_meets(prev[k].bbox, b));
                    }
                }
                assert(text[text.len() - 1] == text.last());
                assert(cur.take(found.len() as int) =~= prev.take(found.len() as int));
                assert forall|i: int| found.len() <= i < cur.len() implies {
                    &&& (#[trigger] cur[i]).bbox is Some
                    &&& !meets_any(found, cur[i].bbox->0)
                    &&& text.contains(cur[i])
                } by {
                    if i < prev.len() {
                        assert(cur[i] == prev[i]);
                    }
                }
            }
        }
    }
}

/// Every table found from text alignment has every cell of its header row
/// marked as a header cell.
proof fn lemma_text_tables_header_cells(spans: Seq<TextSpan>, config: TableDetectionConfig)
    ensures
        forall|k: int|
            0 <= k < text_tables(spans, config).len() ==> header_cells_ok(#[trigger] text_tables(spans, config)[k]),
{
    if let Some(grid) = text_grid(spans, config) {
        crate::structure::grid::lemma_grid_table_header_cells(grid, spans, text_merge(grid, spans));
    }
}

proof fn lemma_clusters_header_cells(
    spans: Seq<TextSpan>,
    lines: Seq<PathContent>,
    cls: Seq<LineClusterView>,
    config: TableDetectionConfig,
)
    ensures
        forall|k: int|
            0 <= k < tables_of_clusters(spans, lines, cls, config).len() ==> header_cells_ok(
                #[trigger] tables_of_clusters(spans, lines, cls, config)[k],
            ),
    decreases cls.len(),
{
    if cls.len() > 0 {
        lemma_clusters_header_cells(spans, lines, cls.drop_last(), config);
        crate::structure::ruled_tables::lemma_cluster_tables_region(spans, lines, cls.last(), config);
        let a = tables_of_clusters(spans, lines, cls.drop_last(), config);
        let b = cluster_tables(spans, lines, cls.last(), config);
        let all = tables_of_clusters(spans, lines, cls, config);
        assert forall|k: int| 0 <= k < all.len() implies header_cells_ok(#[trigger] all[k]) by {
            if k < a.len() {
                assert(all[k] == a[k]);
            } else {
                assert(all[k] == b[k - a.len()]);
            }
        }
    }
}

/// Whatever the strategy, every table found from ruling lines and text has
/// every cell of its header rows marked as a header cell.
pub proof fn lemma_detected_header_cells(spans: Seq<TextSpan>, lines: Seq<PathContent>, config: TableDetectionConfig)
    ensures
        forall|k: int|
            0 <= k < tables_with_lines(spans, lines, config).len() ==> header_cells_ok(
                #[trigger] tables_with_lines(spans, lines, config)[k],
            ),
{
    lemma_text_tables_header_cells(spans, config);
    let ruled = tables_of_clusters(spans, lines, line_clusters(lines), config);
    lemma_clusters_header_cells(spans, lines, line_clusters(lines), config);
    let text = text_tables(spans, config);
    lemma_text_tables_apart(ruled, text);
    let all = add_text_tables(ruled, text);
    assert forall|k: int| 0 <= k < all.len() implies header_cells_ok(#[trigger] all[k]) by {
        if k < ruled.len() {
            assert(all.take(ruled.len() as int)[k] == all[k]);
        } else {
            assert(text.contains(all[k]));
        }
    }
}

} // verus!
