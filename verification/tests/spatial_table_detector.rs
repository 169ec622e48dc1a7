use pdf_oxide::elements::PathContent;
use pdf_oxide::geometry::Rect;
use pdf_oxide::layout::{FontWeight, TextSpan};
use pdf_oxide::structure::grid::{
    assign_spans_to_cells, detect_columns, detect_merged_cells, extract_cell_text, AxisCluster, GridStructure,
};
use pdf_oxide::structure::line_clusters::group_lines_into_clusters;
use pdf_oxide::structure::ruled_tables::cluster_values;
use pdf_oxide::structure::spatial_table_detector::{
    detect_tables_from_spans, detect_tables_with_lines, SpatialTableDetector, TableDetectionConfig, TableStrategy,
};

fn create_test_span(text: &str, x: i64, y: i64, width: i64, height: i64) -> TextSpan {
    TextSpan {
        text: text.to_string(),
        bbox: Rect::new(x, y, width, height),
        font_name: "TestFont".to_string(),
        font_size: 12_000,
        font_weight: FontWeight::Normal,
        is_italic: false,
        mcid: None,
    }
}

fn make_h_line(x: i64, y: i64, width: i64) -> PathContent {
    PathContent::line(x, y, x + width, y)
}

fn make_v_line(x: i64, y: i64, height: i64) -> PathContent {
    PathContent::line(x, y, x, y + height)
}

fn make_line_path(x1: i64, y1: i64, x2: i64, y2: i64) -> PathContent {
    PathContent::line(x1, y1, x2, y2)
}

fn make_rect_path(x: i64, y: i64, w: i64, h: i64) -> PathContent {
    PathContent::rect(x, y, w, h)
}

fn config_with(horizontal: TableStrategy, vertical: TableStrategy) -> TableDetectionConfig {
    let mut c = TableDetectionConfig::default();
    c.horizontal_strategy = horizontal;
    c.vertical_strategy = vertical;
    c
}

#[test]
fn test_line_clustering_multiple_tables() {
    let lines = vec![make_rect_path(10_000, 100_000, 50_000, 20_000), make_rect_path(10_000, 50_000, 50_000, 20_000)];

    let clusters = group_lines_into_clusters(&lines);
    assert_eq!(clusters.len(), 2, "Should find 2 separate table regions with optimized clustering");
}

#[test]
fn test_line_clustering_horizontal_separation() {
    let lines = vec![make_rect_path(10_000, 100_000, 50_000, 20_000), make_rect_path(80_000, 100_000, 50_000, 20_000)];

    let clusters = group_lines_into_clusters(&lines);
    assert_eq!(clusters.len(), 2, "Should find 2 separate table regions even if nearby horizontally");
}

#[test]
fn test_lines_strategy_no_lines_returns_empty() {
    let spans = vec![
        create_test_span("A", 10_000, 100_000, 10_000, 10_000),
        create_test_span("B", 50_000, 100_000, 10_000, 10_000),
        create_test_span("C", 10_000, 80_000, 10_000, 10_000),
        create_test_span("D", 50_000, 80_000, 10_000, 10_000),
    ];
    let config = config_with(TableStrategy::Lines, TableStrategy::Lines);
    assert!(detect_tables_with_lines(&spans, &[], &config).is_empty());
}

#[test]
fn test_table_splitting_on_empty_row() {
    let spans = vec![
        create_test_span("T1-11", 20_000, 115_000, 10_000, 10_000),
        create_test_span("T1-12", 40_000, 115_000, 10_000, 10_000),
        create_test_span("T1-21", 20_000, 95_000, 10_000, 10_000),
        create_test_span("T1-22", 40_000, 95_000, 10_000, 10_000),
        create_test_span("T2-11", 20_000, 35_000, 10_000, 10_000),
        create_test_span("T2-12", 40_000, 35_000, 10_000, 10_000),
        create_test_span("T2-21", 20_000, 15_000, 10_000, 10_000),
        create_test_span("T2-22", 40_000, 15_000, 10_000, 10_000),
    ];
    let lines = vec![
        make_h_line(10_000, 130_000, 50_000),
        make_h_line(10_000, 110_000, 50_000),
        make_h_line(10_000, 90_000, 50_000),
        make_v_line(10_000, 90_000, 40_000),
        make_v_line(30_000, 90_000, 40_000),
        make_v_line(60_000, 90_000, 40_000),
        make_h_line(10_000, 50_000, 50_000),
        make_h_line(10_000, 30_000, 50_000),
        make_h_line(10_000, 10_000, 50_000),
        make_v_line(10_000, 10_000, 40_000),
        make_v_line(30_000, 10_000, 40_000),
        make_v_line(60_000, 10_000, 40_000),
        make_v_line(10_000, 50_000, 40_000),
    ];
    let config = config_with(TableStrategy::Both, TableStrategy::Both);
    assert_eq!(detect_tables_with_lines(&spans, &lines, &config).len(), 2);
}

#[test]
fn test_hierarchical_header_with_visual_heuristic() {
    let spans = vec![
        create_test_span("H1", 10_000, 115_000, 35_000, 10_000),
        create_test_span("H2", 55_000, 115_000, 35_000, 10_000),
        create_test_span("Col 1", 10_000, 95_000, 35_000, 10_000),
        create_test_span("Col 2", 55_000, 95_000, 35_000, 10_000),
        create_test_span("Data 1", 10_000, 75_000, 35_000, 10_000),
        create_test_span("Data 2", 55_000, 75_000, 35_000, 10_000),
    ];
    let lines = vec![
        make_line_path(10_000, 130_000, 90_000, 130_000),
        make_line_path(10_000, 110_000, 90_000, 110_000),
        make_line_path(10_000, 90_000, 90_000, 90_000),
        make_v_line(10_000, 70_000, 60_000),
        make_v_line(50_000, 70_000, 20_000),
        make_v_line(90_000, 70_000, 60_000),
    ];
    let config = TableDetectionConfig::default();
    let tables = detect_tables_with_lines(&spans, &lines, &config);
    assert_eq!(tables.len(), 1);
    assert!(tables[0].rows[0].is_header);
    assert!(tables[0].rows[1].is_header);
}

#[test]
fn test_table_strategy_default_is_both() {
    assert_eq!(TableStrategy::default(), TableStrategy::Both);
}

#[test]
fn test_config_presets() {
    let d = TableDetectionConfig::default();
    assert!(d.enabled);
    assert_eq!(d.column_tolerance, 5_000);
    assert_eq!(d.row_tolerance, 2_800);
    assert_eq!(d.min_table_cells, 4);
    assert_eq!(d.max_table_columns, 15);
    let s = TableDetectionConfig::strict();
    assert_eq!(s.horizontal_strategy, TableStrategy::Lines);
    assert_eq!(s.min_table_columns, 3);
    assert_eq!(s.regular_row_ratio, 800);
    let r = TableDetectionConfig::relaxed();
    assert_eq!(r.vertical_strategy, TableStrategy::Text);
    assert_eq!(r.column_tolerance, 10_000);
    assert_eq!(r.max_table_columns, 20);
}

fn grid_spans() -> Vec<TextSpan> {
    vec![
        create_test_span("a", 10_000, 100_000, 20_000, 10_000),
        create_test_span("b", 60_000, 100_000, 20_000, 10_000),
        create_test_span("c", 10_000, 80_000, 20_000, 10_000),
        create_test_span("d", 60_000, 80_000, 20_000, 10_000),
        create_test_span("e", 10_000, 60_000, 20_000, 10_000),
        create_test_span("f", 60_000, 60_000, 20_000, 10_000),
    ]
}

#[test]
fn test_text_tables_from_aligned_spans() {
    let config = TableDetectionConfig::default();
    let tables = detect_tables_from_spans(&grid_spans(), &config);
    assert_eq!(tables.len(), 1);
    let t = &tables[0];
    assert_eq!(t.col_count, 2);
    assert_eq!(t.rows.len(), 3);
    assert_eq!(t.rows[0].cells[0].text, "a");
    assert_eq!(t.rows[0].cells[1].text, "b");
    assert_eq!(t.rows[2].cells[1].text, "f");
    assert!(t.has_header);
    assert!(t.rows[0].is_header);
    assert_eq!(t.bbox, Some(Rect::new(10_000, 60_000, 70_000, 50_000)));
}

#[test]
fn test_text_tables_disabled_or_empty() {
    let mut config = TableDetectionConfig::default();
    config.enabled = false;
    assert!(detect_tables_from_spans(&grid_spans(), &config).is_empty());
    let config = TableDetectionConfig::default();
    assert!(detect_tables_from_spans(&[], &config).is_empty());
}

#[test]
fn test_text_tables_need_two_columns() {
    let spans = vec![
        create_test_span("a", 10_000, 100_000, 20_000, 10_000),
        create_test_span("b", 10_000, 80_000, 20_000, 10_000),
        create_test_span("c", 10_000, 60_000, 20_000, 10_000),
        create_test_span("d", 10_000, 40_000, 20_000, 10_000),
    ];
    let config = TableDetectionConfig::default();
    assert!(detect_tables_from_spans(&spans, &config).is_empty());
}

#[test]
fn test_text_strategy_matches_text_detection() {
    let config = config_with(TableStrategy::Text, TableStrategy::Text);
    let lines = vec![make_h_line(0, 0, 100_000)];
    let a = detect_tables_with_lines(&grid_spans(), &lines, &config);
    let b = detect_tables_from_spans(&grid_spans(), &config);
    assert_eq!(a.len(), b.len());
    assert_eq!(a.len(), 1);
}

#[test]
fn test_hybrid_keeps_text_table_apart_from_ruled() {
    let detector = SpatialTableDetector::with_config(TableDetectionConfig::default());
    let tables = detector.detect_tables_hybrid(&grid_spans(), &[]);
    assert_eq!(tables.len(), 1);
    let detected = detector.detect_tables(&grid_spans());
    assert_eq!(detected.len(), 1);
    assert_eq!(detected[0].span_indices, vec![0, 1, 2, 3, 4, 5]);
}

#[test]
fn test_missing_rule_merges_cells() {
    let spans = vec![
        create_test_span("H1", 10_000, 115_000, 35_000, 10_000),
        create_test_span("H2", 55_000, 115_000, 35_000, 10_000),
        create_test_span("Col 1", 10_000, 95_000, 35_000, 10_000),
        create_test_span("Col 2", 55_000, 95_000, 35_000, 10_000),
    ];
    let lines = vec![
        make_line_path(10_000, 130_000, 90_000, 130_000),
        make_line_path(10_000, 110_000, 90_000, 110_000),
        make_line_path(10_000, 90_000, 90_000, 90_000),
        make_v_line(10_000, 70_000, 60_000),
        make_v_line(50_000, 70_000, 20_000),
        make_v_line(90_000, 70_000, 60_000),
    ];
    let config = config_with(TableStrategy::Lines, TableStrategy::Lines);
    let tables = detect_tables_with_lines(&spans, &lines, &config);
    assert_eq!(tables.len(), 1);
    let t = &tables[0];
    assert_eq!(t.col_count, 2);
    assert_eq!(t.rows.len(), 2);
    assert_eq!(t.rows[0].cells.len(), 1);
    assert_eq!(t.rows[0].cells[0].colspan, 2);
    assert_eq!(t.rows[0].cells[0].text, "H1");
    assert_eq!(t.bbox, Some(Rect::new(10_000, 90_000, 80_000, 40_000)));
}

#[test]
fn test_cluster_values_running_means() {
    assert_eq!(cluster_values(&vec![10_000, 11_000, 50_000, 10_500], 2_000), vec![10_500, 50_000]);
    assert_eq!(cluster_values(&vec![], 2_000), Vec::<i64>::new());
    assert_eq!(cluster_values(&vec![-3, -4], 2), vec![-4]);
}

#[test]
fn test_missing_rule_merges_rows() {
    let spans = vec![
        create_test_span("a", 15_000, 115_000, 30_000, 10_000),
        create_test_span("b", 55_000, 115_000, 30_000, 10_000),
        create_test_span("c", 15_000, 95_000, 30_000, 10_000),
        create_test_span("d", 55_000, 95_000, 30_000, 10_000),
    ];
    let lines = vec![
        make_h_line(10_000, 130_000, 80_000),
        make_h_line(50_000, 110_000, 40_000),
        make_h_line(10_000, 90_000, 80_000),
        make_v_line(10_000, 90_000, 40_000),
        make_v_line(50_000, 90_000, 40_000),
        make_v_line(90_000, 90_000, 40_000),
    ];
    let config = config_with(TableStrategy::Lines, TableStrategy::Lines);
    let tables = detect_tables_with_lines(&spans, &lines, &config);
    assert_eq!(tables.len(), 1);
    let t = &tables[0];
    assert_eq!(t.rows.len(), 2);
    assert_eq!(t.rows[0].cells.len(), 2);
    assert_eq!(t.rows[0].cells[0].rowspan, 2);
    assert_eq!(t.rows[0].cells[0].text, "a");
    assert_eq!(t.rows[0].cells[1].rowspan, 1);
    assert_eq!(t.rows[1].cells.len(), 1);
    assert_eq!(t.rows[1].cells[0].text, "d");
}

#[test]
fn test_detect_tables_lists_spans_row_by_row() {
    let spans = vec![
        create_test_span("d", 60_000, 80_000, 20_000, 10_000),
        create_test_span("a", 10_000, 100_000, 20_000, 10_000),
        create_test_span("c", 10_000, 80_000, 20_000, 10_000),
        create_test_span("b", 60_000, 100_000, 20_000, 10_000),
    ];
    let detector = SpatialTableDetector::with_config(TableDetectionConfig::default());
    let detected = detector.detect_tables(&spans);
    assert_eq!(detected.len(), 1);
    assert_eq!(detected[0].span_indices, vec![1, 3, 2, 0]);
    let mut off = TableDetectionConfig::default();
    off.enabled = false;
    assert!(SpatialTableDetector::with_config(off).detect_tables(&spans).is_empty());
}

#[test]
fn test_line_clustering_joins_boxes_meeting_past_the_sweep_edge() {
    let lines = vec![make_h_line(0, 100_000, 100_000), make_h_line(115_000, 100_000, 85_000)];
    let clusters = group_lines_into_clusters(&lines);
    assert_eq!(clusters.len(), 1);
    assert_eq!(clusters[0].lines, vec![0, 1]);
    let apart = vec![make_h_line(0, 100_000, 100_000), make_h_line(120_000, 100_000, 80_000)];
    assert_eq!(group_lines_into_clusters(&apart).len(), 2);
}

#[test]
fn test_trimmed_table_below_minimum_columns_is_dropped() {
    // Three column bands; the spans fill only the first two, and the empty
    // third band is trimmed away, leaving fewer columns than the strict minimum.
    let spans = vec![
        create_test_span("a", 12_000, 115_000, 5_000, 5_000),
        create_test_span("b", 32_000, 115_000, 5_000, 5_000),
        create_test_span("c", 12_000, 95_000, 5_000, 5_000),
        create_test_span("d", 32_000, 95_000, 5_000, 5_000),
        create_test_span("e", 12_000, 75_000, 5_000, 5_000),
        create_test_span("f", 32_000, 75_000, 5_000, 5_000),
    ];
    let lines = vec![
        make_h_line(10_000, 130_000, 60_000),
        make_h_line(10_000, 110_000, 60_000),
        make_h_line(10_000, 90_000, 60_000),
        make_h_line(10_000, 70_000, 60_000),
        make_v_line(10_000, 70_000, 60_000),
        make_v_line(30_000, 70_000, 60_000),
        make_v_line(50_000, 70_000, 60_000),
        make_v_line(70_000, 70_000, 60_000),
    ];
    let mut config = config_with(TableStrategy::Lines, TableStrategy::Lines);
    config.min_table_columns = 3;
    assert!(detect_tables_with_lines(&spans, &lines, &config).is_empty());
    config.min_table_columns = 2;
    let tables = detect_tables_with_lines(&spans, &lines, &config);
    assert_eq!(tables.len(), 1);
    assert_eq!(tables[0].col_count, 2);
}

#[test]
fn test_text_merge_skips_missing_spans() {
    let col = |c: i64| AxisCluster { center: c, min: c - 5_000, max: c + 5_000 };
    let grid = GridStructure {
        columns: vec![col(10_000), col(30_000)],
        rows: vec![AxisCluster { center: 100_000, min: 95_000, max: 105_000 }],
        cells: vec![vec![vec![0, 7], vec![]]],
    };
    let spans = vec![create_test_span("wide", 5_000, 100_000, 40_000, 5_000)];
    let m = detect_merged_cells(&grid, &spans);
    assert_eq!(m[0][0].colspan, 2);
    assert!(m[0][1].covered);
    let bad = GridStructure {
        columns: vec![col(10_000), col(30_000)],
        rows: vec![AxisCluster { center: 100_000, min: 95_000, max: 105_000 }],
        cells: vec![vec![vec![9], vec![]]],
    };
    let m = detect_merged_cells(&bad, &spans);
    assert_eq!(m[0][0].colspan, 1);
    assert!(!m[0][1].covered);
}

#[test]
fn test_cell_text_reads_top_to_bottom() {
    let spans = vec![
        create_test_span("low", 10_000, 50_000, 20_000, 10_000),
        create_test_span("high", 10_000, 80_000, 20_000, 10_000),
        create_test_span("beside", 40_000, 81_000, 20_000, 10_000),
    ];
    assert_eq!(extract_cell_text(&vec![0, 1, 2, 5], &spans), "beside high\nlow");
    assert_eq!(extract_cell_text(&vec![0], &spans), "low");
    assert_eq!(extract_cell_text(&vec![4], &spans), "");
}

#[test]
fn test_each_span_lands_in_one_cell() {
    let col = |c: i64| AxisCluster { center: c, min: c, max: c };
    let spans = vec![
        create_test_span("a", 0, 100_000, 20_000, 10_000),
        create_test_span("b", 100_000, 100_000, 20_000, 10_000),
        create_test_span("c", 0, 50_000, 20_000, 10_000),
        create_test_span("d", 5_000, 51_000, 20_000, 10_000),
    ];
    let columns = vec![col(10_000), col(110_000)];
    let rows = vec![col(105_000), col(55_000)];
    let grid = assign_spans_to_cells(&spans, &columns, &rows);
    assert_eq!(grid.cells, vec![vec![vec![0], vec![1]], vec![vec![2, 3], vec![]]]);
}

#[test]
fn test_columns_group_left_edges_left_to_right() {
    let spans = vec![
        create_test_span("a", 50_000, 100_000, 20_000, 10_000),
        create_test_span("b", 10_000, 90_000, 20_000, 10_000),
        create_test_span("c", 12_000, 80_000, 20_000, 10_000),
        create_test_span("d", 8_000, 70_000, 20_000, 10_000),
    ];
    let cols = detect_columns(&spans, 5_000);
    assert_eq!(
        cols,
        vec![
            AxisCluster { center: 10_000, min: 8_000, max: 12_000 },
            AxisCluster { center: 50_000, min: 50_000, max: 50_000 },
        ]
    );
}
