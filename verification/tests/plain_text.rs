use pdf_oxide::geometry::Rect;
use pdf_oxide::layout::{FontWeight, TextSpan};
use pdf_oxide::pipeline::converters::plain_text::PlainTextConverter;
use pdf_oxide::pipeline::OrderedTextSpan;
use pdf_oxide::structure::table_extractor::{ExtractedTable, TableCell, TableRow};

fn make_span(text: &str, x: i64, y: i64) -> OrderedTextSpan {
    OrderedTextSpan::new(
        TextSpan {
            text: text.to_string(),
            bbox: Rect::new(x, y, 50_000, 12_000),
            font_name: "Test".to_string(),
            font_size: 12_000,
            font_weight: FontWeight::Normal,
            is_italic: false,
            mcid: None,
        },
        0,
    )
}

#[test]
fn test_empty_spans() {
    let converter = PlainTextConverter::new();
    let result = converter.convert(&[]);
    assert_eq!(result, "");
}

#[test]
fn test_single_line() {
    let converter = PlainTextConverter::new();
    let spans = vec![make_span("Hello world", 0, 100_000)];
    let result = converter.convert(&spans);
    assert_eq!(result, "Hello world\n");
}

#[test]
fn test_paragraph_break() {
    let converter = PlainTextConverter::new();
    let mut spans = vec![make_span("First paragraph", 0, 100_000), make_span("Second paragraph", 0, 50_000)];
    spans[1].reading_order = 1;

    let result = converter.convert(&spans);
    assert!(result.contains("\n\n"));
}

#[test]
fn test_render_table_text_basic() {
    let mut table = ExtractedTable::new();
    let mut row1 = TableRow::new(false);
    row1.add_cell(TableCell::new("A".to_string(), false));
    row1.add_cell(TableCell::new("B".to_string(), false));
    table.add_row(row1);

    let mut row2 = TableRow::new(false);
    row2.add_cell(TableCell::new("C".to_string(), false));
    row2.add_cell(TableCell::new("D".to_string(), false));
    table.add_row(row2);

    let result = PlainTextConverter::render_table_text(&table);
    assert_eq!(result, "A\tB\nC\tD\n");
}

#[test]
fn test_render_table_text_empty() {
    let table = ExtractedTable::new();
    let result = PlainTextConverter::render_table_text(&table);
    assert_eq!(result, "");
}

#[test]
fn test_render_table_text_trims_whitespace() {
    let mut table = ExtractedTable::new();
    let mut row = TableRow::new(false);
    row.add_cell(TableCell::new("  padded  ".to_string(), false));
    table.add_row(row);

    let result = PlainTextConverter::render_table_text(&table);
    assert_eq!(result, "padded\n");
}

#[test]
fn test_convert_with_tables_renders_tab_delimited() {
    let converter = PlainTextConverter::new();

    let mut table = ExtractedTable::new();
    table.bbox = Some(Rect::new(10_000, 50_000, 200_000, 100_000));
    let mut row = TableRow::new(false);
    row.add_cell(TableCell::new("X".to_string(), false));
    row.add_cell(TableCell::new("Y".to_string(), false));
    table.add_row(row);

    let result = converter.convert_with_tables(&[], &[table]);

    assert!(result.contains("X\tY"), "Should contain tab-delimited cells: {:?}", result);
}

#[test]
fn test_convert_with_tables_mixed_content() {
    let converter = PlainTextConverter::new();

    let mut span_before = make_span("Before", 10_000, 200_000);
    span_before.reading_order = 0;

    let mut span_in_table = make_span("Inside", 50_000, 70_000);
    span_in_table.reading_order = 1;

    let mut table = ExtractedTable::new();
    table.bbox = Some(Rect::new(10_000, 50_000, 200_000, 100_000));
    let mut row = TableRow::new(false);
    row.add_cell(TableCell::new("Cell".to_string(), false));
    table.add_row(row);

    let result = converter.convert_with_tables(&[span_before, span_in_table], &[table]);

    assert!(result.contains("Before"), "Should contain text before table");
    assert!(result.contains("Cell"), "Should contain table cell");
    assert!(!result.contains("Inside"), "Should exclude span inside table region");
}

#[test]
fn test_convert_with_tables_no_tables_same_as_convert() {
    let converter = PlainTextConverter::new();
    let spans = vec![make_span("Hello", 0, 100_000)];

    let result_convert = converter.convert(&spans);
    let result_with_tables = converter.convert_with_tables(&spans, &[]);

    assert_eq!(result_convert, result_with_tables);
}

#[test]
fn test_span_in_table_plain_text() {
    let converter = PlainTextConverter::new();

    let mut table = ExtractedTable::new();
    table.bbox = Some(Rect::new(10_000, 50_000, 200_000, 100_000));

    let inside = make_span("inside", 50_000, 70_000);
    let outside = make_span("outside", 500_000, 500_000);

    assert_eq!(converter.span_in_table(&inside, &[table.clone()]), Some(0));
    assert_eq!(converter.span_in_table(&outside, &[table]), None);
}

#[test]
fn test_span_in_table_no_bbox() {
    let converter = PlainTextConverter::new();

    let table = ExtractedTable::new();
    let span = make_span("text", 50_000, 70_000);

    assert_eq!(converter.span_in_table(&span, &[table]), None);
}

#[test]
fn test_mixed_content_exact_output() {
    let converter = PlainTextConverter::new();
    let mut span_before = make_span("Before", 10_000, 200_000);
    span_before.reading_order = 0;
    let mut span_in_table = make_span("Inside", 50_000, 70_000);
    span_in_table.reading_order = 1;
    let mut table = ExtractedTable::new();
    table.bbox = Some(Rect::new(10_000, 50_000, 200_000, 100_000));
    let mut row = TableRow::new(false);
    row.add_cell(TableCell::new("Cell".to_string(), false));
    table.add_row(row);
    let result = converter.convert_with_tables(&[span_before, span_in_table], &[table]);
    assert_eq!(result, "Before\n\nCell\n");
}

#[test]
fn test_reading_order_and_line_joining() {
    let converter = PlainTextConverter::new();
    let mut a = make_span("world", 60_000, 100_000);
    a.reading_order = 2;
    let mut b = make_span("Hello", 0, 100_000);
    b.reading_order = 1;
    let mut c = make_span("next", 0, 88_000);
    c.reading_order = 3;
    let result = converter.convert(&[a, b, c]);
    assert_eq!(result, "Helloworld next\n");
}

#[test]
fn test_unmatched_table_rendered_at_end() {
    let converter = PlainTextConverter::new();
    let spans = vec![make_span("Text", 0, 500_000)];
    let mut table = ExtractedTable::new();
    let mut row = TableRow::new(false);
    row.add_cell(TableCell::new("P".to_string(), false));
    row.add_cell(TableCell::new(" Q ".to_string(), false));
    table.add_row(row);
    let empty = ExtractedTable::new();
    let result = converter.convert_with_tables(&spans, &[table, empty]);
    assert_eq!(result, "Text\n\nP\tQ\n");
}

#[test]
fn test_converter_name_and_type() {
    let converter = PlainTextConverter::default();
    assert_eq!(converter.name(), "PlainTextConverter");
    assert_eq!(converter.mime_type(), "text/plain");
}

#[test]
fn test_span_overlapping_table_from_the_left() {
    let converter = PlainTextConverter::new();
    let mut table = ExtractedTable::new();
    table.bbox = Some(Rect::new(10_000, 50_000, 200_000, 100_000));
    let straddling = make_span("edge", -20_000, 60_000);
    assert_eq!(converter.span_in_table(&straddling, &[table.clone()]), Some(0));
    let touching = make_span("touch", -40_000, 60_000);
    assert_eq!(converter.span_in_table(&touching, &[table]), None);
}

#[test]
fn test_table_written_once_for_many_spans() {
    let converter = PlainTextConverter::new();
    let mut first = make_span("A", 20_000, 60_000);
    first.reading_order = 0;
    let mut second = make_span("B", 100_000, 60_000);
    second.reading_order = 1;
    let mut table = ExtractedTable::new();
    table.bbox = Some(Rect::new(10_000, 50_000, 200_000, 100_000));
    let mut row = TableRow::new(false);
    row.add_cell(TableCell::new("Cell".to_string(), false));
    table.add_row(row);

    let result = converter.convert_with_tables(&[first, second], &[table]);

    assert_eq!(result, "Cell\n");
}
