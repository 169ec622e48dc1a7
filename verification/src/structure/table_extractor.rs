//! Table extraction from the structure tree (ISO 32000-1, section 14.8.4.3.4).
//!
//! A `Table` element holds `TR` rows directly, or `THead` / `TBody` / `TFoot`
//! groups of rows; a row holds `TH` and `TD` cells whose text is found by
//! matching their marked-content identifiers against the page's text.
use crate::error::Error;
use crate::geometry::Rect;
use crate::layout::{TextBlock, TextSpan};
use crate::structure::types::{StructChild, StructElem, StructTreeRoot, StructType};
use crate::text::{trim_seq, trim_text};
use vstd::prelude::*;

verus! {

/// A complete extracted table with rows and optional header information.
#[derive(Debug, Clone)]
pub struct ExtractedTable {
    /// Rows of the table, top to bottom.
    pub rows: Vec<TableRow>,
    /// Whether the table has an explicit header section.
    pub has_header: bool,
    /// Number of columns: the cell count of the first row that has cells.
    pub col_count: usize,
    /// Region of the page the table covers, when known.
    pub bbox: Option<Rect>,
}

/// A single row in a table.
#[derive(Debug, Clone)]
pub struct TableRow {
    /// Cells of the row, left to right.
    pub cells: Vec<TableCell>,
    /// Whether this is a header row.
    pub is_header: bool,
}

/// A single cell in a table.
#[derive(Debug, Clone)]
pub struct TableCell {
    /// Text content of the cell.
    pub text: String,
    /// Number of columns this cell spans.
    pub colspan: u32,
    /// Number of rows this cell spans.
    pub rowspan: u32,
    /// Marked-content identifiers that make up the cell's content.
    pub mcids: Vec<u32>,
    /// Where the cell sits on the page, when known.
    pub bbox: Option<Rect>,
    /// Whether this is a header cell.
    pub is_header: bool,
}

/// The value of a cell.
pub struct CellView {
    pub text: Seq<char>,
    pub colspan: u32,
    pub rowspan: u32,
    pub mcids: Seq<u32>,
    pub bbox: Option<Rect>,
    pub is_header: bool,
}

/// The value of a row.
pub struct RowView {
    pub cells: Seq<CellView>,
    pub is_header: bool,
}

/// The value of a table.
pub struct TableView {
    pub rows: Seq<RowView>,
    pub has_header: bool,
    pub col_count: usize,
    pub bbox: Option<Rect>,
}

impl View for TableCell {
    type V = CellView;

    open spec fn view(&self) -> CellView {
        CellView {
            text: self.text@,
            colspan: self.colspan,
            rowspan: self.rowspan,
            mcids: self.mcids@,
            bbox: self.bbox,
            is_header: self.is_header,
        }
    }
}

impl View for TableRow {
    type V = RowView;

    open spec fn view(&self) -> RowView {
        RowView { cells: self.cells@.map_values(|c: TableCell| c@), is_header: self.is_header }
    }
}

impl View for ExtractedTable {
    type V = TableView;

    open spec fn view(&self) -> TableView {
        TableView {
            rows: self.rows@.map_values(|r: TableRow| r@),
            has_header: self.has_header,
            col_count: self.col_count,
            bbox: self.bbox,
        }
    }
}

/// The column count after adding `row` to a table whose count is `count`:
/// the first row with cells fixes it.
pub open spec fn col_count_step(count: usize, row: RowView) -> usize {
    if count == 0 && row.cells.len() > 0 {
        row.cells.len() as usize
    } else {
        count
    }
}

/// The column count after adding `rows` in order, starting from `count`.
pub open spec fn col_count_from(count: usize, rows: Seq<RowView>) -> usize
    decreases rows.len(),
{
    if rows.len() == 0 {
        count
    } else {
        col_count_step(col_count_from(count, rows.drop_last()), rows.last())
    }
}

proof fn lemma_col_count_concat(count: usize, a: Seq<RowView>, b: Seq<RowView>)
    ensures
        col_count_from(count, a + b) == col_count_from(col_count_from(count, a), b),
    decreases b.len(),
{
    if b.len() > 0 {
        assert((a + b).drop_last() =~= a + b.drop_last());
        lemma_col_count_concat(count, a, b.drop_last());
    } else {
        assert(a + b =~= a);
    }
}

/// The cell count of the first row that has cells (0 when none has).
pub open spec fn first_row_width(rows: Seq<RowView>) -> nat
    decreases rows.len(),
{
    if rows.len() == 0 {
        0
    } else if rows[0].cells.len() > 0 {
        rows[0].cells.len()
    } else {
        first_row_width(rows.drop_first())
    }
}

proof fn lemma_first_row_width_push(rows: Seq<RowView>, r: RowView)
    ensures
        first_row_width(rows.push(r)) == if first_row_width(rows) > 0 {
            first_row_width(rows)
        } else {
            r.cells.len()
        },
    decreases rows.len(),
{
    if rows.len() > 0 {
        assert(rows.push(r)[0] == rows[0]);
        assert(rows.push(r).drop_first() =~= rows.drop_first().push(r));
        lemma_first_row_width_push(rows.drop_first(), r);
    } else {
        assert(rows.push(r)[0] == r);
        assert(rows.push(r).drop_first() =~= Seq::<RowView>::empty());
        assert(first_row_width(Seq::<RowView>::empty()) == 0);
        assert(first_row_width(rows) == 0);
    }
}

/// Adding rows one by one to a table with no columns, the column count ends
/// as the cell count of the first row that has cells.
pub proof fn lemma_col_count_first_row(rows: Seq<RowView>)
    requires
        forall|k: int| 0 <= k < rows.len() ==> (#[trigger] rows[k]).cells.len() <= usize::MAX,
    ensures
        col_count_from(0, rows) == first_row_width(rows),
    decreases rows.len(),
{
    if rows.len() > 0 {
        let init = rows.drop_last();
        assert forall|k: int| 0 <= k < init.len() implies (#[trigger] init[k]).cells.len() <= usize::MAX by {
            assert(init[k] == rows[k]);
        }
        lemma_col_count_first_row(init);
        assert(init.push(rows.last()) =~= rows);
        lemma_first_row_width_push(init, rows.last());
        assert(rows.last().cells.len() <= usize::MAX);
    }
}

impl ExtractedTable {
    /// An empty table: no rows, no header, no columns, no region.
    pub fn new() -> (t: ExtractedTable)
        ensures
            t@.rows == Seq::<RowView>::empty(),
            !t@.has_header,
            t@.col_count == 0,
            t@.bbox == None::<Rect>,
    {
        ExtractedTable { rows: Vec::new(), has_header: false, col_count: 0, bbox: None }
    }

    /// Append a row; the first row with cells fixes the column count.
    pub fn add_row(&mut self, row: TableRow)
        ensures
            final(self)@.rows == old(self)@.rows.push(row@),
            final(self)@.col_count == col_count_step(old(self)@.col_count, row@),
            final(self)@.has_header == old(self)@.has_header,
            final(self)@.bbox == old(self)@.bbox,
    {
        if self.col_count == 0 && row.cells.len() > 0 {
            self.col_count = row.cells.len();
        }
        self.rows.push(row);
        proof {
            assert(self@.rows =~= old(self)@.rows.push(row@));
        }
    }

    /// Whether the table has no rows.
    pub fn is_empty(&self) -> (b: bool)
        ensures
            b == (self@.rows.len() == 0),
    {
        self.rows.len() == 0
    }
}

impl Default for ExtractedTable {
    fn default() -> (t: ExtractedTable)
        ensures
            t@.rows == Seq::<RowView>::empty(),
            !t@.has_header,
            t@.col_count == 0,
            t@.bbox == None::<Rect>,
    {
        ExtractedTable::new()
    }
}

impl TableRow {
    /// A row with no cells.
    pub fn new(is_header: bool) -> (r: TableRow)
        ensures
            r@.cells == Seq::<CellView>::empty(),
            r@.is_header == is_header,
    {
        TableRow { cells: Vec::new(), is_header }
    }

    /// Append a cell after the existing ones.
    pub fn add_cell(&mut self, cell: TableCell)
        ensures
            final(self)@.cells == old(self)@.cells.push(cell@),
            final(self)@.is_header == old(self)@.is_header,
    {
        self.cells.push(cell);
        proof {
            assert(self@.cells =~= old(self)@.cells.push(cell@));
        }
    }

    /// Whether some cell of the row spans more than one column.
    pub fn has_colspan(&self) -> (b: bool)
        ensures
            b == row_has_colspan(self@),
    {
        let n = self.cells.len();
        let mut k: usize = 0;
        while k < n
            invariant
                n == self.cells@.len(),
                k <= n,
                forall|q: int| 0 <= q < k ==> (#[trigger] self.cells@[q]).colspan <= 1,
            decreases n - k,
        {
            if self.cells[k].colspan > 1 {
                proof {
                    assert(self@.cells[k as int].colspan > 1);
                }
                return true;
            }
            k = k + 1;
        }
        proof {
            assert forall|q: int| 0 <= q < self@.cells.len() implies !(#[trigger] self@.cells[q].colspan > 1) by {
                assert(self@.cells[q] == self.cells@[q]@);
            }
        }
        false
    }
}

/// Whether some cell of the row spans more than one column.
pub open spec fn row_has_colspan(row: RowView) -> bool {
    exists|q: int| 0 <= q < row.cells.len() && #[trigger] row.cells[q].colspan > 1
}

impl TableCell {
    /// A cell spanning one row and one column, with no identifiers and no region.
    pub fn new(text: String, is_header: bool) -> (c: TableCell)
        ensures
            c@.text == text@,
            c@.colspan == 1,
            c@.rowspan == 1,
            c@.mcids == Seq::<u32>::empty(),
            c@.bbox == None::<Rect>,
            c@.is_header == is_header,
    {
        TableCell { text, colspan: 1, rowspan: 1, mcids: Vec::new(), bbox: None, is_header }
    }

    /// The same cell spanning `colspan` columns.
    pub fn with_colspan(self, colspan: u32) -> (c: TableCell)
        ensures
            c@ == (CellView { colspan, ..self@ }),
    {
        let mut s = self;
        s.colspan = colspan;
        s
    }

    /// The same cell spanning `rowspan` rows.
    pub fn with_rowspan(self, rowspan: u32) -> (c: TableCell)
        ensures
            c@ == (CellView { rowspan, ..self@ }),
    {
        let mut s = self;
        s.rowspan = rowspan;
        s
    }

    /// Append a marked-content identifier.
    pub fn add_mcid(&mut self, mcid: u32)
        ensures
            final(self)@ == (CellView { mcids: old(self)@.mcids.push(mcid), ..old(self)@ }),
    {
        self.mcids.push(mcid);
    }
}

// ---------------------------------------------------------------------------
// The structure tree, as the specification reads it.
// ---------------------------------------------------------------------------

/// Whether `elem`, or an element below it, has content on page `page`:
/// its own page attribute names the page, or marked content below it lies there.
pub open spec fn has_page_content(elem: StructElem, page: u32) -> bool
    decreases elem,
{
    elem.page == Some(page) || children_have_page_content(elem.children@, page)
}

/// Whether any of `children` has content on page `page`.
pub open spec fn children_have_page_content(children: Seq<StructChild>, page: u32) -> bool
    decreases children,
{
    if children.len() == 0 {
        false
    } else {
        children_have_page_content(children.drop_last(), page) || match children.last() {
            StructChild::MarkedContentRef { mcid, page: p } => p == page,
            StructChild::StructElem(e) => has_page_content(*e, page),
            StructChild::ObjectRef(_, _) => false,
        }
    }
}

/// The `Table` elements at or below `elem` with content on page `page`, in
/// document order; the search does not descend into a `Table`.
pub open spec fn tables_in(elem: StructElem, page: u32) -> Seq<StructElem>
    decreases elem,
{
    if elem.struct_type == StructType::Table {
        if has_page_content(elem, page) {
            seq![elem]
        } else {
            seq![]
        }
    } else {
        tables_in_children(elem.children@, page)
    }
}

/// The tables found below `children`, in document order.
pub open spec fn tables_in_children(children: Seq<StructChild>, page: u32) -> Seq<StructElem>
    decreases children,
{
    if children.len() == 0 {
        seq![]
    } else {
        tables_in_children(children.drop_last(), page) + match children.last() {
            StructChild::StructElem(e) => tables_in(*e, page),
            _ => seq![],
        }
    }
}

/// The tables found in a list of top-level elements, in document order.
pub open spec fn tables_in_roots(roots: Seq<StructElem>, page: u32) -> Seq<StructElem>
    decreases roots.len(),
{
    if roots.len() == 0 {
        seq![]
    } else {
        tables_in_roots(roots.drop_last(), page) + tables_in(roots.last(), page)
    }
}

/// Every element that the table search finds below `elem` is a `Table` with
/// content on the page.
pub proof fn lemma_found_tables_on_page(elem: StructElem, page: u32)
    ensures
        forall|k: int|
            0 <= k < tables_in(elem, page).len() ==> {
                &&& (#[trigger] tables_in(elem, page)[k]).struct_type == StructType::Table
                &&& has_page_content(tables_in(elem, page)[k], page)
            },
    decreases elem,
{
    if elem.struct_type != StructType::Table {
        lemma_found_tables_in_children(elem.children@, page);
    }
}

/// `lemma_found_tables_on_page` for a list of children.
pub proof fn lemma_found_tables_in_children(children: Seq<StructChild>, page: u32)
    ensures
        forall|k: int|
            0 <= k < tables_in_children(children, page).len() ==> {
                &&& (#[trigger] tables_in_children(children, page)[k]).struct_type == StructType::Table
                &&& has_page_content(tables_in_children(children, page)[k], page)
            },
    decreases children,
{
    if children.len() > 0 {
        let prev = tables_in_children(children.drop_last(), page);
        lemma_found_tables_in_children(children.drop_last(), page);
        let last = match children.last() {
            StructChild::StructElem(e) => tables_in(*e, page),
            _ => seq![],
        };
        match children.last() {
            StructChild::StructElem(e) => {
                lemma_found_tables_on_page(*e, page);
            },
            _ => {},
        }
        let all = tables_in_children(children, page);
        assert(all == prev + last);
        assert forall|k: int| 0 <= k < all.len() implies {
            &&& (#[trigger] all[k]).struct_type == StructType::Table
            &&& has_page_content(all[k], page)
        } by {
            if k < prev.len() {
                assert(all[k] == prev[k]);
            } else {
                assert(all[k] == last[k - prev.len()]);
            }
        }
    }
}

/// Every element `find_table_elements` returns is a `Table` with content on the page.
pub proof fn lemma_found_root_tables_on_page(roots: Seq<StructElem>, page: u32)
    ensures
        forall|k: int|
            0 <= k < tables_in_roots(roots, page).len() ==> {
                &&& (#[trigger] tables_in_roots(roots, page)[k]).struct_type == StructType::Table
                &&& has_page_content(tables_in_roots(roots, page)[k], page)
            },
    decreases roots.len(),
{
    if roots.len() > 0 {
        let prev = tables_in_roots(roots.drop_last(), page);
        let last = tables_in(roots.last(), page);
        lemma_found_root_tables_on_page(roots.drop_last(), page);
        lemma_found_tables_on_page(roots.last(), page);
        let all = tables_in_roots(roots, page);
        assert forall|k: int| 0 <= k < all.len() implies {
            &&& (#[trigger] all[k]).struct_type == StructType::Table
            &&& has_page_content(all[k], page)
        } by {
            if k < prev.len() {
                assert(all[k] == prev[k]);
            } else {
                assert(all[k] == last[k - prev.len()]);
            }
        }
    }
}

/// The marked-content identifiers at or below `elem`, depth first.
pub open spec fn mcids_of(elem: StructElem) -> Seq<u32>
    decreases elem,
{
    mcids_of_children(elem.children@)
}

/// The marked-content identifiers below `children`, depth first.
pub open spec fn mcids_of_children(children: Seq<StructChild>) -> Seq<u32>
    decreases children,
{
    if children.len() == 0 {
        seq![]
    } else {
        mcids_of_children(children.drop_last()) + match children.last() {
            StructChild::MarkedContentRef { mcid, page } => seq![mcid],
            StructChild::StructElem(e) => mcids_of(*e),
            StructChild::ObjectRef(_, _) => seq![],
        }
    }
}

/// The text of the first block tagged with `mcid`, if any block is.
pub open spec fn block_text_for(mcid: u32, blocks: Seq<TextBlock>) -> Option<Seq<char>>
    decreases blocks.len(),
{
    if blocks.len() == 0 {
        None
    } else if blocks[0].mcid == Some(mcid) {
        Some(blocks[0].text@)
    } else {
        block_text_for(mcid, blocks.drop_first())
    }
}

/// `acc` followed by `piece`, with a space between them when `acc` is
/// non-empty and does not already end in a space.
pub open spec fn append_piece(acc: Seq<char>, piece: Seq<char>) -> Seq<char> {
    if acc.len() > 0 && acc.last() != ' ' {
        acc.push(' ') + piece
    } else {
        acc + piece
    }
}

/// The texts of the blocks matched by `mcids`, joined in order (before trimming).
pub open spec fn joined_text(mcids: Seq<u32>, blocks: Seq<TextBlock>) -> Seq<char>
    decreases mcids.len(),
{
    if mcids.len() == 0 {
        seq![]
    } else {
        let acc = joined_text(mcids.drop_last(), blocks);
        match block_text_for(mcids.last(), blocks) {
            Some(t) => append_piece(acc, t),
            None => acc,
        }
    }
}

/// The cell extracted from a `TH` or `TD` element.
pub open spec fn cell_of(elem: StructElem, blocks: Seq<TextBlock>, is_header: bool) -> CellView {
    CellView {
        text: trim_seq(joined_text(mcids_of(elem), blocks)),
        colspan: 1,
        rowspan: 1,
        mcids: mcids_of(elem),
        bbox: None,
        is_header,
    }
}

/// The cells of a row's children: each `TH` gives a header cell, each `TD` a data cell.
pub open spec fn cells_of(children: Seq<StructChild>, blocks: Seq<TextBlock>) -> Seq<CellView>
    decreases children.len(),
{
    if children.len() == 0 {
        seq![]
    } else {
        cells_of(children.drop_last(), blocks) + match children.last() {
            StructChild::StructElem(e) => if e.struct_type == StructType::TH {
                seq![cell_of(*e, blocks, true)]
            } else if e.struct_type == StructType::TD {
                seq![cell_of(*e, blocks, false)]
            } else {
                seq![]
            },
            _ => seq![],
        }
    }
}

/// The row extracted from a `TR` element.
pub open spec fn row_of(elem: StructElem, blocks: Seq<TextBlock>, is_header: bool) -> RowView {
    RowView { cells: cells_of(elem.children@, blocks), is_header }
}

/// The rows of a row group's children: one row per `TR` child.
pub open spec fn group_rows(children: Seq<StructChild>, blocks: Seq<TextBlock>, is_header: bool) -> Seq<RowView>
    decreases children.len(),
{
    if children.len() == 0 {
        seq![]
    } else {
        group_rows(children.drop_last(), blocks, is_header) + match children.last() {
            StructChild::StructElem(e) => if e.struct_type == StructType::TR {
                seq![row_of(*e, blocks, is_header)]
            } else {
                seq![]
            },
            _ => seq![],
        }
    }
}

/// The rows contributed by one child of a `Table` element.
pub open spec fn child_rows(child: StructChild, blocks: Seq<TextBlock>) -> Seq<RowView> {
    match child {
        StructChild::StructElem(e) => if e.struct_type == StructType::TR {
            seq![row_of(*e, blocks, false)]
        } else if e.struct_type == StructType::THead {
            group_rows(e.children@, blocks, true)
        } else if e.struct_type == StructType::TBody || e.struct_type == StructType::TFoot {
            group_rows(e.children@, blocks, false)
        } else {
            seq![]
        },
        _ => seq![],
    }
}

/// The rows of a `Table` element's children, in document order.
pub open spec fn table_rows(children: Seq<StructChild>, blocks: Seq<TextBlock>) -> Seq<RowView>
    decreases children.len(),
{
    if children.len() == 0 {
        seq![]
    } else {
        table_rows(children.drop_last(), blocks) + child_rows(children.last(), blocks)
    }
}

/// Whether a child is a `THead` element.
pub open spec fn is_thead(child: StructChild) -> bool {
    match child {
        StructChild::StructElem(e) => e.struct_type == StructType::THead,
        _ => false,
    }
}

/// The table extracted from a `Table` element.
pub open spec fn table_of(elem: StructElem, blocks: Seq<TextBlock>) -> TableView {
    let rows = table_rows(elem.children@, blocks);
    TableView {
        rows,
        has_header: exists|i: int| 0 <= i < elem.children@.len() && is_thead(#[trigger] elem.children@[i]),
        col_count: col_count_from(0, rows),
        bbox: None,
    }
}

/// The text blocks made from the spans that carry a marked-content identifier.
pub open spec fn mcid_blocks(spans: Seq<TextSpan>) -> Seq<TextBlock>
    decreases spans.len(),
{
    if spans.len() == 0 {
        seq![]
    } else {
        let s = spans.last();
        mcid_blocks(spans.drop_last()) + if s.mcid is Some {
            seq![span_block(s)]
        } else {
            seq![]
        }
    }
}

/// A text block holding a span's text, box, font and identifier.
pub open spec fn span_block(s: TextSpan) -> TextBlock {
    TextBlock {
        bbox: s.bbox,
        text: s.text,
        avg_font_size: s.font_size,
        dominant_font: s.font_name,
        is_bold: s.font_weight.spec_is_bold(),
        is_italic: s.is_italic,
        mcid: s.mcid,
    }
}

// ---------------------------------------------------------------------------
// Finding tables.
// ---------------------------------------------------------------------------

/// All `Table` elements of `struct_tree` with content on page `page_num`, in
/// document order. The search does not look for tables nested in tables.
pub fn find_table_elements(struct_tree: &StructTreeRoot, page_num: u32) -> (tables: Vec<&StructElem>)
    ensures
        tables@.map_values(|e: &StructElem| *e) == tables_in_roots(struct_tree.root_elements@, page_num),
{
    let mut tables: Vec<&StructElem> = Vec::new();
    let n = struct_tree.root_elements.len();
    let mut i: usize = 0;
    while i < n
        invariant
            n == struct_tree.root_elements@.len(),
            i <= n,
            tables@.map_values(|e: &StructElem| *e) == tables_in_roots(
                struct_tree.root_elements@.take(i as int),
                page_num,
            ),
        decreases n - i,
    {
        let ghost before = tables@.map_values(|e: &StructElem| *e);
        collect_table_elements(&struct_tree.root_elements[i], page_num, &mut tables);
        proof {
            let roots = struct_tree.root_elements@;
            assert(roots.take(i + 1).drop_last() =~= roots.take(i as int));
            assert(roots.take(i + 1).last() == roots[i as int]);
        }
        i = i + 1;
    }
    proof {
        assert(struct_tree.root_elements@.take(n as int) =~= struct_tree.root_elements@);
    }
    tables
}

/// Append the tables at or below `elem` with content on page `page_num`.
fn collect_table_elements<'a>(elem: &'a StructElem, page_num: u32, tables: &mut Vec<&'a StructElem>)
    ensures
        final(tables)@.map_values(|e: &StructElem| *e) == old(tables)@.map_values(
            |e: &StructElem| *e,
        ) + tables_in(*elem, page_num),
    decreases elem,
{
    if elem.struct_type == StructType::Table {
        if element_has_page_content(elem, page_num) {
            tables.push(elem);
            proof {
                assert(tables@.map_values(|e: &StructElem| *e) =~= old(tables)@.map_values(
                    |e: &StructElem| *e,
                ) + seq![*elem]);
            }
        } else {
            proof {
                assert(old(tables)@.map_values(|e: &StructElem| *e) + seq![] =~= old(
                    tables,
                )@.map_values(|e: &StructElem| *e));
            }
        }
        return;
    }
    let n = elem.children.len();
    let mut i: usize = 0;
    while i < n
        invariant
            n == elem.children@.len(),
            i <= n,
            elem.struct_type != StructType::Table,
            tables@.map_values(|e: &StructElem| *e) == old(tables)@.map_values(
                |e: &StructElem| *e,
            ) + tables_in_children(elem.children@.take(i as int), page_num),
        decreases n - i,
    {
        let ghost children = elem.children@;
        let ghost before = tables@.map_values(|e: &StructElem| *e);
        match &elem.children[i] {
            StructChild::StructElem(child_elem) => {
                proof {
                    assert(decreases_to!(elem => elem.children));
                    assert(decreases_to!(elem.children => elem.children@));
                    assert(decreases_to!(elem.children@ => elem.children@[i as int]));
                }
                collect_table_elements(child_elem, page_num, tables);
            },
            _ => {
                proof {
                    assert(before + seq![] =~= before);
                }
            },
        }
        proof {
            assert(children.take(i + 1).drop_last() =~= children.take(i as int));
            assert(children.take(i + 1).last() == children[i as int]);
            assert(tables@.map_values(|e: &StructElem| *e) =~= old(tables)@.map_values(
                |e: &StructElem| *e,
            ) + tables_in_children(children.take(i + 1), page_num));
        }
        i = i + 1;
    }
    proof {
        assert(elem.children@.take(n as int) =~= elem.children@);
    }
}

proof fn lemma_children_content_prefix(s: Seq<StructChild>, k: int, page: u32)
    requires
        0 <= k <= s.len(),
        children_have_page_content(s.take(k), page),
    ensures
        children_have_page_content(s, page),
    decreases s.len(),
{
    if k == s.len() {
        assert(s.take(k) =~= s);
    } else {
        assert(s.drop_last().take(k) =~= s.take(k));
        lemma_children_content_prefix(s.drop_last(), k, page);
    }
}

/// Whether `elem` or an element below it has content on page `page_num`.
pub fn element_has_page_content(elem: &StructElem, page_num: u32) -> (b: bool)
    ensures
        b == has_page_content(*elem, page_num),
    decreases elem,
{
    match elem.page {
        Some(p) => {
            if p == page_num {
                return true;
            }
        },
        None => {},
    }
    let n = elem.children.len();
    let mut i: usize = 0;
    while i < n
        invariant
            n == elem.children@.len(),
            i <= n,
            elem.page != Some(page_num),
            !children_have_page_content(elem.children@.take(i as int), page_num),
        decreases n - i,
    {
        let ghost children = elem.children@;
        proof {
            assert(children.take(i + 1).drop_last() =~= children.take(i as int));
            assert(children.take(i + 1).last() == children[i as int]);
        }
        match &elem.children[i] {
            StructChild::MarkedContentRef { mcid, page } => {
                if *page == page_num {
                    proof {
                        lemma_children_content_prefix(children, i + 1, page_num);
                    }
                    return true;
                }
            },
            StructChild::StructElem(child_elem) => {
                proof {
                    assert(decreases_to!(elem => elem.children));
                    assert(decreases_to!(elem.children => elem.children@));
                    assert(decreases_to!(elem.children@ => elem.children@[i as int]));
                }
                if element_has_page_content(child_elem, page_num) {
                    proof {
                        lemma_children_content_prefix(children, i + 1, page_num);
                    }
                    return true;
                }
            },
            StructChild::ObjectRef(_, _) => {},
        }
        i = i + 1;
    }
    proof {
        assert(elem.children@.take(n as int) =~= elem.children@);
    }
    false
}

// ---------------------------------------------------------------------------
// Extracting tables.
// ---------------------------------------------------------------------------

/// Extract a table from a `Table` element, matching cell content against the
/// page's spans by marked-content identifier (spans without one are ignored).
pub fn extract_table_from_spans(table_elem: &StructElem, spans: &[TextSpan]) -> (r: Result<ExtractedTable, Error>)
    ensures
        r matches Ok(t) && t@ == table_of(*table_elem, mcid_blocks(spans@)),
{
    let mut text_blocks: Vec<TextBlock> = Vec::new();
    let n = spans.len();
    let mut i: usize = 0;
    while i < n
        invariant
            n == spans@.len(),
            i <= n,
            text_blocks@ == mcid_blocks(spans@.take(i as int)),
        decreases n - i,
    {
        let s = &spans[i];
        if s.mcid.is_some() {
            let block = TextBlock {
                bbox: s.bbox,
                text: s.text.clone(),
                avg_font_size: s.font_size,
                dominant_font: s.font_name.clone(),
                is_bold: s.font_weight.is_bold(),
                is_italic: s.is_italic,
                mcid: s.mcid,
            };
            text_blocks.push(block);
        }
        proof {
            assert(spans@.take(i + 1).drop_last() =~= spans@.take(i as int));
            assert(spans@.take(i + 1).last() == spans@[i as int]);
            assert(text_blocks@ =~= mcid_blocks(spans@.take(i + 1)));
        }
        i = i + 1;
    }
    proof {
        assert(spans@.take(n as int) =~= spans@);
    }
    extract_table(table_elem, text_blocks.as_slice())
}

/// Extract a table from a `Table` element: its `TR` children are body rows,
/// the rows of a `THead` are header rows, the rows of `TBody` and `TFoot` are
/// body rows, and other children are skipped. The table has a header when the
/// element has a `THead` child.
pub fn extract_table(table_elem: &StructElem, text_blocks: &[TextBlock]) -> (r: Result<ExtractedTable, Error>)
    ensures
        r matches Ok(t) && t@ == table_of(*table_elem, text_blocks@),
{
    let mut table = ExtractedTable::new();
    let n = table_elem.children.len();
    let ghost children = table_elem.children@;
    let mut has_thead = false;
    let mut k: usize = 0;
    while k < n
        invariant
            n == children.len(),
            children == table_elem.children@,
            k <= n,
            has_thead == exists|j: int| 0 <= j < k && is_thead(#[trigger] children[j]),
        decreases n - k,
    {
        match &table_elem.children[k] {
            StructChild::StructElem(elem) => {
                if elem.struct_type == StructType::THead {
                    has_thead = true;
                }
            },
            _ => {},
        }
        proof {
            if is_thead(children[k as int]) {
                assert(has_thead);
            }
        }
        k = k + 1;
    }
    if has_thead {
        table.has_header = true;
    }
    let mut i: usize = 0;
    while i < n
        invariant
            n == children.len(),
            children == table_elem.children@,
            i <= n,
            table@.rows == table_rows(children.take(i as int), text_blocks@),
            table@.col_count == col_count_from(0, table@.rows),
            table@.has_header == exists|j: int| 0 <= j < n && is_thead(#[trigger] children[j]),
            table@.bbox == None::<Rect>,
        decreases n - i,
    {
        let ghost rows_before = table@.rows;
        match &table_elem.children[i] {
            StructChild::StructElem(elem) => {
                if elem.struct_type == StructType::TR {
                    let row = extract_row(elem, text_blocks, false)?;
                    table.add_row(row);
                    proof {
                        let one = seq![row@];
                        assert(one.drop_last() =~= Seq::<RowView>::empty());
                        assert(one.last() == row@);
                        assert(col_count_from(col_count_from(0, rows_before), one.drop_last())
                            == col_count_from(0, rows_before));
                        assert(col_count_from(col_count_from(0, rows_before), one) == table@.col_count);
                    }
                } else if elem.struct_type == StructType::THead {
                    extract_row_group(elem, text_blocks, true, &mut table)?;
                } else if elem.struct_type == StructType::TBody {
                    extract_row_group(elem, text_blocks, false, &mut table)?;
                } else if elem.struct_type == StructType::TFoot {
                    extract_row_group(elem, text_blocks, false, &mut table)?;
                }
            },
            _ => {},
        }
        proof {
            let added = child_rows(children[i as int], text_blocks@);
            assert(table@.rows =~= rows_before + added);
            lemma_col_count_concat(0, rows_before, added);
            assert(children.take(i + 1).drop_last() =~= children.take(i as int));
            assert(children.take(i + 1).last() == children[i as int]);
        }
        i = i + 1;
    }
    proof {
        assert(children.take(n as int) =~= children);
    }
    Ok(table)
}

/// Append the rows of a row group (`THead`, `TBody`, `TFoot`): one row per `TR` child.
fn extract_row_group(
    group_elem: &StructElem,
    text_blocks: &[TextBlock],
    is_header: bool,
    table: &mut ExtractedTable,
) -> (r: Result<(), Error>)
    ensures
        r is Ok,
        final(table)@.rows == old(table)@.rows + group_rows(group_elem.children@, text_blocks@, is_header),
        final(table)@.col_count == col_count_from(
            old(table)@.col_count,
            group_rows(group_elem.children@, text_blocks@, is_header),
        ),
        final(table)@.has_header == old(table)@.has_header,
        final(table)@.bbox == old(table)@.bbox,
{
    let n = group_elem.children.len();
    let ghost children = group_elem.children@;
    let mut i: usize = 0;
    while i < n
        invariant
            n == children.len(),
            children == group_elem.children@,
            i <= n,
            table@.rows == old(table)@.rows + group_rows(children.take(i as int), text_blocks@, is_header),
            table@.col_count == col_count_from(
                old(table)@.col_count,
                group_rows(children.take(i as int), text_blocks@, is_header),
            ),
            table@.has_header == old(table)@.has_header,
            table@.bbox == old(table)@.bbox,
        decreases n - i,
    {
        let ghost rows_before = table@.rows;
        let ghost added_before = group_rows(children.take(i as int), text_blocks@, is_header);
        match &group_elem.children[i] {
            StructChild::StructElem(elem) => {
                if elem.struct_type == StructType::TR {
                    let row = extract_row(elem, text_blocks, is_header)?;
                    table.add_row(row);
                }
            },
            _ => {},
        }
        proof {
            assert(children.take(i + 1).drop_last() =~= children.take(i as int));
            assert(children.take(i + 1).last() == children[i as int]);
            let added = group_rows(children.take(i + 1), text_blocks@, is_header);
            assert(table@.rows =~= old(table)@.rows + added);
            if added.len() > added_before.len() {
                assert(added.drop_last() =~= added_before);
            } else {
                assert(added =~= added_before);
            }
        }
        i = i + 1;
    }
    proof {
        assert(children.take(n as int) =~= children);
    }
    Ok(())
}

/// Extract a row from a `TR` element: one header cell per `TH` child and one
/// data cell per `TD` child.
fn extract_row(tr_elem: &StructElem, text_blocks: &[TextBlock], force_header: bool) -> (r: Result<TableRow, Error>)
    ensures
        r matches Ok(row) && row@ == row_of(*tr_elem, text_blocks@, force_header),
{
    let mut row = TableRow::new(force_header);
    let n = tr_elem.children.len();
    let ghost children = tr_elem.children@;
    let mut i: usize = 0;
    while i < n
        invariant
            n == children.len(),
            children == tr_elem.children@,
            i <= n,
            row@.cells == cells_of(children.take(i as int), text_blocks@),
            row@.is_header == force_header,
        decreases n - i,
    {
        match &tr_elem.children[i] {
            StructChild::StructElem(elem) => {
                if elem.struct_type == StructType::TH {
                    let cell = extract_cell(elem, text_blocks, true)?;
                    row.add_cell(cell);
                } else if elem.struct_type == StructType::TD {
                    let cell = extract_cell(elem, text_blocks, false)?;
                    row.add_cell(cell);
                }
            },
            _ => {},
        }
        proof {
            assert(children.take(i + 1).drop_last() =~= children.take(i as int));
            assert(children.take(i + 1).last() == children[i as int]);
            assert(row@.cells =~= cells_of(children.take(i + 1), text_blocks@));
        }
        i = i + 1;
    }
    proof {
        assert(children.take(n as int) =~= children);
    }
    Ok(row)
}

/// The text of the first block tagged with `mcid`.
fn find_block_text<'a>(mcid: u32, text_blocks: &'a [TextBlock]) -> (r: Option<&'a String>)
    ensures
        match r {
            Some(t) => block_text_for(mcid, text_blocks@) == Some(t@),
            None => block_text_for(mcid, text_blocks@) is None,
        },
{
    let n = text_blocks.len();
    let mut j: usize = 0;
    proof {
        assert(text_blocks@.skip(0) =~= text_blocks@);
    }
    while j < n
        invariant
            n == text_blocks@.len(),
            j <= n,
            block_text_for(mcid, text_blocks@) == block_text_for(mcid, text_blocks@.skip(j as int)),
        decreases n - j,
    {
        proof {
            assert(text_blocks@.skip(j as int).drop_first() =~= text_blocks@.skip(j + 1));
        }
        match text_blocks[j].mcid {
            Some(m) => {
                if m == mcid {
                    return Some(&text_blocks[j].text);
                }
            },
            None => {},
        }
        j = j + 1;
    }
    None
}

/// Extract a cell from a `TH` or `TD` element: the texts of the blocks matched
/// by its identifiers, joined with single separating spaces and trimmed.
fn extract_cell(cell_elem: &StructElem, text_blocks: &[TextBlock], is_header: bool) -> (r: Result<TableCell, Error>)
    ensures
        r matches Ok(c) && c@ == cell_of(*cell_elem, text_blocks@, is_header),
{
    let mut mcids: Vec<u32> = Vec::new();
    collect_mcids(cell_elem, &mut mcids);
    let mut cell_text = String::new();
    let mut need_space = false;
    let n = mcids.len();
    let mut k: usize = 0;
    while k < n
        invariant
            n == mcids@.len(),
            k <= n,
            cell_text@ == joined_text(mcids@.take(k as int), text_blocks@),
            need_space == (cell_text@.len() > 0 && cell_text@.last() != ' '),
        decreases n - k,
    {
        let ghost before = cell_text@;
        proof {
            assert(mcids@.take(k + 1).drop_last() =~= mcids@.take(k as int));
            assert(mcids@.take(k + 1).last() == mcids@[k as int]);
            reveal_strlit(" ");
        }
        match find_block_text(mcids[k], text_blocks) {
            Some(t) => {
                if need_space {
                    cell_text.append(" ");
                }
                let piece = t.as_str();
                cell_text.append(piece);
                let len = piece.unicode_len();
                if len > 0 {
                    need_space = piece.get_char(len - 1) != ' ';
                } else {
                    need_space = false;
                }
                proof {
                    assert(cell_text@ =~= append_piece(before, t@));
                }
            },
            None => {},
        }
        k = k + 1;
    }
    proof {
        assert(mcids@.take(n as int) =~= mcids@);
    }
    let mut cell = TableCell::new(trim_text(cell_text.as_str()), is_header);
    cell.mcids = mcids;
    Ok(cell)
}

/// Append the marked-content identifiers below `elem`, depth first.
fn collect_mcids(elem: &StructElem, mcids: &mut Vec<u32>)
    ensures
        final(mcids)@ == old(mcids)@ + mcids_of(*elem),
    decreases elem,
{
    let n = elem.children.len();
    let ghost children = elem.children@;
    let mut i: usize = 0;
    while i < n
        invariant
            n == children.len(),
            children == elem.children@,
            i <= n,
            mcids@ == old(mcids)@ + mcids_of_children(children.take(i as int)),
        decreases n - i,
    {
        let ghost before = mcids@;
        match &elem.children[i] {
            StructChild::MarkedContentRef { mcid, page } => {
                mcids.push(*mcid);
            },
            StructChild::StructElem(child_elem) => {
                proof {
                    assert(decreases_to!(elem => elem.children));
                    assert(decreases_to!(elem.children => elem.children@));
                    assert(decreases_to!(elem.children@ => elem.children@[i as int]));
                }
                collect_mcids(child_elem, mcids);
            },
            StructChild::ObjectRef(_, _) => {},
        }
        proof {
            assert(children.take(i + 1).drop_last() =~= children.take(i as int));
            assert(children.take(i + 1).last() == children[i as int]);
            assert(mcids@ =~= old(mcids)@ + mcids_of_children(children.take(i + 1)));
        }
        i = i + 1;
    }
    proof {
        assert(children.take(n as int) =~= children);
    }
}

// ---------------------------------------------------------------------------
// Counting rows and cells.
// ---------------------------------------------------------------------------

/// The structure type of a child that is an element.
pub open spec fn child_type(child: StructChild) -> Option<StructType> {
    match child {
        StructChild::StructElem(e) => Some(e.struct_type),
        _ => None,
    }
}

/// The children of a child that is an element (none for other children).
pub open spec fn child_kids(child: StructChild) -> Seq<StructChild> {
    match child {
        StructChild::StructElem(e) => e.children@,
        _ => seq![],
    }
}

/// How many of the children are elements of type `ty`.
pub open spec fn count_type(children: Seq<StructChild>, ty: StructType) -> nat
    decreases children.len(),
{
    if children.len() == 0 {
        0
    } else {
        count_type(children.drop_last(), ty) + if child_type(children.last()) == Some(ty) { 1nat } else { 0nat }
    }
}

/// How many `TR` elements a `Table` element's children hold: each `TR`
/// child, and each `TR` child of a `THead`, `TBody` or `TFoot` child.
pub open spec fn table_tr_count(children: Seq<StructChild>) -> nat
    decreases children.len(),
{
    if children.len() == 0 {
        0
    } else {
        let c = children.last();
        table_tr_count(children.drop_last()) + if child_type(c) == Some(StructType::TR) {
            1nat
        } else if child_type(c) == Some(StructType::THead) || child_type(c) == Some(StructType::TBody) || child_type(c)
            == Some(StructType::TFoot) {
            count_type(child_kids(c), StructType::TR)
        } else {
            0nat
        }
    }
}

/// How many `TR` elements the `THead` children of a `Table` element hold.
pub open spec fn head_tr_count(children: Seq<StructChild>) -> nat
    decreases children.len(),
{
    if children.len() == 0 {
        0
    } else {
        let c = children.last();
        head_tr_count(children.drop_last()) + if child_type(c) == Some(StructType::THead) {
            count_type(child_kids(c), StructType::TR)
        } else {
            0nat
        }
    }
}

/// How many of the rows are header rows.
pub open spec fn header_row_count(rows: Seq<RowView>) -> nat
    decreases rows.len(),
{
    if rows.len() == 0 {
        0
    } else {
        header_row_count(rows.drop_last()) + if rows.last().is_header { 1nat } else { 0nat }
    }
}

/// How many of the cells are header cells.
pub open spec fn header_cell_count(cells: Seq<CellView>) -> nat
    decreases cells.len(),
{
    if cells.len() == 0 {
        0
    } else {
        header_cell_count(cells.drop_last()) + if cells.last().is_header { 1nat } else { 0nat }
    }
}

proof fn lemma_header_row_count_add(a: Seq<RowView>, b: Seq<RowView>)
    ensures
        header_row_count(a + b) == header_row_count(a) + header_row_count(b),
    decreases b.len(),
{
    if b.len() > 0 {
        lemma_header_row_count_add(a, b.drop_last());
        assert((a + b).drop_last() =~= a + b.drop_last());
    } else {
        assert(a + b =~= a);
    }
}

proof fn lemma_group_rows_count(children: Seq<StructChild>, blocks: Seq<TextBlock>, is_header: bool)
    ensures
        group_rows(children, blocks, is_header).len() == count_type(children, StructType::TR),
        header_row_count(group_rows(children, blocks, is_header)) == if is_header {
            count_type(children, StructType::TR)
        } else {
            0
        },
    decreases children.len(),
{
    if children.len() > 0 {
        let p = children.drop_last();
        lemma_group_rows_count(p, blocks, is_header);
        let here = match children.last() {
            StructChild::StructElem(e) => if e.struct_type == StructType::TR {
                seq![row_of(*e, blocks, is_header)]
            } else {
                seq![]
            },
            _ => seq![],
        };
        lemma_header_row_count_add(group_rows(p, blocks, is_header), here);
        if here.len() == 1 {
            assert(here.drop_last() =~= Seq::<RowView>::empty());
            assert(header_row_count(here.drop_last()) == 0);
            assert(here.last().is_header == is_header);
            assert(header_row_count(here) == if is_header { 1nat } else { 0nat });
        } else {
            assert(header_row_count(here) == 0);
        }
    }
}

/// A `Table` element gives one row per `TR` it holds, directly or inside a
/// `THead`, `TBody` or `TFoot` child; the rows from `TR`s inside `THead`
/// children, and only those, are header rows; the table has a header exactly
/// when the element has a `THead` child; it has no region of its own.
pub proof fn lemma_table_row_counts(elem: StructElem, blocks: Seq<TextBlock>)
    ensures
        table_of(elem, blocks).rows.len() == table_tr_count(elem.children@),
        header_row_count(table_of(elem, blocks).rows) == head_tr_count(elem.children@),
        table_of(elem, blocks).has_header == (count_type(elem.children@, StructType::THead) > 0),
        table_of(elem, blocks).bbox is None,
{
    lemma_table_rows_counts(elem.children@, blocks);
    lemma_count_type_pos(elem.children@, StructType::THead);
    let ch = elem.children@;
    assert forall|i: int| 0 <= i < ch.len() implies is_thead(#[trigger] ch[i]) == (child_type(ch[i]) == Some(
        StructType::THead,
    )) by {}
}

proof fn lemma_count_type_pos(children: Seq<StructChild>, ty: StructType)
    ensures
        (count_type(children, ty) > 0) == exists|i: int| 0 <= i < children.len() && child_type(#[trigger] children[i]) == Some(ty),
    decreases children.len(),
{
    if children.len() > 0 {
        let p = children.drop_last();
        lemma_count_type_pos(p, ty);
        if exists|i: int| 0 <= i < p.len() && child_type(#[trigger] p[i]) == Some(ty) {
            let i = choose|i: int| 0 <= i < p.len() && child_type(#[trigger] p[i]) == Some(ty);
            assert(children[i] == p[i]);
        }
        if exists|i: int| 0 <= i < children.len() && child_type(#[trigger] children[i]) == Some(ty) {
            let i = choose|i: int| 0 <= i < children.len() && child_type(#[trigger] children[i]) == Some(ty);
            if i < p.len() {
                assert(p[i] == children[i]);
            }
        }
    }
}

proof fn lemma_table_rows_counts(children: Seq<StructChild>, blocks: Seq<TextBlock>)
    ensures
        table_rows(children, blocks).len() == table_tr_count(children),
        header_row_count(table_rows(children, blocks)) == head_tr_count(children),
    decreases children.len(),
{
    if children.len() > 0 {
        let p = children.drop_last();
        let c = children.last();
        lemma_table_rows_counts(p, blocks);
        lemma_header_row_count_add(table_rows(p, blocks), child_rows(c, blocks));
        match c {
            StructChild::StructElem(e) => {
                lemma_group_rows_count(e.children@, blocks, true);
                lemma_group_rows_count(e.children@, blocks, false);
                if e.struct_type == StructType::TR {
                    let one = seq![row_of(*e, blocks, false)];
                    assert(one.drop_last() =~= Seq::<RowView>::empty());
                    assert(header_row_count(one.drop_last()) == 0);
                    assert(header_row_count(one) == 0);
                }
            },
            _ => {},
        }
    }
}

/// A `TR` element gives one cell per `TH` or `TD` child, and the cells from
/// `TH` children, and only those, are header cells; the row is a header row
/// exactly when it is asked to be.
pub proof fn lemma_row_cell_counts(elem: StructElem, blocks: Seq<TextBlock>, is_header: bool)
    ensures
        row_of(elem, blocks, is_header).cells.len() == count_type(elem.children@, StructType::TH) + count_type(
            elem.children@,
            StructType::TD,
        ),
        header_cell_count(row_of(elem, blocks, is_header).cells) == count_type(elem.children@, StructType::TH),
        row_of(elem, blocks, is_header).is_header == is_header,
{
    lemma_cells_counts(elem.children@, blocks);
}

proof fn lemma_cells_counts(children: Seq<StructChild>, blocks: Seq<TextBlock>)
    ensures
        cells_of(children, blocks).len() == count_type(children, StructType::TH) + count_type(children, StructType::TD),
        header_cell_count(cells_of(children, blocks)) == count_type(children, StructType::TH),
    decreases children.len(),
{
    if children.len() > 0 {
        let p = children.drop_last();
        lemma_cells_counts(p, blocks);
        let a = cells_of(p, blocks);
        let b = cells_of(children, blocks);
        if b.len() > a.len() {
            assert(b.drop_last() =~= a);
        } else {
            assert(b =~= a);
        }
    }
}

/// The text matched by an identifier is that of the first block tagged with
/// it; no text is matched when no block is tagged with it.
pub proof fn lemma_block_text_for(mcid: u32, blocks: Seq<TextBlock>)
    ensures
        (block_text_for(mcid, blocks) is None) == (forall|i: int| 0 <= i < blocks.len() ==> (#[trigger] blocks[i]).mcid
            != Some(mcid)),
        forall|i: int|
            0 <= i < blocks.len() && (#[trigger] blocks[i]).mcid == Some(mcid) && (forall|j: int|
                0 <= j < i ==> (#[trigger] blocks[j]).mcid != Some(mcid)) ==> block_text_for(mcid, blocks) == Some(
                blocks[i].text@,
            ),
    decreases blocks.len(),
{
    if blocks.len() > 0 {
        let t = blocks.drop_first();
        lemma_block_text_for(mcid, t);
        assert forall|i: int| 0 <= i < t.len() implies #[trigger] t[i] == blocks[i + 1] by {}
        if blocks[0].mcid != Some(mcid) {
            assert forall|i: int|
                0 <= i < blocks.len() && (#[trigger] blocks[i]).mcid == Some(mcid) && (forall|j: int|
                    0 <= j < i ==> (#[trigger] blocks[j]).mcid != Some(mcid)) implies block_text_for(mcid, blocks)
                == Some(blocks[i].text@) by {
                assert(t[i - 1] == blocks[i]);
                assert forall|j: int| 0 <= j < i - 1 implies (#[trigger] t[j]).mcid != Some(mcid) by {
                    assert(t[j] == blocks[j + 1]);
                }
            }
            if forall|i: int| 0 <= i < t.len() ==> (#[trigger] t[i]).mcid != Some(mcid) {
                assert forall|i: int| 0 <= i < blocks.len() implies (#[trigger] blocks[i]).mcid != Some(mcid) by {
                    if i > 0 {
                        assert(t[i - 1] == blocks[i]);
                    }
                }
            }
        }
    }
}

/// A cell whose element holds one marked-content reference has that
/// identifier, and the trimmed text of the first block tagged with it (no
/// text when no block is).
pub proof fn lemma_single_reference_cell(elem: StructElem, blocks: Seq<TextBlock>, is_header: bool, mcid: u32, page: u32)
    requires
        elem.children@ == seq![StructChild::MarkedContentRef { mcid, page }],
    ensures
        cell_of(elem, blocks, is_header).mcids == seq![mcid],
        cell_of(elem, blocks, is_header).is_header == is_header,
        (forall|i: int| 0 <= i < blocks.len() ==> (#[trigger] blocks[i]).mcid != Some(mcid)) ==> cell_of(
            elem,
            blocks,
            is_header,
        ).text.len() == 0,
        forall|i: int|
            0 <= i < blocks.len() && (#[trigger] blocks[i]).mcid == Some(mcid) && (forall|j: int|
                0 <= j < i ==> (#[trigger] blocks[j]).mcid != Some(mcid)) ==> cell_of(elem, blocks, is_header).text
                == trim_seq(blocks[i].text@),
{
    let ch = elem.children@;
    assert(ch.drop_last() =~= Seq::<StructChild>::empty());
    assert(mcids_of_children(ch.drop_last()) =~= Seq::<u32>::empty());
    assert(mcids_of(elem) =~= seq![mcid]);
    lemma_block_text_for(mcid, blocks);
    let ms = seq![mcid];
    assert(ms.drop_last() =~= Seq::<u32>::empty());
    assert(joined_text(ms.drop_last(), blocks) =~= Seq::<char>::empty());
    if let Some(t) = block_text_for(mcid, blocks) {
        assert(append_piece(Seq::<char>::empty(), t) =~= t);
    } else {
        assert(crate::text::trim_start_seq(Seq::<char>::empty()) =~= Seq::<char>::empty());
    }
}

/// The rows of a `Table` element's children taken in two parts are the rows
/// of the first part followed by those of the second.
pub proof fn lemma_table_rows_split(a: Seq<StructChild>, b: Seq<StructChild>, blocks: Seq<TextBlock>)
    ensures
        table_rows(a + b, blocks) == table_rows(a, blocks) + table_rows(b, blocks),
    decreases b.len(),
{
    if b.len() == 0 {
        assert(a + b =~= a);
        assert(table_rows(a, blocks) + table_rows(b, blocks) =~= table_rows(a, blocks));
    } else {
        lemma_table_rows_split(a, b.drop_last(), blocks);
        assert((a + b).drop_last() =~= a + b.drop_last());
        assert((a + b).last() == b.last());
        assert(table_rows(a + b, blocks) =~= table_rows(a, blocks) + table_rows(b, blocks));
    }
}

/// The rows of a single child of a `Table` element: a `TR` gives one body
/// row; a `THead` gives a header row for each of its `TR` children and a
/// `TBody` or `TFoot` a body row for each, in order; any other child gives none.
pub proof fn lemma_table_rows_single(c: StructChild, blocks: Seq<TextBlock>)
    ensures
        child_type(c) == Some(StructType::TR) ==> table_rows(seq![c], blocks).len() == 1 && (c matches StructChild::StructElem(
            e,
        ) && table_rows(seq![c], blocks)[0] == row_of(*e, blocks, false)),
        child_type(c) == Some(StructType::THead) ==> table_rows(seq![c], blocks) == group_rows(child_kids(c), blocks, true),
        child_type(c) == Some(StructType::TBody) ==> table_rows(seq![c], blocks) == group_rows(child_kids(c), blocks, false),
        child_type(c) == Some(StructType::TFoot) ==> table_rows(seq![c], blocks) == group_rows(child_kids(c), blocks, false),
        child_type(c) != Some(StructType::TR) && child_type(c) != Some(StructType::THead) && child_type(c) != Some(
            StructType::TBody,
        ) && child_type(c) != Some(StructType::TFoot) ==> table_rows(seq![c], blocks).len() == 0,
{
    let one = seq![c];
    assert(one.drop_last() =~= Seq::<StructChild>::empty());
    assert(table_rows(one.drop_last(), blocks) =~= Seq::<RowView>::empty());
    assert(table_rows(one, blocks) =~= child_rows(c, blocks));
}

/// A row group whose children are all `TR` elements gives one row per
/// child, in order, each a header row exactly when the group's rows are.
pub proof fn lemma_group_rows_in_order(children: Seq<StructChild>, blocks: Seq<TextBlock>, is_header: bool)
    requires
        forall|i: int| 0 <= i < children.len() ==> child_type(#[trigger] children[i]) == Some(StructType::TR),
    ensures
        group_rows(children, blocks, is_header).len() == children.len(),
        forall|i: int|
            0 <= i < children.len() ==> (#[trigger] children[i] matches StructChild::StructElem(e)
                && group_rows(children, blocks, is_header)[i] == row_of(*e, blocks, is_header)),
    decreases children.len(),
{
    if children.len() > 0 {
        let p = children.drop_last();
        assert forall|i: int| 0 <= i < p.len() implies child_type(#[trigger] p[i]) == Some(StructType::TR) by {
            assert(p[i] == children[i]);
        }
        lemma_group_rows_in_order(p, blocks, is_header);
        assert(child_type(children[children.len() - 1]) == Some(StructType::TR));
        let g = group_rows(children, blocks, is_header);
        let gp = group_rows(p, blocks, is_header);
        assert forall|i: int| 0 <= i < children.len() implies (#[trigger] children[i] matches StructChild::StructElem(e)
            && g[i] == row_of(*e, blocks, is_header)) by {
            if i < p.len() {
                assert(p[i] == children[i]);
                assert(g[i] == gp[i]);
            }
        }
    }
}

/// A `TR` element whose children are all `TH` or `TD` elements gives one
/// cell per child, in order: a header cell for a `TH`, a data cell for a `TD`.
pub proof fn lemma_cells_in_order(children: Seq<StructChild>, blocks: Seq<TextBlock>)
    requires
        forall|i: int|
            0 <= i < children.len() ==> child_type(#[trigger] children[i]) == Some(StructType::TH) || child_type(
                children[i],
            ) == Some(StructType::TD),
    ensures
        cells_of(children, blocks).len() == children.len(),
        forall|i: int|
            0 <= i < children.len() ==> (#[trigger] children[i] matches StructChild::StructElem(e)
                && cells_of(children, blocks)[i] == cell_of(*e, blocks, e.struct_type == StructType::TH)),
    decreases children.len(),
{
    if children.len() > 0 {
        let p = children.drop_last();
        assert forall|i: int| 0 <= i < p.len() implies child_type(#[trigger] p[i]) == Some(StructType::TH) || child_type(
            p[i],
        ) == Some(StructType::TD) by {
            assert(p[i] == children[i]);
        }
        lemma_cells_in_order(p, blocks);
        let last = children[children.len() - 1];
        assert(child_type(last) == Some(StructType::TH) || child_type(last) == Some(StructType::TD));
        let g = cells_of(children, blocks);
        let gp = cells_of(p, blocks);
        assert forall|i: int| 0 <= i < children.len() implies (#[trigger] children[i] matches StructChild::StructElem(e)
            && g[i] == cell_of(*e, blocks, e.struct_type == StructType::TH)) by {
            if i < p.len() {
                assert(p[i] == children[i]);
                assert(g[i] == gp[i]);
            }
        }
    }
}

/// A cell whose element holds two marked-content references joins the texts
/// of the first blocks tagged with them, in order, with a space between them
/// when the first text is non-empty and does not end in a space, and trims
/// the result; a reference that no block carries adds nothing.
pub proof fn lemma_two_reference_cell(
    elem: StructElem,
    blocks: Seq<TextBlock>,
    is_header: bool,
    m1: u32,
    p1: u32,
    m2: u32,
    p2: u32,
)
    requires
        elem.children@ == seq![StructChild::MarkedContentRef { mcid: m1, page: p1 }, StructChild::MarkedContentRef { mcid: m2, page: p2 }],
    ensures
        cell_of(elem, blocks, is_header).mcids == seq![m1, m2],
        forall|i: int, j: int|
            0 <= i < blocks.len() && (#[trigger] blocks[i]).mcid == Some(m1) && (forall|k: int|
                0 <= k < i ==> (#[trigger] blocks[k]).mcid != Some(m1)) && 0 <= j < blocks.len() && (#[trigger] blocks[j]).mcid
                == Some(m2) && (forall|k: int| 0 <= k < j ==> (#[trigger] blocks[k]).mcid != Some(m2)) ==> cell_of(
                elem,
                blocks,
                is_header,
            ).text == trim_seq(
                if blocks[i].text@.len() > 0 && blocks[i].text@.last() != ' ' {
                    blocks[i].text@ + seq![' '] + blocks[j].text@
                } else {
                    blocks[i].text@ + blocks[j].text@
                },
            ),
        forall|i: int|
            0 <= i < blocks.len() && (#[trigger] blocks[i]).mcid == Some(m1) && (forall|k: int|
                0 <= k < i ==> (#[trigger] blocks[k]).mcid != Some(m1)) && (forall|k: int|
                0 <= k < blocks.len() ==> (#[trigger] blocks[k]).mcid != Some(m2)) ==> cell_of(elem, blocks, is_header).text
                == trim_seq(blocks[i].text@),
{
    let ch = elem.children@;
    assert(ch.drop_last().drop_last() =~= Seq::<StructChild>::empty());
    assert(mcids_of_children(ch.drop_last().drop_last()) =~= Seq::<u32>::empty());
    assert(ch.drop_last() =~= seq![StructChild::MarkedContentRef { mcid: m1, page: p1 }]);
    assert(mcids_of_children(ch.drop_last()) =~= seq![m1]);
    assert(mcids_of(elem) =~= seq![m1, m2]);
    lemma_block_text_for(m1, blocks);
    lemma_block_text_for(m2, blocks);
    let ms = seq![m1, m2];
    assert(ms.drop_last() =~= seq![m1]);
    assert(ms.drop_last().drop_last() =~= Seq::<u32>::empty());
    assert(joined_text(ms.drop_last().drop_last(), blocks) =~= Seq::<char>::empty());
    if let Some(t) = block_text_for(m1, blocks) {
        assert(append_piece(Seq::<char>::empty(), t) =~= t);
        assert(joined_text(seq![m1], blocks) == t);
        if let Some(u) = block_text_for(m2, blocks) {
            if t.len() > 0 && t.last() != ' ' {
                assert(t.push(' ') + u =~= t + seq![' '] + u);
            }
        }
    }
}

} // verus!
