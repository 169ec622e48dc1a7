//! Plain text output: ordered spans rendered as text, paragraph breaks kept,
//! formatting dropped, tables written as tab-separated rows.
//!
//! Positions and font sizes are in thousandths of a point; ratios are in
//! thousandths.
use crate::geometry::{abs_int, Rect};
use crate::layout::TextSpan;
use crate::order::{is_stable_order_usize, lemma_stable_order_usize, stable_order_usize, stable_sort_order_usize};
use crate::pipeline::OrderedTextSpan;
use crate::structure::spatial_table_detector::tables_view;
use crate::structure::table_extractor::{CellView, ExtractedTable, RowView, TableView};
use crate::text::{trim_seq, trim_text};
use vstd::prelude::*;

verus! {

/// Gap between lines, in thousandths of the line height, above which a new
/// paragraph starts.
pub const PARAGRAPH_GAP_RATIO: i64 = 1500;

/// Renders ordered spans as plain text, keeping paragraph structure.
pub struct PlainTextConverter {
    /// Gap between lines, in thousandths of the line height, above which a
    /// new paragraph starts.
    paragraph_gap_ratio: i64,
}

/// Whether the vertical gap between `prev` and `cur` is more than `ratio`
/// thousandths of the larger of their font sizes.
pub open spec fn paragraph_break(cur: TextSpan, prev: TextSpan, ratio: int) -> bool {
    let line_height = if cur.font_size >= prev.font_size { cur.font_size as int } else { prev.font_size as int };
    abs_int(prev.bbox.y - cur.bbox.y) * 1000 > line_height * ratio
}

/// Whether `cur` sits on the line of `prev`: their heights differ by less
/// than half of `cur`'s font size.
pub open spec fn same_line(cur: TextSpan, prev: TextSpan) -> bool {
    2 * abs_int(cur.bbox.y - prev.bbox.y) < cur.font_size
}

/// The first table, from `i` on, whose region the box of `s` overlaps.
pub open spec fn table_of_span_from(s: TextSpan, ts: Seq<TableView>, i: int) -> Option<int>
    decreases ts.len() - i,
{
    if i < 0 || i >= ts.len() {
        None
    } else if ts[i].bbox matches Some(b) && s.bbox.spec_intersects(b) {
        Some(i)
    } else {
        table_of_span_from(s, ts, i + 1)
    }
}

/// The first table whose region the box of `s` overlaps (tables without a
/// region never match).
pub open spec fn table_of_span(s: TextSpan, ts: Seq<TableView>) -> Option<int> {
    table_of_span_from(s, ts, 0)
}

/// The cells' texts, each trimmed, joined by tabs.
pub open spec fn joined_cells(cells: Seq<CellView>) -> Seq<char>
    decreases cells.len(),
{
    if cells.len() == 0 {
        seq![]
    } else if cells.len() == 1 {
        trim_seq(cells[0].text)
    } else {
        joined_cells(cells.drop_last()) + seq!['\t'] + trim_seq(cells.last().text)
    }
}

/// One line per row: its cells joined by tabs, then a newline.
pub open spec fn rows_text(rows: Seq<RowView>) -> Seq<char>
    decreases rows.len(),
{
    if rows.len() == 0 {
        seq![]
    } else {
        rows_text(rows.drop_last()) + joined_cells(rows.last().cells) + seq!['\n']
    }
}

/// A table as tab-separated lines.
pub open spec fn table_text(t: TableView) -> Seq<char> {
    rows_text(t.rows)
}

/// Whether `s` ends with `c`.
pub open spec fn ends_with_char(s: Seq<char>, c: char) -> bool {
    s.len() > 0 && s.last() == c
}

/// Whether `s` ends with a blank line (two newlines).
pub open spec fn ends_with_blank_line(s: Seq<char>) -> bool {
    s.len() >= 2 && s[s.len() - 1] == '\n' && s[s.len() - 2] == '\n'
}

/// `s` followed by what sets a table apart: nothing when `s` is empty or
/// already ends with a blank line, else newlines up to a blank line.
pub open spec fn before_block(s: Seq<char>) -> Seq<char> {
    if s.len() > 0 && !ends_with_blank_line(s) {
        if ends_with_char(s, '\n') {
            s.push('\n')
        } else {
            s.push('\n').push('\n')
        }
    } else {
        s
    }
}

/// Text rendered so far, which tables have been written, and the last span
/// written since the last table.
pub struct RenderState {
    pub text: Seq<char>,
    pub rendered: Seq<bool>,
    pub prev: Option<TextSpan>,
}

/// The state after span `s`: a span in a table region writes that table the
/// first time (set apart from the text before it) and is otherwise dropped;
/// any other span is written after a blank line when a paragraph break parts
/// it from the previous one, after a space when it starts a new line, and
/// directly when it continues the line.
pub open spec fn render_step(st: RenderState, s: TextSpan, tables: Seq<TableView>, ratio: int) -> RenderState {
    match table_of_span(s, tables) {
        Some(i) => if !st.rendered[i] {
            RenderState { text: before_block(st.text) + table_text(tables[i]), rendered: st.rendered.update(i, true), prev: None }
        } else {
            st
        },
        None => {
            let sep = match st.prev {
                Some(p) => if paragraph_break(s, p, ratio) {
                    seq!['\n', '\n']
                } else if !same_line(s, p) {
                    seq![' ']
                } else {
                    seq![]
                },
                None => seq![],
            };
            RenderState { text: st.text + sep + s.text@, rendered: st.rendered, prev: Some(s) }
        },
    }
}

/// The state after the first `n` spans.
pub open spec fn render_fold(spans: Seq<OrderedTextSpan>, tables: Seq<TableView>, ratio: int, n: nat) -> RenderState
    decreases n,
{
    if n == 0 {
        RenderState { text: seq![], rendered: Seq::new(tables.len(), |_i: int| false), prev: None }
    } else {
        render_step(render_fold(spans, tables, ratio, (n - 1) as nat), spans[n - 1].span, tables, ratio)
    }
}

/// `text` followed by each of the first `n` tables that was not written and
/// has rows, each set apart.
pub open spec fn remaining_tables(text: Seq<char>, rendered: Seq<bool>, tables: Seq<TableView>, n: nat) -> Seq<char>
    decreases n,
{
    if n == 0 {
        text
    } else {
        let t = remaining_tables(text, rendered, tables, (n - 1) as nat);
        if !rendered[n - 1] && tables[n - 1].rows.len() > 0 {
            before_block(t) + table_text(tables[n - 1])
        } else {
            t
        }
    }
}

/// The spans sorted by reading order (stable).
pub open spec fn by_reading_order(spans: Seq<OrderedTextSpan>) -> Seq<OrderedTextSpan> {
    let keys = spans.map_values(|s: OrderedTextSpan| s.reading_order);
    stable_order_usize(keys, keys.len()).map_values(|i: usize| spans[i as int])
}

/// Plain text of the spans and tables: empty when both are; otherwise the
/// spans in reading order as `render_step` writes them, then the tables
/// with rows that no span wrote, ending with a newline.
pub open spec fn plain_text(spans: Seq<OrderedTextSpan>, tables: Seq<TableView>, ratio: int) -> Seq<char> {
    if spans.len() == 0 && tables.len() == 0 {
        seq![]
    } else {
        let sorted = by_reading_order(spans);
        let st = render_fold(sorted, tables, ratio, sorted.len());
        let t = remaining_tables(st.text, st.rendered, tables, tables.len());
        if ends_with_char(t, '\n') {
            t
        } else {
            t.push('\n')
        }
    }
}

/// Whether `s` ends with `c`.
fn string_ends_with(s: &String, c: char) -> (b: bool)
    ensures
        b == ends_with_char(s@, c),
{
    let t = s.as_str();
    let n = t.unicode_len();
    n > 0 && t.get_char(n - 1) == c
}

/// Append to `s` what sets a table apart from the text before it.
fn set_apart(s: &mut String)
    ensures
        final(s)@ == before_block(old(s)@),
{
    let t = s.as_str();
    let n = t.unicode_len();
    if n == 0 {
        return;
    }
    let last_nl = t.get_char(n - 1) == '\n';
    let blank = n >= 2 && last_nl && t.get_char(n - 2) == '\n';
    if !blank {
        if last_nl {
            s.append("\n");
            proof {
                reveal_strlit("\n");
                assert(s@ =~= before_block(old(s)@));
            }
        } else {
            s.append("\n\n");
            proof {
                reveal_strlit("\n\n");
                assert(s@ =~= before_block(old(s)@));
            }
        }
    }
}

proof fn lemma_joined_step(cells: Seq<CellView>, j: int)
    requires
        0 <= j < cells.len(),
    ensures
        joined_cells(cells.take(j + 1)) == joined_cells(cells.take(j)) + (if j > 0 { seq!['\t'] } else { seq![] })
            + trim_seq(cells[j].text),
{
    assert(cells.take(j + 1).drop_last() =~= cells.take(j));
    if j == 0 {
        assert(joined_cells(cells.take(0)) =~= Seq::<char>::empty());
        assert(cells.take(1)[0] == cells[0]);
        assert(seq![] + seq![] + trim_seq(cells[0].text) =~= trim_seq(cells[0].text));
    }
}

impl PlainTextConverter {
    /// The paragraph gap ratio, in thousandths of the line height.
    pub closed spec fn gap_ratio(self) -> int {
        self.paragraph_gap_ratio as int
    }

    /// A converter that starts a paragraph at gaps above 1.5 line heights.
    pub fn new() -> (c: PlainTextConverter)
        ensures
            c.gap_ratio() == PARAGRAPH_GAP_RATIO,
    {
        PlainTextConverter { paragraph_gap_ratio: PARAGRAPH_GAP_RATIO }
    }

    /// The converter's name.
    pub fn name(&self) -> (n: &'static str)
        ensures
            n@ == "PlainTextConverter"@,
    {
        "PlainTextConverter"
    }

    /// The media type of the output.
    pub fn mime_type(&self) -> (m: &'static str)
        ensures
            m@ == "text/plain"@,
    {
        "text/plain"
    }

    /// Whether a paragraph break parts `current` from `previous`.
    fn is_paragraph_break(&self, current: &OrderedTextSpan, previous: &OrderedTextSpan) -> (b: bool)
        ensures
            b == paragraph_break(current.span, previous.span, self.gap_ratio()),
    {
        let cur = &current.span;
        let prev = &previous.span;
        let line_height: i128 = if cur.font_size >= prev.font_size {
            cur.font_size as i128
        } else {
            prev.font_size as i128
        };
        let dy: i128 = prev.bbox.y as i128 - cur.bbox.y as i128;
        let gap: i128 = if dy < 0 { -dy } else { dy };
        let ratio: i128 = self.paragraph_gap_ratio as i128;
        proof {
            assert(-0x8000_0000_0000_0000 <= line_height <= 0x7fff_ffff_ffff_ffff);
            assert(-0x8000_0000_0000_0000 <= ratio <= 0x7fff_ffff_ffff_ffff);
            assert(-0x4000_0000_0000_0000_0000_0000_0000_0000 <= line_height * ratio <= 0x4000_0000_0000_0000_0000_0000_0000_0000) by (nonlinear_arith)
                requires
                    -0x8000_0000_0000_0000 <= line_height <= 0x7fff_ffff_ffff_ffff,
                    -0x8000_0000_0000_0000 <= ratio <= 0x7fff_ffff_ffff_ffff,
            ;
        }
        gap * 1000 > line_height * ratio
    }

    /// The first table whose region the span's box overlaps.
    pub fn span_in_table(&self, span: &OrderedTextSpan, tables: &[ExtractedTable]) -> (r: Option<usize>)
        ensures
            match r {
                Some(i) => table_of_span(span.span, tables_view(tables@)) == Some(i as int) && i < tables@.len(),
                None => table_of_span(span.span, tables_view(tables@)) is None,
            },
    {
        let ghost tv = tables_view(tables@);
        let sb = span.span.bbox;
        let sx = sb.x as i128;
        let sy = sb.y as i128;
        let sr = sb.x as i128 + sb.width as i128;
        let st = sb.y as i128 + sb.height as i128;
        let n = tables.len();
        let mut i: usize = 0;
        while i < n
            invariant
                n == tables@.len(),
                tv == tables_view(tables@),
                sb == span.span.bbox,
                sx == sb.x,
                sy == sb.y,
                sr == sb.x + sb.width,
                st == sb.y + sb.height,
                i <= n,
                table_of_span(span.span, tv) == table_of_span_from(span.span, tv, i as int),
            decreases n - i,
        {
            proof {
                assert(tv[i as int] == tables@[i as int]@);
            }
            match tables[i].bbox {
                Some(b) => {
                    let bx = b.x as i128;
                    let by = b.y as i128;
                    let br = b.x as i128 + b.width as i128;
                    let bt = b.y as i128 + b.height as i128;
                    if (sx < br) && (sr > bx) && (sy < bt) && (st > by) {
                        return Some(i);
                    }
                },
                None => {},
            }
            i = i + 1;
        }
        None
    }

    /// A table as tab-separated lines, each cell's text trimmed.
    pub fn render_table_text(table: &ExtractedTable) -> (s: String)
        ensures
            s@ == table_text(table@),
    {
        let ghost rows = table@.rows;
        let mut out = String::new();
        let nr = table.rows.len();
        let mut r: usize = 0;
        while r < nr
            invariant
                nr == rows.len(),
                rows == table@.rows,
                r <= nr,
                out@ == rows_text(rows.take(r as int)),
            decreases nr - r,
        {
            let row = &table.rows[r];
            let ghost cells = rows[r as int].cells;
            proof {
                assert(rows[r as int] == row@);
            }
            let nc = row.cells.len();
            let mut j: usize = 0;
            while j < nc
                invariant
                    nc == cells.len(),
                    cells == row@.cells,
                    r < nr,
                    nr == rows.len(),
                    j <= nc,
                    out@ == rows_text(rows.take(r as int)) + joined_cells(cells.take(j as int)),
                decreases nc - j,
            {
                proof {
                    lemma_joined_step(cells, j as int);
                    assert(cells[j as int] == row.cells@[j as int]@);
                }
                let ghost before = out@;
                if j > 0 {
                    out.append("\t");
                    proof {
                        reveal_strlit("\t");
                    }
                }
                let t = trim_text(row.cells[j].text.as_str());
                out.append(t.as_str());
                proof {
                    assert(out@ =~= rows_text(rows.take(r as int)) + joined_cells(cells.take(j + 1)));
                }
                j = j + 1;
            }
            out.append("\n");
            proof {
                reveal_strlit("\n");
                assert(cells.take(nc as int) =~= cells);
                assert(rows.take(r + 1).drop_last() =~= rows.take(r as int));
                assert(rows.take(r + 1).last() == rows[r as int]);
                assert(out@ =~= rows_text(rows.take(r + 1)));
            }
            r = r + 1;
        }
        proof {
            assert(rows.take(nr as int) =~= rows);
        }
        out
    }
}

/// The span a previous-span index refers to.
pub open spec fn prev_of(spans: Seq<OrderedTextSpan>, prev: Option<usize>) -> Option<TextSpan> {
    match prev {
        Some(p) => Some(spans[p as int].span),
        None => None,
    }
}

impl PlainTextConverter {
    /// Plain text of the spans alone. Words split by a hyphen at a line end
    /// are not rejoined: the text is what it is with hyphen repair switched off.
    pub fn convert(&self, spans: &[OrderedTextSpan]) -> (s: String)
        ensures
            s@ == plain_text(spans@, seq![], self.gap_ratio()),
    {
        let tables: Vec<ExtractedTable> = Vec::new();
        proof {
            assert(tables_view(tables@) =~= Seq::<TableView>::empty());
        }
        self.render_spans(spans, tables.as_slice())
    }

    /// Plain text of the spans, with the tables written where their spans would be.
    /// Words split by a hyphen at a line end are not rejoined: the text is what
    /// it is with hyphen repair switched off.
    pub fn convert_with_tables(&self, spans: &[OrderedTextSpan], tables: &[ExtractedTable]) -> (s: String)
        ensures
            s@ == plain_text(spans@, tables_view(tables@), self.gap_ratio()),
    {
        self.render_spans(spans, tables)
    }

    /// `plain_text(spans, tables)`.
    fn render_spans(&self, spans: &[OrderedTextSpan], tables: &[ExtractedTable]) -> (s: String)
        ensures
            s@ == plain_text(spans@, tables_view(tables@), self.gap_ratio()),
    {
        if spans.len() == 0 && tables.len() == 0 {
            return String::new();
        }
        let ghost tv = tables_view(tables@);
        let ghost ratio = self.gap_ratio();
        let n = spans.len();
        let mut keys: Vec<usize> = Vec::new();
        let mut k: usize = 0;
        while k < n
            invariant
                n == spans@.len(),
                k <= n,
                keys@ == spans@.map_values(|s: OrderedTextSpan| s.reading_order).take(k as int),
            decreases n - k,
        {
            keys.push(spans[k].reading_order);
            proof {
                assert(keys@ =~= spans@.map_values(|s: OrderedTextSpan| s.reading_order).take(k + 1));
            }
            k = k + 1;
        }
        proof {
            assert(keys@ =~= spans@.map_values(|s: OrderedTextSpan| s.reading_order));
        }
        let order = stable_sort_order_usize(&keys);
        let ghost sorted = by_reading_order(spans@);
        proof {
            assert(sorted.len() == n);
            assert forall|q: int| 0 <= q < n implies #[trigger] sorted[q] == spans@[order@[q] as int] by {}
        }
        let nt = tables.len();
        let mut rendered: Vec<bool> = Vec::new();
        let mut t: usize = 0;
        while t < nt
            invariant
                t <= nt,
                rendered@ == Seq::new(t as nat, |_i: int| false),
            decreases nt - t,
        {
            rendered.push(false);
            proof {
                assert(rendered@ =~= Seq::new((t + 1) as nat, |_i: int| false));
            }
            t = t + 1;
        }
        let mut result = String::new();
        let mut prev: Option<usize> = None;
        let mut q: usize = 0;
        proof {
            assert(tv.len() == nt);
            assert(result@ =~= Seq::<char>::empty());
        }
        while q < n
            invariant
                n == spans@.len(),
                n == order@.len(),
                nt == tables@.len(),
                tv == tables_view(tables@),
                ratio == self.gap_ratio(),
                forall|i: int| 0 <= i < n ==> (#[trigger] order@[i]) < n,
                sorted.len() == n,
                forall|i: int| 0 <= i < n ==> #[trigger] sorted[i] == spans@[order@[i] as int],
                q <= n,
                rendered@.len() == nt,
                prev matches Some(p) ==> p < n,
                (RenderState { text: result@, rendered: rendered@, prev: prev_of(spans@, prev) }) == render_fold(
                    sorted,
                    tv,
                    ratio,
                    q as nat,
                ),
            decreases n - q,
        {
            let i = order[q];
            let sp = &spans[i];
            proof {
                assert(sorted[q as int] == spans@[i as int]);
                assert(tv.len() == nt);
            }
            let ghost st = render_fold(sorted, tv, ratio, q as nat);
            match self.span_in_table(sp, tables) {
                Some(ti) => {
                    if !rendered[ti] {
                        set_apart(&mut result);
                        let block = PlainTextConverter::render_table_text(&tables[ti]);
                        result.append(block.as_str());
                        rendered.set(ti, true);
                        prev = None;
                        proof {
                            assert(tv[ti as int] == tables@[ti as int]@);
                        }
                    }
                },
                None => {
                    match prev {
                        Some(p) => {
                            let ps = &spans[p];
                            if self.is_paragraph_break(sp, ps) {
                                result.append("\n\n");
                                proof {
                                    reveal_strlit("\n\n");
                                }
                            } else {
                                let dy: i128 = sp.span.bbox.y as i128 - ps.span.bbox.y as i128;
                                let ady: i128 = if dy < 0 { -dy } else { dy };
                                if !(2 * ady < sp.span.font_size as i128) {
                                    result.append(" ");
                                    proof {
                                        reveal_strlit(" ");
                                    }
                                }
                            }
                        },
                        None => {},
                    }
                    result.append(sp.span.text.as_str());
                    prev = Some(i);
                },
            }
            proof {
                assert(result@ =~= render_fold(sorted, tv, ratio, (q + 1) as nat).text);
                assert(rendered@ =~= render_fold(sorted, tv, ratio, (q + 1) as nat).rendered);
            }
            q = q + 1;
        }
        let ghost st = render_fold(sorted, tv, ratio, n as nat);
        let mut ti: usize = 0;
        while ti < nt
            invariant
                nt == tables@.len(),
                tv == tables_view(tables@),
                rendered@ == st.rendered,
                rendered@.len() == nt,
                ti <= nt,
                result@ == remaining_tables(st.text, st.rendered, tv, ti as nat),
            decreases nt - ti,
        {
            proof {
                assert(tv[ti as int] == tables@[ti as int]@);
            }
            if !rendered[ti] && !tables[ti].is_empty() {
                set_apart(&mut result);
                let block = PlainTextConverter::render_table_text(&tables[ti]);
                result.append(block.as_str());
            }
            ti = ti + 1;
        }
        if !string_ends_with(&result, '\n') {
            result.append("\n");
            proof {
                reveal_strlit("\n");
            }
        }
        result
    }
}

impl Default for PlainTextConverter {
    /// `PlainTextConverter::new()`.
    fn default() -> (c: PlainTextConverter)
        ensures
            c.gap_ratio() == PARAGRAPH_GAP_RATIO,
    {
        PlainTextConverter::new()
    }
}

/// The plain text is empty exactly when there are neither spans nor tables,
/// and otherwise ends with a newline.
pub proof fn lemma_plain_text_ends_with_newline(spans: Seq<OrderedTextSpan>, tables: Seq<TableView>, ratio: int)
    ensures
        (plain_text(spans, tables, ratio).len() == 0) == (spans.len() == 0 && tables.len() == 0),
        plain_text(spans, tables, ratio).len() > 0 ==> ends_with_char(plain_text(spans, tables, ratio), '\n'),
{
}

/// Spans are rendered in ascending reading order, each span once, spans of
/// equal reading order in the order they were given.
pub proof fn lemma_reading_order(spans: Seq<OrderedTextSpan>)
    requires
        spans.len() <= usize::MAX,
    ensures
        is_stable_order_usize(
            stable_order_usize(spans.map_values(|s: OrderedTextSpan| s.reading_order), spans.len()),
            spans.map_values(|s: OrderedTextSpan| s.reading_order),
            spans.len(),
        ),
        by_reading_order(spans).len() == spans.len(),
        forall|i: int, j: int|
            0 <= i < j < spans.len() ==> (#[trigger] by_reading_order(spans)[i]).reading_order
                <= (#[trigger] by_reading_order(spans)[j]).reading_order,
{
    let keys = spans.map_values(|s: OrderedTextSpan| s.reading_order);
    let o = stable_order_usize(keys, keys.len());
    lemma_stable_order_usize(keys, keys.len());
    let sorted = by_reading_order(spans);
    assert forall|i: int, j: int| 0 <= i < j < spans.len() implies (#[trigger] sorted[i]).reading_order
        <= (#[trigger] sorted[j]).reading_order by {
        assert(keys[o[i] as int] <= keys[o[j] as int]);
        assert(o[i] < spans.len() && o[j] < spans.len());
    }
}

/// Whether span `s`, met in state `st`, writes table `i`: it lies in that
/// table's region and the table has not been written yet.
pub open spec fn writes_table(st: RenderState, s: TextSpan, tables: Seq<TableView>, i: int) -> bool {
    table_of_span(s, tables) == Some(i) && !st.rendered[i]
}

/// How many of the first `n` spans write table `i`.
pub open spec fn table_writes_in(spans: Seq<OrderedTextSpan>, tables: Seq<TableView>, ratio: int, n: nat, i: int) -> nat
    decreases n,
{
    if n == 0 {
        0
    } else {
        table_writes_in(spans, tables, ratio, (n - 1) as nat, i) + if writes_table(
            render_fold(spans, tables, ratio, (n - 1) as nat),
            spans[n - 1].span,
            tables,
            i,
        ) {
            1nat
        } else {
            0nat
        }
    }
}

/// How many times `plain_text` writes table `i`: once for each span that
/// writes it, and once more at the end when no span did and it has rows.
pub open spec fn table_writes(spans: Seq<OrderedTextSpan>, tables: Seq<TableView>, ratio: int, i: int) -> nat {
    let sorted = by_reading_order(spans);
    let st = render_fold(sorted, tables, ratio, sorted.len());
    table_writes_in(sorted, tables, ratio, sorted.len(), i) + if !st.rendered[i] && tables[i].rows.len() > 0 {
        1nat
    } else {
        0nat
    }
}

proof fn lemma_table_of_span_from_range(s: TextSpan, ts: Seq<TableView>, i: int)
    ensures
        table_of_span_from(s, ts, i) matches Some(k) ==> 0 <= k < ts.len(),
    decreases ts.len() - i,
{
    if 0 <= i < ts.len() {
        lemma_table_of_span_from_range(s, ts, i + 1);
    }
}

proof fn lemma_fold_rendered(spans: Seq<OrderedTextSpan>, tables: Seq<TableView>, ratio: int, n: nat, i: int)
    requires
        n <= spans.len(),
        0 <= i < tables.len(),
    ensures
        render_fold(spans, tables, ratio, n).rendered.len() == tables.len(),
        render_fold(spans, tables, ratio, n).rendered[i] == exists|k: int|
            0 <= k < n && table_of_span(#[trigger] spans[k].span, tables) == Some(i),
        table_writes_in(spans, tables, ratio, n, i) == if render_fold(spans, tables, ratio, n).rendered[i] {
            1nat
        } else {
            0nat
        },
    decreases n,
{
    if n > 0 {
        let m = (n - 1) as nat;
        lemma_fold_rendered(spans, tables, ratio, m, i);
        let s = spans[m as int].span;
        lemma_table_of_span_from_range(s, tables, 0);
        let st = render_fold(spans, tables, ratio, m);
        let st2 = render_fold(spans, tables, ratio, n);
        if table_of_span(s, tables) == Some(i) {
            assert(exists|k: int| 0 <= k < n && table_of_span(#[trigger] spans[k].span, tables) == Some(i)) by {
                assert(table_of_span(spans[m as int].span, tables) == Some(i));
            }
        } else {
            assert(st2.rendered[i] == st.rendered[i]);
            if exists|k: int| 0 <= k < n && table_of_span(#[trigger] spans[k].span, tables) == Some(i) {
                let k = choose|k: int| 0 <= k < n && table_of_span(#[trigger] spans[k].span, tables) == Some(i);
                assert(k < m);
            }
        }
    }
}

/// Each table is written at most once: by the first span, in reading order,
/// that lies in its region, or else at the end when it has rows; it is
/// written exactly when some span lies in its region or it has rows.
pub proof fn lemma_tables_written_once(spans: Seq<OrderedTextSpan>, tables: Seq<TableView>, ratio: int, i: int)
    requires
        spans.len() <= usize::MAX,
        0 <= i < tables.len(),
    ensures
        table_writes(spans, tables, ratio, i) <= 1,
        (table_writes(spans, tables, ratio, i) == 1) == (tables[i].rows.len() > 0 || exists|k: int|
            0 <= k < spans.len() && table_of_span(#[trigger] spans[k].span, tables) == Some(i)),
{
    let keys = spans.map_values(|s: OrderedTextSpan| s.reading_order);
    let o = stable_order_usize(keys, keys.len());
    lemma_reading_order(spans);
    let sorted = by_reading_order(spans);
    lemma_fold_rendered(sorted, tables, ratio, sorted.len(), i);
    let in_sorted = exists|k: int| 0 <= k < sorted.len() && table_of_span(#[trigger] sorted[k].span, tables) == Some(i);
    let in_spans = exists|k: int| 0 <= k < spans.len() && table_of_span(#[trigger] spans[k].span, tables) == Some(i);
    if in_sorted {
        let k = choose|k: int| 0 <= k < sorted.len() && table_of_span(#[trigger] sorted[k].span, tables) == Some(i);
        assert(sorted[k] == spans[o[k] as int]);
        assert(table_of_span(spans[o[k] as int].span, tables) == Some(i));
    }
    if in_spans {
        let x = choose|x: int| 0 <= x < spans.len() && table_of_span(#[trigger] spans[x].span, tables) == Some(i);
        crate::order::lemma_order_onto(o, spans.len(), x);
        let k = choose|k: int| 0 <= k < spans.len() && o[k] == x;
        assert(sorted[k] == spans[x]);
        assert(table_of_span(sorted[k].span, tables) == Some(i));
    }
}

/// A span that lies in a table's region adds no text of its own: it either
/// leaves the text as it is or writes that table, set apart.
pub proof fn lemma_table_span_adds_no_text(st: RenderState, s: TextSpan, tables: Seq<TableView>, ratio: int)
    requires
        table_of_span(s, tables) is Some,
    ensures
        render_step(st, s, tables, ratio).text == st.text || render_step(st, s, tables, ratio).text == before_block(
            st.text,
        ) + table_text(tables[table_of_span(s, tables)->0]),
{
}

} // verus!
