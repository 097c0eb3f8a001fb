//! Tables: collecting rows of cell texts from a `table` element and laying them out as
//! bordered lines with column widths capped at 24.
use vstd::prelude::*;
use crate::dom::{element_name, eq_str, text_content, text_content_exec, HtmlNode};
use crate::layout::{
    dim_style, empty_line, lemma_line_views_push, lemma_span_views_push, span, ContextView,
    LineView, RenderContext, RichLine, RichSpan,
};
use crate::style::{dim_color, Style};
use crate::text::{join, join_with, repeat, repeat_char, split_whitespace, views, words};
use crate::width::{str_width, text_width, truncated};

verus! {

/// The text of a table cell: its text content with whitespace runs collapsed to one space.
pub open spec fn cell_text(n: HtmlNode) -> Seq<char> {
    join(words(text_content(n)), seq![' '])
}

/// The node is a `th` or `td` element.
pub open spec fn is_cell(n: HtmlNode) -> bool {
    n matches HtmlNode::Element { name, .. } && (name@ == "th"@ || name@ == "td"@)
}

/// The cells found at and below `n`: a cell element gives its text, any other node the
/// cells of its children.
pub open spec fn cells_of(n: HtmlNode) -> Seq<Seq<char>>
    decreases n,
{
    if is_cell(n) {
        seq![cell_text(n)]
    } else {
        match n {
            HtmlNode::Text(_) => seq![],
            HtmlNode::Element { children, .. } => cells_all(children@),
            HtmlNode::Other(children) => cells_all(children@),
        }
    }
}

/// The cells found in a sequence of nodes, in document order.
pub open spec fn cells_all(ns: Seq<HtmlNode>) -> Seq<Seq<char>>
    decreases ns,
{
    if ns.len() == 0 {
        seq![]
    } else {
        cells_all(ns.drop_last()) + cells_of(ns.last())
    }
}

/// The rows found at and below `n`: a `tr` element gives the cells below it (when there
/// are any) and is not searched further; any other node gives the rows of its children.
pub open spec fn rows_of(n: HtmlNode) -> Seq<Seq<Seq<char>>>
    decreases n,
{
    match n {
        HtmlNode::Text(_) => seq![],
        HtmlNode::Element { name, children, .. } => if name@ == "tr"@ {
            let cells = cells_all(children@);
            if cells.len() > 0 {
                seq![cells]
            } else {
                seq![]
            }
        } else {
            rows_all(children@)
        },
        HtmlNode::Other(children) => rows_all(children@),
    }
}

/// The rows found in a sequence of nodes, in document order.
pub open spec fn rows_all(ns: Seq<HtmlNode>) -> Seq<Seq<Seq<char>>>
    decreases ns,
{
    if ns.len() == 0 {
        seq![]
    } else {
        rows_all(ns.drop_last()) + rows_of(ns.last())
    }
}

/// The model of a vector of rows.
pub open spec fn row_views(v: Seq<Vec<Vec<char>>>) -> Seq<Seq<Seq<char>>> {
    v.map_values(|r: Vec<Vec<char>>| views(r@))
}

/// The number of columns: the length of the longest row.
pub open spec fn max_cells(rows: Seq<Seq<Seq<char>>>) -> nat
    decreases rows.len(),
{
    if rows.len() == 0 {
        0
    } else {
        let a = max_cells(rows.drop_last());
        let b = rows.last().len();
        if a >= b {
            a
        } else {
            b
        }
    }
}

/// The display width of a cell, capped at 24 columns.
pub open spec fn capped_width(cell: Seq<char>) -> usize {
    let w = text_width(cell);
    if w < 24 {
        w
    } else {
        24
    }
}

/// The column widths after the first `k` rows: each column is as wide as its widest
/// capped cell so far, and at least 3.
pub open spec fn widths_after(rows: Seq<Seq<Seq<char>>>, k: nat, m: nat) -> Seq<usize>
    decreases k,
{
    if k == 0 {
        Seq::new(m, |_j: int| 3usize)
    } else {
        let w = widths_after(rows, (k - 1) as nat, m);
        let r = rows[k - 1];
        Seq::new(
            m,
            |j: int|
                if j < r.len() && capped_width(r[j]) > w[j] {
                    capped_width(r[j])
                } else {
                    w[j]
                },
        )
    }
}

/// The `j`-th cell of a row, or the empty text past its end.
pub open spec fn table_cell(row: Seq<Seq<char>>, j: int) -> Seq<char> {
    if j < row.len() {
        row[j]
    } else {
        seq![]
    }
}

/// The spans of column `j`: the cell truncated to the column width, padding to the width,
/// and the separator (closing after the last column).
pub open spec fn cell_spans(
    row: Seq<Seq<char>>,
    widths: Seq<usize>,
    m: nat,
    base: Style,
    j: int,
) -> Seq<crate::layout::SpanView> {
    let cell = table_cell(row, j);
    let w = widths[j];
    let cw = text_width(cell);
    let shown = if cw < w {
        cw
    } else {
        w
    };
    seq![
        span(truncated(cell, w as nat), base),
        span(repeat(' ', (w - shown) as nat), base),
        span(if j + 1 == m { " \u{2502}"@ } else { " \u{2502} "@ }, dim_style()),
    ]
}

/// The spans of the first `k` columns of a row.
pub open spec fn row_spans(
    row: Seq<Seq<char>>,
    widths: Seq<usize>,
    m: nat,
    base: Style,
    k: nat,
) -> Seq<crate::layout::SpanView>
    decreases k,
{
    if k == 0 {
        seq![]
    } else {
        row_spans(row, widths, m, base, (k - 1) as nat) + cell_spans(
            row,
            widths,
            m,
            base,
            k - 1,
        )
    }
}

/// The line of one table row: an opening separator, then each column.
pub open spec fn table_line(row: Seq<Seq<char>>, widths: Seq<usize>, m: nat, base: Style) -> LineView {
    LineView {
        segments: seq![span("\u{2502} "@, dim_style())] + row_spans(row, widths, m, base, m),
        ..empty_line()
    }
}

/// Appends the rows of a table as finished lines; nothing when it has no rows.
pub open spec fn push_table(c: ContextView, rows: Seq<Seq<Seq<char>>>, base: Style) -> ContextView {
    if rows.len() == 0 || max_cells(rows) == 0 {
        c
    } else {
        let m = max_cells(rows);
        let widths = widths_after(rows, rows.len(), m);
        ContextView {
            lines: c.lines + rows.map_values(|r: Seq<Seq<char>>| table_line(r, widths, m, base)),
            ..c
        }
    }
}

/// Whether the node is a `th` or `td` element.
fn is_cell_exec(n: &HtmlNode) -> (r: bool)
    ensures
        r == is_cell(*n),
{
    match element_name(n) {
        Some(name) => eq_str(name.as_slice(), "th") || eq_str(name.as_slice(), "td"),
        None => false,
    }
}

/// The text of a cell element.
fn cell_text_exec(n: &HtmlNode) -> (r: Vec<char>)
    ensures
        r@ == cell_text(*n),
{
    let text = text_content_exec(n);
    let ws = split_whitespace(text.as_slice());
    let mut sep: Vec<char> = Vec::new();
    sep.push(' ');
    assert(sep@ =~= seq![' ']);
    join_with(&ws, sep.as_slice())
}

/// Appends the cells found at and below `node`.
fn collect_cells_of(node: &HtmlNode, cells: &mut Vec<Vec<char>>)
    ensures
        views(final(cells)@) == views(old(cells)@) + cells_of(*node),
    decreases node,
{
    if is_cell_exec(node) {
        let t = cell_text_exec(node);
        let ghost before = cells@;
        cells.push(t);
        assert(views(cells@) =~= views(before) + cells_of(*node));
        return;
    }
    match node {
        HtmlNode::Text(_) => {
            assert(views(cells@) =~= views(old(cells)@) + cells_of(*node));
        },
        HtmlNode::Element { children, .. } => {
            collect_cells_all(children, cells);
        },
        HtmlNode::Other(children) => {
            collect_cells_all(children, cells);
        },
    }
}

/// Appends the cells found in a sequence of nodes.
fn collect_cells_all(nodes: &Vec<HtmlNode>, cells: &mut Vec<Vec<char>>)
    ensures
        views(final(cells)@) == views(old(cells)@) + cells_all(nodes@),
    decreases nodes,
{
    let mut i: usize = 0;
    assert(nodes@.take(0) =~= Seq::<HtmlNode>::empty());
    assert(views(cells@) =~= views(old(cells)@) + cells_all(nodes@.take(0)));
    while i < nodes.len()
        invariant
            i <= nodes@.len(),
            views(cells@) == views(old(cells)@) + cells_all(nodes@.take(i as int)),
        decreases nodes.len() - i,
    {
        proof {
            assert(decreases_to!(nodes => nodes@[i as int]));
        }
        collect_cells_of(&nodes[i], cells);
        i = i + 1;
        assert(nodes@.take(i as int).drop_last() =~= nodes@.take(i - 1));
        assert(views(cells@) =~= views(old(cells)@) + cells_all(nodes@.take(i as int)));
    }
    assert(nodes@.take(nodes@.len() as int) =~= nodes@);
}

/// Appends the rows found at and below `node`.
fn collect_table_rows(node: &HtmlNode, rows: &mut Vec<Vec<Vec<char>>>)
    ensures
        row_views(final(rows)@) == row_views(old(rows)@) + rows_of(*node),
    decreases node,
{
    match node {
        HtmlNode::Text(_) => {
            assert(row_views(rows@) =~= row_views(old(rows)@) + rows_of(*node));
        },
        HtmlNode::Element { name, children, .. } => {
            if eq_str(name.as_slice(), "tr") {
                let mut cells: Vec<Vec<char>> = Vec::new();
                assert(views(cells@) =~= Seq::<Seq<char>>::empty());
                collect_cells_all(children, &mut cells);
                assert(views(cells@) =~= cells_all(children@));
                if cells.len() > 0 {
                    let ghost before = rows@;
                    rows.push(cells);
                    assert(row_views(rows@) =~= row_views(before) + rows_of(*node));
                } else {
                    assert(row_views(rows@) =~= row_views(old(rows)@) + rows_of(*node));
                }
            } else {
                collect_rows_all(children, rows);
            }
        },
        HtmlNode::Other(children) => {
            collect_rows_all(children, rows);
        },
    }
}

/// Appends the rows found in a sequence of nodes.
fn collect_rows_all(nodes: &Vec<HtmlNode>, rows: &mut Vec<Vec<Vec<char>>>)
    ensures
        row_views(final(rows)@) == row_views(old(rows)@) + rows_all(nodes@),
    decreases nodes,
{
    let mut i: usize = 0;
    assert(nodes@.take(0) =~= Seq::<HtmlNode>::empty());
    assert(row_views(rows@) =~= row_views(old(rows)@) + rows_all(nodes@.take(0)));
    while i < nodes.len()
        invariant
            i <= nodes@.len(),
            row_views(rows@) == row_views(old(rows)@) + rows_all(nodes@.take(i as int)),
        decreases nodes.len() - i,
    {
        proof {
            assert(decreases_to!(nodes => nodes@[i as int]));
        }
        collect_table_rows(&nodes[i], rows);
        i = i + 1;
        assert(nodes@.take(i as int).drop_last() =~= nodes@.take(i - 1));
        assert(row_views(rows@) =~= row_views(old(rows)@) + rows_all(nodes@.take(i as int)));
    }
    assert(nodes@.take(nodes@.len() as int) =~= nodes@);
}

/// The rows of a table element.
pub fn table_rows(table: &HtmlNode) -> (r: Vec<Vec<Vec<char>>>)
    ensures
        row_views(r@) == rows_of(*table),
{
    let mut rows: Vec<Vec<Vec<char>>> = Vec::new();
    assert(row_views(rows@) =~= Seq::<Seq<Seq<char>>>::empty());
    collect_table_rows(table, &mut rows);
    assert(row_views(rows@) =~= rows_of(*table));
    rows
}

/// The number of columns of a set of rows.
fn max_cells_exec(rows: &Vec<Vec<Vec<char>>>) -> (r: usize)
    ensures
        r == max_cells(row_views(rows@)),
{
    let ghost rv = row_views(rows@);
    let mut m: usize = 0;
    let mut i: usize = 0;
    while i < rows.len()
        invariant
            i <= rows@.len(),
            rv == row_views(rows@),
            m == max_cells(rv.take(i as int)),
        decreases rows.len() - i,
    {
        assert(rv.take(i + 1).drop_last() =~= rv.take(i as int));
        assert(rv.take(i + 1).last() == views(rows@[i as int]@));
        if rows[i].len() > m {
            m = rows[i].len();
        }
        i = i + 1;
    }
    assert(rv.take(rows@.len() as int) =~= rv);
    m
}

/// The capped display width of a cell.
fn capped_width_exec(cell: &Vec<char>) -> (r: usize)
    ensures
        r == capped_width(cell@),
        r <= 24,
{
    let w = str_width(cell.as_slice());
    if w < 24 {
        w
    } else {
        24
    }
}

/// The column widths of a set of rows with `m` columns.
fn column_widths(rows: &Vec<Vec<Vec<char>>>, m: usize) -> (r: Vec<usize>)
    requires
        m == max_cells(row_views(rows@)),
    ensures
        r@ == widths_after(row_views(rows@), rows@.len() as nat, m as nat),
{
    let ghost rv = row_views(rows@);
    let mut widths: Vec<usize> = Vec::new();
    let mut j: usize = 0;
    while j < m
        invariant
            j <= m,
            widths@ == Seq::new(j as nat, |_j: int| 3usize),
        decreases m - j,
    {
        widths.push(3);
        j = j + 1;
        assert(widths@ =~= Seq::new(j as nat, |_j: int| 3usize));
    }
    assert(widths@ =~= widths_after(rv, 0, m as nat));
    let mut k: usize = 0;
    while k < rows.len()
        invariant
            k <= rows@.len(),
            rv == row_views(rows@),
            m == max_cells(rv),
            widths@ == widths_after(rv, k as nat, m as nat),
        decreases rows.len() - k,
    {
        proof {
            lemma_row_len_le_max(rv, k as int);
        }
        let row = &rows[k];
        let ghost prev = widths@;
        let ghost r = rv[k as int];
        assert(r == views(row@));
        let mut j: usize = 0;
        while j < row.len()
            invariant
                j <= row@.len() <= m,
                r == views(row@),
                prev.len() == m,
                widths@ == Seq::new(
                    m as nat,
                    |i: int|
                        if i < j && i < r.len() && capped_width(r[i]) > prev[i] {
                            capped_width(r[i])
                        } else {
                            prev[i]
                        },
                ),
            decreases row.len() - j,
        {
            let cw = capped_width_exec(&row[j]);
            if cw > widths[j] {
                widths.set(j, cw);
            }
            j = j + 1;
            assert(widths@ =~= Seq::new(
                m as nat,
                |i: int|
                    if i < j && i < r.len() && capped_width(r[i]) > prev[i] {
                        capped_width(r[i])
                    } else {
                        prev[i]
                    },
            ));
        }
        k = k + 1;
        assert(widths@ =~= widths_after(rv, k as nat, m as nat));
    }
    widths
}

/// Every row has at most `max_cells` cells.
proof fn lemma_row_len_le_max(rows: Seq<Seq<Seq<char>>>, k: int)
    requires
        0 <= k < rows.len(),
    ensures
        rows[k].len() <= max_cells(rows),
    decreases rows.len(),
{
    if k < rows.len() - 1 {
        lemma_row_len_le_max(rows.drop_last(), k);
    }
}

/// The line of one table row.
fn table_line_exec(row: &Vec<Vec<char>>, widths: &Vec<usize>, m: usize, base: Style) -> (r: RichLine)
    requires
        widths@.len() == m,
        forall|j: int| 0 <= j < m ==> widths@[j] <= 24,
    ensures
        r@ == table_line(views(row@), widths@, m as nat, base),
{
    let ghost rv = views(row@);
    let mut line = RichLine::new();
    let sep_style = Style::new().fg(dim_color());
    let open = crate::text::chars_of("\u{2502} ");
    let sp = RichSpan { text: open, style: sep_style };
    proof {
        lemma_span_views_push(line.segments@, sp);
    }
    line.segments.push(sp);
    let ghost first = line@.segments;
    assert(first == seq![span("\u{2502} "@, dim_style())]);
    let empty: Vec<char> = Vec::new();
    let mut j: usize = 0;
    while j < m
        invariant
            j <= m,
            widths@.len() == m,
            forall|i: int| 0 <= i < m ==> widths@[i] <= 24,
            rv == views(row@),
            empty@ == Seq::<char>::empty(),
            sep_style == dim_style(),
            line@ == (LineView { segments: first + row_spans(rv, widths@, m as nat, base, j as nat), ..empty_line() }),
        decreases m - j,
    {
        let cell: &Vec<char> = if j < row.len() {
            &row[j]
        } else {
            &empty
        };
        assert(cell@ == table_cell(rv, j as int));
        let w = widths[j];
        let cw = str_width(cell.as_slice());
        let shown = if cw < w {
            cw
        } else {
            w
        };
        let t = crate::width::truncate_chars(cell.as_slice(), w);
        let s1 = RichSpan { text: t, style: base };
        let s2 = RichSpan { text: repeat_char(' ', w - shown), style: base };
        let s3 = RichSpan {
            text: if j + 1 == m {
                crate::text::chars_of(" \u{2502}")
            } else {
                crate::text::chars_of(" \u{2502} ")
            },
            style: sep_style,
        };
        let ghost before = line@;
        proof {
            lemma_span_views_push(line.segments@, s1);
        }
        line.segments.push(s1);
        proof {
            lemma_span_views_push(line.segments@, s2);
        }
        line.segments.push(s2);
        proof {
            lemma_span_views_push(line.segments@, s3);
        }
        line.segments.push(s3);
        j = j + 1;
        assert(line@.segments =~= first + row_spans(rv, widths@, m as nat, base, j as nat));
        assert(line@ =~= (LineView { segments: first + row_spans(rv, widths@, m as nat, base, j as nat), ..empty_line() }));
    }
    line
}

impl RenderContext {
    /// Appends the rows of a table element as finished lines.
    pub fn push_table(&mut self, table: &HtmlNode, base: Style)
        ensures
            final(self)@ == push_table(old(self)@, rows_of(*table), base),
    {
        let rows = table_rows(table);
        let ghost rv = row_views(rows@);
        if rows.len() == 0 {
            return;
        }
        let m = max_cells_exec(&rows);
        if m == 0 {
            return;
        }
        let widths = column_widths(&rows, m);
        proof {
            lemma_widths_bounded(rv, rows@.len() as nat, m as nat);
        }
        let ghost c0 = self@;
        let ghost mapped = rv.map_values(
            |r: Seq<Seq<char>>| table_line(r, widths@, m as nat, base),
        );
        let mut i: usize = 0;
        assert(c0.lines + mapped.take(0) =~= c0.lines);
        while i < rows.len()
            invariant
                i <= rows@.len(),
                rv == row_views(rows@),
                widths@.len() == m,
                forall|j: int| 0 <= j < m ==> widths@[j] <= 24,
                mapped == rv.map_values(
                    |r: Seq<Seq<char>>| table_line(r, widths@, m as nat, base),
                ),
                self@ == (ContextView { lines: c0.lines + mapped.take(i as int), ..c0 }),
            decreases rows.len() - i,
        {
            let line = table_line_exec(&rows[i], &widths, m, base);
            proof {
                lemma_line_views_push(self.lines@, line);
            }
            self.lines.push(line);
            i = i + 1;
            assert(c0.lines + mapped.take(i as int) =~= (c0.lines + mapped.take(i - 1)).push(
                mapped[i - 1],
            ));
            assert(self@ =~= (ContextView { lines: c0.lines + mapped.take(i as int), ..c0 }));
        }
        assert(mapped.take(rows@.len() as int) =~= mapped);
    }
}

/// Column widths never exceed 24 and there are `m` of them.
proof fn lemma_widths_bounded(rows: Seq<Seq<Seq<char>>>, k: nat, m: nat)
    requires
        k <= rows.len(),
    ensures
        widths_after(rows, k, m).len() == m,
        forall|j: int| 0 <= j < m ==> widths_after(rows, k, m)[j] <= 24,
    decreases k,
{
    if k > 0 {
        lemma_widths_bounded(rows, (k - 1) as nat, m);
    }
}

/// The first `k` columns of a row take three spans each.
proof fn lemma_row_spans_len(row: Seq<Seq<char>>, widths: Seq<usize>, m: nat, base: Style, k: nat)
    ensures
        row_spans(row, widths, m, base, k).len() == 3 * k,
    decreases k,
{
    if k > 0 {
        lemma_row_spans_len(row, widths, m, base, (k - 1) as nat);
    }
}

/// Every row of a table is laid out with the same columns: each table line has an opening
/// separator and three spans (text, padding, separator) per column of the widest row, and
/// the lines before the table are kept.
pub proof fn lemma_table_rows_aligned(c: ContextView, rows: Seq<Seq<Seq<char>>>, base: Style)
    ensures
        push_table(c, rows, base).lines.take(c.lines.len() as int) == c.lines,
        push_table(c, rows, base).lines.len() == c.lines.len() + if max_cells(rows) == 0 {
            0
        } else {
            rows.len()
        },
        forall|i: int|
            c.lines.len() <= i < push_table(c, rows, base).lines.len() ==> (#[trigger] push_table(
                c,
                rows,
                base,
            ).lines[i]).segments.len() == 3 * max_cells(rows) + 1,
{
    let r = push_table(c, rows, base);
    if rows.len() == 0 || max_cells(rows) == 0 {
        assert(c.lines.take(c.lines.len() as int) =~= c.lines);
    } else {
        let m = max_cells(rows);
        let widths = widths_after(rows, rows.len(), m);
        assert(r.lines.take(c.lines.len() as int) =~= c.lines);
        assert forall|i: int| c.lines.len() <= i < r.lines.len() implies (
        #[trigger] r.lines[i]).segments.len() == 3 * m + 1 by {
            let row = rows[i - c.lines.len()];
            lemma_row_spans_len(row, widths, m, base, m);
            assert(r.lines[i] == table_line(row, widths, m, base));
        }
    }
}

proof fn lemma_widths_after_law(rows: Seq<Seq<Seq<char>>>, k: nat, m: nat)
    requires
        k <= rows.len(),
        forall|r: int| 0 <= r < rows.len() ==> rows[r].len() <= m,
    ensures
        widths_after(rows, k, m).len() == m,
        forall|r: int, j: int|
            0 <= r < k && 0 <= j < rows[r].len() ==> widths_after(rows, k, m)[j] >= capped_width(
                #[trigger] rows[r][j],
            ),
        forall|j: int| 0 <= j < m ==> #[trigger] widths_after(rows, k, m)[j] >= 3,
        forall|j: int|
            0 <= j < m ==> #[trigger] widths_after(rows, k, m)[j] == 3 || exists|r: int|
                0 <= r < k && j < rows[r].len() && widths_after(rows, k, m)[j] == capped_width(
                    rows[r][j],
                ),
    decreases k,
{
    if k > 0 {
        lemma_widths_after_law(rows, (k - 1) as nat, m);
        let w = widths_after(rows, (k - 1) as nat, m);
        let nw = widths_after(rows, k, m);
        let row = rows[k - 1];
        assert forall|r: int, j: int|
            0 <= r < k && 0 <= j < rows[r].len() implies nw[j] >= capped_width(
            #[trigger] rows[r][j],
        ) by {
            if r < k - 1 {
                assert(w[j] >= capped_width(rows[r][j]));
            }
        }
        assert forall|j: int| 0 <= j < m implies #[trigger] nw[j] == 3 || exists|r: int|
            0 <= r < k && j < rows[r].len() && nw[j] == capped_width(rows[r][j]) by {
            if j < row.len() && capped_width(row[j]) > w[j] {
                assert(nw[j] == capped_width(rows[k - 1][j]));
            } else if w[j] != 3 {
                let r = choose|r: int|
                    0 <= r < k - 1 && j < rows[r].len() && w[j] == capped_width(rows[r][j]);
                assert(nw[j] == capped_width(rows[r][j]));
            }
        }
    }
}

/// Table columns fit their cells across all rows: each column of a table line is as wide
/// as the widest of its cells in any row (cell widths capped at 24), at least 3 wide, and
/// no wider than that; so a cell is padded, never cut, to the width of a wider cell below
/// or above it.
pub proof fn lemma_column_widths_law(rows: Seq<Seq<Seq<char>>>)
    ensures
        ({
            let m = max_cells(rows);
            let w = widths_after(rows, rows.len(), m);
            &&& w.len() == m
            &&& forall|r: int, j: int|
                0 <= r < rows.len() && 0 <= j < rows[r].len() ==> w[j] >= capped_width(
                    #[trigger] rows[r][j],
                )
            &&& forall|j: int| 0 <= j < m ==> #[trigger] w[j] >= 3
            &&& forall|j: int|
                0 <= j < m ==> #[trigger] w[j] == 3 || exists|r: int|
                    0 <= r < rows.len() && j < rows[r].len() && w[j] == capped_width(rows[r][j])
        }),
{
    assert forall|r: int| 0 <= r < rows.len() implies rows[r].len() <= max_cells(rows) by {
        lemma_row_len_le_max(rows, r);
    }
    lemma_widths_after_law(rows, rows.len(), max_cells(rows));
}

proof fn lemma_row_spans_index(
    row: Seq<Seq<char>>,
    widths: Seq<usize>,
    m: nat,
    base: Style,
    k: nat,
    j: int,
    t: int,
)
    requires
        0 <= j < k,
        0 <= t < 3,
    ensures
        row_spans(row, widths, m, base, k)[3 * j + t] == cell_spans(row, widths, m, base, j)[t],
    decreases k,
{
    lemma_row_spans_len(row, widths, m, base, (k - 1) as nat);
    if j < k - 1 {
        lemma_row_spans_index(row, widths, m, base, (k - 1) as nat, j, t);
    }
}

/// The text shown in column `j` of table line `i`.
pub open spec fn shown_cell(lines: Seq<LineView>, i: int, j: int) -> Seq<char> {
    lines[i].segments[1 + 3 * j].text
}

/// The width taken by column `j` of table line `i`: its text and its padding.
pub open spec fn column_extent(lines: Seq<LineView>, i: int, j: int) -> nat {
    lines[i].segments[1 + 3 * j].text.len() + lines[i].segments[2 + 3 * j].text.len()
}

/// In a table of printable ASCII cells, each column has one width on every row: the cell
/// text and its padding together are as wide on each row as on the first. A cell's text is
/// a prefix of the cell, and a cell of at most 24 characters is shown whole.
pub proof fn lemma_table_cells_law(c: ContextView, rows: Seq<Seq<Seq<char>>>, base: Style)
    requires
        rows.len() > 0,
        max_cells(rows) > 0,
        forall|r: int, j: int|
            0 <= r < rows.len() && 0 <= j < rows[r].len() ==> crate::width::printable_ascii(
                #[trigger] rows[r][j],
            ) && rows[r][j].len() <= usize::MAX,
    ensures
        ({
            let m = max_cells(rows);
            let lines = push_table(c, rows, base).lines;
            let n = c.lines.len() as int;
            forall|i: int, j: int|
                n <= i < lines.len() && 0 <= j < m ==> {
                    &&& #[trigger] column_extent(lines, i, j) == column_extent(lines, n, j)
                    &&& j < rows[i - n].len() ==> shown_cell(lines, i, j) == rows[i - n][j].take(
                        shown_cell(lines, i, j).len() as int,
                    )
                    &&& j < rows[i - n].len() && rows[i - n][j].len() <= 24 ==> shown_cell(
                        lines,
                        i,
                        j,
                    ) == rows[i - n][j]
                }
        }),
{
    let m = max_cells(rows);
    let widths = widths_after(rows, rows.len(), m);
    lemma_column_widths_law(rows);
    lemma_widths_bounded(rows, rows.len(), m);
    let lines = push_table(c, rows, base).lines;
    let n = c.lines.len() as int;
    assert forall|i: int, j: int| n <= i < lines.len() && 0 <= j < m implies {
        &&& column_extent(lines, i, j) == widths[j]
        &&& j < rows[i - n].len() ==> shown_cell(lines, i, j) == rows[i - n][j].take(
            shown_cell(lines, i, j).len() as int,
        )
        &&& j < rows[i - n].len() && rows[i - n][j].len() <= 24 ==> shown_cell(lines, i, j)
            == rows[i - n][j]
    } by {
        let row = rows[i - n];
        assert(lines[i] == table_line(row, widths, m, base));
        let seg = lines[i].segments;
        lemma_row_spans_index(row, widths, m, base, m, j, 0);
        lemma_row_spans_index(row, widths, m, base, m, j, 1);
        lemma_row_spans_len(row, widths, m, base, m);
        let rs = row_spans(row, widths, m, base, m);
        assert(seg == seq![span("\u{2502} "@, dim_style())] + rs);
        assert(seg[1 + 3 * j] == rs[3 * j]);
        assert(seg[2 + 3 * j] == rs[3 * j + 1]);
        let cell = table_cell(row, j);
        assert(crate::width::printable_ascii(cell));
        assert(crate::width::text_width(cell) == cell.len());
        let w = widths[j];
        crate::width::lemma_truncated_ascii(cell, w as nat);
        assert(seg[1 + 3 * j] == cell_spans(row, widths, m, base, j)[0]);
        assert(seg[2 + 3 * j] == cell_spans(row, widths, m, base, j)[1]);
        if j < row.len() {
            assert(w >= capped_width(rows[i - n][j]));
        }
    }
}

} // verus!
