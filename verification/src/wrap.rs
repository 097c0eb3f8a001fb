//! Wrapping a rich line into terminal rows at a given width: a row is closed before a
//! character that would pass the width unless the row is still empty, whitespace at a break
//! is dropped (outside preformatted text), and continuation rows are indented. A row can
//! still pass the width when its prefix or a single character is wider than the width.
use vstd::prelude::*;
use crate::layout::{lemma_spans_text_push, span, spans_text, LineView, RichLine, RichSpan, SpanView};
use crate::style::Style;
use crate::text::{
    is_ws, is_whitespace, lemma_non_ws_concat, non_ws, repeat, repeat_char, string_from_chars,
};
use crate::width::{char_width, column_width, printable_ascii, str_width, text_width};

verus! {

/// A styled run of text in a rendered row.
pub struct StyledSpan {
    pub content: String,
    pub style: Style,
}

impl View for StyledSpan {
    type V = SpanView;

    open spec fn view(&self) -> SpanView {
        SpanView { text: self.content@, style: self.style }
    }
}

/// A rendered row: its spans, in order.
pub struct StyledLine {
    pub spans: Vec<StyledSpan>,
}

/// A rendered row of an assistant message, marked when it holds preformatted text.
pub struct RenderedMarkdownLine {
    pub line: StyledLine,
    pub is_code: bool,
}

/// The model of a rendered row.
#[verifier::ext_equal]
pub struct RowView {
    pub spans: Seq<SpanView>,
    pub is_code: bool,
}

/// The models of a sequence of styled spans.
pub open spec fn styled_views(v: Seq<StyledSpan>) -> Seq<SpanView> {
    v.map_values(|s: StyledSpan| s@)
}

impl View for RenderedMarkdownLine {
    type V = RowView;

    open spec fn view(&self) -> RowView {
        RowView { spans: styled_views(self.line.spans@), is_code: self.is_code }
    }
}

/// The models of a sequence of rendered rows.
pub open spec fn row_views(v: Seq<RenderedMarkdownLine>) -> Seq<RowView> {
    v.map_values(|r: RenderedMarkdownLine| r@)
}

/// The fixed parameters of wrapping one line.
#[verifier::ext_equal]
pub struct WrapParams {
    /// The row width, at least 1.
    pub width: nat,
    /// The indent put at the start of each continuation row.
    pub indent: Seq<char>,
    /// The display width of that indent.
    pub indent_width: nat,
    /// Whether the line is preformatted.
    pub is_pre: bool,
}

/// The state of wrapping: finished rows, the spans of the open row, the characters not yet
/// put into a span, and the column reached on the open row.
#[verifier::ext_equal]
pub struct WrapState {
    pub out: Seq<RowView>,
    pub spans: Seq<SpanView>,
    pub pending: Seq<char>,
    pub col: nat,
}

/// Places one character of a segment in style `style`. When it would pass the width and
/// the open row is not empty, the row is closed and a continuation row opened; at such a
/// break, whitespace outside preformatted text is dropped.
pub open spec fn wrap_char(st: WrapState, ch: char, style: Style, p: WrapParams) -> WrapState {
    let cw = column_width(ch, st.col);
    if st.col + cw > p.width && (st.spans.len() > 0 || st.pending.len() > 0) {
        let closed = if st.pending.len() > 0 {
            st.spans.push(span(st.pending, style))
        } else {
            st.spans
        };
        let out = st.out.push(RowView { spans: closed, is_code: p.is_pre });
        let spans = if p.indent.len() > 0 {
            seq![span(p.indent, Style::empty())]
        } else {
            seq![]
        };
        let col = if p.indent.len() > 0 {
            p.indent_width
        } else {
            0
        };
        if !p.is_pre && is_ws(ch) {
            WrapState { out, spans, pending: seq![], col }
        } else {
            WrapState { out, spans, pending: seq![ch], col: col + cw }
        }
    } else {
        WrapState { pending: st.pending.push(ch), col: st.col + cw, ..st }
    }
}

/// Places the characters of a segment, in order.
pub open spec fn wrap_chars(st: WrapState, text: Seq<char>, style: Style, p: WrapParams) -> WrapState
    decreases text.len(),
{
    if text.len() == 0 {
        st
    } else {
        wrap_char(wrap_chars(st, text.drop_last(), style, p), text.last(), style, p)
    }
}

/// Places a whole segment, then turns its remaining characters into a span.
pub open spec fn wrap_segment(st: WrapState, seg: SpanView, p: WrapParams) -> WrapState {
    let s = wrap_chars(st, seg.text, seg.style, p);
    if s.pending.len() > 0 {
        WrapState { spans: s.spans.push(span(s.pending, seg.style)), pending: seq![], ..s }
    } else {
        s
    }
}

/// Places segments, in order.
pub open spec fn wrap_segments(st: WrapState, segs: Seq<SpanView>, p: WrapParams) -> WrapState
    decreases segs.len(),
{
    if segs.len() == 0 {
        st
    } else {
        wrap_segment(wrap_segments(st, segs.drop_last(), p), segs.last(), p)
    }
}

/// The total display width of a line prefix.
pub open spec fn prefix_width(prefix: Seq<SpanView>) -> nat
    decreases prefix.len(),
{
    if prefix.len() == 0 {
        0
    } else {
        prefix_width(prefix.drop_last()) + (text_width(prefix.last().text) as nat)
    }
}

/// The row width used for a terminal width: at least one column.
pub open spec fn row_width(width: u16) -> nat {
    if width == 0 {
        1
    } else {
        width as nat
    }
}

/// The wrapping parameters of a line at a given terminal width.
pub open spec fn wrap_params(line: LineView, width: u16) -> WrapParams {
    let indent = repeat(' ', line.continuation_indent as nat);
    WrapParams {
        width: row_width(width),
        indent,
        indent_width: text_width(indent) as nat,
        is_pre: line.is_pre,
    }
}

/// The line is only a forced blank line.
pub open spec fn is_blank_break(line: LineView) -> bool {
    line.force_blank && line.segments.len() == 0 && line.prefix.len() == 0
}

/// The rows of a line wrapped at `width`: a forced blank line is one empty row; otherwise
/// the prefix opens the first row, the segments are placed in order, and the open row is
/// closed last (with one empty span when it has none).
pub open spec fn wrap_line(line: LineView, width: u16) -> Seq<RowView> {
    if is_blank_break(line) {
        seq![RowView { spans: seq![], is_code: false }]
    } else {
        let p = wrap_params(line, width);
        let init = WrapState {
            out: seq![],
            spans: line.prefix,
            pending: seq![],
            col: prefix_width(line.prefix),
        };
        let st = wrap_segments(init, line.segments, p);
        let last = if st.spans.len() == 0 {
            seq![span(seq![], Style::empty())]
        } else {
            st.spans
        };
        st.out.push(RowView { spans: last, is_code: line.is_pre })
    }
}

/// Wrapping stays within machine integers: the prefix width and the continuation indent
/// each leave room for the row width and a few more columns.
pub open spec fn wrap_fits(line: LineView, width: u16) -> bool {
    &&& prefix_width(line.prefix) + row_width(width) + 16 <= usize::MAX
    &&& line.continuation_indent + row_width(width) + 16 <= usize::MAX
}

/// A rendered span with the text and style of a rich span.
pub fn rich_span_to_span(span: &RichSpan) -> (r: StyledSpan)
    ensures
        r@ == span@,
{
    StyledSpan { content: string_from_chars(span.text.as_slice()), style: span.style }
}

/// The model of the exec wrapping state.
pub open spec fn state_view(
    out: Seq<RenderedMarkdownLine>,
    spans: Seq<StyledSpan>,
    pending: Seq<char>,
    col: usize,
) -> WrapState {
    WrapState { out: row_views(out), spans: styled_views(spans), pending, col: col as nat }
}

proof fn lemma_styled_push(v: Seq<StyledSpan>, s: StyledSpan)
    ensures
        styled_views(v.push(s)) == styled_views(v).push(s@),
{
    assert(styled_views(v.push(s)) =~= styled_views(v).push(s@));
}

proof fn lemma_rows_push(v: Seq<RenderedMarkdownLine>, r: RenderedMarkdownLine)
    ensures
        row_views(v.push(r)) == row_views(v).push(r@),
{
    assert(row_views(v.push(r)) =~= row_views(v).push(r@));
}

/// The width of a prefix of the prefix spans never exceeds the width of all of them.
proof fn lemma_prefix_width_mono(prefix: Seq<SpanView>, k: int)
    requires
        0 <= k <= prefix.len(),
    ensures
        prefix_width(prefix.take(k)) <= prefix_width(prefix),
    decreases prefix.len(),
{
    if k == prefix.len() {
        assert(prefix.take(k) =~= prefix);
    } else {
        lemma_prefix_width_mono(prefix.drop_last(), k);
        assert(prefix.drop_last().take(k) =~= prefix.take(k));
    }
}

/// Wraps one rich line into rendered rows at `width` columns (see [`wrap_line`]).
pub fn wrap_rich_line(line: &RichLine, width: u16) -> (r: Vec<RenderedMarkdownLine>)
    requires
        wrap_fits(line@, width),
    ensures
        row_views(r@) == wrap_line(line@, width),
        r@.len() >= 1,
{
    let ghost lv = line@;
    if line.force_blank && line.segments.len() == 0 && line.prefix.len() == 0 {
        let row = RenderedMarkdownLine { line: StyledLine { spans: Vec::new() }, is_code: false };
        let mut out: Vec<RenderedMarkdownLine> = Vec::new();
        out.push(row);
        assert(row@.spans =~= Seq::<SpanView>::empty());
        assert(row_views(out@) =~= wrap_line(lv, width));
        return out;
    }
    let w: usize = if width == 0 {
        1
    } else {
        width as usize
    };
    let ghost p = wrap_params(lv, width);
    let mut out: Vec<RenderedMarkdownLine> = Vec::new();
    let mut spans: Vec<StyledSpan> = Vec::new();
    let mut col: usize = 0;
    let mut k: usize = 0;
    assert(lv.prefix.take(0) =~= Seq::<SpanView>::empty());
    assert(styled_views(spans@) =~= Seq::<SpanView>::empty());
    while k < line.prefix.len()
        invariant
            k <= line.prefix@.len(),
            lv == line@,
            wrap_fits(lv, width),
            styled_views(spans@) == lv.prefix.take(k as int),
            col == prefix_width(lv.prefix.take(k as int)),
        decreases line.prefix.len() - k,
    {
        proof {
            lemma_prefix_width_mono(lv.prefix, k + 1);
            assert(lv.prefix.take(k + 1).drop_last() =~= lv.prefix.take(k as int));
        }
        let text = &line.prefix[k].text;
        let sw = str_width(text.as_slice());
        let sp = rich_span_to_span(&line.prefix[k]);
        proof {
            lemma_styled_push(spans@, sp);
        }
        spans.push(sp);
        col = col + sw;
        k = k + 1;
        assert(styled_views(spans@) =~= lv.prefix.take(k as int));
    }
    assert(lv.prefix.take(lv.prefix.len() as int) =~= lv.prefix);
    let indent = repeat_char(' ', line.continuation_indent);
    assert(printable_ascii(indent@));
    let indent_w = str_width(indent.as_slice());
    let indent_string = string_from_chars(indent.as_slice());
    let ghost bound: nat = (if prefix_width(lv.prefix) >= lv.continuation_indent {
        prefix_width(lv.prefix)
    } else {
        lv.continuation_indent as nat
    }) + (w as nat) + 8;
    let ghost init = WrapState {
        out: seq![],
        spans: lv.prefix,
        pending: seq![],
        col: prefix_width(lv.prefix),
    };
    assert(row_views(out@) =~= Seq::<RowView>::empty());
    assert(lv.segments.take(0) =~= Seq::<SpanView>::empty());
    let mut i: usize = 0;
    while i < line.segments.len()
        invariant
            i <= line.segments@.len(),
            lv == line@,
            p == wrap_params(lv, width),
            p.width == w,
            1 <= w <= 65535,
            indent@ == p.indent,
            indent_string@ == p.indent,
            indent_w == p.indent_width,
            indent_w == lv.continuation_indent,
            bound + 8 <= usize::MAX,
            col <= bound,
            w + 8 <= bound,
            indent_w + 8 <= bound,
            styled_views(spans@).len() == 0 ==> col == 0,
            state_view(out@, spans@, seq![], col) == wrap_segments(
                init,
                lv.segments.take(i as int),
                p,
            ),
        decreases line.segments.len() - i,
    {
        let seg = &line.segments[i];
        let ghost sv = lv.segments[i as int];
        assert(sv == seg@);
        let ghost start = state_view(out@, spans@, seq![], col);
        let mut pending: Vec<char> = Vec::new();
        let mut j: usize = 0;
        assert(seg.text@.take(0) =~= Seq::<char>::empty());
        while j < seg.text.len()
            invariant
                j <= seg.text@.len(),
                sv == seg@,
                p.width == w,
                p.is_pre == line.is_pre,
                1 <= w <= 65535,
                indent@ == p.indent,
                indent_string@ == p.indent,
                indent_w == p.indent_width,
                bound + 8 <= usize::MAX,
                col <= bound,
                w + 8 <= bound,
                indent_w + 8 <= bound,
                styled_views(spans@).len() == 0 && pending@.len() == 0 ==> col == 0,
                state_view(out@, spans@, pending@, col) == wrap_chars(
                    start,
                    sv.text.take(j as int),
                    sv.style,
                    p,
                ),
            decreases seg.text.len() - j,
        {
            let ch = seg.text[j];
            let cw = char_width(ch, col);
            let ghost before = state_view(out@, spans@, pending@, col);
            assert(sv.text.take(j + 1).drop_last() =~= sv.text.take(j as int));
            assert(sv.text.take(j + 1).last() == ch);
            if col + cw > w && (spans.len() > 0 || pending.len() > 0) {
                if pending.len() > 0 {
                    let sp = StyledSpan {
                        content: string_from_chars(pending.as_slice()),
                        style: seg.style,
                    };
                    proof {
                        lemma_styled_push(spans@, sp);
                    }
                    spans.push(sp);
                    pending = Vec::new();
                }
                let mut row_spans: Vec<StyledSpan> = Vec::new();
                std::mem::swap(&mut row_spans, &mut spans);
                let row = RenderedMarkdownLine {
                    line: StyledLine { spans: row_spans },
                    is_code: line.is_pre,
                };
                proof {
                    lemma_rows_push(out@, row);
                }
                out.push(row);
                assert(styled_views(spans@) =~= Seq::<SpanView>::empty());
                if indent.len() > 0 {
                    col = indent_w;
                    let sp = StyledSpan { content: indent_string.clone(), style: Style::new() };
                    proof {
                        lemma_styled_push(spans@, sp);
                    }
                    spans.push(sp);
                    assert(styled_views(spans@) =~= seq![span(p.indent, Style::empty())]);
                } else {
                    col = 0;
                }
                if !line.is_pre && is_whitespace(ch) {
                    j = j + 1;
                    assert(pending@ =~= Seq::<char>::empty());
                    assert(state_view(out@, spans@, pending@, col) =~= wrap_chars(
                        start,
                        sv.text.take(j as int),
                        sv.style,
                        p,
                    ));
                    continue;
                }
            }
            pending.push(ch);
            col = col + cw;
            j = j + 1;
            assert(state_view(out@, spans@, pending@, col) =~= wrap_chars(
                start,
                sv.text.take(j as int),
                sv.style,
                p,
            ));
        }
        assert(sv.text.take(sv.text.len() as int) =~= sv.text);
        if pending.len() > 0 {
            let sp = StyledSpan { content: string_from_chars(pending.as_slice()), style: seg.style };
            proof {
                lemma_styled_push(spans@, sp);
            }
            spans.push(sp);
        }
        i = i + 1;
        assert(lv.segments.take(i as int).drop_last() =~= lv.segments.take(i - 1));
        assert(state_view(out@, spans@, seq![], col) =~= wrap_segments(
            init,
            lv.segments.take(i as int),
            p,
        ));
    }
    assert(lv.segments.take(lv.segments.len() as int) =~= lv.segments);
    if spans.len() == 0 {
        let sp = StyledSpan { content: String::new(), style: Style::new() };
        proof {
            lemma_styled_push(spans@, sp);
        }
        spans.push(sp);
        assert(styled_views(spans@) =~= seq![span(seq![], Style::empty())]);
    }
    let row = RenderedMarkdownLine { line: StyledLine { spans }, is_code: line.is_pre };
    proof {
        lemma_rows_push(out@, row);
    }
    out.push(row);
    assert(row_views(out@) =~= wrap_line(lv, width));
    out
}

/// The text of a sequence of rows, concatenated.
pub open spec fn rows_text(rows: Seq<RowView>) -> Seq<char>
    decreases rows.len(),
{
    if rows.len() == 0 {
        seq![]
    } else {
        rows_text(rows.drop_last()) + spans_text(rows.last().spans)
    }
}

/// The text of a rich line: its prefix, then its segments.
pub open spec fn line_text(line: LineView) -> Seq<char> {
    spans_text(line.prefix) + spans_text(line.segments)
}

/// The text held by a wrapping state: finished rows, open spans, pending characters.
pub open spec fn state_text(st: WrapState) -> Seq<char> {
    rows_text(st.out) + spans_text(st.spans) + st.pending
}

proof fn lemma_repeat_space_blank(n: nat)
    ensures
        non_ws(repeat(' ', n)) == Seq::<char>::empty(),
    decreases n,
{
    if n > 0 {
        lemma_repeat_space_blank((n - 1) as nat);
        assert(repeat(' ', n).drop_last() =~= repeat(' ', (n - 1) as nat));
    }
}

proof fn lemma_rows_text_push(rows: Seq<RowView>, r: RowView)
    ensures
        rows_text(rows.push(r)) == rows_text(rows) + spans_text(r.spans),
{
    assert(rows.push(r).drop_last() =~= rows);
}

proof fn lemma_wrap_char_text(st: WrapState, ch: char, style: Style, p: WrapParams)
    requires
        non_ws(p.indent) == Seq::<char>::empty(),
    ensures
        non_ws(state_text(wrap_char(st, ch, style, p))) == non_ws(state_text(st)) + non_ws(seq![ch]),
{
    let cw = column_width(ch, st.col);
    let t = state_text(st);
    lemma_non_ws_concat(t, seq![ch]);
    if st.col + cw > p.width && (st.spans.len() > 0 || st.pending.len() > 0) {
        let closed = if st.pending.len() > 0 {
            st.spans.push(span(st.pending, style))
        } else {
            st.spans
        };
        if st.pending.len() > 0 {
            lemma_spans_text_push(st.spans, span(st.pending, style));
        }
        assert(spans_text(closed) == spans_text(st.spans) + st.pending);
        let out = st.out.push(RowView { spans: closed, is_code: p.is_pre });
        lemma_rows_text_push(st.out, RowView { spans: closed, is_code: p.is_pre });
        assert(rows_text(out) =~= t);
        let spans: Seq<SpanView> = if p.indent.len() > 0 {
            seq![span(p.indent, Style::empty())]
        } else {
            seq![]
        };
        assert(non_ws(spans_text(spans)) == Seq::<char>::empty()) by {
            if p.indent.len() > 0 {
                lemma_spans_text_push(Seq::<SpanView>::empty(), span(p.indent, Style::empty()));
                assert(seq![span(p.indent, Style::empty())] =~= Seq::<SpanView>::empty().push(
                    span(p.indent, Style::empty()),
                ));
                assert(Seq::<char>::empty() + p.indent =~= p.indent);
            }
        }
        let r = wrap_char(st, ch, style, p);
        lemma_non_ws_concat(rows_text(out), spans_text(spans));
        lemma_non_ws_concat(rows_text(out) + spans_text(spans), r.pending);
        assert(seq![ch].drop_last() =~= Seq::<char>::empty());
        assert(seq![ch].last() == ch);
        assert(non_ws(Seq::<char>::empty()) =~= Seq::<char>::empty());
        if !p.is_pre && is_ws(ch) {
            assert(non_ws(seq![ch]) =~= Seq::<char>::empty());
            assert(non_ws(r.pending) =~= Seq::<char>::empty());
        } else {
            assert(r.pending == seq![ch]);
        }
        assert(non_ws(state_text(r)) =~= non_ws(t) + non_ws(seq![ch]));
    } else {
        assert(state_text(wrap_char(st, ch, style, p)) =~= t + seq![ch]);
    }
}

proof fn lemma_wrap_chars_text(st: WrapState, text: Seq<char>, style: Style, p: WrapParams)
    requires
        non_ws(p.indent) == Seq::<char>::empty(),
    ensures
        non_ws(state_text(wrap_chars(st, text, style, p))) == non_ws(state_text(st)) + non_ws(text),
    decreases text.len(),
{
    if text.len() == 0 {
        assert(non_ws(state_text(st)) + non_ws(text) =~= non_ws(state_text(st)));
    } else {
        lemma_wrap_chars_text(st, text.drop_last(), style, p);
        lemma_wrap_char_text(wrap_chars(st, text.drop_last(), style, p), text.last(), style, p);
        lemma_non_ws_concat(text.drop_last(), seq![text.last()]);
        assert(text.drop_last() + seq![text.last()] =~= text);
    }
}

proof fn lemma_wrap_segments_text(st: WrapState, segs: Seq<SpanView>, p: WrapParams)
    requires
        non_ws(p.indent) == Seq::<char>::empty(),
    ensures
        non_ws(state_text(wrap_segments(st, segs, p))) == non_ws(state_text(st)) + non_ws(
            spans_text(segs),
        ),
        segs.len() > 0 ==> wrap_segments(st, segs, p).pending.len() == 0,
    decreases segs.len(),
{
    if segs.len() == 0 {
        assert(non_ws(state_text(st)) + non_ws(spans_text(segs)) =~= non_ws(state_text(st)));
    } else {
        lemma_wrap_segments_text(st, segs.drop_last(), p);
        let prev = wrap_segments(st, segs.drop_last(), p);
        let seg = segs.last();
        lemma_wrap_chars_text(prev, seg.text, seg.style, p);
        let s1 = wrap_chars(prev, seg.text, seg.style, p);
        if s1.pending.len() > 0 {
            lemma_spans_text_push(s1.spans, span(s1.pending, seg.style));
            assert(state_text(wrap_segment(prev, seg, p)) =~= state_text(s1));
        }
        lemma_non_ws_concat(spans_text(segs.drop_last()), seg.text);
        assert(non_ws(state_text(prev)) + non_ws(spans_text(segs.drop_last())) + non_ws(seg.text)
            =~= non_ws(state_text(prev)) + (non_ws(spans_text(segs.drop_last())) + non_ws(seg.text)));
    }
}

/// Wrapping only adds or drops whitespace: the non-whitespace characters of the rows are
/// exactly those of the line, in order.
pub proof fn lemma_wrap_keeps_text(line: LineView, width: u16)
    ensures
        non_ws(rows_text(wrap_line(line, width))) == non_ws(line_text(line)),
{
    if is_blank_break(line) {
        let r = RowView { spans: seq![], is_code: false };
        lemma_rows_text_push(Seq::<RowView>::empty(), r);
        assert(seq![r] =~= Seq::<RowView>::empty().push(r));
        assert(line_text(line) =~= Seq::<char>::empty());
        assert(rows_text(seq![r]) =~= Seq::<char>::empty());
    } else {
        let p = wrap_params(line, width);
        lemma_repeat_space_blank(line.continuation_indent as nat);
        let init = WrapState {
            out: seq![],
            spans: line.prefix,
            pending: seq![],
            col: prefix_width(line.prefix),
        };
        lemma_wrap_segments_text(init, line.segments, p);
        let st = wrap_segments(init, line.segments, p);
        assert(st.pending =~= Seq::<char>::empty());
        assert(state_text(init) =~= spans_text(line.prefix));
        let last = if st.spans.len() == 0 {
            seq![span(seq![], Style::empty())]
        } else {
            st.spans
        };
        assert(spans_text(last) == spans_text(st.spans)) by {
            if st.spans.len() == 0 {
                lemma_spans_text_push(Seq::<SpanView>::empty(), span(seq![], Style::empty()));
                assert(seq![span(seq![], Style::empty())] =~= Seq::<SpanView>::empty().push(
                    span(seq![], Style::empty()),
                ));
                assert(spans_text(last) =~= Seq::<char>::empty());
            }
        }
        lemma_rows_text_push(st.out, RowView { spans: last, is_code: line.is_pre });
        assert(rows_text(wrap_line(line, width)) =~= state_text(st));
        lemma_non_ws_concat(spans_text(line.prefix), spans_text(line.segments));
    }
}

/// The column reached by placing the characters of `text` from column `col` on one row.
pub open spec fn cols_after(col: nat, text: Seq<char>) -> nat
    decreases text.len(),
{
    if text.len() == 0 {
        col
    } else {
        let c = cols_after(col, text.drop_last());
        c + column_width(text.last(), c)
    }
}

/// The column reached by placing the texts of segments from column `col` on one row.
pub open spec fn cols_after_segments(col: nat, segs: Seq<SpanView>) -> nat
    decreases segs.len(),
{
    if segs.len() == 0 {
        col
    } else {
        cols_after(cols_after_segments(col, segs.drop_last()), segs.last().text)
    }
}

/// The width a line would take on a single unbounded row.
pub open spec fn natural_width(line: LineView) -> nat {
    cols_after_segments(prefix_width(line.prefix), line.segments)
}

/// The segments whose text is not empty, in order.
pub open spec fn nonempty_spans(segs: Seq<SpanView>) -> Seq<SpanView>
    decreases segs.len(),
{
    if segs.len() == 0 {
        seq![]
    } else if segs.last().text.len() > 0 {
        nonempty_spans(segs.drop_last()).push(segs.last())
    } else {
        nonempty_spans(segs.drop_last())
    }
}

proof fn lemma_cols_after_grows(col: nat, text: Seq<char>)
    ensures
        cols_after(col, text) >= col,
    decreases text.len(),
{
    if text.len() > 0 {
        lemma_cols_after_grows(col, text.drop_last());
    }
}

proof fn lemma_wrap_chars_fitting(st: WrapState, text: Seq<char>, style: Style, p: WrapParams)
    requires
        cols_after(st.col, text) <= p.width,
    ensures
        wrap_chars(st, text, style, p) == (WrapState {
            pending: st.pending + text,
            col: cols_after(st.col, text),
            ..st
        }),
    decreases text.len(),
{
    if text.len() == 0 {
        assert(st.pending + text =~= st.pending);
    } else {
        lemma_wrap_chars_fitting(st, text.drop_last(), style, p);
        assert((st.pending + text.drop_last()).push(text.last()) =~= st.pending + text);
    }
}

proof fn lemma_wrap_segments_fitting(st: WrapState, segs: Seq<SpanView>, p: WrapParams)
    requires
        st.pending.len() == 0,
        cols_after_segments(st.col, segs) <= p.width,
    ensures
        wrap_segments(st, segs, p) == (WrapState {
            spans: st.spans + nonempty_spans(segs),
            col: cols_after_segments(st.col, segs),
            ..st
        }),
    decreases segs.len(),
{
    if segs.len() == 0 {
        assert(st.spans + nonempty_spans(segs) =~= st.spans);
    } else {
        let rest = segs.drop_last();
        let seg = segs.last();
        lemma_cols_after_grows(cols_after_segments(st.col, rest), seg.text);
        lemma_wrap_segments_fitting(st, rest, p);
        let prev = wrap_segments(st, rest, p);
        lemma_wrap_chars_fitting(prev, seg.text, seg.style, p);
        assert(prev.pending + seg.text =~= seg.text);
        if seg.text.len() > 0 {
            assert(span(seg.text, seg.style) == seg);
            assert((st.spans + nonempty_spans(rest)).push(seg) =~= st.spans + nonempty_spans(segs));
        }
        assert(wrap_segments(st, segs, p) =~= (WrapState {
            spans: st.spans + nonempty_spans(segs),
            col: cols_after_segments(st.col, segs),
            ..st
        }));
    }
}

/// A line whose natural width fits the row width is not broken: it becomes one row made
/// of its prefix and its non-empty segments (or one empty span when there are none).
pub proof fn lemma_fitting_line_is_one_row(line: LineView, width: u16)
    requires
        !is_blank_break(line),
        natural_width(line) <= row_width(width),
    ensures
        wrap_line(line, width) == seq![
            RowView {
                spans: if line.prefix.len() + nonempty_spans(line.segments).len() == 0 {
                    seq![span(seq![], Style::empty())]
                } else {
                    line.prefix + nonempty_spans(line.segments)
                },
                is_code: line.is_pre,
            },
        ],
{
    let p = wrap_params(line, width);
    let init = WrapState {
        out: seq![],
        spans: line.prefix,
        pending: seq![],
        col: prefix_width(line.prefix),
    };
    lemma_wrap_segments_fitting(init, line.segments, p);
    let st = wrap_segments(init, line.segments, p);
    assert(st.out =~= Seq::<RowView>::empty());
    assert(st.out.push(RowView {
        spans: if line.prefix.len() + nonempty_spans(line.segments).len() == 0 {
            seq![span(seq![], Style::empty())]
        } else {
            line.prefix + nonempty_spans(line.segments)
        },
        is_code: line.is_pre,
    }) =~= seq![
        RowView {
            spans: if line.prefix.len() + nonempty_spans(line.segments).len() == 0 {
                seq![span(seq![], Style::empty())]
            } else {
                line.prefix + nonempty_spans(line.segments)
            },
            is_code: line.is_pre,
        },
    ]);
}

/// Every finished row after the first, and the open row once a row has been finished,
/// starts with the indent span.
pub open spec fn rows_indented(st: WrapState, ind: SpanView) -> bool {
    &&& forall|k: int|
        1 <= k < st.out.len() ==> (#[trigger] st.out[k]).spans.len() > 0 && st.out[k].spans[0]
            == ind
    &&& st.out.len() >= 1 ==> st.spans.len() > 0 && st.spans[0] == ind
}

proof fn lemma_wrap_char_indented(st: WrapState, ch: char, style: Style, p: WrapParams)
    requires
        p.indent.len() > 0,
        rows_indented(st, span(p.indent, Style::empty())),
    ensures
        rows_indented(wrap_char(st, ch, style, p), span(p.indent, Style::empty())),
{
    let ind = span(p.indent, Style::empty());
    let r = wrap_char(st, ch, style, p);
    let cw = column_width(ch, st.col);
    if st.col + cw > p.width && (st.spans.len() > 0 || st.pending.len() > 0) {
        let closed = if st.pending.len() > 0 {
            st.spans.push(span(st.pending, style))
        } else {
            st.spans
        };
        assert forall|k: int| 1 <= k < r.out.len() implies (#[trigger] r.out[k]).spans.len() > 0
            && r.out[k].spans[0] == ind by {
            if k < st.out.len() {
                assert(r.out[k] == st.out[k]);
            } else {
                assert(r.out[k].spans == closed);
            }
        }
    }
}

proof fn lemma_wrap_chars_indented(st: WrapState, text: Seq<char>, style: Style, p: WrapParams)
    requires
        p.indent.len() > 0,
        rows_indented(st, span(p.indent, Style::empty())),
    ensures
        rows_indented(wrap_chars(st, text, style, p), span(p.indent, Style::empty())),
    decreases text.len(),
{
    if text.len() > 0 {
        lemma_wrap_chars_indented(st, text.drop_last(), style, p);
        lemma_wrap_char_indented(wrap_chars(st, text.drop_last(), style, p), text.last(), style, p);
    }
}

proof fn lemma_wrap_segments_indented(st: WrapState, segs: Seq<SpanView>, p: WrapParams)
    requires
        p.indent.len() > 0,
        rows_indented(st, span(p.indent, Style::empty())),
    ensures
        rows_indented(wrap_segments(st, segs, p), span(p.indent, Style::empty())),
    decreases segs.len(),
{
    if segs.len() > 0 {
        lemma_wrap_segments_indented(st, segs.drop_last(), p);
        let prev = wrap_segments(st, segs.drop_last(), p);
        lemma_wrap_chars_indented(prev, segs.last().text, segs.last().style, p);
    }
}

/// Continuation rows are indented: when a line has a continuation indent, every row of it
/// after the first starts with a span of that many spaces.
pub proof fn lemma_continuation_rows_indented(line: LineView, width: u16)
    requires
        line.continuation_indent > 0,
    ensures
        forall|k: int|
            1 <= k < wrap_line(line, width).len() ==> (#[trigger] wrap_line(line, width)[k]).spans.len()
                > 0 && wrap_line(line, width)[k].spans[0] == span(
                repeat(' ', line.continuation_indent as nat),
                Style::empty(),
            ),
{
    if !is_blank_break(line) {
        let p = wrap_params(line, width);
        let ind = span(p.indent, Style::empty());
        let init = WrapState {
            out: seq![],
            spans: line.prefix,
            pending: seq![],
            col: prefix_width(line.prefix),
        };
        lemma_wrap_segments_indented(init, line.segments, p);
        let st = wrap_segments(init, line.segments, p);
        let rows = wrap_line(line, width);
        assert forall|k: int| 1 <= k < rows.len() implies (#[trigger] rows[k]).spans.len() > 0
            && rows[k].spans[0] == ind by {
            if k < st.out.len() {
                assert(rows[k] == st.out[k]);
            }
        }
    }
}

/// Every finished row is marked as code exactly when the line is preformatted.
pub open spec fn rows_marked(st: WrapState, is_pre: bool) -> bool {
    forall|k: int| 0 <= k < st.out.len() ==> (#[trigger] st.out[k]).is_code == is_pre
}

proof fn lemma_wrap_chars_marked(st: WrapState, text: Seq<char>, style: Style, p: WrapParams)
    requires
        rows_marked(st, p.is_pre),
    ensures
        rows_marked(wrap_chars(st, text, style, p), p.is_pre),
    decreases text.len(),
{
    if text.len() > 0 {
        lemma_wrap_chars_marked(st, text.drop_last(), style, p);
        let prev = wrap_chars(st, text.drop_last(), style, p);
        let r = wrap_char(prev, text.last(), style, p);
        assert forall|k: int| 0 <= k < r.out.len() implies (#[trigger] r.out[k]).is_code
            == p.is_pre by {
            if k < prev.out.len() {
                assert(r.out[k] == prev.out[k]);
            }
        }
    }
}

proof fn lemma_wrap_segments_marked(st: WrapState, segs: Seq<SpanView>, p: WrapParams)
    requires
        rows_marked(st, p.is_pre),
    ensures
        rows_marked(wrap_segments(st, segs, p), p.is_pre),
    decreases segs.len(),
{
    if segs.len() > 0 {
        lemma_wrap_segments_marked(st, segs.drop_last(), p);
        let prev = wrap_segments(st, segs.drop_last(), p);
        lemma_wrap_chars_marked(prev, segs.last().text, segs.last().style, p);
    }
}

/// Every row of a wrapped line is marked as code exactly when the line is preformatted,
/// except the single row of a forced blank line, which is never code.
pub proof fn lemma_rows_marked_code(line: LineView, width: u16)
    ensures
        wrap_line(line, width).len() >= 1,
        forall|k: int|
            0 <= k < wrap_line(line, width).len() ==> (#[trigger] wrap_line(line, width)[k]).is_code
                == (line.is_pre && !is_blank_break(line)),
{
    if !is_blank_break(line) {
        let p = wrap_params(line, width);
        let init = WrapState {
            out: seq![],
            spans: line.prefix,
            pending: seq![],
            col: prefix_width(line.prefix),
        };
        lemma_wrap_segments_marked(init, line.segments, p);
        let st = wrap_segments(init, line.segments, p);
        let rows = wrap_line(line, width);
        assert forall|k: int| 0 <= k < rows.len() implies (#[trigger] rows[k]).is_code
            == line.is_pre by {
            if k < st.out.len() {
                assert(rows[k] == st.out[k]);
            }
        }
    }
}

/// A span of a wrapped row comes from its line: it is one of the line's prefix spans, the
/// continuation indent, the empty filler span, or a non-empty piece of one segment's text
/// in that segment's style.
pub open spec fn span_from_line(sp: SpanView, line: LineView) -> bool {
    ||| exists|i: int| 0 <= i < line.prefix.len() && line.prefix[i] == sp
    ||| sp == span(repeat(' ', line.continuation_indent as nat), Style::empty())
    ||| sp == span(seq![], Style::empty())
    ||| exists|k: int, a: int, b: int|
        0 <= k < line.segments.len() && 0 <= a < b <= line.segments[k].text.len() && sp == span(
            #[trigger] line.segments[k].text.subrange(a, b),
            line.segments[k].style,
        )
}

/// Every span of the finished rows and of the open row comes from the line.
pub open spec fn spans_from_line(st: WrapState, line: LineView) -> bool {
    &&& forall|r: int, i: int|
        0 <= r < st.out.len() && 0 <= i < st.out[r].spans.len() ==> span_from_line(
            #[trigger] st.out[r].spans[i],
            line,
        )
    &&& forall|i: int| 0 <= i < st.spans.len() ==> span_from_line(#[trigger] st.spans[i], line)
}

proof fn lemma_segment_piece(line: LineView, k: int, a: int, b: int)
    requires
        0 <= k < line.segments.len(),
        0 <= a < b <= line.segments[k].text.len(),
    ensures
        span_from_line(span(line.segments[k].text.subrange(a, b), line.segments[k].style), line),
{
    let sp = span(line.segments[k].text.subrange(a, b), line.segments[k].style);
    assert(0 <= k < line.segments.len() && 0 <= a < b <= line.segments[k].text.len() && sp
        == span(line.segments[k].text.subrange(a, b), line.segments[k].style));
}

proof fn lemma_wrap_chars_from(
    st: WrapState,
    line: LineView,
    k: int,
    j: int,
    p: WrapParams,
) -> (a: int)
    requires
        0 <= k < line.segments.len(),
        0 <= j <= line.segments[k].text.len(),
        p.indent == repeat(' ', line.continuation_indent as nat),
        spans_from_line(st, line),
        st.pending.len() == 0,
    ensures
        spans_from_line(
            wrap_chars(st, line.segments[k].text.take(j), line.segments[k].style, p),
            line,
        ),
        0 <= a <= j,
        wrap_chars(st, line.segments[k].text.take(j), line.segments[k].style, p).pending
            == line.segments[k].text.subrange(a, j),
    decreases j,
{
    let text = line.segments[k].text;
    let style = line.segments[k].style;
    if j == 0 {
        assert(text.take(0) =~= Seq::<char>::empty());
        assert(st.pending =~= text.subrange(0, 0));
        0
    } else {
        let a0 = lemma_wrap_chars_from(st, line, k, j - 1, p);
        assert(text.take(j).drop_last() =~= text.take(j - 1));
        assert(text.take(j).last() == text[j - 1]);
        let s1 = wrap_chars(st, text.take(j - 1), style, p);
        let ch = text[j - 1];
        let r = wrap_char(s1, ch, style, p);
        assert(wrap_chars(st, text.take(j), style, p) == r);
        let cw = column_width(ch, s1.col);
        if s1.col + cw > p.width && (s1.spans.len() > 0 || s1.pending.len() > 0) {
            let closed = if s1.pending.len() > 0 {
                s1.spans.push(span(s1.pending, style))
            } else {
                s1.spans
            };
            if s1.pending.len() > 0 {
                lemma_segment_piece(line, k, a0, j - 1);
            }
            assert forall|i: int| 0 <= i < closed.len() implies span_from_line(
                #[trigger] closed[i],
                line,
            ) by {
                if i < s1.spans.len() {
                    assert(closed[i] == s1.spans[i]);
                }
            }
            let row = RowView { spans: closed, is_code: p.is_pre };
            assert forall|rr: int, i: int|
                0 <= rr < r.out.len() && 0 <= i < r.out[rr].spans.len() implies span_from_line(
                #[trigger] r.out[rr].spans[i],
                line,
            ) by {
                if rr < s1.out.len() {
                    assert(r.out[rr] == s1.out[rr]);
                } else {
                    assert(r.out[rr] == row);
                }
            }
            if !p.is_pre && is_ws(ch) {
                assert(r.pending =~= text.subrange(j, j));
                j
            } else {
                assert(r.pending =~= text.subrange(j - 1, j));
                j - 1
            }
        } else {
            assert(r.pending =~= text.subrange(a0, j));
            a0
        }
    }
}

proof fn lemma_wrap_segments_from(init: WrapState, line: LineView, i: int, p: WrapParams)
    requires
        0 <= i <= line.segments.len(),
        p.indent == repeat(' ', line.continuation_indent as nat),
        spans_from_line(init, line),
        init.pending.len() == 0,
    ensures
        spans_from_line(wrap_segments(init, line.segments.take(i), p), line),
        wrap_segments(init, line.segments.take(i), p).pending.len() == 0,
    decreases i,
{
    if i == 0 {
        assert(line.segments.take(0) =~= Seq::<SpanView>::empty());
    } else {
        lemma_wrap_segments_from(init, line, i - 1, p);
        let segs = line.segments.take(i);
        assert(segs.drop_last() =~= line.segments.take(i - 1));
        assert(segs.last() == line.segments[i - 1]);
        let prev = wrap_segments(init, line.segments.take(i - 1), p);
        let seg = line.segments[i - 1];
        let len = seg.text.len() as int;
        let a = lemma_wrap_chars_from(prev, line, i - 1, len, p);
        assert(seg.text.take(len) =~= seg.text);
        let s1 = wrap_chars(prev, seg.text, seg.style, p);
        if s1.pending.len() > 0 {
            lemma_segment_piece(line, i - 1, a, len);
            let ns = s1.spans.push(span(s1.pending, seg.style));
            assert forall|q: int| 0 <= q < ns.len() implies span_from_line(#[trigger] ns[q], line) by {
                if q < s1.spans.len() {
                    assert(ns[q] == s1.spans[q]);
                }
            }
        }
    }
}

/// Wrapping keeps styles: every span of every row is one of the line's prefix spans, the
/// continuation indent (unstyled), the empty filler span, or a non-empty piece of a single
/// segment carrying that segment's style.
pub proof fn lemma_wrap_keeps_styles(line: LineView, width: u16)
    ensures
        forall|r: int, i: int|
            0 <= r < wrap_line(line, width).len() && 0 <= i < wrap_line(line, width)[r].spans.len()
                ==> span_from_line(#[trigger] wrap_line(line, width)[r].spans[i], line),
{
    let rows = wrap_line(line, width);
    if !is_blank_break(line) {
        let p = wrap_params(line, width);
        let init = WrapState {
            out: seq![],
            spans: line.prefix,
            pending: seq![],
            col: prefix_width(line.prefix),
        };
        assert forall|i: int| 0 <= i < init.spans.len() implies span_from_line(
            #[trigger] init.spans[i],
            line,
        ) by {
            assert(line.prefix[i] == init.spans[i]);
        }
        lemma_wrap_segments_from(init, line, line.segments.len() as int, p);
        assert(line.segments.take(line.segments.len() as int) =~= line.segments);
        let st = wrap_segments(init, line.segments, p);
        let last = if st.spans.len() == 0 {
            seq![span(seq![], Style::empty())]
        } else {
            st.spans
        };
        assert forall|r: int, i: int| 0 <= r < rows.len() && 0 <= i < rows[r].spans.len()
            implies span_from_line(#[trigger] rows[r].spans[i], line) by {
            if r < st.out.len() {
                assert(rows[r] == st.out[r]);
            } else {
                assert(rows[r].spans == last);
            }
        }
    }
}

} // verus!
