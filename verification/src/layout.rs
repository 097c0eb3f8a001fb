//! Rich lines: styled spans grouped into logical lines with a line prefix (bullets, quote
//! bars), and the layout context that the tree walk fills.
use vstd::prelude::*;
use crate::style::{dim_color, deepseek_sky, sky, text_dim, Style, ITALIC};
use crate::text::{
    is_word, join, lemma_words_law, repeat, repeat_char, split_lines, split_newlines,
    split_whitespace, trim, trimmed, views, words,
};

verus! {

/// A run of text in one style.
pub struct RichSpan {
    pub text: Vec<char>,
    pub style: Style,
}

/// The model of a [`RichSpan`].
#[verifier::ext_equal]
pub struct SpanView {
    pub text: Seq<char>,
    pub style: Style,
}

impl View for RichSpan {
    type V = SpanView;

    open spec fn view(&self) -> SpanView {
        SpanView { text: self.text@, style: self.style }
    }
}

/// The models of a sequence of spans.
pub open spec fn span_views(v: Seq<RichSpan>) -> Seq<SpanView> {
    v.map_values(|s: RichSpan| s@)
}

/// A logical line before wrapping: a prefix repeated on no other row, the content
/// segments, the indent of continuation rows, whether it is preformatted, and whether it
/// is kept even when empty.
pub struct RichLine {
    pub prefix: Vec<RichSpan>,
    pub segments: Vec<RichSpan>,
    pub continuation_indent: usize,
    pub is_pre: bool,
    pub force_blank: bool,
}

/// The model of a [`RichLine`].
#[verifier::ext_equal]
pub struct LineView {
    pub prefix: Seq<SpanView>,
    pub segments: Seq<SpanView>,
    pub continuation_indent: usize,
    pub is_pre: bool,
    pub force_blank: bool,
}

impl View for RichLine {
    type V = LineView;

    open spec fn view(&self) -> LineView {
        LineView {
            prefix: span_views(self.prefix@),
            segments: span_views(self.segments@),
            continuation_indent: self.continuation_indent,
            is_pre: self.is_pre,
            force_blank: self.force_blank,
        }
    }
}

/// The models of a sequence of lines.
pub open spec fn line_views(v: Seq<RichLine>) -> Seq<LineView> {
    v.map_values(|l: RichLine| l@)
}

/// The layout state: finished lines, the line being built, and the counters of the
/// enclosing ordered lists (innermost last).
pub struct RenderContext {
    pub lines: Vec<RichLine>,
    pub current: RichLine,
    pub ordered_stack: Vec<usize>,
}

/// The model of a [`RenderContext`].
#[verifier::ext_equal]
pub struct ContextView {
    pub lines: Seq<LineView>,
    pub current: LineView,
    pub ordered: Seq<usize>,
}

impl View for RenderContext {
    type V = ContextView;

    open spec fn view(&self) -> ContextView {
        ContextView {
            lines: line_views(self.lines@),
            current: self.current@,
            ordered: self.ordered_stack@,
        }
    }
}

/// The text of a sequence of spans, concatenated.
pub open spec fn spans_text(spans: Seq<SpanView>) -> Seq<char>
    decreases spans.len(),
{
    if spans.len() == 0 {
        seq![]
    } else {
        spans_text(spans.drop_last()) + spans.last().text
    }
}

/// A span with the given text and style.
pub open spec fn span(text: Seq<char>, style: Style) -> SpanView {
    SpanView { text, style }
}

/// The empty line.
pub open spec fn empty_line() -> LineView {
    LineView {
        prefix: seq![],
        segments: seq![],
        continuation_indent: 0,
        is_pre: false,
        force_blank: false,
    }
}

/// The empty context.
pub open spec fn empty_context() -> ContextView {
    ContextView { lines: seq![], current: empty_line(), ordered: seq![] }
}

/// The context with its current line replaced.
pub open spec fn with_current(c: ContextView, line: LineView) -> ContextView {
    ContextView { current: line, ..c }
}

/// Appends one word to the current line, separated by a space from earlier content.
pub open spec fn push_word(c: ContextView, w: Seq<char>, style: Style) -> ContextView {
    let seg = c.current.segments;
    let spaced = if seg.len() > 0 {
        seg.push(span(seq![' '], style))
    } else {
        seg
    };
    with_current(c, LineView { segments: spaced.push(span(w, style)), ..c.current })
}

/// Appends words to the current line, in order.
pub open spec fn push_words(c: ContextView, ws: Seq<Seq<char>>, style: Style) -> ContextView
    decreases ws.len(),
{
    if ws.len() == 0 {
        c
    } else {
        push_word(push_words(c, ws.drop_last(), style), ws.last(), style)
    }
}

/// Appends the words of `text` to the current line: whitespace collapses to single spaces.
pub open spec fn push_text(c: ContextView, text: Seq<char>, style: Style) -> ContextView {
    push_words(c, words(text), style)
}

/// The current line has something to show.
pub open spec fn line_is_kept(l: LineView) -> bool {
    l.force_blank || l.prefix.len() > 0 || l.segments.len() > 0
}

/// Ends the current line: it is kept when it has content, a prefix, or is forced blank.
pub open spec fn finish(c: ContextView) -> ContextView {
    if line_is_kept(c.current) {
        ContextView { lines: c.lines.push(c.current), current: empty_line(), ..c }
    } else {
        c
    }
}

/// Ends the current line, keeping it even when it is empty (a line break).
pub open spec fn finish_allow_blank(c: ContextView) -> ContextView {
    if c.current.prefix.len() == 0 && c.current.segments.len() == 0 {
        finish(with_current(c, LineView { force_blank: true, ..c.current }))
    } else {
        finish(c)
    }
}

/// The style of decorations: rules, separators and link targets.
pub open spec fn dim_style() -> Style {
    Style::empty().with_fg(text_dim())
}

/// A horizontal rule: forty box-drawing dashes.
pub open spec fn rule_line() -> LineView {
    LineView { segments: seq![span(repeat('\u{2500}', 40), dim_style())], ..empty_line() }
}

/// Appends a horizontal rule as a finished line.
pub open spec fn push_rule(c: ContextView) -> ContextView {
    ContextView { lines: c.lines.push(rule_line()), ..c }
}

/// The style of preformatted text.
pub open spec fn code_style() -> Style {
    Style::empty().with_fg(sky()).with_modifier(ITALIC)
}

/// One row of preformatted text.
pub open spec fn pre_line(raw: Seq<char>) -> LineView {
    LineView {
        segments: seq![span(raw, code_style())],
        continuation_indent: 2,
        is_pre: true,
        ..empty_line()
    }
}

/// Appends preformatted text as finished lines, one per `'\n'`-separated row, after
/// trimming newlines at both ends.
pub open spec fn push_pre(c: ContextView, text: Seq<char>) -> ContextView {
    ContextView {
        lines: c.lines + split_lines(trim(text, true)).map_values(|raw: Seq<char>| pre_line(raw)),
        ..c
    }
}

impl RichLine {
    /// The empty line.
    pub fn new() -> (r: RichLine)
        ensures
            r@ == empty_line(),
    {
        let r = RichLine {
            prefix: Vec::new(),
            segments: Vec::new(),
            continuation_indent: 0,
            is_pre: false,
            force_blank: false,
        };
        assert(r@ =~= empty_line());
        r
    }
}

/// Pushing onto a vector of spans pushes the model.
pub proof fn lemma_span_views_push(v: Seq<RichSpan>, s: RichSpan)
    ensures
        span_views(v.push(s)) == span_views(v).push(s@),
{
    assert(span_views(v.push(s)) =~= span_views(v).push(s@));
}

/// Pushing onto a vector of lines pushes the model.
pub proof fn lemma_line_views_push(v: Seq<RichLine>, l: RichLine)
    ensures
        line_views(v.push(l)) == line_views(v).push(l@),
{
    assert(line_views(v.push(l)) =~= line_views(v).push(l@));
}

impl RenderContext {
    /// The empty context.
    pub fn new() -> (r: RenderContext)
        ensures
            r@ == empty_context(),
    {
        let r = RenderContext { lines: Vec::new(), current: RichLine::new(), ordered_stack: Vec::new() };
        assert(r@.lines =~= Seq::<LineView>::empty());
        assert(r@ =~= empty_context());
        r
    }

    /// Appends one word to the current line.
    fn push_word(&mut self, w: Vec<char>, style: Style)
        ensures
            final(self)@ == push_word(old(self)@, w@, style),
    {
        let ghost c = self@;
        if self.current_has_text() {
            let mut space: Vec<char> = Vec::new();
            space.push(' ');
            let sp = RichSpan { text: space, style };
            proof {
                lemma_span_views_push(self.current.segments@, sp);
            }
            self.current.segments.push(sp);
        }
        let ws = RichSpan { text: w, style };
        proof {
            lemma_span_views_push(self.current.segments@, ws);
        }
        self.current.segments.push(ws);
        assert(self@ =~= push_word(c, w@, style));
    }

    /// Appends the words of `text` to the current line.
    pub fn push_text(&mut self, text: &[char], style: Style)
        ensures
            final(self)@ == push_text(old(self)@, text@, style),
            final(self)@.ordered == old(self)@.ordered,
    {
        let ws = split_whitespace(text);
        let ghost all = views(ws@);
        let ghost c0 = self@;
        let mut i: usize = 0;
        assert(all.take(0) =~= Seq::<Seq<char>>::empty());
        while i < ws.len()
            invariant
                i <= ws@.len(),
                all == views(ws@),
                all == words(text@),
                self@ == push_words(c0, all.take(i as int), style),
                self@.ordered == c0.ordered,
            decreases ws.len() - i,
        {
            let w = crate::text::copy_range(ws[i].as_slice(), 0, ws[i].len());
            assert(w@ =~= all[i as int]);
            self.push_word(w, style);
            i = i + 1;
            assert(all.take(i as int).drop_last() =~= all.take(i - 1));
        }
        assert(all.take(ws@.len() as int) =~= all);
    }

    /// Whether the current line has content segments.
    pub fn current_has_text(&self) -> (r: bool)
        ensures
            r == (self@.current.segments.len() > 0),
    {
        self.current.segments.len() > 0
    }

    /// Ends the current line.
    pub fn finish_current(&mut self)
        ensures
            final(self)@ == finish(old(self)@),
    {
        if self.current.force_blank || self.current.prefix.len() > 0
            || self.current.segments.len() > 0 {
            let mut line = RichLine::new();
            std::mem::swap(&mut line, &mut self.current);
            proof {
                lemma_line_views_push(self.lines@, line);
            }
            self.lines.push(line);
        }
    }

    /// Ends the current line, keeping it even when empty.
    pub fn finish_current_allow_blank(&mut self)
        ensures
            final(self)@ == finish_allow_blank(old(self)@),
    {
        let ghost c = self@;
        if self.current.prefix.len() == 0 && self.current.segments.len() == 0 {
            self.current.force_blank = true;
            assert(self@ =~= with_current(c, LineView { force_blank: true, ..c.current }));
        }
        self.finish_current();
    }

    /// Appends a horizontal rule as a finished line.
    pub fn push_rule(&mut self)
        ensures
            final(self)@ == push_rule(old(self)@),
    {
        let mut line = RichLine::new();
        let sp = RichSpan { text: repeat_char('\u{2500}', 40), style: Style::new().fg(dim_color()) };
        proof {
            lemma_span_views_push(line.segments@, sp);
        }
        line.segments.push(sp);
        assert(line@ =~= rule_line());
        proof {
            lemma_line_views_push(self.lines@, line);
        }
        self.lines.push(line);
    }

    /// Appends preformatted text as finished lines.
    pub fn push_pre_text(&mut self, text: &[char])
        ensures
            final(self)@ == push_pre(old(self)@, text@),
    {
        let ghost c0 = self@;
        let body = trimmed(text, true);
        let rows = split_newlines(body.as_slice());
        let ghost all = views(rows@);
        let ghost mapped = all.map_values(|raw: Seq<char>| pre_line(raw));
        let mut i: usize = 0;
        assert(c0.lines + mapped.take(0) =~= c0.lines);
        while i < rows.len()
            invariant
                i <= rows@.len(),
                all == views(rows@),
                mapped == all.map_values(|raw: Seq<char>| pre_line(raw)),
                self@ == (ContextView { lines: c0.lines + mapped.take(i as int), ..c0 }),
            decreases rows.len() - i,
        {
            let mut line = RichLine::new();
            let raw = crate::text::copy_range(rows[i].as_slice(), 0, rows[i].len());
            assert(raw@ =~= all[i as int]);
            let sp = RichSpan {
                text: raw,
                style: Style::new().fg(deepseek_sky()).add_modifier(ITALIC),
            };
            proof {
                lemma_span_views_push(line.segments@, sp);
            }
            line.segments.push(sp);
            line.continuation_indent = 2;
            line.is_pre = true;
            assert(line@ =~= pre_line(all[i as int]));
            proof {
                lemma_line_views_push(self.lines@, line);
            }
            self.lines.push(line);
            i = i + 1;
            assert(c0.lines + mapped.take(i as int) =~= (c0.lines + mapped.take(i - 1)).push(
                mapped[i - 1],
            ));
            assert(self@ =~= ContextView { lines: c0.lines + mapped.take(i as int), ..c0 });
        }
        assert(mapped.take(rows@.len() as int) =~= mapped);
    }
}

/// Pushing a span appends its text.
pub proof fn lemma_spans_text_push(spans: Seq<SpanView>, sp: SpanView)
    ensures
        spans_text(spans.push(sp)) == spans_text(spans) + sp.text,
{
    assert(spans.push(sp).drop_last() =~= spans);
}

proof fn lemma_push_words_text(c: ContextView, ws: Seq<Seq<char>>, style: Style)
    ensures
        ws.len() > 0 ==> push_words(c, ws, style).current.segments.len() > 0,
        spans_text(push_words(c, ws, style).current.segments) == spans_text(c.current.segments)
            + (if c.current.segments.len() > 0 && ws.len() > 0 {
            seq![' ']
        } else {
            seq![]
        }) + join(ws, seq![' ']),
    decreases ws.len(),
{
    let base = spans_text(c.current.segments);
    if ws.len() == 0 {
        assert(base + Seq::<char>::empty() + join(ws, seq![' ']) =~= base);
    } else {
        let prev = ws.drop_last();
        lemma_push_words_text(c, prev, style);
        let before = push_words(c, prev, style).current.segments;
        let w = ws.last();
        if before.len() > 0 {
            lemma_spans_text_push(before, span(seq![' '], style));
            lemma_spans_text_push(before.push(span(seq![' '], style)), span(w, style));
        } else {
            lemma_spans_text_push(before, span(w, style));
        }
        if prev.len() == 0 {
            assert(join(ws, seq![' ']) == w);
            if c.current.segments.len() > 0 {
                assert(spans_text(push_words(c, ws, style).current.segments) =~= base + seq![' ']
                    + w);
            } else {
                assert(spans_text(push_words(c, ws, style).current.segments) =~= base
                    + Seq::<char>::empty() + w);
            }
        } else {
            let sep: Seq<char> = if c.current.segments.len() > 0 {
                seq![' ']
            } else {
                seq![]
            };
            assert(join(ws, seq![' ']) == join(prev, seq![' ']) + seq![' '] + w);
            assert(spans_text(push_words(c, ws, style).current.segments) =~= base + sep + (join(
                prev,
                seq![' '],
            ) + seq![' '] + w));
        }
    }
}

/// Pushing text adds its words to the current line separated by single spaces, with one
/// space before them when the line already has content: whitespace runs collapse.
pub proof fn lemma_push_text_collapses_whitespace(c: ContextView, text: Seq<char>, style: Style)
    ensures
        spans_text(push_text(c, text, style).current.segments) == spans_text(c.current.segments)
            + (if c.current.segments.len() > 0 && words(text).len() > 0 {
            seq![' ']
        } else {
            seq![]
        }) + join(words(text), seq![' ']),
        forall|i: int| 0 <= i < words(text).len() ==> is_word(#[trigger] words(text)[i]),
{
    lemma_push_words_text(c, words(text), style);
    lemma_words_law(text);
}

proof fn lemma_push_words_concat(c: ContextView, w1: Seq<Seq<char>>, w2: Seq<Seq<char>>, style: Style)
    ensures
        push_words(c, w1 + w2, style) == push_words(push_words(c, w1, style), w2, style),
    decreases w2.len(),
{
    if w2.len() == 0 {
        assert(w1 + w2 =~= w1);
    } else {
        lemma_push_words_concat(c, w1, w2.drop_last(), style);
        assert((w1 + w2).drop_last() =~= w1 + w2.drop_last());
        assert((w1 + w2).last() == w2.last());
    }
}

/// Pushing two texts one after the other is pushing them whole, joined by a space.
pub proof fn lemma_push_text_in_pieces(c: ContextView, a: Seq<char>, b: Seq<char>, style: Style)
    ensures
        push_text(push_text(c, a, style), b, style) == push_text(c, a + seq![' '] + b, style),
{
    crate::text::lemma_words_split(a, b);
    lemma_push_words_concat(c, words(a), words(b), style);
}

/// A preformatted block appends one code row per newline-separated line of its
/// newline-trimmed text, blank lines included: as many rows as newlines plus one, each a
/// single span without newlines, and their texts joined by newlines give the trimmed text.
pub proof fn lemma_pre_rows(c: ContextView, text: Seq<char>)
    ensures
        ({
            let t = trim(text, true);
            let r = push_pre(c, text).lines;
            let n = crate::text::newline_count(t) + 1;
            &&& r.len() == c.lines.len() + n
            &&& forall|i: int| 0 <= i < c.lines.len() ==> r[i] == c.lines[i]
            &&& forall|k: int|
                0 <= k < n ==> (#[trigger] r[c.lines.len() + k]).is_pre
                    && r[c.lines.len() + k].segments.len() == 1
                    && !r[c.lines.len() + k].segments[0].text.contains('\n')
            &&& join(Seq::new(n, |k: int| r[c.lines.len() + k].segments[0].text), seq!['\n']) == t
        }),
{
    let t = trim(text, true);
    crate::text::lemma_split_lines_law(t);
    let pieces = split_lines(t);
    let r = push_pre(c, text).lines;
    let n = crate::text::newline_count(t) + 1;
    assert(Seq::new(n, |k: int| r[c.lines.len() + k].segments[0].text) =~= pieces);
}

} // verus!
