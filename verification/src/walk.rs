//! The tree walk: how each kind of HTML node contributes to the layout context.
use vstd::prelude::*;
use crate::dom::{eq_str, text_content, text_content_exec, HtmlNode};
use crate::inline_style::{merge_inline_style, merged_style, opt_view};
use crate::layout::{
    dim_style, finish, finish_allow_blank, lemma_span_views_push, push_pre, push_rule,
    push_text, span, with_current, ContextView, LineView, RenderContext, RichSpan,
};
use crate::style::{
    blue, deepseek_blue, deepseek_sky, dim_color, muted_color, sky, text_muted, Style, BOLD,
    ITALIC, UNDERLINED,
};
use crate::table::{push_table, rows_of};
use crate::text::{chars_of, decimal, push_decimal, trim, trim_bounds};
use crate::width::{str_width, text_width};

verus! {

/// How an element is rendered, decided by its name.
pub enum TagKind {
    /// `script`, `style`, `template`, `noscript`: nothing is rendered.
    Hidden,
    /// `br`: ends the line, keeping it even when empty.
    LineBreak,
    /// `hr`: a horizontal rule on a line of its own.
    Rule,
    /// `h1` to `h6`: a bold accent block.
    Heading,
    /// `p`, `div`, `section`, `article`, `header`, `footer`, `main`, `nav`, `aside`.
    Block,
    /// `blockquote`: a block whose first line carries a quote bar.
    Quote,
    /// `ul`.
    Bullets,
    /// `ol`: opens a counter for its items.
    Numbered,
    /// `li`: a block prefixed with a bullet or the next number.
    Item,
    /// `pre`: the text content, row by row, unwrapped words.
    Preformatted,
    /// `table`.
    Table,
    /// `strong`, `b`.
    Strong,
    /// `em`, `i`.
    Emphasis,
    /// `u`.
    Underline,
    /// `code`, `kbd`, `samp`.
    Code,
    /// `a`: the link text, then its target in parentheses.
    Link,
    /// `img`: its alternative text in brackets.
    Image,
    /// Any other element: its children in the inherited style.
    Inline,
}

/// The kind of an element with the given name.
pub open spec fn tag_kind(name: Seq<char>) -> TagKind {
    if name == "script"@ || name == "style"@ || name == "template"@ || name == "noscript"@ {
        TagKind::Hidden
    } else if name == "br"@ {
        TagKind::LineBreak
    } else if name == "hr"@ {
        TagKind::Rule
    } else if name == "h1"@ || name == "h2"@ || name == "h3"@ || name == "h4"@ || name == "h5"@
        || name == "h6"@ {
        TagKind::Heading
    } else if name == "p"@ || name == "div"@ || name == "section"@ || name == "article"@ || name
        == "header"@ || name == "footer"@ || name == "main"@ || name == "nav"@ || name
        == "aside"@ {
        TagKind::Block
    } else if name == "blockquote"@ {
        TagKind::Quote
    } else if name == "ul"@ {
        TagKind::Bullets
    } else if name == "ol"@ {
        TagKind::Numbered
    } else if name == "li"@ {
        TagKind::Item
    } else if name == "pre"@ {
        TagKind::Preformatted
    } else if name == "table"@ {
        TagKind::Table
    } else if name == "strong"@ || name == "b"@ {
        TagKind::Strong
    } else if name == "em"@ || name == "i"@ {
        TagKind::Emphasis
    } else if name == "u"@ {
        TagKind::Underline
    } else if name == "code"@ || name == "kbd"@ || name == "samp"@ {
        TagKind::Code
    } else if name == "a"@ {
        TagKind::Link
    } else if name == "img"@ {
        TagKind::Image
    } else {
        TagKind::Inline
    }
}

/// The style of headings.
pub open spec fn heading_style(inh: Style) -> Style {
    inh.with_fg(sky()).with_modifier(BOLD)
}

/// The style of quoted text.
pub open spec fn quote_style(inh: Style) -> Style {
    inh.with_modifier(ITALIC).with_fg(text_muted())
}

/// The style of inline code.
pub open spec fn code_inline_style(inh: Style) -> Style {
    inh.with_fg(sky()).with_modifier(ITALIC)
}

/// The style of link text.
pub open spec fn link_style(inh: Style) -> Style {
    inh.with_fg(blue()).with_modifier(UNDERLINED)
}

/// The quote bar that prefixes a quotation.
pub open spec fn quote_bar() -> crate::layout::SpanView {
    span("\u{2502} "@, dim_style())
}

/// Starts a quotation: the current line's prefix becomes the quote bar, with continuation
/// rows indented by 2.
pub open spec fn enter_quote(c: ContextView) -> ContextView {
    with_current(c, LineView { prefix: seq![quote_bar()], continuation_indent: 2, ..c.current })
}

/// Restores the current line's prefix after a quotation.
pub open spec fn leave_quote(c: ContextView, previous: Seq<crate::layout::SpanView>) -> ContextView {
    with_current(c, LineView { prefix: previous, ..c.current })
}

/// Opens a counter for an ordered list, starting at 1.
pub open spec fn push_counter(c: ContextView) -> ContextView {
    ContextView { ordered: c.ordered.push(1usize), ..c }
}

/// Closes the innermost ordered-list counter, if there is one.
pub open spec fn pop_counter(c: ContextView) -> ContextView {
    if c.ordered.len() > 0 {
        ContextView { ordered: c.ordered.drop_last(), ..c }
    } else {
        c
    }
}

/// The marker of a list item: the innermost counter followed by `. `, or a bullet outside
/// ordered lists.
pub open spec fn item_marker(ordered: Seq<usize>) -> Seq<char> {
    if ordered.len() > 0 {
        decimal(ordered.last() as nat) + seq!['.', ' ']
    } else {
        seq!['\u{2022}', ' ']
    }
}

/// Starts a list item: its marker joins the current line's prefix, continuation rows are
/// indented by the marker's width, and the innermost counter (if any) advances.
pub open spec fn enter_item(c: ContextView) -> ContextView {
    let marker = item_marker(c.ordered);
    let ordered = if c.ordered.len() > 0 {
        c.ordered.update(c.ordered.len() - 1, (c.ordered.last() + 1) as usize)
    } else {
        c.ordered
    };
    ContextView {
        ordered,
        current: LineView {
            prefix: c.current.prefix.push(span(marker, Style::empty().with_fg(sky()))),
            continuation_indent: text_width(marker),
            ..c.current
        },
        ..c
    }
}

/// After the link text: the target in parentheses, when the link has a non-blank `href`.
pub open spec fn link_target(c: ContextView, href: Option<Seq<char>>) -> ContextView {
    match href {
        Some(h) => if trim(h, false).len() > 0 {
            push_text(c, seq![' ', '('] + h + seq![')'], dim_style())
        } else {
            c
        },
        None => c,
    }
}

/// The label of an image: its alternative text, or `image`, in brackets.
pub open spec fn image_label(alt: Option<Seq<char>>) -> Seq<char> {
    "[image: "@ + (match alt {
        Some(a) => a,
        None => "image"@,
    }) + "]"@
}

/// The layout context after rendering node `n` in the inherited style `inh`.
pub open spec fn walk(n: HtmlNode, c: ContextView, inh: Style) -> ContextView
    decreases n,
{
    match n {
        HtmlNode::Text(t) => push_text(c, t@, inh),
        HtmlNode::Element { name, style, href, alt, children } => {
            let attr = opt_view(style);
            match tag_kind(name@) {
                TagKind::Hidden => c,
                TagKind::LineBreak => finish_allow_blank(c),
                TagKind::Rule => push_rule(finish(c)),
                TagKind::Heading => finish(
                    walk_all(children@, finish(c), merged_style(attr, heading_style(inh))),
                ),
                TagKind::Block => finish(walk_all(children@, finish(c), merged_style(attr, inh))),
                TagKind::Quote => leave_quote(
                    finish(walk_all(children@, enter_quote(finish(c)), quote_style(inh))),
                    finish(c).current.prefix,
                ),
                TagKind::Bullets => finish(walk_all(children@, finish(c), inh)),
                TagKind::Numbered => finish(
                    pop_counter(walk_all(children@, push_counter(finish(c)), inh)),
                ),
                TagKind::Item => finish(walk_all(children@, enter_item(finish(c)), inh)),
                TagKind::Preformatted => push_pre(finish(c), text_content(n)),
                TagKind::Table => push_table(finish(c), rows_of(n), inh),
                TagKind::Strong => walk_all(children@, c, merged_style(attr, inh.with_modifier(BOLD))),
                TagKind::Emphasis => walk_all(
                    children@,
                    c,
                    merged_style(attr, inh.with_modifier(ITALIC)),
                ),
                TagKind::Underline => walk_all(
                    children@,
                    c,
                    merged_style(attr, inh.with_modifier(UNDERLINED)),
                ),
                TagKind::Code => walk_all(children@, c, merged_style(attr, code_inline_style(inh))),
                TagKind::Link => link_target(
                    walk_all(children@, c, merged_style(attr, link_style(inh))),
                    opt_view(href),
                ),
                TagKind::Image => push_text(c, image_label(opt_view(alt)), dim_style()),
                TagKind::Inline => walk_all(children@, c, merged_style(attr, inh)),
            }
        },
        HtmlNode::Other(_) => c,
    }
}

/// The layout context after rendering a sequence of sibling nodes in order.
pub open spec fn walk_all(ns: Seq<HtmlNode>, c: ContextView, inh: Style) -> ContextView
    decreases ns,
{
    if ns.len() == 0 {
        c
    } else {
        walk(ns.last(), walk_all(ns.drop_last(), c, inh), inh)
    }
}

/// The number of list items at and below a node.
pub open spec fn item_count(n: HtmlNode) -> nat
    decreases n,
{
    match n {
        HtmlNode::Text(_) => 0,
        HtmlNode::Element { name, children, .. } => (if tag_kind(name@) is Item {
            1nat
        } else {
            0nat
        }) + item_count_all(children@),
        HtmlNode::Other(children) => item_count_all(children@),
    }
}

/// The number of list items in a sequence of nodes.
pub open spec fn item_count_all(ns: Seq<HtmlNode>) -> nat
    decreases ns,
{
    if ns.len() == 0 {
        0
    } else {
        item_count_all(ns.drop_last()) + item_count(ns.last())
    }
}

/// The ordered-list counters leave room for `n` more items without overflow.
pub open spec fn counters_fit(ordered: Seq<usize>, n: nat) -> bool {
    &&& n + 1 < usize::MAX
    &&& forall|i: int| 0 <= i < ordered.len() ==> ordered[i] + n < usize::MAX
}

/// The counters `now` are the counters `before`, each advanced by at most `n`.
pub open spec fn advanced_by_at_most(now: Seq<usize>, before: Seq<usize>, n: nat) -> bool {
    &&& now.len() == before.len()
    &&& forall|i: int| 0 <= i < now.len() ==> now[i] <= before[i] + n
}

/// A prefix of a node sequence holds no more list items than the whole.
pub proof fn lemma_item_count_prefix(ns: Seq<HtmlNode>, j: int)
    requires
        0 <= j <= ns.len(),
    ensures
        item_count_all(ns.take(j)) <= item_count_all(ns),
    decreases ns.len(),
{
    if j == ns.len() {
        assert(ns.take(j) =~= ns);
    } else {
        lemma_item_count_prefix(ns.drop_last(), j);
        assert(ns.drop_last().take(j) =~= ns.take(j));
    }
}

/// The kind of an element with the given name.
pub fn classify(name: &[char]) -> (r: TagKind)
    ensures
        r == tag_kind(name@),
{
    if eq_str(name, "script") || eq_str(name, "style") || eq_str(name, "template") || eq_str(
        name,
        "noscript",
    ) {
        TagKind::Hidden
    } else if eq_str(name, "br") {
        TagKind::LineBreak
    } else if eq_str(name, "hr") {
        TagKind::Rule
    } else if eq_str(name, "h1") || eq_str(name, "h2") || eq_str(name, "h3") || eq_str(name, "h4")
        || eq_str(name, "h5") || eq_str(name, "h6") {
        TagKind::Heading
    } else if eq_str(name, "p") || eq_str(name, "div") || eq_str(name, "section") || eq_str(
        name,
        "article",
    ) || eq_str(name, "header") || eq_str(name, "footer") || eq_str(name, "main") || eq_str(
        name,
        "nav",
    ) || eq_str(name, "aside") {
        TagKind::Block
    } else if eq_str(name, "blockquote") {
        TagKind::Quote
    } else if eq_str(name, "ul") {
        TagKind::Bullets
    } else if eq_str(name, "ol") {
        TagKind::Numbered
    } else if eq_str(name, "li") {
        TagKind::Item
    } else if eq_str(name, "pre") {
        TagKind::Preformatted
    } else if eq_str(name, "table") {
        TagKind::Table
    } else if eq_str(name, "strong") || eq_str(name, "b") {
        TagKind::Strong
    } else if eq_str(name, "em") || eq_str(name, "i") {
        TagKind::Emphasis
    } else if eq_str(name, "u") {
        TagKind::Underline
    } else if eq_str(name, "code") || eq_str(name, "kbd") || eq_str(name, "samp") {
        TagKind::Code
    } else if eq_str(name, "a") {
        TagKind::Link
    } else if eq_str(name, "img") {
        TagKind::Image
    } else {
        TagKind::Inline
    }
}

impl RenderContext {
    /// Starts a quotation; returns the prefix it replaced.
    fn enter_quote(&mut self) -> (previous: Vec<RichSpan>)
        ensures
            final(self)@ == enter_quote(old(self)@),
            crate::layout::span_views(previous@) == old(self)@.current.prefix,
    {
        let ghost c = self@;
        let mut previous: Vec<RichSpan> = Vec::new();
        std::mem::swap(&mut previous, &mut self.current.prefix);
        let bar = RichSpan { text: chars_of("\u{2502} "), style: Style::new().fg(dim_color()) };
        proof {
            lemma_span_views_push(self.current.prefix@, bar);
        }
        self.current.prefix.push(bar);
        self.current.continuation_indent = 2;
        assert(self@.current.prefix =~= seq![quote_bar()]);
        assert(self@ =~= enter_quote(c));
        previous
    }

    /// Restores the prefix saved by `enter_quote`.
    fn leave_quote(&mut self, previous: Vec<RichSpan>)
        ensures
            final(self)@ == leave_quote(old(self)@, crate::layout::span_views(previous@)),
    {
        let ghost c = self@;
        self.current.prefix = previous;
        assert(self@ =~= leave_quote(c, crate::layout::span_views(previous@)));
    }

    /// Starts a list item.
    fn enter_item(&mut self)
        requires
            old(self)@.ordered.len() > 0 ==> old(self)@.ordered.last() + 1 < usize::MAX,
        ensures
            final(self)@ == enter_item(old(self)@),
    {
        let ghost c = self@;
        let mut marker: Vec<char> = Vec::new();
        let n = self.ordered_stack.len();
        if n > 0 {
            let next = self.ordered_stack[n - 1];
            push_decimal(&mut marker, next);
            marker.push('.');
            marker.push(' ');
            self.ordered_stack.set(n - 1, next + 1);
        } else {
            marker.push('\u{2022}');
            marker.push(' ');
        }
        assert(marker@ =~= item_marker(c.ordered));
        let width = str_width(marker.as_slice());
        let sp = RichSpan { text: marker, style: Style::new().fg(deepseek_sky()) };
        proof {
            lemma_span_views_push(self.current.prefix@, sp);
        }
        self.current.prefix.push(sp);
        self.current.continuation_indent = width;
        assert(self@ =~= enter_item(c));
    }

    /// Appends a link's target after its text.
    fn push_link_target(&mut self, href: &Option<Vec<char>>)
        ensures
            final(self)@ == link_target(old(self)@, opt_view(*href)),
            final(self)@.ordered == old(self)@.ordered,
    {
        match href {
            Some(h) => {
                let (a, b) = trim_bounds(h.as_slice(), false);
                if b > a {
                    let mut t: Vec<char> = Vec::new();
                    t.push(' ');
                    t.push('(');
                    crate::text::append_chars(&mut t, h.as_slice());
                    t.push(')');
                    assert(t@ =~= seq![' ', '('] + h@ + seq![')']);
                    self.push_text(t.as_slice(), Style::new().fg(dim_color()));
                }
            },
            None => {},
        }
    }

    /// Appends the label of an image.
    fn push_image_label(&mut self, alt: &Option<Vec<char>>)
        ensures
            final(self)@ == push_text(old(self)@, image_label(opt_view(*alt)), dim_style()),
            final(self)@.ordered == old(self)@.ordered,
    {
        let mut t = chars_of("[image: ");
        match alt {
            Some(a) => crate::text::append_chars(&mut t, a.as_slice()),
            None => crate::text::append_chars(&mut t, chars_of("image").as_slice()),
        }
        crate::text::append_chars(&mut t, chars_of("]").as_slice());
        assert(t@ =~= image_label(opt_view(*alt)));
        self.push_text(t.as_slice(), Style::new().fg(dim_color()));
    }
}

/// Renders a sequence of sibling nodes in order.
pub fn walk_children(children: &Vec<HtmlNode>, ctx: &mut RenderContext, style: Style)
    requires
        counters_fit(old(ctx)@.ordered, item_count_all(children@)),
    ensures
        final(ctx)@ == walk_all(children@, old(ctx)@, style),
        advanced_by_at_most(final(ctx)@.ordered, old(ctx)@.ordered, item_count_all(children@)),
        outer_counters_kept(final(ctx)@.ordered, old(ctx)@.ordered),
    decreases children,
{
    proof {
        lemma_walk_all_counters(children@, ctx@, style);
    }
    let ghost c0 = ctx@;
    let mut i: usize = 0;
    assert(children@.take(0) =~= Seq::<HtmlNode>::empty());
    while i < children.len()
        invariant
            i <= children@.len(),
            counters_fit(c0.ordered, item_count_all(children@)),
            ctx@ == walk_all(children@.take(i as int), c0, style),
            advanced_by_at_most(ctx@.ordered, c0.ordered, item_count_all(children@.take(i as int))),
        decreases children.len() - i,
    {
        proof {
            assert(decreases_to!(children => children@[i as int]));
            lemma_item_count_prefix(children@, i + 1);
            assert(children@.take(i + 1).drop_last() =~= children@.take(i as int));
            assert(children@.take(i + 1).last() == children@[i as int]);
        }
        walk_node(&children[i], ctx, style);
        i = i + 1;
    }
    assert(children@.take(children@.len() as int) =~= children@);
}

/// Renders one node in the inherited style.
pub fn walk_node(node: &HtmlNode, ctx: &mut RenderContext, inherited_style: Style)
    requires
        counters_fit(old(ctx)@.ordered, item_count(*node)),
    ensures
        final(ctx)@ == walk(*node, old(ctx)@, inherited_style),
        advanced_by_at_most(final(ctx)@.ordered, old(ctx)@.ordered, item_count(*node)),
        outer_counters_kept(final(ctx)@.ordered, old(ctx)@.ordered),
    decreases node,
{
    proof {
        lemma_walk_counters(*node, ctx@, inherited_style);
    }
    let ghost c = ctx@;
    match node {
        HtmlNode::Text(t) => {
            ctx.push_text(t.as_slice(), inherited_style);
        },
        HtmlNode::Element { name, style, href, alt, children } => {
            let kind = classify(name.as_slice());
            match kind {
                TagKind::Hidden => {},
                TagKind::LineBreak => {
                    ctx.finish_current_allow_blank();
                },
                TagKind::Rule => {
                    ctx.finish_current();
                    ctx.push_rule();
                },
                TagKind::Heading => {
                    ctx.finish_current();
                    let s = merge_inline_style(
                        style,
                        inherited_style.fg(deepseek_sky()).add_modifier(BOLD),
                    );
                    walk_children(children, ctx, s);
                    ctx.finish_current();
                },
                TagKind::Block => {
                    ctx.finish_current();
                    let s = merge_inline_style(style, inherited_style);
                    walk_children(children, ctx, s);
                    ctx.finish_current();
                },
                TagKind::Quote => {
                    ctx.finish_current();
                    let previous = ctx.enter_quote();
                    walk_children(children, ctx, inherited_style.italic().fg(muted_color()));
                    ctx.finish_current();
                    ctx.leave_quote(previous);
                },
                TagKind::Bullets => {
                    ctx.finish_current();
                    walk_children(children, ctx, inherited_style);
                    ctx.finish_current();
                },
                TagKind::Numbered => {
                    ctx.finish_current();
                    ctx.ordered_stack.push(1);
                    walk_children(children, ctx, inherited_style);
                    ctx.ordered_stack.pop();
                    ctx.finish_current();
                },
                TagKind::Item => {
                    ctx.finish_current();
                    ctx.enter_item();
                    walk_children(children, ctx, inherited_style);
                    ctx.finish_current();
                },
                TagKind::Preformatted => {
                    ctx.finish_current();
                    let text = text_content_exec(node);
                    ctx.push_pre_text(text.as_slice());
                },
                TagKind::Table => {
                    ctx.finish_current();
                    ctx.push_table(node, inherited_style);
                },
                TagKind::Strong => {
                    let s = merge_inline_style(style, inherited_style.add_modifier(BOLD));
                    walk_children(children, ctx, s);
                },
                TagKind::Emphasis => {
                    let s = merge_inline_style(style, inherited_style.add_modifier(ITALIC));
                    walk_children(children, ctx, s);
                },
                TagKind::Underline => {
                    let s = merge_inline_style(style, inherited_style.add_modifier(UNDERLINED));
                    walk_children(children, ctx, s);
                },
                TagKind::Code => {
                    let s = merge_inline_style(
                        style,
                        inherited_style.fg(deepseek_sky()).add_modifier(ITALIC),
                    );
                    walk_children(children, ctx, s);
                },
                TagKind::Link => {
                    let s = merge_inline_style(
                        style,
                        inherited_style.fg(deepseek_blue()).add_modifier(UNDERLINED),
                    );
                    walk_children(children, ctx, s);
                    ctx.push_link_target(href);
                },
                TagKind::Image => {
                    ctx.push_image_label(alt);
                },
                TagKind::Inline => {
                    let s = merge_inline_style(style, inherited_style);
                    walk_children(children, ctx, s);
                },
            }
        },
        HtmlNode::Other(_) => {},
    }
}

/// Elements whose content is never shown (`script`, `style`, `template`, `noscript`)
/// leave the layout unchanged.
pub proof fn lemma_hidden_elements_render_nothing(n: HtmlNode, c: ContextView, inh: Style)
    requires
        n matches HtmlNode::Element { name, .. } && tag_kind(name@) is Hidden,
    ensures
        walk(n, c, inh) == c,
{
}

/// `a` extends `b`: it starts with all of `b`'s lines.
pub open spec fn extends(a: Seq<LineView>, b: Seq<LineView>) -> bool {
    &&& b.len() <= a.len()
    &&& forall|i: int| 0 <= i < b.len() ==> a[i] == b[i]
}

proof fn lemma_push_words_keeps_lines(c: ContextView, ws: Seq<Seq<char>>, style: Style)
    ensures
        crate::layout::push_words(c, ws, style).lines == c.lines,
        crate::layout::push_words(c, ws, style).ordered == c.ordered,
    decreases ws.len(),
{
    if ws.len() > 0 {
        lemma_push_words_keeps_lines(c, ws.drop_last(), style);
    }
}

proof fn lemma_push_text_keeps_lines(c: ContextView, text: Seq<char>, style: Style)
    ensures
        push_text(c, text, style).lines == c.lines,
        push_text(c, text, style).ordered == c.ordered,
{
    lemma_push_words_keeps_lines(c, crate::text::words(text), style);
}

/// Rendering a node only appends finished lines: the lines finished before are kept.
pub proof fn lemma_walk_appends(n: HtmlNode, c: ContextView, inh: Style)
    ensures
        extends(walk(n, c, inh).lines, c.lines),
    decreases n,
{
    match n {
        HtmlNode::Text(t) => {
            lemma_push_text_keeps_lines(c, t@, inh);
        },
        HtmlNode::Element { name, style, href, alt, children } => {
            let attr = opt_view(style);
            let f = finish(c);
            match tag_kind(name@) {
                TagKind::Heading => {
                    lemma_walk_all_appends(children@, f, merged_style(attr, heading_style(inh)));
                },
                TagKind::Block => {
                    lemma_walk_all_appends(children@, f, merged_style(attr, inh));
                },
                TagKind::Quote => {
                    lemma_walk_all_appends(children@, enter_quote(f), quote_style(inh));
                },
                TagKind::Bullets => {
                    lemma_walk_all_appends(children@, f, inh);
                },
                TagKind::Numbered => {
                    lemma_walk_all_appends(children@, push_counter(f), inh);
                },
                TagKind::Item => {
                    lemma_walk_all_appends(children@, enter_item(f), inh);
                },
                TagKind::Table => {
                    crate::table::lemma_table_rows_aligned(f, rows_of(n), inh);
                },
                TagKind::Strong => {
                    lemma_walk_all_appends(children@, c, merged_style(attr, inh.with_modifier(BOLD)));
                },
                TagKind::Emphasis => {
                    lemma_walk_all_appends(children@, c, merged_style(attr, inh.with_modifier(ITALIC)));
                },
                TagKind::Underline => {
                    lemma_walk_all_appends(
                        children@,
                        c,
                        merged_style(attr, inh.with_modifier(UNDERLINED)),
                    );
                },
                TagKind::Code => {
                    lemma_walk_all_appends(children@, c, merged_style(attr, code_inline_style(inh)));
                },
                TagKind::Link => {
                    let s = merged_style(attr, link_style(inh));
                    lemma_walk_all_appends(children@, c, s);
                    match opt_view(href) {
                        Some(h) => {
                            lemma_push_text_keeps_lines(
                                walk_all(children@, c, s),
                                seq![' ', '('] + h + seq![')'],
                                dim_style(),
                            );
                        },
                        None => {},
                    }
                },
                TagKind::Image => {
                    lemma_push_text_keeps_lines(c, image_label(opt_view(alt)), dim_style());
                },
                TagKind::Inline => {
                    lemma_walk_all_appends(children@, c, merged_style(attr, inh));
                },
                _ => {},
            }
        },
        HtmlNode::Other(_) => {},
    }
}

/// Rendering a sequence of nodes only appends finished lines.
pub proof fn lemma_walk_all_appends(ns: Seq<HtmlNode>, c: ContextView, inh: Style)
    ensures
        extends(walk_all(ns, c, inh).lines, c.lines),
    decreases ns,
{
    if ns.len() > 0 {
        lemma_walk_all_appends(ns.drop_last(), c, inh);
        lemma_walk_appends(ns.last(), walk_all(ns.drop_last(), c, inh), inh);
    }
}

/// Only the innermost counter may have moved, and only forward; the depth is the same.
pub open spec fn outer_counters_kept(now: Seq<usize>, before: Seq<usize>) -> bool {
    &&& now.len() == before.len()
    &&& forall|i: int| 0 <= i < before.len() - 1 ==> now[i] == before[i]
    &&& before.len() > 0 ==> now[before.len() - 1] >= before[before.len() - 1]
}

/// Rendering a node closes every ordered list it opens: the counter stack keeps its depth,
/// the outer counters are unchanged, and only the innermost counter can advance (by at most
/// the number of list items in the node). Holds when the counters have room for those items.
pub proof fn lemma_walk_counters(n: HtmlNode, c: ContextView, inh: Style)
    requires
        counters_fit(c.ordered, item_count(n)),
    ensures
        outer_counters_kept(walk(n, c, inh).ordered, c.ordered),
        advanced_by_at_most(walk(n, c, inh).ordered, c.ordered, item_count(n)),
    decreases n,
{
    match n {
        HtmlNode::Text(t) => {
            lemma_push_text_keeps_lines(c, t@, inh);
        },
        HtmlNode::Element { name, style, href, alt, children } => {
            let attr = opt_view(style);
            let f = finish(c);
            match tag_kind(name@) {
                TagKind::Heading => {
                    lemma_walk_all_counters(children@, f, merged_style(attr, heading_style(inh)));
                },
                TagKind::Block => {
                    lemma_walk_all_counters(children@, f, merged_style(attr, inh));
                },
                TagKind::Quote => {
                    lemma_walk_all_counters(children@, enter_quote(f), quote_style(inh));
                },
                TagKind::Bullets => {
                    lemma_walk_all_counters(children@, f, inh);
                },
                TagKind::Numbered => {
                    let pushed = push_counter(f);
                    lemma_walk_all_counters(children@, pushed, inh);
                    assert(pop_counter(walk_all(children@, pushed, inh)).ordered =~= c.ordered);
                },
                TagKind::Item => {
                    lemma_walk_all_counters(children@, enter_item(f), inh);
                },
                TagKind::Strong => {
                    lemma_walk_all_counters(children@, c, merged_style(attr, inh.with_modifier(BOLD)));
                },
                TagKind::Emphasis => {
                    lemma_walk_all_counters(children@, c, merged_style(attr, inh.with_modifier(ITALIC)));
                },
                TagKind::Underline => {
                    lemma_walk_all_counters(
                        children@,
                        c,
                        merged_style(attr, inh.with_modifier(UNDERLINED)),
                    );
                },
                TagKind::Code => {
                    lemma_walk_all_counters(children@, c, merged_style(attr, code_inline_style(inh)));
                },
                TagKind::Link => {
                    let s = merged_style(attr, link_style(inh));
                    lemma_walk_all_counters(children@, c, s);
                    match opt_view(href) {
                        Some(h) => {
                            lemma_push_text_keeps_lines(
                                walk_all(children@, c, s),
                                seq![' ', '('] + h + seq![')'],
                                dim_style(),
                            );
                        },
                        None => {},
                    }
                },
                TagKind::Image => {
                    lemma_push_text_keeps_lines(c, image_label(opt_view(alt)), dim_style());
                },
                TagKind::Inline => {
                    lemma_walk_all_counters(children@, c, merged_style(attr, inh));
                },
                _ => {},
            }
        },
        HtmlNode::Other(_) => {},
    }
}

/// Rendering a sequence of nodes keeps the outer counters (see [`lemma_walk_counters`]).
pub proof fn lemma_walk_all_counters(ns: Seq<HtmlNode>, c: ContextView, inh: Style)
    requires
        counters_fit(c.ordered, item_count_all(ns)),
    ensures
        outer_counters_kept(walk_all(ns, c, inh).ordered, c.ordered),
        advanced_by_at_most(walk_all(ns, c, inh).ordered, c.ordered, item_count_all(ns)),
    decreases ns,
{
    if ns.len() > 0 {
        lemma_walk_all_counters(ns.drop_last(), c, inh);
        let mid = walk_all(ns.drop_last(), c, inh);
        lemma_walk_counters(ns.last(), mid, inh);
    }
}

/// A list item inside an ordered list is marked with the current counter written in
/// decimal (most significant digit first, no leading zero) followed by `". "`, and the
/// counter then advances by one; a new ordered list starts its counter at 1.
pub proof fn lemma_item_marker(c: ContextView)
    requires
        c.ordered.len() > 0,
        c.ordered.last() + 1 < usize::MAX,
    ensures
        ({
            let m = enter_item(c).current.prefix.last().text;
            let digits = m.take(m.len() - 2);
            &&& enter_item(c).current.prefix.len() == c.current.prefix.len() + 1
            &&& m.len() >= 3
            &&& m[m.len() - 2] == '.' && m[m.len() - 1] == ' '
            &&& forall|i: int| 0 <= i < digits.len() ==> crate::text::is_digit(#[trigger] digits[i])
            &&& crate::text::decimal_value(digits) == c.ordered.last()
            &&& (digits[0] == '0' ==> c.ordered.last() == 0)
            &&& enter_item(c).ordered == c.ordered.update(c.ordered.len() - 1, (c.ordered.last() + 1) as usize)
        }),
        push_counter(c).ordered.last() == 1,
{
    let n = c.ordered.last() as nat;
    crate::text::lemma_decimal_law(n);
    let m = enter_item(c).current.prefix.last().text;
    assert(m == decimal(n) + seq!['.', ' ']);
    assert(m.take(m.len() - 2) =~= decimal(n));
}

} // verus!
