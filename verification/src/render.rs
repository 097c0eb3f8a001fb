//! The rendering pipeline: layout of a parsed fragment, wrapping of its lines, and the
//! entry point that turns an assistant message into rendered rows.
use vstd::prelude::*;
use crate::dom::{children_of, HtmlNode};
use crate::layout::{empty_context, finish, line_views, LineView, RenderContext, RichLine, SpanView};
use crate::style::Style;
use crate::walk::{counters_fit, item_count, item_count_all, walk_all, walk_children, TagKind};
use crate::width::str_width;
use crate::wrap::{
    prefix_width, row_views, row_width, wrap_fits, wrap_line, wrap_rich_line,
    RenderedMarkdownLine, RowView, StyledLine,
};

verus! {

/// The rich lines of a parsed fragment: the root's children rendered in order in the base
/// style, with the last line finished.
pub open spec fn layout(root: HtmlNode, base: Style) -> Seq<LineView> {
    finish(walk_all(children_of(root), empty_context(), base)).lines
}

/// The rows of a sequence of lines, each wrapped at `width`, in order.
pub open spec fn wrap_all(lines: Seq<LineView>, width: u16) -> Seq<RowView>
    decreases lines.len(),
{
    if lines.len() == 0 {
        seq![]
    } else {
        wrap_all(lines.drop_last(), width) + wrap_line(lines.last(), width)
    }
}

/// The row shown when a fragment renders to nothing.
pub open spec fn blank_row() -> RowView {
    RowView { spans: seq![], is_code: false }
}

/// The rendered rows of a parsed fragment; a single blank row when there are none.
pub open spec fn render_rows(root: HtmlNode, width: u16, base: Style) -> Seq<RowView> {
    let rows = wrap_all(layout(root, base), width);
    if rows.len() == 0 {
        seq![blank_row()]
    } else {
        rows
    }
}

/// Rendering stays within machine integers: list counters cannot overflow, and every
/// line's prefix and indent leave room for the row width.
pub open spec fn renderable(root: HtmlNode, width: u16, base: Style) -> bool {
    &&& counters_fit(seq![], item_count_all(children_of(root)))
    &&& forall|i: int| 0 <= i < layout(root, base).len() ==> wrap_fits(#[trigger] layout(root, base)[i], width)
}

/// The number of list items at and below `node`, or `cap` when there are more.
fn items_capped(node: &HtmlNode, cap: usize) -> (r: usize)
    ensures
        r == if item_count(*node) < cap { item_count(*node) } else { cap as nat },
    decreases node,
{
    match node {
        HtmlNode::Text(_) => 0,
        HtmlNode::Element { name, children, .. } => {
            let own: usize = match crate::walk::classify(name.as_slice()) {
                TagKind::Item => 1,
                _ => 0,
            };
            let rest = items_capped_all(children, cap);
            if own > cap || rest >= cap - own {
                cap
            } else {
                rest + own
            }
        },
        HtmlNode::Other(children) => items_capped_all(children, cap),
    }
}

/// The number of list items in a sequence of nodes, or `cap` when there are more.
fn items_capped_all(nodes: &Vec<HtmlNode>, cap: usize) -> (r: usize)
    ensures
        r == if item_count_all(nodes@) < cap { item_count_all(nodes@) } else { cap as nat },
    decreases nodes,
{
    let mut total: usize = 0;
    let mut i: usize = 0;
    assert(nodes@.take(0) =~= Seq::<HtmlNode>::empty());
    while i < nodes.len()
        invariant
            i <= nodes@.len(),
            total == if item_count_all(nodes@.take(i as int)) < cap {
                item_count_all(nodes@.take(i as int))
            } else {
                cap as nat
            },
        decreases nodes.len() - i,
    {
        proof {
            assert(decreases_to!(nodes => nodes@[i as int]));
            assert(nodes@.take(i + 1).drop_last() =~= nodes@.take(i as int));
        }
        let n = items_capped(&nodes[i], cap);
        if total >= cap || n >= cap - total {
            total = cap;
        } else {
            total = total + n;
        }
        i = i + 1;
    }
    assert(nodes@.take(nodes@.len() as int) =~= nodes@);
    total
}

/// Whether a line can be wrapped at `width` within machine integers.
fn line_fits(line: &RichLine, width: u16) -> (r: bool)
    ensures
        r == wrap_fits(line@, width),
{
    let ghost lv = line@;
    let rw: usize = if width == 0 {
        1
    } else {
        width as usize
    };
    let limit: usize = usize::MAX - rw - 16;
    if line.continuation_indent > limit {
        return false;
    }
    let mut total: usize = 0;
    let mut k: usize = 0;
    assert(lv.prefix.take(0) =~= Seq::<SpanView>::empty());
    while k < line.prefix.len()
        invariant
            k <= line.prefix@.len(),
            lv == line@,
            rw == row_width(width),
            limit == usize::MAX - rw - 16,
            total == prefix_width(lv.prefix.take(k as int)),
            total <= limit,
        decreases line.prefix.len() - k,
    {
        assert(lv.prefix.take(k + 1).drop_last() =~= lv.prefix.take(k as int));
        let sw = str_width(line.prefix[k].text.as_slice());
        if sw > limit - total {
            proof {
                lemma_prefix_width_mono(lv.prefix, k + 1);
            }
            return false;
        }
        total = total + sw;
        k = k + 1;
    }
    assert(lv.prefix.take(lv.prefix.len() as int) =~= lv.prefix);
    true
}

/// The width of a prefix of the prefix spans never exceeds the width of all of them.
proof fn lemma_prefix_width_mono(prefix: Seq<SpanView>, k: int)
    requires
        0 <= k <= prefix.len(),
    ensures
        prefix_width(prefix.take(k)) <= prefix_width(prefix),
    decreases prefix.len(),
{
    if k == prefix.len() {
        assert(prefix.take(k) =~= prefix);
    } else {
        lemma_prefix_width_mono(prefix.drop_last(), k);
        assert(prefix.drop_last().take(k) =~= prefix.take(k));
    }
}

/// Lays out a parsed fragment as rich lines (see [`layout`]).
pub fn layout_fragment(root: &HtmlNode, base_style: Style) -> (r: Vec<RichLine>)
    requires
        counters_fit(seq![], item_count_all(children_of(*root))),
    ensures
        line_views(r@) == layout(*root, base_style),
{
    let mut ctx = RenderContext::new();
    match root {
        HtmlNode::Text(_) => {
            assert(children_of(*root) =~= Seq::<HtmlNode>::empty());
        },
        HtmlNode::Element { children, .. } => {
            walk_children(children, &mut ctx, base_style);
        },
        HtmlNode::Other(children) => {
            walk_children(children, &mut ctx, base_style);
        },
    }
    ctx.finish_current();
    ctx.lines
}

/// Renders a parsed fragment into rows wrapped at `width` columns (see [`render_rows`]);
/// `None` exactly when rendering would overflow machine integers.
pub fn render_fragment(root: &HtmlNode, width: u16, base_style: Style) -> (r: Option<
    Vec<RenderedMarkdownLine>,
>)
    ensures
        r is None <==> !renderable(*root, width, base_style),
        r matches Some(rows) ==> row_views(rows@) == render_rows(*root, width, base_style),
        r matches Some(rows) ==> rows@.len() >= 1,
{
    let cap: usize = usize::MAX - 1;
    let count = match root {
        HtmlNode::Text(_) => 0,
        HtmlNode::Element { children, .. } => items_capped_all(children, cap),
        HtmlNode::Other(children) => items_capped_all(children, cap),
    };
    if count >= cap {
        return None;
    }
    let lines = layout_fragment(root, base_style);
    let ghost lv = line_views(lines@);
    let mut k: usize = 0;
    while k < lines.len()
        invariant
            k <= lines@.len(),
            lv == line_views(lines@),
            lv == layout(*root, base_style),
            forall|i: int| 0 <= i < k ==> wrap_fits(#[trigger] lv[i], width),
        decreases lines.len() - k,
    {
        if !line_fits(&lines[k], width) {
            assert(!wrap_fits(lv[k as int], width));
            return None;
        }
        k = k + 1;
    }
    let mut rendered: Vec<RenderedMarkdownLine> = Vec::new();
    let mut i: usize = 0;
    assert(row_views(rendered@) =~= Seq::<RowView>::empty());
    assert(lv.take(0) =~= Seq::<LineView>::empty());
    while i < lines.len()
        invariant
            i <= lines@.len(),
            lv == line_views(lines@),
            forall|j: int| 0 <= j < lines@.len() ==> wrap_fits(#[trigger] lv[j], width),
            row_views(rendered@) == wrap_all(lv.take(i as int), width),
        decreases lines.len() - i,
    {
        assert(lv[i as int] == lines@[i as int]@);
        let mut rows = wrap_rich_line(&lines[i], width);
        let ghost before = rendered@;
        let ghost added = rows@;
        rendered.append(&mut rows);
        assert(row_views(rendered@) =~= row_views(before) + row_views(added));
        i = i + 1;
        assert(lv.take(i as int).drop_last() =~= lv.take(i - 1));
        assert(lv.take(i as int).last() == lv[i - 1]);
        assert(row_views(rendered@) =~= wrap_all(lv.take(i as int), width));
    }
    assert(lv.take(lines@.len() as int) =~= lv);
    if rendered.len() == 0 {
        let row = RenderedMarkdownLine { line: StyledLine { spans: Vec::new() }, is_code: false };
        assert(row@.spans =~= Seq::<SpanView>::empty());
        rendered.push(row);
        assert(row_views(rendered@) =~= seq![blank_row()]);
    }
    Some(rendered)
}

} // verus!
