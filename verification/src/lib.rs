//! Sanitized HTML rendering of assistant messages into styled, wrapped terminal rows.
//!
//! Pipeline: decide whether a message is an HTML response, sanitize it, parse it into a
//! node tree, lay the tree out as rich lines, and wrap each rich line to the width.
use vstd::prelude::*;

pub mod style;
pub mod text;
pub mod width;
pub mod dom;
pub mod detect;
pub mod inline_style;
pub mod layout;
pub mod table;
pub mod walk;
pub mod wrap;
pub mod render;

use crate::detect::{extract_html_source, html_source, looks_like_html, looks_like_html_response};
use crate::dom::{fragment_root, parse_fragment_root, sanitize_html, sanitized_html};
use crate::render::{render_fragment, render_rows, renderable};
use crate::style::Style;
use crate::wrap::{row_views, RenderedMarkdownLine};

verus! {

/// Renders an assistant message that is an HTML response into rows wrapped at `width`
/// columns.
///
/// Returns `None` when the message does not look like an HTML response, so that the caller
/// can keep using its Markdown renderer; otherwise the source (taken out of a
/// ```` ```html ```` fence when there is one) is sanitized, parsed and rendered.
pub fn render_html_tagged(content: &str, width: u16, base_style: Style) -> (r: Option<
    Vec<RenderedMarkdownLine>,
>)
    ensures
        !looks_like_html(html_source(content@)) ==> r is None,
        looks_like_html(html_source(content@)) ==> {
            let root = fragment_root(sanitized_html(html_source(content@)));
            &&& (r is None <==> !renderable(root, width, base_style))
            &&& (r matches Some(rows) ==> row_views(rows@) == render_rows(root, width, base_style))
        },
{
    let source = match extract_html_source(content) {
        Some(s) => s,
        None => {
            return None;
        },
    };
    if !looks_like_html_response(source) {
        return None;
    }
    let chars = crate::text::chars_of(source);
    let sanitized = sanitize_html(chars.as_slice());
    let root = parse_fragment_root(sanitized.as_str());
    render_fragment(&root, width, base_style)
}

} // verus!
