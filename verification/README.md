# html_render

Renders assistant messages that are HTML responses into styled, wrapped terminal rows.

Pipeline: `detect` decides whether a message is an HTML response and takes its source out
of a ```` ```html ```` fence; `dom` sanitizes it with `ammonia` and parses it with
`scraper` into an `HtmlNode` tree; `walk` lays the tree out as rich lines (`layout`,
`table`, `inline_style`); `wrap` breaks each rich line into rows of the terminal width;
`render` ties the steps together.

The library in `src/` is verified with Verus: every function states its result over
sequence models, and the `*_law` / `lemma_*` proof functions state properties such as
"wrapping only adds or drops whitespace" and "rendering only appends lines". The widths of
characters come from `unicode-width`; sanitizing and parsing are the outside crates' own.

`app/` converts between the library's style model and `ratatui` styles and turns rendered
rows into `ratatui` lines. The accent colours of the palette (`style.rs`) are this
project's choice.
