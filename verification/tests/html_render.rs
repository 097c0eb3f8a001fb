use html_render::detect::{extract_html_source, looks_like_html_response};
use html_render::dom::HtmlNode;
use html_render::inline_style::merge_inline_style;
use html_render::layout::{RenderContext, RichLine, RichSpan};
use html_render::walk::walk_node;
use html_render::render_html_tagged;
use html_render::style::{Color, Style, BOLD, ITALIC, UNDERLINED};
use html_render::width::{char_width, truncate_to_width};
use html_render::wrap::{wrap_rich_line, RenderedMarkdownLine};

fn visible(lines: &[RenderedMarkdownLine]) -> Vec<String> {
    lines
        .iter()
        .map(|line| {
            line.line
                .spans
                .iter()
                .map(|span| span.content.as_str())
                .collect::<String>()
        })
        .collect()
}

fn chars(s: &str) -> Vec<char> {
    s.chars().collect()
}

fn render(content: &str, width: u16) -> Vec<String> {
    visible(&render_html_tagged(content, width, Style::default()).expect("html should render"))
}

#[test]
fn ignores_non_html_markdown() {
    assert!(render_html_tagged("# title\n\nplain markdown", 80, Style::default()).is_none());
}

#[test]
fn renders_basic_html_fragment() {
    let lines = render_html_tagged(
        "<section><h2>Plan</h2><p>Hello <strong>world</strong>.</p><ul><li>one</li><li>two</li></ul></section>",
        80,
        Style::default(),
    )
    .expect("html should render");
    let text = visible(&lines).join("\n");
    assert!(text.contains("Plan"));
    assert!(text.contains("Hello world ."));
    assert!(text.contains("• one"));
    assert!(text.contains("• two"));
}

#[test]
fn sanitizes_script_before_rendering() {
    let lines = render_html_tagged(
        "<div>safe<script>alert('x')</script><p>after</p></div>",
        80,
        Style::default(),
    )
    .expect("html should render");
    let text = visible(&lines).join("\n");
    assert!(text.contains("safe"));
    assert!(text.contains("after"));
    assert!(!text.contains("alert"));
}

#[test]
fn renders_fenced_html_response() {
    let lines = render_html_tagged(
        "```html\n<div><p>boxed</p></div>\n```",
        80,
        Style::default(),
    )
    .expect("html fence should render");
    assert!(visible(&lines).join("\n").contains("boxed"));
}

#[test]
fn extracts_fenced_source_in_each_spelling() {
    assert_eq!(extract_html_source("  ```html\n <p>a</p> \n```  "), Some("<p>a</p>"));
    assert_eq!(extract_html_source("```HTML<b>x</b>```"), Some("<b>x</b>"));
    assert_eq!(extract_html_source("```Html\n<i>y</i>\n```"), Some("<i>y</i>"));
    assert_eq!(extract_html_source(" <p>plain</p> "), Some(" <p>plain</p> "));
    assert_eq!(extract_html_source("```html\n<p>open"), Some("```html\n<p>open"));
}

#[test]
fn detects_html_responses() {
    assert!(looks_like_html_response("  <DIV>x</DIV>"));
    assert!(looks_like_html_response("<span>a</span>"));
    assert!(looks_like_html_response("<x-widget><p>inner</p></x-widget>"));
    assert!(!looks_like_html_response("text <p>later</p>"));
    assert!(!looks_like_html_response("<custom>only</custom>"));
    assert!(!looks_like_html_response(""));
}

#[test]
fn measures_characters_and_tabs() {
    assert_eq!(char_width('a', 0), 1);
    assert_eq!(char_width('\t', 0), 8);
    assert_eq!(char_width('\t', 5), 3);
    assert_eq!(char_width('\t', 8), 8);
    assert_eq!(char_width('\u{7}', 3), 1);
    assert_eq!(char_width('界', 0), 2);
    assert_eq!(char_width('\u{301}', 0), 0);
}

#[test]
fn truncates_to_width() {
    assert_eq!(truncate_to_width("hello", 3), "hel");
    assert_eq!(truncate_to_width("hello", 10), "hello");
    assert_eq!(truncate_to_width("日本語", 5), "日本");
    assert_eq!(truncate_to_width("", 4), "");
    assert_eq!(truncate_to_width("abc", 0), "");
}

#[test]
fn merges_inline_styles() {
    let base = Style::default();
    let bold = merge_inline_style(&Some(chars("FONT-WEIGHT: BOLD")), base);
    assert_eq!(bold.add_modifier, BOLD);
    let all = merge_inline_style(
        &Some(chars("font-style:italic;text-decoration: underline;color: green")),
        base,
    );
    assert_eq!(all.add_modifier, ITALIC | UNDERLINED);
    assert_eq!(all.fg, Some(Color::Green));
    let red = merge_inline_style(&Some(chars("color:#EF4444")), base);
    assert_eq!(red.fg, Some(Color::Red));
    let unknown = merge_inline_style(&Some(chars("color: purple")), base);
    assert_eq!(unknown.fg, None);
    assert_eq!(merge_inline_style(&None, base), base);
}

#[test]
fn numbers_ordered_list_items() {
    let rows = render("<ol><li>first</li><li>second</li></ol><ul><li>dot</li></ul>", 80);
    assert_eq!(rows, vec!["1. first", "2. second", "• dot"]);
}

#[test]
fn restarts_numbering_in_nested_lists() {
    let rows = render("<ol><li>a<ol><li>b</li><li>c</li></ol></li><li>d</li></ol>", 80);
    assert_eq!(rows, vec!["1. a", "1. b", "2. c", "2. d"]);
}

#[test]
fn renders_tables_with_padded_columns() {
    let rows = render(
        "<table><tr><th>Name</th><th>Qty</th></tr><tr><td>apple</td><td>3</td></tr></table>",
        80,
    );
    assert_eq!(rows, vec!["│ Name  │ Qty │", "│ apple │ 3   │"]);
}

#[test]
fn truncates_wide_table_cells() {
    let rows = render(
        "<table><tr><td>abcdefghijklmnopqrstuvwxyz0123</td><td>x</td></tr></table>",
        80,
    );
    assert_eq!(rows, vec!["│ abcdefghijklmnopqrstuvwx │ x   │"]);
}

#[test]
fn renders_preformatted_rows() {
    let rows = render("<pre>\nline one\n  line two\n</pre>", 80);
    assert_eq!(rows, vec!["line one", "  line two"]);
}

#[test]
fn renders_links_images_and_rules() {
    let rows = render(
        "<p><a href=\"https://example.com\">site</a> and <img src=\"x.png\" alt=\"logo\"></p><hr>",
        80,
    );
    assert_eq!(rows[0], "site (https://example.com) and [image: logo]");
    assert_eq!(rows[1], "─".repeat(40));
}

#[test]
fn renders_quotes_with_bar() {
    let rows = render("<blockquote>wise words</blockquote>", 80);
    assert_eq!(rows, vec!["│ wise words"]);
}

#[test]
fn keeps_blank_line_for_break() {
    let rows = render("<div>a<br><br>b</div>", 80);
    assert_eq!(rows, vec!["a", "", "b"]);
}

#[test]
fn wraps_long_paragraphs() {
    let rows = render("<p>alpha beta gamma</p>", 10);
    assert_eq!(rows, vec!["alpha beta", "gamma"]);
}

#[test]
fn indents_continuation_of_list_items() {
    let rows = render("<ul><li>aaaa bbbb cccc</li></ul>", 8);
    assert_eq!(rows, vec!["• aaaa b", "  bbb cc", "  cc"]);
}

#[test]
fn renders_empty_fragment_as_one_blank_row() {
    let rows = render_html_tagged("<p></p>", 80, Style::default()).expect("html should render");
    assert_eq!(rows.len(), 1);
    assert!(rows[0].line.spans.is_empty());
    assert!(!rows[0].is_code);
}

#[test]
fn keeps_heading_style() {
    let rows = render_html_tagged("<h1>Title</h1>", 80, Style::default()).expect("renders");
    let span = &rows[0].line.spans[0];
    assert_eq!(span.content, "Title");
    assert_eq!(span.style.add_modifier & BOLD, BOLD);
    assert_eq!(span.style.fg, Some(Color::Rgb(56, 189, 248)));
}

#[test]
fn wraps_a_single_rich_line() {
    let line = RichLine {
        prefix: vec![],
        segments: vec![RichSpan { text: chars("abcdef"), style: Style::default() }],
        continuation_indent: 0,
        is_pre: true,
        force_blank: false,
    };
    let rows = wrap_rich_line(&line, 4);
    assert_eq!(visible(&rows), vec!["abcd", "ef"]);
    assert!(rows.iter().all(|r| r.is_code));
    let fits = wrap_rich_line(&line, 6);
    assert_eq!(visible(&fits), vec!["abcdef"]);
}

#[test]
fn sanitizer_drops_unsafe_link_targets() {
    let rows = render(
        "<p><a href=\"javascript:alert(1)\">x</a> <span onclick=\"y()\">z</span></p>",
        80,
    );
    assert_eq!(rows, vec!["x z"]);
}

#[test]
fn sanitizer_keeps_inline_style_attribute() {
    let rows = render_html_tagged("<p><span style=\"font-weight:bold\">b</span></p>", 80, Style::default())
        .expect("renders");
    assert_eq!(rows[0].line.spans[0].content, "b");
    assert_eq!(rows[0].line.spans[0].style.add_modifier, BOLD);
}

#[test]
fn measures_wide_table_cells() {
    let rows = render("<table><tr><td>日本</td><td>a</td></tr></table>", 80);
    assert_eq!(rows, vec!["│ 日本 │ a   │"]);
}

#[test]
fn parses_nested_elements() {
    let rows = render("<div><p>one <em>two <b>three</b></em></p><p>four</p></div>", 80);
    assert_eq!(rows, vec!["one two three", "four"]);
}

#[test]
fn collapses_whitespace_between_words() {
    let rows = render("<p>Hello \n\t  world   <b> again </b></p>", 80);
    assert_eq!(rows, vec!["Hello world again"]);
}

#[test]
fn wrapping_keeps_every_visible_character() {
    let text = "the quick brown fox jumps over the lazy dog";
    let rows = render(&format!("<ul><li>{text}</li></ul>"), 9);
    assert!(rows.len() > 1);
    let kept: String = rows.concat().chars().filter(|c| !c.is_whitespace() && *c != '•').collect();
    let expected: String = text.chars().filter(|c| !c.is_whitespace()).collect();
    assert_eq!(kept, expected);
}

#[test]
fn marks_preformatted_rows_as_code() {
    let rows = render_html_tagged("<pre>a\nb</pre><p>c</p>", 80, Style::default()).expect("renders");
    let marks: Vec<bool> = rows.iter().map(|r| r.is_code).collect();
    assert_eq!(marks, vec![true, true, false]);
}

#[test]
fn aligns_table_columns_across_rows() {
    let rows = render_html_tagged(
        "<table><tr><td>a</td></tr><tr><td>b</td><td>c</td><td>d</td></tr></table>",
        80,
        Style::default(),
    )
    .expect("renders");
    assert_eq!(rows.len(), 2);
    let texts = visible(&rows);
    assert_eq!(texts[0].chars().count(), texts[1].chars().count());
    assert_eq!(visible(&rows), vec!["│ a   │     │     │", "│ b   │ c   │ d   │"]);
}

#[test]
fn hidden_elements_leave_the_layout_unchanged() {
    let mut ctx = RenderContext::new();
    let script = HtmlNode::Element {
        name: chars("script"),
        style: None,
        href: None,
        alt: None,
        children: vec![HtmlNode::Text(chars("alert('x')"))],
    };
    walk_node(&script, &mut ctx, Style::default());
    assert!(ctx.lines.is_empty());
    assert!(ctx.current.segments.is_empty());
    let para = HtmlNode::Element {
        name: chars("p"),
        style: None,
        href: None,
        alt: None,
        children: vec![HtmlNode::Text(chars("shown"))],
    };
    walk_node(&para, &mut ctx, Style::default());
    assert_eq!(ctx.lines.len(), 1);
}

#[test]
fn lists_leave_counter_depth_unchanged() {
    let mut ctx = RenderContext::new();
    ctx.ordered_stack.push(4);
    let list = HtmlNode::Element {
        name: chars("ol"),
        style: None,
        href: None,
        alt: None,
        children: vec![HtmlNode::Element {
            name: chars("li"),
            style: None,
            href: None,
            alt: None,
            children: vec![HtmlNode::Text(chars("x"))],
        }],
    };
    walk_node(&list, &mut ctx, Style::default());
    assert_eq!(ctx.ordered_stack, vec![4]);
    let item = HtmlNode::Element {
        name: chars("li"),
        style: None,
        href: None,
        alt: None,
        children: vec![HtmlNode::Text(chars("y"))],
    };
    walk_node(&item, &mut ctx, Style::default());
    assert_eq!(ctx.ordered_stack, vec![5]);
    let last = &ctx.lines[ctx.lines.len() - 1];
    assert_eq!(last.prefix[0].text, chars("4. "));
}

#[test]
fn table_lines_have_three_segments_per_column() {
    let cell = |t: &str| HtmlNode::Element {
        name: chars("td"),
        style: None,
        href: None,
        alt: None,
        children: vec![HtmlNode::Text(chars(t))],
    };
    let row = |cells: Vec<HtmlNode>| HtmlNode::Element {
        name: chars("tr"),
        style: None,
        href: None,
        alt: None,
        children: cells,
    };
    let table = HtmlNode::Element {
        name: chars("table"),
        style: None,
        href: None,
        alt: None,
        children: vec![row(vec![cell("a")]), row(vec![cell("b"), cell("c")])],
    };
    let mut ctx = RenderContext::new();
    ctx.push_table(&table, Style::default());
    assert_eq!(ctx.lines.len(), 2);
    for line in &ctx.lines {
        assert_eq!(line.segments.len(), 3 * 2 + 1);
    }
}

#[test]
fn pushing_text_in_pieces_equals_pushing_it_whole() {
    let mut x = RenderContext::new();
    x.push_text(&chars("  alpha\tbeta "), Style::default());
    x.push_text(&chars("gamma  delta"), Style::default());
    let mut y = RenderContext::new();
    y.push_text(&chars("  alpha\tbeta  gamma  delta"), Style::default());
    let texts = |c: &RenderContext| -> Vec<String> {
        c.current.segments.iter().map(|s| s.text.iter().collect()).collect()
    };
    assert_eq!(texts(&x), texts(&y));
    assert_eq!(texts(&x), vec!["alpha", " ", "beta", " ", "gamma", " ", "delta"]);
}

#[test]
fn detection_ignores_case_and_leading_whitespace() {
    assert!(looks_like_html_response("<TABLE><TR><TD>x</TD></TR></TABLE>"));
    assert!(looks_like_html_response(" \n\t<Br>"));
    assert!(!looks_like_html_response(" \n\tplain <p>text</p>"));
}
