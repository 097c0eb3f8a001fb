//! Deciding whether an assistant message is an HTML response, and extracting its source
//! from a fenced ```` ```html ```` block.
use vstd::prelude::*;
use crate::text::{
    ascii_lower, chars_of, contains, contains_exec, ends_with, ends_with_exec, starts_with,
    starts_with_exec, to_ascii_lowercase, trim, trim_bounds, trim_start,
};

verus! {

/// The opening of a fenced HTML block, in the three spellings that are recognised.
pub open spec fn fence_prefix(k: int) -> Seq<char> {
    if k == 0 {
        "```html"@
    } else if k == 1 {
        "```HTML"@
    } else {
        "```Html"@
    }
}

/// The trimmed inside of `t` when `t` is fenced by the `k`-th prefix and a closing fence.
pub open spec fn fenced_inner(t: Seq<char>, k: int) -> Option<Seq<char>> {
    let p = fence_prefix(k);
    let rest = t.skip(p.len() as int);
    if starts_with(t, p) && ends_with(rest, "```"@) {
        Some(trim(rest.take(rest.len() - 3), false))
    } else {
        None
    }
}

/// The HTML source of a message: the trimmed inside of the first matching fence around the
/// trimmed message, or else the message itself.
pub open spec fn html_source(content: Seq<char>) -> Seq<char> {
    let t = trim(content, false);
    if fenced_inner(t, 0) is Some {
        fenced_inner(t, 0)->0
    } else if fenced_inner(t, 1) is Some {
        fenced_inner(t, 1)->0
    } else if fenced_inner(t, 2) is Some {
        fenced_inner(t, 2)->0
    } else {
        content
    }
}

fn fence_prefix_exec(k: usize) -> (r: &'static str)
    requires
        k < 3,
    ensures
        r@ == fence_prefix(k as int),
{
    if k == 0 {
        "```html"
    } else if k == 1 {
        "```HTML"
    } else {
        "```Html"
    }
}

/// Extracts the HTML source of a message: the inside of a ```` ```html ```` fence when the
/// trimmed message is fenced, else the message unchanged.
pub fn extract_html_source(content: &str) -> (r: Option<&str>)
    ensures
        r matches Some(s) && s@ == html_source(content@),
{
    let chars = chars_of(content);
    let (a, b) = trim_bounds(chars.as_slice(), false);
    let ghost t = content@.subrange(a as int, b as int);
    let trimmed_part = crate::text::copy_range(chars.as_slice(), a, b);
    let close = chars_of("```");
    proof {
        reveal_strlit("```");
    }
    let mut k: usize = 0;
    while k < 3
        invariant
            k <= 3,
            a <= b <= content@.len(),
            chars@ == content@,
            t == content@.subrange(a as int, b as int),
            t == trim(content@, false),
            trimmed_part@ == t,
            close@ == "```"@,
            close@.len() == 3,
            forall|j: int| 0 <= j < k ==> fenced_inner(t, j) is None,
        decreases 3 - k,
    {
        let p = chars_of(fence_prefix_exec(k));
        let len = p.len();
        if len <= b - a {
            let starts = starts_with_exec(trimmed_part.as_slice(), p.as_slice());
            let rest = crate::text::copy_range(trimmed_part.as_slice(), len, trimmed_part.len());
            assert(rest@ =~= t.skip(p@.len() as int));
            if starts && ends_with_exec(rest.as_slice(), close.as_slice()) {
                let (c, d) = trim_bounds(
                    crate::text::copy_range(rest.as_slice(), 0, rest.len() - 3).as_slice(),
                    false,
                );
                let ghost inner = rest@.take(rest@.len() - 3);
                assert(inner =~= rest@.subrange(0, rest@.len() - 3));
                let from = a + len + c;
                let to = a + len + d;
                let piece = content.substring_char(from, to);
                assert(piece@ =~= inner.subrange(c as int, d as int));
                return Some(piece);
            }
        } else {
            assert(!starts_with(t, fence_prefix(k as int)));
        }
        k = k + 1;
    }
    Some(content)
}

/// A tag whose opening marks a message as an HTML response.
pub open spec fn response_tag(k: int) -> Seq<char> {
    if k == 0 { "!doctype"@ }
    else if k == 1 { "html"@ }
    else if k == 2 { "body"@ }
    else if k == 3 { "main"@ }
    else if k == 4 { "section"@ }
    else if k == 5 { "article"@ }
    else if k == 6 { "header"@ }
    else if k == 7 { "footer"@ }
    else if k == 8 { "nav"@ }
    else if k == 9 { "aside"@ }
    else if k == 10 { "div"@ }
    else if k == 11 { "p"@ }
    else if k == 12 { "h1"@ }
    else if k == 13 { "h2"@ }
    else if k == 14 { "h3"@ }
    else if k == 15 { "h4"@ }
    else if k == 16 { "h5"@ }
    else if k == 17 { "h6"@ }
    else if k == 18 { "ul"@ }
    else if k == 19 { "ol"@ }
    else if k == 20 { "li"@ }
    else if k == 21 { "table"@ }
    else if k == 22 { "thead"@ }
    else if k == 23 { "tbody"@ }
    else if k == 24 { "tr"@ }
    else if k == 25 { "th"@ }
    else if k == 26 { "td"@ }
    else if k == 27 { "blockquote"@ }
    else if k == 28 { "pre"@ }
    else if k == 29 { "code"@ }
    else if k == 30 { "span"@ }
    else if k == 31 { "a"@ }
    else if k == 32 { "br"@ }
    else { "hr"@ }
}

/// The number of response tags.
pub open spec fn response_tag_count() -> int {
    34
}

/// `<` followed by the `k`-th response tag.
pub open spec fn tag_opening(k: int) -> Seq<char> {
    seq!['<'] + response_tag(k)
}

/// A message looks like an HTML response when, after leading whitespace, it starts with
/// `<` and its lower-cased text begins with or contains `<` and one of the response tags.
pub open spec fn looks_like_html(source: Seq<char>) -> bool {
    let t = trim_start(source, false);
    let lower = ascii_lower(t);
    &&& t.len() > 0 && t[0] == '<'
    &&& exists|k: int|
        0 <= k < response_tag_count() && (starts_with(lower, tag_opening(k)) || contains(
            lower,
            tag_opening(k),
        ))
}

fn response_tag_exec(k: usize) -> (r: &'static str)
    requires
        k < 34,
    ensures
        r@ == response_tag(k as int),
{
    if k == 0 { "!doctype" }
    else if k == 1 { "html" }
    else if k == 2 { "body" }
    else if k == 3 { "main" }
    else if k == 4 { "section" }
    else if k == 5 { "article" }
    else if k == 6 { "header" }
    else if k == 7 { "footer" }
    else if k == 8 { "nav" }
    else if k == 9 { "aside" }
    else if k == 10 { "div" }
    else if k == 11 { "p" }
    else if k == 12 { "h1" }
    else if k == 13 { "h2" }
    else if k == 14 { "h3" }
    else if k == 15 { "h4" }
    else if k == 16 { "h5" }
    else if k == 17 { "h6" }
    else if k == 18 { "ul" }
    else if k == 19 { "ol" }
    else if k == 20 { "li" }
    else if k == 21 { "table" }
    else if k == 22 { "thead" }
    else if k == 23 { "tbody" }
    else if k == 24 { "tr" }
    else if k == 25 { "th" }
    else if k == 26 { "td" }
    else if k == 27 { "blockquote" }
    else if k == 28 { "pre" }
    else if k == 29 { "code" }
    else if k == 30 { "span" }
    else if k == 31 { "a" }
    else if k == 32 { "br" }
    else { "hr" }
}

/// Whether the message looks like an HTML response.
pub fn looks_like_html_response(source: &str) -> (r: bool)
    ensures
        r == looks_like_html(source@),
{
    let chars = chars_of(source);
    let (a, _b) = trim_bounds(chars.as_slice(), false);
    let trimmed = crate::text::copy_range(chars.as_slice(), a, chars.len());
    assert(trimmed@ == trim_start(source@, false));
    if trimmed.len() == 0 || trimmed[0] != '<' {
        assert(!(trimmed@.len() > 0 && trimmed@[0] == '<'));
        return false;
    }
    let lower = to_ascii_lowercase(trimmed.as_slice());
    let mut k: usize = 0;
    while k < 34
        invariant
            k <= 34,
            lower@ == ascii_lower(trim_start(source@, false)),
            trim_start(source@, false).len() > 0 && trim_start(source@, false)[0] == '<',
            forall|j: int|
                0 <= j < k ==> !(starts_with(lower@, tag_opening(j)) || contains(
                    lower@,
                    tag_opening(j),
                )),
        decreases 34 - k,
    {
        let mut open: Vec<char> = Vec::new();
        open.push('<');
        crate::text::append_chars(&mut open, chars_of(response_tag_exec(k)).as_slice());
        assert(open@ =~= tag_opening(k as int));
        if starts_with_exec(lower.as_slice(), open.as_slice()) || contains_exec(
            lower.as_slice(),
            open.as_slice(),
        ) {
            assert(0 <= k < response_tag_count() && (starts_with(lower@, tag_opening(k as int))
                || contains(lower@, tag_opening(k as int))));
            return true;
        }
        k = k + 1;
    }
    assert(!(exists|j: int|
        0 <= j < response_tag_count() && (starts_with(lower@, tag_opening(j)) || contains(
            lower@,
            tag_opening(j),
        ))));
    false
}

/// Detection ignores ASCII case and leading whitespace: upper-casing a message, or putting
/// whitespace before it, does not change whether it looks like an HTML response.
pub proof fn lemma_detection_ignores_case_and_indent(s: Seq<char>, ws: Seq<char>)
    requires
        forall|i: int| 0 <= i < ws.len() ==> crate::text::is_ws(#[trigger] ws[i]),
    ensures
        looks_like_html(crate::text::ascii_upper(s)) == looks_like_html(s),
        looks_like_html(ws + s) == looks_like_html(s),
{
    crate::text::lemma_trim_start_after_ws(ws, s);
    let t = trim_start(s, false);
    crate::text::lemma_trim_start_upper(s);
    crate::text::lemma_lower_upper(t);
    let u = crate::text::ascii_upper(t);
    if t.len() > 0 {
        crate::text::lemma_upper_char(t[0]);
        assert(u[0] == crate::text::upper_char(t[0]));
    }
}

} // verus!
