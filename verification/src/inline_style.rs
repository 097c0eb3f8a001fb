//! Reading a subset of CSS from an element's `style` attribute into a terminal style.
use vstd::prelude::*;
use crate::style::{blue, deepseek_blue, Color, Style, BOLD, ITALIC, UNDERLINED};
use crate::text::{ascii_lower, chars_of, contains, contains_exec, to_ascii_lowercase};

verus! {

/// The lower-cased style text mentions `word`.
pub open spec fn mentions(lower: Seq<char>, word: &str) -> bool {
    contains(lower, word@)
}

/// The colour picked by a `color:` declaration, if any of the recognised names occur.
pub open spec fn picked_color(lower: Seq<char>) -> Option<Color> {
    if mentions(lower, "#60a5fa") || mentions(lower, "sky") || mentions(lower, "blue") {
        Some(blue())
    } else if mentions(lower, "#10b981") || mentions(lower, "green") {
        Some(Color::Green)
    } else if mentions(lower, "#f59e0b") || mentions(lower, "orange") || mentions(
        lower,
        "yellow",
    ) {
        Some(Color::Yellow)
    } else if mentions(lower, "#ef4444") || mentions(lower, "red") {
        Some(Color::Red)
    } else {
        None
    }
}

/// `style` with what the lower-cased style text `lower` asks for applied: bold, italic and
/// underline declarations add their modifiers, and a `color:` declaration naming one of the
/// recognised colours sets the foreground.
pub open spec fn apply_declarations(lower: Seq<char>, style: Style) -> Style {
    let s1 = if mentions(lower, "font-weight:bold") || mentions(lower, "font-weight: bold")
        || mentions(lower, "font-weight:700") {
        style.with_modifier(BOLD)
    } else {
        style
    };
    let s2 = if mentions(lower, "font-style:italic") || mentions(lower, "font-style: italic") {
        s1.with_modifier(ITALIC)
    } else {
        s1
    };
    let s3 = if mentions(lower, "text-decoration:underline") || mentions(
        lower,
        "text-decoration: underline",
    ) {
        s2.with_modifier(UNDERLINED)
    } else {
        s2
    };
    if mentions(lower, "color:") && picked_color(lower) is Some {
        s3.with_fg(picked_color(lower)->0)
    } else {
        s3
    }
}

/// `style` merged with an optional `style` attribute (matched case-insensitively).
pub open spec fn merged_style(attr: Option<Seq<char>>, style: Style) -> Style {
    match attr {
        None => style,
        Some(a) => apply_declarations(ascii_lower(a), style),
    }
}

fn mentions_exec(lower: &Vec<char>, word: &str) -> (r: bool)
    ensures
        r == mentions(lower@, word),
{
    let w = chars_of(word);
    contains_exec(lower.as_slice(), w.as_slice())
}

fn picked_color_exec(lower: &Vec<char>) -> (r: Option<Color>)
    ensures
        r == picked_color(lower@),
{
    if mentions_exec(lower, "#60a5fa") || mentions_exec(lower, "sky") || mentions_exec(
        lower,
        "blue",
    ) {
        Some(deepseek_blue())
    } else if mentions_exec(lower, "#10b981") || mentions_exec(lower, "green") {
        Some(Color::Green)
    } else if mentions_exec(lower, "#f59e0b") || mentions_exec(lower, "orange")
        || mentions_exec(lower, "yellow") {
        Some(Color::Yellow)
    } else if mentions_exec(lower, "#ef4444") || mentions_exec(lower, "red") {
        Some(Color::Red)
    } else {
        None
    }
}

/// The model of an optional character vector.
pub open spec fn opt_view(v: Option<Vec<char>>) -> Option<Seq<char>> {
    match v {
        Some(x) => Some(x@),
        None => None,
    }
}

/// Merges an element's `style` attribute into the inherited style.
pub fn merge_inline_style(style_attr: &Option<Vec<char>>, style: Style) -> (r: Style)
    ensures
        r == merged_style(opt_view(*style_attr), style),
{
    let attr = match style_attr {
        None => {
            return style;
        },
        Some(a) => a,
    };
    let lower = to_ascii_lowercase(attr.as_slice());
    let mut style = style;
    if mentions_exec(&lower, "font-weight:bold") || mentions_exec(&lower, "font-weight: bold")
        || mentions_exec(&lower, "font-weight:700") {
        style = style.add_modifier(BOLD);
    }
    if mentions_exec(&lower, "font-style:italic") || mentions_exec(&lower, "font-style: italic") {
        style = style.add_modifier(ITALIC);
    }
    if mentions_exec(&lower, "text-decoration:underline") || mentions_exec(
        &lower,
        "text-decoration: underline",
    ) {
        style = style.add_modifier(UNDERLINED);
    }
    if mentions_exec(&lower, "color:") {
        match picked_color_exec(&lower) {
            Some(c) => {
                style = style.fg(c);
            },
            None => {},
        }
    }
    style
}

proof fn lemma_or_bits(x: u16, m: u16, k: u16)
    ensures
        (x | m) & m == m,
        x & m == m ==> (x | k) & m == m,
{
    assert((x | m) & m == m) by (bit_vector);
    assert(x & m == m ==> (x | k) & m == m) by (bit_vector);
}

/// What a `style` attribute does, read case-insensitively: a bold, italic or underline
/// declaration turns that modifier on; with a `color:` declaration the foreground becomes
/// blue, green, yellow or red by the first of these names (or hex codes) that the text
/// mentions, in that order; otherwise the foreground is kept. No attribute keeps the style.
pub proof fn lemma_inline_style_law(attr: Seq<char>, style: Style)
    ensures
        merged_style(None, style) == style,
        ({
            let l = ascii_lower(attr);
            let r = merged_style(Some(attr), style);
            let blue_named = contains(l, "#60a5fa"@) || contains(l, "sky"@) || contains(l, "blue"@);
            let green_named = contains(l, "#10b981"@) || contains(l, "green"@);
            let yellow_named = contains(l, "#f59e0b"@) || contains(l, "orange"@) || contains(
                l,
                "yellow"@,
            );
            let red_named = contains(l, "#ef4444"@) || contains(l, "red"@);
            let colored = contains(l, "color:"@);
            &&& !colored ==> r.fg == style.fg
            &&& colored && blue_named ==> r.fg == Some(blue())
            &&& colored && !blue_named && green_named ==> r.fg == Some(Color::Green)
            &&& colored && !blue_named && !green_named && yellow_named ==> r.fg == Some(
                Color::Yellow,
            )
            &&& colored && !blue_named && !green_named && !yellow_named && red_named ==> r.fg
                == Some(Color::Red)
            &&& colored && !blue_named && !green_named && !yellow_named && !red_named ==> r.fg
                == style.fg
            &&& r.bg == style.bg
            &&& (contains(l, "font-weight:bold"@) || contains(l, "font-weight: bold"@) || contains(
                l,
                "font-weight:700"@,
            )) ==> r.add_modifier & BOLD == BOLD
            &&& (contains(l, "font-style:italic"@) || contains(l, "font-style: italic"@))
                ==> r.add_modifier & ITALIC == ITALIC
            &&& (contains(l, "text-decoration:underline"@) || contains(
                l,
                "text-decoration: underline"@,
            )) ==> r.add_modifier & UNDERLINED == UNDERLINED
        }),
{
    let a0 = style.add_modifier;
    lemma_or_bits(a0, BOLD, ITALIC);
    lemma_or_bits(a0 | BOLD, BOLD, ITALIC);
    lemma_or_bits(a0, BOLD, UNDERLINED);
    lemma_or_bits(a0 | BOLD, BOLD, UNDERLINED);
    lemma_or_bits((a0 | BOLD) | ITALIC, BOLD, UNDERLINED);
    lemma_or_bits(a0 | ITALIC, ITALIC, UNDERLINED);
    lemma_or_bits(a0, ITALIC, UNDERLINED);
    lemma_or_bits((a0 | BOLD) | ITALIC, ITALIC, UNDERLINED);
    lemma_or_bits(a0 | BOLD, ITALIC, UNDERLINED);
    lemma_or_bits(a0 | BOLD, ITALIC, ITALIC);
    lemma_or_bits(a0, ITALIC, ITALIC);
    lemma_or_bits(a0, UNDERLINED, UNDERLINED);
    lemma_or_bits(a0 | BOLD, UNDERLINED, UNDERLINED);
    lemma_or_bits(a0 | ITALIC, UNDERLINED, UNDERLINED);
    lemma_or_bits((a0 | BOLD) | ITALIC, UNDERLINED, UNDERLINED);
}

} // verus!
