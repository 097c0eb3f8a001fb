//! Display widths of characters and strings in terminal columns.
//!
//! The widths themselves come from the `unicode-width` crate; this module states what the
//! rendering logic relies on and builds tab handling and truncation on top of it.
use vstd::prelude::*;
use unicode_width::UnicodeWidthChar;
use unicode_width::UnicodeWidthStr;

verus! {

/// The column width that `unicode-width` assigns to a character (`None` for control characters).
pub uninterp spec fn char_display_width(c: char) -> Option<usize>;

/// The column width that `unicode-width` assigns to a string.
pub uninterp spec fn str_display_width(s: Seq<char>) -> usize;

/// Every character of `s` is printable ASCII (`' '` through `'~'`).
pub open spec fn printable_ascii(s: Seq<char>) -> bool {
    forall|i: int| 0 <= i < s.len() ==> 0x20 <= #[trigger] (s[i] as u32) < 0x7f
}

/// Calls `UnicodeWidthChar::width` of `unicode-width`. Claimed: the result is the named
/// width of `c`; printable ASCII characters are one column wide; C0 and C1 control
/// characters have no width (`None`); every other character has a width of at most 3.
#[verifier::external_body]
fn unicode_char_width(c: char) -> (r: Option<usize>)
    ensures
        r == char_display_width(c),
        0x20 <= (c as u32) < 0x7f ==> r == Some(1usize),
        (c as u32) < 0x20 || (0x7f <= (c as u32) < 0xa0) ==> r == None::<usize>,
        (c as u32) >= 0xa0 ==> r.is_some() && r.unwrap() <= 3,
{
    UnicodeWidthChar::width(c)
}

/// Calls `UnicodeWidthStr::width` of `unicode-width` on the string made of `s`. Claimed:
/// the result is the named width of `s`, and a string of printable ASCII characters is as
/// wide as it is long. What it says of other strings (emoji sequences, ligatures) is left
/// to the name.
#[verifier::external_body]
pub(crate) fn unicode_str_width(s: &[char]) -> (r: usize)
    ensures
        r == str_display_width(s@),
        printable_ascii(s@) ==> r == s@.len(),
{
    let owned: String = s.iter().collect();
    UnicodeWidthStr::width(owned.as_str())
}

/// The width a character takes when it is not a tab: one column for printable ASCII and
/// for control characters (which have no display width), else its display width.
pub open spec fn unit_width(c: char) -> nat {
    if (c as u32) < 0xa0 {
        1
    } else {
        match char_display_width(c) {
            Some(w) => w as nat,
            None => 1,
        }
    }
}

/// The column width of a text: its length when it is printable ASCII, else its display
/// width.
pub open spec fn text_width(s: Seq<char>) -> usize {
    if printable_ascii(s) {
        s.len() as usize
    } else {
        str_display_width(s)
    }
}

/// The column width of a text.
pub(crate) fn str_width(s: &[char]) -> (r: usize)
    ensures
        r == text_width(s@),
{
    unicode_str_width(s)
}

/// The width of character `c` placed at column `col`: a tab reaches the next multiple of 8.
pub open spec fn column_width(c: char, col: nat) -> nat {
    if c == '\t' {
        (8 - col % 8) as nat
    } else {
        unit_width(c)
    }
}

proof fn lemma_unit_width_bound(c: char, r: Option<usize>)
    requires
        r == char_display_width(c),
        0x20 <= (c as u32) < 0x7f ==> r == Some(1usize),
        (c as u32) < 0x20 || (0x7f <= (c as u32) < 0xa0) ==> r == None::<usize>,
        (c as u32) >= 0xa0 ==> r.is_some() && r.unwrap() <= 3,
    ensures
        unit_width(c) <= 3,
{
}

/// The width of character `ch` placed at column `col`.
pub fn char_width(ch: char, col: usize) -> (r: usize)
    ensures
        r == column_width(ch, col as nat),
        ch != '\t' && (ch as u32) < 0xa0 ==> r == 1,
        1 <= r <= 8 || (ch != '\t' && r == 0),
{
    if ch == '\t' {
        8 - (col % 8)
    } else {
        let w = unicode_char_width(ch);
        proof {
            lemma_unit_width_bound(ch, w);
        }
        match w {
            Some(w) => w,
            None => 1,
        }
    }
}

/// The width of a non-tab character, at most 3.
fn unit_char_width(ch: char) -> (r: usize)
    ensures
        r == unit_width(ch),
        r <= 3,
{
    let w = unicode_char_width(ch);
    proof {
        lemma_unit_width_bound(ch, w);
    }
    match w {
        Some(w) => w,
        None => 1,
    }
}

/// The longest prefix of `s` whose characters fit in `budget` columns, stopping at the
/// first character that does not fit.
pub open spec fn truncated(s: Seq<char>, budget: nat) -> Seq<char>
    decreases s.len(),
{
    if s.len() == 0 {
        s
    } else if unit_width(s[0]) > budget {
        seq![]
    } else {
        seq![s[0]] + truncated(s.drop_first(), (budget - unit_width(s[0])) as nat)
    }
}

/// The longest prefix of `text` that fits in `width` columns.
pub fn truncate_chars(text: &[char], width: usize) -> (r: Vec<char>)
    ensures
        r@ == truncated(text@, width as nat),
{
    let mut out: Vec<char> = Vec::new();
    let mut used: usize = 0;
    let mut i: usize = 0;
    assert(text@.skip(0) =~= text@);
    while i < text.len()
        invariant
            i <= text@.len(),
            used <= width,
            out@ == text@.take(i as int),
            truncated(text@, width as nat) == out@ + truncated(
                text@.skip(i as int),
                (width - used) as nat,
            ),
        decreases text.len() - i,
    {
        let w = unit_char_width(text[i]);
        if w > width - used {
            assert(truncated(text@.skip(i as int), (width - used) as nat) =~= seq![]);
            assert(out@ + seq![] =~= out@);
            return out;
        }
        let ghost rest = text@.skip(i as int);
        assert(rest.drop_first() =~= text@.skip(i + 1));
        assert(truncated(rest, (width - used) as nat) == seq![text@[i as int]] + truncated(
            text@.skip(i + 1),
            (width - used - w) as nat,
        ));
        out.push(text[i]);
        used = used + w;
        i = i + 1;
        assert(out@ =~= text@.take(i as int));
        assert(truncated(text@, width as nat) =~= out@ + truncated(
            text@.skip(i as int),
            (width - used) as nat,
        ));
    }
    assert(text@.skip(i as int) =~= Seq::<char>::empty());
    assert(out@ + Seq::<char>::empty() =~= out@);
    out
}

/// The longest prefix of `text` that fits in `width` columns.
pub fn truncate_to_width(text: &str, width: usize) -> (r: String)
    ensures
        r@ == truncated(text@, width as nat),
{
    let chars = crate::text::chars_of(text);
    let kept = truncate_chars(chars.as_slice(), width);
    crate::text::string_from_chars(kept.as_slice())
}

/// The total width of a sequence of non-tab characters.
pub open spec fn units_width(s: Seq<char>) -> nat
    decreases s.len(),
{
    if s.len() == 0 {
        0
    } else {
        unit_width(s[0]) + units_width(s.drop_first())
    }
}

/// Truncation keeps a prefix of the text that fits the budget, and stops only where the
/// next character would not fit.
pub proof fn lemma_truncated_law(s: Seq<char>, budget: nat)
    ensures
        truncated(s, budget).len() <= s.len(),
        truncated(s, budget) == s.take(truncated(s, budget).len() as int),
        units_width(truncated(s, budget)) <= budget,
        truncated(s, budget).len() < s.len() ==> units_width(truncated(s, budget)) + unit_width(
            s[truncated(s, budget).len() as int],
        ) > budget,
    decreases s.len(),
{
    if s.len() == 0 {
        assert(s.take(0) =~= s);
    } else if unit_width(s[0]) > budget {
        assert(s.take(0) =~= Seq::<char>::empty());
    } else {
        let rest = s.drop_first();
        let b2 = (budget - unit_width(s[0])) as nat;
        lemma_truncated_law(rest, b2);
        let t = truncated(rest, b2);
        assert(truncated(s, budget) == seq![s[0]] + t);
        assert(seq![s[0]] + t =~= s.take(t.len() as int + 1)) by {
            assert(t =~= rest.take(t.len() as int));
            assert forall|i: int| 0 <= i < t.len() + 1 implies (seq![s[0]] + t)[i] == s[i] by {
                if i > 0 {
                    assert(t[i - 1] == rest[i - 1]);
                }
            }
        }
        let whole = seq![s[0]] + t;
        assert(whole.drop_first() =~= t);
        if whole.len() < s.len() {
            assert(s[whole.len() as int] == rest[t.len() as int]);
        }
    }
}

/// Printable ASCII text is truncated to exactly as many characters as the budget allows.
pub proof fn lemma_truncated_ascii(s: Seq<char>, budget: nat)
    requires
        printable_ascii(s),
    ensures
        truncated(s, budget) == s.take(if s.len() <= budget { s.len() as int } else { budget as int }),
    decreases s.len(),
{
    if s.len() == 0 {
        assert(s.take(0) =~= s);
    } else {
        assert(0x20 <= (s[0] as u32) < 0x7f);
        if budget == 0 {
            assert(s.take(0) =~= Seq::<char>::empty());
        } else {
            let rest = s.drop_first();
            assert(printable_ascii(rest)) by {
                assert forall|i: int| 0 <= i < rest.len() implies 0x20 <= #[trigger] (rest[i] as u32) < 0x7f by {
                    assert(rest[i] == s[i + 1]);
                }
            }
            lemma_truncated_ascii(rest, (budget - 1) as nat);
            let k = if rest.len() <= budget - 1 { rest.len() as int } else { budget - 1 };
            assert(seq![s[0]] + rest.take(k) =~= s.take(k + 1));
        }
    }
}

} // verus!
