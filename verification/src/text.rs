//! Character-sequence utilities: whitespace, ASCII case folding, substring search,
//! trimming, splitting and decimal rendering, each stated over `Seq<char>`.
use vstd::prelude::*;

verus! {

/// Unicode `White_Space`: the characters that `char::is_whitespace` accepts.
pub open spec fn is_ws(c: char) -> bool {
    let u = c as u32;
    ||| 0x9 <= u <= 0xd
    ||| u == 0x20
    ||| u == 0x85
    ||| u == 0xa0
    ||| u == 0x1680
    ||| 0x2000 <= u <= 0x200a
    ||| u == 0x2028
    ||| u == 0x2029
    ||| u == 0x202f
    ||| u == 0x205f
    ||| u == 0x3000
}

/// Whether `c` is trimmed: a newline when `newline_only`, else any whitespace.
pub open spec fn trims(c: char, newline_only: bool) -> bool {
    if newline_only {
        c == '\n'
    } else {
        is_ws(c)
    }
}

/// ASCII lower-casing of one character; other characters are unchanged.
pub open spec fn lower_char(c: char) -> char {
    if 'A' <= c && c <= 'Z' {
        ((c as u32) + 32) as char
    } else {
        c
    }
}

/// ASCII lower-casing of a sequence.
pub open spec fn ascii_lower(s: Seq<char>) -> Seq<char> {
    s.map_values(|c: char| lower_char(c))
}

/// `needle` occurs in `hay` at position `i`.
pub open spec fn occurs_at(hay: Seq<char>, needle: Seq<char>, i: int) -> bool {
    &&& 0 <= i
    &&& i + needle.len() <= hay.len()
    &&& hay.subrange(i, i + needle.len()) == needle
}

/// `needle` occurs somewhere in `hay`.
pub open spec fn contains(hay: Seq<char>, needle: Seq<char>) -> bool {
    exists|i: int| occurs_at(hay, needle, i)
}

/// `s` begins with `p`.
pub open spec fn starts_with(s: Seq<char>, p: Seq<char>) -> bool {
    p.len() <= s.len() && s.take(p.len() as int) == p
}

/// `s` ends with `p`.
pub open spec fn ends_with(s: Seq<char>, p: Seq<char>) -> bool {
    p.len() <= s.len() && s.skip(s.len() - p.len()) == p
}

/// `s` without its leading trimmed characters.
pub open spec fn trim_start(s: Seq<char>, newline_only: bool) -> Seq<char>
    decreases s.len(),
{
    if s.len() > 0 && trims(s[0], newline_only) {
        trim_start(s.drop_first(), newline_only)
    } else {
        s
    }
}

/// `s` without its trailing trimmed characters.
pub open spec fn trim_end(s: Seq<char>, newline_only: bool) -> Seq<char>
    decreases s.len(),
{
    if s.len() > 0 && trims(s.last(), newline_only) {
        trim_end(s.drop_last(), newline_only)
    } else {
        s
    }
}

/// `s` without leading and trailing trimmed characters.
pub open spec fn trim(s: Seq<char>, newline_only: bool) -> Seq<char> {
    trim_end(trim_start(s, newline_only), newline_only)
}

/// The words found so far in `s`, and the word still open at its end.
pub open spec fn words_acc(s: Seq<char>) -> (Seq<Seq<char>>, Seq<char>)
    decreases s.len(),
{
    if s.len() == 0 {
        (seq![], seq![])
    } else {
        let (done, cur) = words_acc(s.drop_last());
        let c = s.last();
        if is_ws(c) {
            if cur.len() > 0 {
                (done.push(cur), seq![])
            } else {
                (done, cur)
            }
        } else {
            (done, cur.push(c))
        }
    }
}

/// The maximal runs of non-whitespace characters of `s`, in order.
pub open spec fn words(s: Seq<char>) -> Seq<Seq<char>> {
    let (done, cur) = words_acc(s);
    if cur.len() > 0 {
        done.push(cur)
    } else {
        done
    }
}

/// The pieces of `s` between newlines found so far, and the piece still open.
pub open spec fn lines_acc(s: Seq<char>) -> (Seq<Seq<char>>, Seq<char>)
    decreases s.len(),
{
    if s.len() == 0 {
        (seq![], seq![])
    } else {
        let (done, cur) = lines_acc(s.drop_last());
        if s.last() == '\n' {
            (done.push(cur), seq![])
        } else {
            (done, cur.push(s.last()))
        }
    }
}

/// The pieces of `s` separated by `'\n'`; there is always at least one.
pub open spec fn split_lines(s: Seq<char>) -> Seq<Seq<char>> {
    let (done, cur) = lines_acc(s);
    done.push(cur)
}

/// The pieces joined with `sep` between consecutive pieces.
pub open spec fn join(pieces: Seq<Seq<char>>, sep: Seq<char>) -> Seq<char>
    decreases pieces.len(),
{
    if pieces.len() == 0 {
        seq![]
    } else if pieces.len() == 1 {
        pieces[0]
    } else {
        join(pieces.drop_last(), sep) + sep + pieces.last()
    }
}

/// The decimal digit character for `d < 10`.
pub open spec fn digit(d: nat) -> char {
    if d == 0 {
        '0'
    } else if d == 1 {
        '1'
    } else if d == 2 {
        '2'
    } else if d == 3 {
        '3'
    } else if d == 4 {
        '4'
    } else if d == 5 {
        '5'
    } else if d == 6 {
        '6'
    } else if d == 7 {
        '7'
    } else if d == 8 {
        '8'
    } else {
        '9'
    }
}

/// The decimal representation of `n`, without leading zeros.
pub open spec fn decimal(n: nat) -> Seq<char>
    decreases n,
{
    if n < 10 {
        seq![digit(n)]
    } else {
        decimal(n / 10).push(digit(n % 10))
    }
}

/// `n` copies of `c`.
pub open spec fn repeat(c: char, n: nat) -> Seq<char> {
    Seq::new(n, |_i: int| c)
}

/// Copies the characters of a string slice into a vector.
pub fn chars_of(s: &str) -> (v: Vec<char>)
    ensures
        v@ == s@,
{
    let mut v: Vec<char> = Vec::new();
    for c in it: s.chars()
        invariant
            v@ == it.seq().take(it.index() as int),
            it.seq() == s@,
    {
        v.push(c);
    }
    v
}

/// Whether `c` is Unicode whitespace.
pub fn is_whitespace(c: char) -> (r: bool)
    ensures
        r == is_ws(c),
{
    let u = c as u32;
    (0x9 <= u && u <= 0xd) || u == 0x20 || u == 0x85 || u == 0xa0 || u == 0x1680 || (0x2000
        <= u && u <= 0x200a) || u == 0x2028 || u == 0x2029 || u == 0x202f || u == 0x205f || u
        == 0x3000
}

fn is_trimmed(c: char, newline_only: bool) -> (r: bool)
    ensures
        r == trims(c, newline_only),
{
    if newline_only {
        c == '\n'
    } else {
        is_whitespace(c)
    }
}

/// ASCII lower-casing of one character.
pub fn to_lower_char(c: char) -> (r: char)
    ensures
        r == lower_char(c),
{
    if 'A' <= c && c <= 'Z' {
        let u = c as u8;
        (u + 32) as char
    } else {
        c
    }
}

/// ASCII lower-casing of a sequence of characters.
pub fn to_ascii_lowercase(s: &[char]) -> (r: Vec<char>)
    ensures
        r@ == ascii_lower(s@),
{
    let mut r: Vec<char> = Vec::new();
    let mut i: usize = 0;
    while i < s.len()
        invariant
            i <= s@.len(),
            r@ == ascii_lower(s@.take(i as int)),
        decreases s.len() - i,
    {
        r.push(to_lower_char(s[i]));
        i = i + 1;
        assert(ascii_lower(s@.take(i as int)) =~= ascii_lower(s@.take(i - 1)).push(
            lower_char(s@[i - 1]),
        ));
    }
    assert(s@.take(s@.len() as int) =~= s@);
    r
}

/// Whether `needle` occurs in `hay` at position `i`.
fn occurs_at_exec(hay: &[char], needle: &[char], i: usize) -> (r: bool)
    ensures
        r == occurs_at(hay@, needle@, i as int),
{
    if needle.len() > hay.len() || i > hay.len() - needle.len() {
        return false;
    }
    let mut j: usize = 0;
    while j < needle.len()
        invariant
            i + needle@.len() <= hay@.len(),
            needle@.len() <= hay@.len(),
            hay@.len() == hay.len(),
            j <= needle@.len(),
            forall|k: int| 0 <= k < j ==> hay@[i + k] == needle@[k],
        decreases needle.len() - j,
    {
        if hay[i + j] != needle[j] {
            assert(hay@.subrange(i as int, i + needle@.len())[j as int] != needle@[j as int]);
            return false;
        }
        j = j + 1;
    }
    assert(hay@.subrange(i as int, i + needle@.len()) =~= needle@);
    true
}

/// Whether `needle` occurs somewhere in `hay`.
pub fn contains_exec(hay: &[char], needle: &[char]) -> (r: bool)
    ensures
        r == contains(hay@, needle@),
{
    if needle.len() > hay.len() {
        return false;
    }
    let last = hay.len() - needle.len();
    let mut i: usize = 0;
    loop
        invariant_except_break
            i <= last,
            forall|k: int| 0 <= k < i ==> !occurs_at(hay@, needle@, k),
        invariant
            last == hay@.len() - needle@.len(),
        ensures
            forall|k: int| 0 <= k <= last ==> !occurs_at(hay@, needle@, k),
        decreases last - i,
    {
        if occurs_at_exec(hay, needle, i) {
            return true;
        }
        if i == last {
            break;
        }
        i = i + 1;
    }
    assert forall|k: int| !occurs_at(hay@, needle@, k) by {
        if 0 <= k && k + needle@.len() <= hay@.len() {
            assert(k <= last);
        }
    }
    false
}

/// Whether `s` begins with `p`.
pub fn starts_with_exec(s: &[char], p: &[char]) -> (r: bool)
    ensures
        r == starts_with(s@, p@),
{
    if p.len() > s.len() {
        return false;
    }
    let r = occurs_at_exec(s, p, 0);
    assert(s@.take(p@.len() as int) =~= s@.subrange(0, p@.len() as int));
    r
}

/// Whether `s` ends with `p`.
pub fn ends_with_exec(s: &[char], p: &[char]) -> (r: bool)
    ensures
        r == ends_with(s@, p@),
{
    if p.len() > s.len() {
        return false;
    }
    let r = occurs_at_exec(s, p, s.len() - p.len());
    assert(s@.skip(s@.len() - p@.len()) =~= s@.subrange(s@.len() - p@.len(), s@.len() as int));
    r
}

proof fn lemma_trim_start_skip(s: Seq<char>, i: int, newline_only: bool)
    requires
        0 <= i < s.len(),
        trims(s[i], newline_only),
    ensures
        trim_start(s.skip(i), newline_only) == trim_start(s.skip(i + 1), newline_only),
{
    assert(s.skip(i).drop_first() =~= s.skip(i + 1));
}

proof fn lemma_trim_end_take(s: Seq<char>, i: int, newline_only: bool)
    requires
        0 < i <= s.len(),
        trims(s[i - 1], newline_only),
    ensures
        trim_end(s.take(i), newline_only) == trim_end(s.take(i - 1), newline_only),
{
    assert(s.take(i).drop_last() =~= s.take(i - 1));
}

/// The bounds `(start, end)` of `trim(s, newline_only)` within `s`.
pub fn trim_bounds(s: &[char], newline_only: bool) -> (r: (usize, usize))
    ensures
        r.0 <= r.1 <= s@.len(),
        s@.skip(r.0 as int) == trim_start(s@, newline_only),
        s@.subrange(r.0 as int, r.1 as int) == trim(s@, newline_only),
{
    let mut start: usize = 0;
    assert(s@.skip(0) =~= s@);
    while start < s.len() && is_trimmed(s[start], newline_only)
        invariant
            start <= s@.len(),
            trim_start(s@, newline_only) == trim_start(s@.skip(start as int), newline_only),
        decreases s.len() - start,
    {
        proof {
            lemma_trim_start_skip(s@, start as int, newline_only);
        }
        start = start + 1;
    }
    let ghost t = s@.skip(start as int);
    assert(trim_start(s@, newline_only) == t);
    let mut end: usize = s.len();
    assert(t.take(t.len() as int) =~= t);
    while end > start && is_trimmed(s[end - 1], newline_only)
        invariant
            start <= end <= s@.len(),
            t == s@.skip(start as int),
            trim_end(t, newline_only) == trim_end(t.take(end - start), newline_only),
        decreases end,
    {
        proof {
            lemma_trim_end_take(t, end - start, newline_only);
        }
        end = end - 1;
    }
    assert(t.take(end - start) =~= s@.subrange(start as int, end as int));
    (start, end)
}

/// A copy of `s[start..end]`.
pub fn copy_range(s: &[char], start: usize, end: usize) -> (r: Vec<char>)
    requires
        start <= end <= s@.len(),
    ensures
        r@ == s@.subrange(start as int, end as int),
{
    let mut r: Vec<char> = Vec::new();
    let mut i = start;
    while i < end
        invariant
            start <= i <= end <= s@.len(),
            r@ == s@.subrange(start as int, i as int),
        decreases end - i,
    {
        r.push(s[i]);
        i = i + 1;
        assert(r@ =~= s@.subrange(start as int, i as int));
    }
    r
}

/// A copy of `trim(s, newline_only)`.
pub fn trimmed(s: &[char], newline_only: bool) -> (r: Vec<char>)
    ensures
        r@ == trim(s@, newline_only),
{
    let (a, b) = trim_bounds(s, newline_only);
    copy_range(s, a, b)
}

/// Appends the characters of `s` to `out`.
pub fn append_chars(out: &mut Vec<char>, s: &[char])
    ensures
        final(out)@ == old(out)@ + s@,
{
    let mut i: usize = 0;
    while i < s.len()
        invariant
            i <= s@.len(),
            out@ == old(out)@ + s@.take(i as int),
        decreases s.len() - i,
    {
        out.push(s[i]);
        i = i + 1;
        assert(out@ =~= old(out)@ + s@.take(i as int));
    }
    assert(s@.take(s@.len() as int) =~= s@);
}

/// The view of each vector in a sequence of character vectors.
pub open spec fn views(v: Seq<Vec<char>>) -> Seq<Seq<char>> {
    v.map_values(|w: Vec<char>| w@)
}

/// The words of `s`: its maximal runs of non-whitespace characters.
pub fn split_whitespace(s: &[char]) -> (r: Vec<Vec<char>>)
    ensures
        views(r@) == words(s@),
{
    let mut done: Vec<Vec<char>> = Vec::new();
    let mut cur: Vec<char> = Vec::new();
    let mut i: usize = 0;
    assert(views(done@) =~= Seq::<Seq<char>>::empty());
    while i < s.len()
        invariant
            i <= s@.len(),
            (views(done@), cur@) == words_acc(s@.take(i as int)),
        decreases s.len() - i,
    {
        let c = s[i];
        assert(s@.take(i + 1).drop_last() =~= s@.take(i as int));
        let ghost prev = done@;
        if is_whitespace(c) {
            if cur.len() > 0 {
                let mut w: Vec<char> = Vec::new();
                std::mem::swap(&mut w, &mut cur);
                done.push(w);
                assert(views(done@) =~= views(prev).push(w@));
            }
        } else {
            cur.push(c);
        }
        i = i + 1;
    }
    assert(s@.take(s@.len() as int) =~= s@);
    let ghost prev = done@;
    if cur.len() > 0 {
        done.push(cur);
        assert(views(done@) =~= views(prev).push(cur@));
    }
    done
}

/// The pieces of `s` separated by `'\n'`.
pub fn split_newlines(s: &[char]) -> (r: Vec<Vec<char>>)
    ensures
        views(r@) == split_lines(s@),
{
    let mut done: Vec<Vec<char>> = Vec::new();
    let mut cur: Vec<char> = Vec::new();
    let mut i: usize = 0;
    assert(views(done@) =~= Seq::<Seq<char>>::empty());
    while i < s.len()
        invariant
            i <= s@.len(),
            (views(done@), cur@) == lines_acc(s@.take(i as int)),
        decreases s.len() - i,
    {
        let c = s[i];
        assert(s@.take(i + 1).drop_last() =~= s@.take(i as int));
        let ghost prev = done@;
        if c == '\n' {
            let mut w: Vec<char> = Vec::new();
            std::mem::swap(&mut w, &mut cur);
            done.push(w);
            assert(views(done@) =~= views(prev).push(w@));
        } else {
            cur.push(c);
        }
        i = i + 1;
    }
    assert(s@.take(s@.len() as int) =~= s@);
    let ghost prev = done@;
    done.push(cur);
    assert(views(done@) =~= views(prev).push(cur@));
    done
}

/// The pieces joined with `sep` between consecutive pieces.
pub fn join_with(pieces: &Vec<Vec<char>>, sep: &[char]) -> (r: Vec<char>)
    ensures
        r@ == join(views(pieces@), sep@),
{
    let mut r: Vec<char> = Vec::new();
    let mut i: usize = 0;
    while i < pieces.len()
        invariant
            i <= pieces@.len(),
            r@ == join(views(pieces@).take(i as int), sep@),
        decreases pieces.len() - i,
    {
        let ghost before = r@;
        if i > 0 {
            append_chars(&mut r, sep);
        }
        append_chars(&mut r, &pieces[i]);
        i = i + 1;
        assert(views(pieces@).take(i as int).drop_last() =~= views(pieces@).take(i - 1));
        assert(views(pieces@).take(i as int).last() == pieces@[i - 1]@);
        if i == 1 {
            assert(r@ =~= join(views(pieces@).take(i as int), sep@));
        }
    }
    assert(views(pieces@).take(pieces@.len() as int) =~= views(pieces@));
    r
}

fn digit_exec(d: usize) -> (c: char)
    requires
        d < 10,
    ensures
        c == digit(d as nat),
{
    if d == 0 {
        '0'
    } else if d == 1 {
        '1'
    } else if d == 2 {
        '2'
    } else if d == 3 {
        '3'
    } else if d == 4 {
        '4'
    } else if d == 5 {
        '5'
    } else if d == 6 {
        '6'
    } else if d == 7 {
        '7'
    } else if d == 8 {
        '8'
    } else {
        '9'
    }
}

/// Appends the decimal representation of `n` to `out`.
pub fn push_decimal(out: &mut Vec<char>, n: usize)
    ensures
        final(out)@ == old(out)@ + decimal(n as nat),
    decreases n,
{
    if n < 10 {
        out.push(digit_exec(n));
        assert(out@ =~= old(out)@ + decimal(n as nat));
    } else {
        push_decimal(out, n / 10);
        out.push(digit_exec(n % 10));
        assert(out@ =~= old(out)@ + decimal(n as nat));
    }
}

/// `n` copies of `c`.
pub fn repeat_char(c: char, n: usize) -> (r: Vec<char>)
    ensures
        r@ == repeat(c, n as nat),
{
    let mut r: Vec<char> = Vec::new();
    let mut i: usize = 0;
    while i < n
        invariant
            i <= n,
            r@ == repeat(c, i as nat),
        decreases n - i,
    {
        r.push(c);
        i = i + 1;
        assert(r@ =~= repeat(c, i as nat));
    }
    r
}

/// Calls `FromIterator<char>` for `String` (`collect`). Claimed: the string holds exactly
/// the characters of `v`, in order.
#[verifier::external_body]
pub(crate) fn string_from_chars(v: &[char]) -> (s: String)
    ensures
        s@ == v@,
{
    v.iter().collect()
}

/// The characters of `s` that are not whitespace, in order.
pub open spec fn non_ws(s: Seq<char>) -> Seq<char>
    decreases s.len(),
{
    if s.len() == 0 {
        seq![]
    } else if is_ws(s.last()) {
        non_ws(s.drop_last())
    } else {
        non_ws(s.drop_last()).push(s.last())
    }
}

/// The pieces concatenated in order.
pub open spec fn concat_all(pieces: Seq<Seq<char>>) -> Seq<char>
    decreases pieces.len(),
{
    if pieces.len() == 0 {
        seq![]
    } else {
        concat_all(pieces.drop_last()) + pieces.last()
    }
}

/// A word: non-empty, without whitespace.
pub open spec fn is_word(w: Seq<char>) -> bool {
    w.len() > 0 && forall|j: int| 0 <= j < w.len() ==> !is_ws(#[trigger] w[j])
}

/// Dropping whitespace distributes over concatenation.
pub proof fn lemma_non_ws_concat(a: Seq<char>, b: Seq<char>)
    ensures
        non_ws(a + b) == non_ws(a) + non_ws(b),
    decreases b.len(),
{
    if b.len() == 0 {
        assert(a + b =~= a);
        assert(non_ws(a) + non_ws(b) =~= non_ws(a));
    } else {
        lemma_non_ws_concat(a, b.drop_last());
        assert((a + b).drop_last() =~= a + b.drop_last());
        assert((a + b).last() == b.last());
        if is_ws(b.last()) {
        } else {
            assert(non_ws(a + b) =~= non_ws(a) + non_ws(b));
        }
    }
}

proof fn lemma_words_acc(s: Seq<char>)
    ensures
        forall|i: int| 0 <= i < words_acc(s).0.len() ==> is_word(#[trigger] words_acc(s).0[i]),
        forall|j: int| 0 <= j < words_acc(s).1.len() ==> !is_ws(#[trigger] words_acc(s).1[j]),
        concat_all(words_acc(s).0) + words_acc(s).1 == non_ws(s),
    decreases s.len(),
{
    if s.len() > 0 {
        lemma_words_acc(s.drop_last());
        let (done, cur) = words_acc(s.drop_last());
        let c = s.last();
        if is_ws(c) {
            if cur.len() > 0 {
                assert(done.push(cur).drop_last() =~= done);
                assert(concat_all(done.push(cur)) + seq![] =~= concat_all(done) + cur);
                assert forall|i: int| 0 <= i < done.push(cur).len() implies is_word(
                    #[trigger] done.push(cur)[i],
                ) by {
                    if i < done.len() {
                        assert(done.push(cur)[i] == done[i]);
                    }
                }
            }
        } else {
            assert(concat_all(done) + cur.push(c) =~= (concat_all(done) + cur).push(c));
        }
    }
}

/// The words of a text are non-empty and hold no whitespace, and together they are
/// exactly its non-whitespace characters, in order.
pub proof fn lemma_words_law(s: Seq<char>)
    ensures
        forall|i: int| 0 <= i < words(s).len() ==> is_word(#[trigger] words(s)[i]),
        concat_all(words(s)) == non_ws(s),
{
    lemma_words_acc(s);
    let (done, cur) = words_acc(s);
    if cur.len() > 0 {
        assert(done.push(cur).drop_last() =~= done);
        assert forall|i: int| 0 <= i < done.push(cur).len() implies is_word(
            #[trigger] done.push(cur)[i],
        ) by {
            if i < done.len() {
                assert(done.push(cur)[i] == done[i]);
            }
        }
    } else {
        assert(concat_all(done) + cur =~= concat_all(done));
    }
}

/// ASCII upper-casing of one character; other characters are unchanged.
pub open spec fn upper_char(c: char) -> char {
    if 'a' <= c && c <= 'z' {
        ((c as u32) - 32) as char
    } else {
        c
    }
}

/// ASCII upper-casing of a sequence.
pub open spec fn ascii_upper(s: Seq<char>) -> Seq<char> {
    s.map_values(|c: char| upper_char(c))
}

/// Lower-casing forgets an earlier upper-casing; upper-casing keeps whitespace and every
/// character that is not a lower-case ASCII letter.
pub proof fn lemma_upper_char(c: char)
    ensures
        lower_char(upper_char(c)) == lower_char(c),
        is_ws(upper_char(c)) == is_ws(c),
        (upper_char(c) == c) <==> !('a' <= c && c <= 'z'),
{
}

/// Upper-casing commutes with trimming leading whitespace.
pub proof fn lemma_trim_start_upper(s: Seq<char>)
    ensures
        trim_start(ascii_upper(s), false) == ascii_upper(trim_start(s, false)),
    decreases s.len(),
{
    if s.len() > 0 {
        lemma_upper_char(s[0]);
        assert(ascii_upper(s)[0] == upper_char(s[0]));
        assert(ascii_upper(s).drop_first() =~= ascii_upper(s.drop_first()));
        lemma_trim_start_upper(s.drop_first());
    } else {
        assert(ascii_upper(s) =~= s);
    }
}

/// Lower-casing forgets an earlier upper-casing.
pub proof fn lemma_lower_upper(s: Seq<char>)
    ensures
        ascii_lower(ascii_upper(s)) == ascii_lower(s),
{
    assert forall|i: int| 0 <= i < s.len() implies ascii_lower(ascii_upper(s))[i] == ascii_lower(
        s,
    )[i] by {
        lemma_upper_char(s[i]);
    }
    assert(ascii_lower(ascii_upper(s)) =~= ascii_lower(s));
}

/// Leading whitespace is trimmed away.
pub proof fn lemma_trim_start_after_ws(ws: Seq<char>, s: Seq<char>)
    requires
        forall|i: int| 0 <= i < ws.len() ==> is_ws(#[trigger] ws[i]),
    ensures
        trim_start(ws + s, false) == trim_start(s, false),
    decreases ws.len(),
{
    if ws.len() > 0 {
        assert((ws + s)[0] == ws[0]);
        assert((ws + s).drop_first() =~= ws.drop_first() + s);
        lemma_trim_start_after_ws(ws.drop_first(), s);
    } else {
        assert(ws + s =~= s);
    }
}

proof fn lemma_words_acc_after_space(a: Seq<char>)
    ensures
        words_acc(a.push(' ')) == (words(a), Seq::<char>::empty()),
{
    assert(a.push(' ').drop_last() =~= a);
    assert(is_ws(' '));
}

proof fn lemma_words_acc_append(x: Seq<char>, b: Seq<char>)
    requires
        words_acc(x).1 == Seq::<char>::empty(),
    ensures
        words_acc(x + b) == (words_acc(x).0 + words_acc(b).0, words_acc(b).1),
    decreases b.len(),
{
    if b.len() == 0 {
        assert(x + b =~= x);
        assert(words_acc(x).0 + words_acc(b).0 =~= words_acc(x).0);
    } else {
        lemma_words_acc_append(x, b.drop_last());
        assert((x + b).drop_last() =~= x + b.drop_last());
        assert((x + b).last() == b.last());
        let (d, c) = words_acc(b.drop_last());
        let dx = words_acc(x).0;
        if is_ws(b.last()) && c.len() > 0 {
            assert((dx + d).push(c) =~= dx + d.push(c));
        }
    }
}

/// The words of two texts joined by a space are the words of the first, then those of
/// the second.
pub proof fn lemma_words_split(a: Seq<char>, b: Seq<char>)
    ensures
        words(a + seq![' '] + b) == words(a) + words(b),
{
    lemma_words_acc_after_space(a);
    lemma_words_acc_append(a.push(' '), b);
    assert(a + seq![' '] + b =~= a.push(' ') + b);
    let (d, c) = words_acc(b);
    if c.len() > 0 {
        assert((words(a) + d).push(c) =~= words(a) + d.push(c));
    }
}

/// The number of newlines in `s`.
pub open spec fn newline_count(s: Seq<char>) -> nat
    decreases s.len(),
{
    if s.len() == 0 {
        0
    } else {
        newline_count(s.drop_last()) + if s.last() == '\n' {
            1nat
        } else {
            0nat
        }
    }
}

proof fn lemma_lines_acc(s: Seq<char>)
    ensures
        lines_acc(s).0.len() == newline_count(s),
        join(lines_acc(s).0.push(lines_acc(s).1), seq!['\n']) == s,
        forall|i: int| 0 <= i < lines_acc(s).0.len() ==> !(#[trigger] lines_acc(s).0[i]).contains('\n'),
        !lines_acc(s).1.contains('\n'),
    decreases s.len(),
{
    if s.len() == 0 {
        assert(seq![Seq::<char>::empty()][0] == Seq::<char>::empty());
        assert(join(seq![Seq::<char>::empty()], seq!['\n']) == Seq::<char>::empty());
        assert(Seq::<Seq<char>>::empty().push(Seq::<char>::empty()) =~= seq![Seq::<char>::empty()]);
    } else {
        lemma_lines_acc(s.drop_last());
        let (done, cur) = lines_acc(s.drop_last());
        let c = s.last();
        assert(s.drop_last().push(c) =~= s);
        if c == '\n' {
            let d2 = done.push(cur);
            assert(d2.push(Seq::<char>::empty()).drop_last() =~= d2);
            assert(join(d2.push(Seq::<char>::empty()), seq!['\n']) =~= join(d2, seq!['\n'])
                + seq!['\n'] + Seq::<char>::empty());
            assert forall|i: int| 0 <= i < d2.len() implies !(#[trigger] d2[i]).contains('\n') by {
                if i < done.len() {
                    assert(d2[i] == done[i]);
                }
            }
            assert(!Seq::<char>::empty().contains('\n'));
        } else {
            let cur2 = cur.push(c);
            assert(done.push(cur2).drop_last() =~= done);
            assert(done.push(cur).drop_last() =~= done);
            if done.len() == 0 {
                assert(join(done.push(cur2), seq!['\n']) == cur2);
                assert(join(done.push(cur), seq!['\n']) == cur);
            } else {
                assert(join(done.push(cur2), seq!['\n']) =~= join(done, seq!['\n']) + seq!['\n']
                    + cur2);
                assert(join(done.push(cur), seq!['\n']) =~= join(done, seq!['\n']) + seq!['\n']
                    + cur);
            }
            assert(!cur2.contains('\n')) by {
                if cur2.contains('\n') {
                    let i = choose|i: int| 0 <= i < cur2.len() && cur2[i] == '\n';
                    if i < cur.len() {
                        assert(cur[i] == '\n');
                    }
                }
            }
        }
    }
}

/// Splitting at newlines keeps every line, blank ones included: there is one piece more
/// than there are newlines, no piece holds a newline, and joining the pieces with newlines
/// gives the text back.
pub proof fn lemma_split_lines_law(s: Seq<char>)
    ensures
        split_lines(s).len() == newline_count(s) + 1,
        forall|i: int| 0 <= i < split_lines(s).len() ==> !(#[trigger] split_lines(s)[i]).contains('\n'),
        join(split_lines(s), seq!['\n']) == s,
{
    lemma_lines_acc(s);
    let (done, cur) = lines_acc(s);
    assert forall|i: int| 0 <= i < done.push(cur).len() implies !(#[trigger] done.push(cur)[i]).contains('\n') by {
        if i < done.len() {
            assert(done.push(cur)[i] == done[i]);
        }
    }
}

/// A decimal digit character.
pub open spec fn is_digit(c: char) -> bool {
    '0' <= c && c <= '9'
}

/// The number written by a sequence of decimal digits, most significant first.
pub open spec fn decimal_value(s: Seq<char>) -> int
    decreases s.len(),
{
    if s.len() == 0 {
        0
    } else {
        decimal_value(s.drop_last()) * 10 + ((s.last() as u32) - ('0' as u32))
    }
}

proof fn lemma_digit_value(d: nat)
    requires
        d < 10,
    ensures
        is_digit(digit(d)),
        (digit(d) as u32) - ('0' as u32) == d,
        digit(d) == '0' ==> d == 0,
{
    assert('0' as u32 == 48);
    if d == 0 {
        assert('0' as u32 == 48);
    } else if d == 1 {
        assert('1' as u32 == 49);
    } else if d == 2 {
        assert('2' as u32 == 50);
    } else if d == 3 {
        assert('3' as u32 == 51);
    } else if d == 4 {
        assert('4' as u32 == 52);
    } else if d == 5 {
        assert('5' as u32 == 53);
    } else if d == 6 {
        assert('6' as u32 == 54);
    } else if d == 7 {
        assert('7' as u32 == 55);
    } else if d == 8 {
        assert('8' as u32 == 56);
    } else {
        assert('9' as u32 == 57);
    }
}

/// `decimal(n)` writes `n`: it is a non-empty run of digits, most significant first,
/// without a leading zero (unless `n` is 0), that reads back as `n`.
pub proof fn lemma_decimal_law(n: nat)
    ensures
        decimal(n).len() >= 1,
        forall|i: int| 0 <= i < decimal(n).len() ==> is_digit(#[trigger] decimal(n)[i]),
        decimal_value(decimal(n)) == n,
        decimal(n)[0] == '0' ==> n == 0,
    decreases n,
{
    if n < 10 {
        lemma_digit_value(n);
        let r = seq![digit(n)];
        assert(r.drop_last() =~= Seq::<char>::empty());
        assert(r.last() == digit(n));
        assert(decimal_value(r) == decimal_value(r.drop_last()) * 10 + ((r.last() as u32) - ('0'
            as u32)));
    } else {
        lemma_digit_value(n % 10);
        lemma_decimal_law(n / 10);
        let d = decimal(n / 10);
        let r = d.push(digit(n % 10));
        assert(r.drop_last() =~= d);
        assert(r.last() == digit(n % 10));
        assert(decimal_value(r) == decimal_value(d) * 10 + ((r.last() as u32) - ('0' as u32)));
        assert(r[0] == d[0]);
        assert((n / 10) * 10 + n % 10 == n) by (nonlinear_arith);
        assert(n / 10 > 0);
        assert forall|i: int| 0 <= i < r.len() implies is_digit(#[trigger] r[i]) by {
            if i < d.len() {
                assert(r[i] == d[i]);
            }
        }
    }
}

} // verus!
