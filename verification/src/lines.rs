//! The OpenCC dictionary text format.
//!
//! A dictionary text is a sequence of lines separated by `'\n'`; trailing
//! carriage returns are ignored. Blank lines and lines starting with `'#'`
//! are comments. Every other line is `key<TAB>value [value...]`; the entry it
//! contributes is the key and its first whitespace-separated value. Lines
//! with no tab, or with no value after the tab, contribute nothing.

use vstd::prelude::*;
use crate::engine::flush;
use crate::text::{string_from_chars, strings_view};

verus! {

/// Unicode `White_Space` characters (the classification of `char::is_whitespace`).
pub open spec fn is_ws(c: char) -> bool {
    let u = c as u32;
    ||| 0x09 <= u <= 0x0D
    ||| u == 0x20
    ||| u == 0x85
    ||| u == 0xA0
    ||| u == 0x1680
    ||| 0x2000 <= u <= 0x200A
    ||| u == 0x2028
    ||| u == 0x2029
    ||| u == 0x202F
    ||| u == 0x205F
    ||| u == 0x3000
}

/// Index of the first `c` in `s`, or `s.len()` when `c` does not occur.
pub open spec fn find_char(s: Seq<char>, c: char) -> nat
    decreases s.len(),
{
    if s.len() == 0 {
        0
    } else if s[0] == c {
        0
    } else {
        1 + find_char(s.drop_first(), c)
    }
}

/// Number of leading non-whitespace characters of `s`.
pub open spec fn word_end(s: Seq<char>) -> nat
    decreases s.len(),
{
    if s.len() == 0 {
        0
    } else if is_ws(s[0]) {
        0
    } else {
        1 + word_end(s.drop_first())
    }
}

/// `s` without its trailing carriage returns.
pub open spec fn trim_cr(s: Seq<char>) -> Seq<char>
    decreases s.len(),
{
    if s.len() > 0 && s.last() == '\r' {
        trim_cr(s.drop_last())
    } else {
        s
    }
}

/// The first whitespace-separated word of `s`, if any.
pub open spec fn first_word(s: Seq<char>) -> Option<Seq<char>>
    decreases s.len(),
{
    if s.len() == 0 {
        None
    } else if is_ws(s[0]) {
        first_word(s.drop_first())
    } else {
        Some(s.take(word_end(s) as int))
    }
}

/// The `(key, first value)` entry that one line contributes, if any.
pub open spec fn parse_line(line: Seq<char>) -> Option<(Seq<char>, Seq<char>)> {
    let l = trim_cr(line);
    if l.len() == 0 || l[0] == '#' {
        None
    } else {
        let t = find_char(l, '\t');
        if t >= l.len() {
            None
        } else {
            match first_word(l.skip(t + 1int)) {
                Some(v) => Some((l.take(t as int), v)),
                None => None,
            }
        }
    }
}

/// The entry contributed by the first line of `s`, as a sequence of zero or one entries.
pub open spec fn first_line_entries(s: Seq<char>) -> Seq<(Seq<char>, Seq<char>)> {
    match parse_line(s.take(find_char(s, '\n') as int)) {
        Some(x) => seq![x],
        None => Seq::empty(),
    }
}

/// The entries of a dictionary text, line by line, in order.
pub open spec fn text_entries(s: Seq<char>) -> Seq<(Seq<char>, Seq<char>)>
    decreases s.len(),
{
    let e = find_char(s, '\n');
    if e >= s.len() {
        first_line_entries(s)
    } else {
        first_line_entries(s) + text_entries(s.skip(e + 1int))
    }
}

/// `find_char` is at most the length; no earlier character is `c`, and
/// the character there is `c` when it is within `s`.
pub proof fn lemma_find_char_props(s: Seq<char>, c: char)
    ensures
        find_char(s, c) <= s.len(),
        forall|k: int| 0 <= k < find_char(s, c) ==> s[k] != c,
        find_char(s, c) < s.len() ==> s[find_char(s, c) as int] == c,
    decreases s.len(),
{
    if s.len() > 0 && s[0] != c {
        lemma_find_char_props(s.drop_first(), c);
        assert forall|k: int| 0 <= k < find_char(s, c) implies s[k] != c by {
            if k > 0 {
                assert(s[k] == s.drop_first()[k - 1]);
            }
        }
    }
}

/// The empty text has no entries.
pub proof fn lemma_text_entries_empty()
    ensures
        text_entries(Seq::<char>::empty()).len() == 0,
{
    assert(Seq::<char>::empty().take(0) =~= Seq::<char>::empty());
}

/// A final newline adds no entry.
pub proof fn lemma_text_entries_push_newline(x: Seq<char>)
    ensures
        text_entries(x.push('\n')) == text_entries(x),
    decreases x.len(),
{
    let y = x.push('\n');
    lemma_find_char_props(x, '\n');
    let e = find_char(x, '\n');
    lemma_text_entries_empty();
    if e >= x.len() {
        assert forall|k: int| 0 <= k < x.len() implies y[k] != '\n' by {
            assert(y[k] == x[k]);
        }
        lemma_find_char(y, '\n', x.len() as int);
        assert(y.take(x.len() as int) =~= x);
        assert(x.take(e as int) =~= x);
        assert(y.skip(x.len() + 1int) =~= Seq::<char>::empty());
        assert(text_entries(y) =~= first_line_entries(y) + text_entries(Seq::<char>::empty()));
    } else {
        assert forall|k: int| 0 <= k < e implies y[k] != '\n' by {
            assert(y[k] == x[k]);
        }
        lemma_find_char(y, '\n', e as int);
        assert(y.take(e as int) =~= x.take(e as int));
        assert(y.skip(e + 1int) =~= x.skip(e + 1int).push('\n'));
        lemma_text_entries_push_newline(x.skip(e + 1int));
    }
}

/// The entries of a text that ends a line, followed by another text, are
/// those of the first then those of the second.
pub proof fn lemma_text_entries_concat(a: Seq<char>, b: Seq<char>)
    requires
        a.len() > 0,
        a.last() == '\n',
    ensures
        text_entries(a + b) == text_entries(a) + text_entries(b),
    decreases a.len(),
{
    let ab = a + b;
    lemma_find_char_props(a, '\n');
    let e = find_char(a, '\n');
    if e >= a.len() {
        assert(a[a.len() - 1] == '\n');
        assert(false);
    }
    assert forall|k: int| 0 <= k < e implies ab[k] != '\n' by {
        assert(ab[k] == a[k]);
    }
    assert(ab[e as int] == a[e as int]);
    lemma_find_char(ab, '\n', e as int);
    assert(ab.take(e as int) =~= a.take(e as int));
    let ra = a.skip(e + 1int);
    assert(ab.skip(e + 1int) =~= ra + b);
    lemma_text_entries_empty();
    if ra.len() == 0 {
        assert(ra + b =~= b);
        assert(text_entries(a) =~= first_line_entries(a) + text_entries(ra));
    } else {
        assert(ra.last() == a.last());
        lemma_text_entries_concat(ra, b);
    }
    assert(first_line_entries(ab) == first_line_entries(a));
}

/// `find_char` is the index of the first occurrence.
pub proof fn lemma_find_char(s: Seq<char>, c: char, i: int)
    requires
        0 <= i <= s.len(),
        forall|k: int| 0 <= k < i ==> s[k] != c,
        i == s.len() || s[i] == c,
    ensures
        find_char(s, c) == i,
    decreases i,
{
    if i > 0 {
        lemma_find_char(s.drop_first(), c, i - 1);
    }
}

/// `word_end` is the index of the first whitespace character.
pub proof fn lemma_word_end(s: Seq<char>, i: int)
    requires
        0 <= i <= s.len(),
        forall|k: int| 0 <= k < i ==> !is_ws(s[k]),
        i == s.len() || is_ws(s[i]),
    ensures
        word_end(s) == i,
    decreases i,
{
    if i > 0 {
        lemma_word_end(s.drop_first(), i - 1);
    }
}

/// `s` without its trailing whitespace.
pub open spec fn trim_end_ws(s: Seq<char>) -> Seq<char>
    decreases s.len(),
{
    if s.len() > 0 && is_ws(s.last()) {
        trim_end_ws(s.drop_last())
    } else {
        s
    }
}

/// `s` without its leading whitespace.
pub open spec fn trim_start_ws(s: Seq<char>) -> Seq<char>
    decreases s.len(),
{
    if s.len() > 0 && is_ws(s[0]) {
        trim_start_ws(s.drop_first())
    } else {
        s
    }
}

/// `s` without its leading and trailing whitespace (`str::trim`).
pub open spec fn trim_ws(s: Seq<char>) -> Seq<char> {
    trim_start_ws(trim_end_ws(s))
}

/// End of `v[from..to]` once its trailing whitespace is removed.
pub fn trim_end_at(v: &Vec<char>, from: usize, to: usize) -> (r: usize)
    requires
        from <= to <= v@.len(),
    ensures
        from <= r <= to,
        v@.subrange(from as int, r as int) == trim_end_ws(v@.subrange(from as int, to as int)),
{
    let mut e = to;
    while e > from && is_whitespace(v[e - 1])
        invariant
            from <= e <= to <= v@.len(),
            trim_end_ws(v@.subrange(from as int, e as int)) == trim_end_ws(v@.subrange(from as int, to as int)),
        decreases e - from,
    {
        assert(v@.subrange(from as int, e as int).drop_last() =~= v@.subrange(from as int, e - 1));
        e -= 1;
    }
    e
}

/// Start of `v[from..to]` once its leading whitespace is removed.
pub fn trim_start_at(v: &Vec<char>, from: usize, to: usize) -> (r: usize)
    requires
        from <= to <= v@.len(),
    ensures
        from <= r <= to,
        v@.subrange(r as int, to as int) == trim_start_ws(v@.subrange(from as int, to as int)),
{
    let mut b = from;
    while b < to && is_whitespace(v[b])
        invariant
            from <= b <= to <= v@.len(),
            trim_start_ws(v@.subrange(b as int, to as int)) == trim_start_ws(v@.subrange(from as int, to as int)),
        decreases to - b,
    {
        assert(v@.subrange(b as int, to as int).drop_first() =~= v@.subrange(b + 1, to as int));
        b += 1;
    }
    b
}

/// The characters of `s` with leading and trailing whitespace removed.
pub fn trim_string(s: &str) -> (r: String)
    ensures
        r@ == trim_ws(s@),
{
    let v = crate::text::str_chars(s);
    let e = trim_end_at(&v, 0, v.len());
    let b = trim_start_at(&v, 0, e);
    assert(v@.subrange(0, v@.len() as int) =~= v@);
    crate::text::string_from_chars(&v, b, e)
}

/// The whitespace-separated words of `rest`, with `cur` the part of a word
/// already read before it.
pub open spec fn words_from(cur: Seq<char>, rest: Seq<char>) -> Seq<Seq<char>>
    decreases rest.len(),
{
    if rest.len() == 0 {
        flush(cur)
    } else if is_ws(rest[0]) {
        flush(cur) + words_from(Seq::empty(), rest.drop_first())
    } else {
        words_from(cur.push(rest[0]), rest.drop_first())
    }
}

/// The whitespace-separated words of `s`, in order.
pub open spec fn words(s: Seq<char>) -> Seq<Seq<char>> {
    words_from(Seq::empty(), s)
}

/// The whitespace-separated words of `v[from..to]`.
pub fn words_in(v: &Vec<char>, from: usize, to: usize) -> (ws: Vec<String>)
    requires
        from <= to <= v@.len(),
    ensures
        strings_view(ws@) == words(v@.subrange(from as int, to as int)),
{
    let mut ws: Vec<String> = Vec::new();
    let mut start = from;
    let mut i = from;
    assert(v@.subrange(from as int, from as int) =~= Seq::<char>::empty());
    while i < to
        invariant
            from <= start <= i <= to <= v@.len(),
            strings_view(ws@) + words_from(v@.subrange(start as int, i as int), v@.subrange(i as int, to as int))
                == words(v@.subrange(from as int, to as int)),
        decreases to - i,
    {
        let ghost cur = v@.subrange(start as int, i as int);
        let ghost rest = v@.subrange(i as int, to as int);
        let ghost done = strings_view(ws@);
        assert(rest[0] == v@[i as int]);
        assert(rest.drop_first() =~= v@.subrange(i + 1, to as int));
        if is_whitespace(v[i]) {
            if start < i {
                let w = string_from_chars(v, start, i);
                ws.push(w);
                assert(strings_view(ws@) =~= done + flush(cur));
            } else {
                assert(strings_view(ws@) =~= done + flush(cur));
            }
            i += 1;
            start = i;
            assert(v@.subrange(start as int, i as int) =~= Seq::<char>::empty());
            assert(strings_view(ws@) + words_from(Seq::empty(), rest.drop_first()) =~= done + (flush(cur)
                + words_from(Seq::empty(), rest.drop_first())));
        } else {
            assert(cur.push(v@[i as int]) =~= v@.subrange(start as int, i + 1));
            i += 1;
        }
    }
    let ghost cur = v@.subrange(start as int, i as int);
    let ghost done = strings_view(ws@);
    if start < i {
        let w = string_from_chars(v, start, i);
        ws.push(w);
    }
    assert(strings_view(ws@) =~= done + flush(cur));
    ws
}

/// A word ends within its text.
proof fn lemma_word_end_le(s: Seq<char>)
    ensures
        word_end(s) <= s.len(),
    decreases s.len(),
{
    if s.len() > 0 && !is_ws(s[0]) {
        lemma_word_end_le(s.drop_first());
    }
}

/// A word already started, `cur`, runs on to the next whitespace of `rest`.
proof fn lemma_words_from_first(cur: Seq<char>, rest: Seq<char>)
    requires
        cur.len() > 0,
    ensures
        words_from(cur, rest).len() > 0,
        words_from(cur, rest)[0] == cur + rest.take(word_end(rest) as int),
    decreases rest.len(),
{
    if rest.len() == 0 {
        assert(cur + rest.take(0) =~= cur);
    } else if is_ws(rest[0]) {
        assert(cur + rest.take(0) =~= cur);
    } else {
        lemma_words_from_first(cur.push(rest[0]), rest.drop_first());
        let d = rest.drop_first();
        lemma_word_end_le(d);
        assert(word_end(rest) == 1 + word_end(d));
        assert(cur.push(rest[0]) + d.take(word_end(d) as int) =~= cur + rest.take(word_end(rest) as int));
    }
}

/// The first word of `s` is the first of its words.
pub proof fn lemma_first_word_words(s: Seq<char>)
    ensures
        first_word(s) is None <==> words(s).len() == 0,
        first_word(s) is Some ==> first_word(s)->Some_0 == words(s)[0],
    decreases s.len(),
{
    if s.len() == 0 {
    } else if is_ws(s[0]) {
        lemma_first_word_words(s.drop_first());
        assert(flush(Seq::<char>::empty()) =~= Seq::<Seq<char>>::empty());
        assert(words(s) =~= words(s.drop_first()));
    } else {
        lemma_words_from_first(seq![s[0]], s.drop_first());
        assert(Seq::<char>::empty().push(s[0]) =~= seq![s[0]]);
        let d = s.drop_first();
        lemma_word_end_le(d);
        assert(word_end(s) == 1 + word_end(d));
        assert(seq![s[0]] + d.take(word_end(d) as int) =~= s.take(word_end(s) as int));
    }
}

/// Whether `c` is a Unicode whitespace character.
pub fn is_whitespace(c: char) -> (b: bool)
    ensures
        b == is_ws(c),
{
    let u = c as u32;
    (0x09 <= u && u <= 0x0D) || u == 0x20 || u == 0x85 || u == 0xA0 || u == 0x1680 || (0x2000 <= u
        && u <= 0x200A) || u == 0x2028 || u == 0x2029 || u == 0x202F || u == 0x205F || u == 0x3000
}

/// Position of the first `c` in `v[from..to]`, or `to` when there is none.
pub fn scan_char(v: &Vec<char>, from: usize, to: usize, c: char) -> (r: usize)
    requires
        from <= to <= v@.len(),
    ensures
        r == from + find_char(v@.subrange(from as int, to as int), c),
        from <= r <= to,
{
    let mut i = from;
    while i < to && v[i] != c
        invariant
            from <= i <= to <= v@.len(),
            forall|k: int| from <= k < i ==> v@[k] != c,
        decreases to - i,
    {
        i += 1;
    }
    proof {
        lemma_find_char(v@.subrange(from as int, to as int), c, i - from);
    }
    i
}

/// End of `v[from..to]` once its trailing carriage returns are removed.
pub fn trim_cr_end(v: &Vec<char>, from: usize, to: usize) -> (r: usize)
    requires
        from <= to <= v@.len(),
    ensures
        from <= r <= to,
        v@.subrange(from as int, r as int) == trim_cr(v@.subrange(from as int, to as int)),
{
    let mut e = to;
    while e > from && v[e - 1] == '\r'
        invariant
            from <= e <= to <= v@.len(),
            trim_cr(v@.subrange(from as int, e as int)) == trim_cr(v@.subrange(from as int, to as int)),
        decreases e - from,
    {
        assert(v@.subrange(from as int, e as int).drop_last() =~= v@.subrange(from as int, e - 1));
        e -= 1;
    }
    e
}

/// The first word of `v[from..to]`, as a `[start, end)` range.
pub fn first_word_range(v: &Vec<char>, from: usize, to: usize) -> (r: Option<(usize, usize)>)
    requires
        from <= to <= v@.len(),
    ensures
        match first_word(v@.subrange(from as int, to as int)) {
            Some(w) => r matches Some((a, b)) && from <= a <= b <= to && v@.subrange(a as int, b as int)
                == w,
            None => r is None,
        },
{
    let mut i = from;
    while i < to && is_whitespace(v[i])
        invariant
            from <= i <= to <= v@.len(),
            first_word(v@.subrange(i as int, to as int)) == first_word(v@.subrange(from as int, to as int)),
        decreases to - i,
    {
        assert(v@.subrange(i as int, to as int).drop_first() =~= v@.subrange(i + 1, to as int));
        i += 1;
    }
    if i == to {
        return None;
    }
    let mut j = i;
    while j < to && !is_whitespace(v[j])
        invariant
            i <= j <= to <= v@.len(),
            forall|k: int| i <= k < j ==> !is_ws(v@[k]),
        decreases to - j,
    {
        j += 1;
    }
    proof {
        let s = v@.subrange(i as int, to as int);
        lemma_word_end(s, j - i);
        assert(s.take(j - i) =~= v@.subrange(i as int, j as int));
    }
    Some((i, j))
}

/// The entry that the line `v[from..to]` contributes, if any.
pub fn parse_line_range(v: &Vec<char>, from: usize, to: usize) -> (r: Option<(usize, usize, usize, usize)>)
    requires
        from <= to <= v@.len(),
    ensures
        match parse_line(v@.subrange(from as int, to as int)) {
            Some((k, w)) => r matches Some((ka, kb, wa, wb)) && ka <= kb <= v@.len() && wa <= wb
                <= v@.len() && v@.subrange(ka as int, kb as int) == k && v@.subrange(wa as int, wb as int)
                == w,
            None => r is None,
        },
{
    let end = trim_cr_end(v, from, to);
    let ghost l = v@.subrange(from as int, end as int);
    if end == from || v[from] == '#' {
        return None;
    }
    let tab = scan_char(v, from, end, '\t');
    if tab >= end {
        return None;
    }
    assert(l.skip(tab - from + 1) =~= v@.subrange(tab + 1, end as int));
    assert(l.take(tab - from) =~= v@.subrange(from as int, tab as int));
    match first_word_range(v, tab + 1, end) {
        Some((a, b)) => Some((from, tab, a, b)),
        None => None,
    }
}


/// The views of parsed entries.
pub open spec fn entries_view(es: Seq<(Vec<char>, Vec<char>)>) -> Seq<(Seq<char>, Seq<char>)> {
    es.map_values(|e: (Vec<char>, Vec<char>)| (e.0@, e.1@))
}

/// The `(key, first value)` entries of a dictionary text, in order.
pub fn dict_entries(raw: &str) -> (es: Vec<(Vec<char>, Vec<char>)>)
    ensures
        entries_view(es@) == text_entries(raw@),
{
    let v = crate::text::str_chars(raw);
    dict_entries_chars(&v)
}

/// The `(key, first value)` entries of a dictionary text given as characters.
pub fn dict_entries_chars(v: &Vec<char>) -> (es: Vec<(Vec<char>, Vec<char>)>)
    ensures
        entries_view(es@) == text_entries(v@),
{
    let mut es: Vec<(Vec<char>, Vec<char>)> = Vec::new();
    let mut pos: usize = 0;
    let mut finished = false;
    assert(v@.skip(0) =~= v@);
    assert(entries_view(es@) + text_entries(v@) =~= text_entries(v@));
    while !finished
        invariant
            pos <= v@.len(),
            !finished ==> text_entries(v@) == entries_view(es@) + text_entries(v@.skip(pos as int)),
            finished ==> text_entries(v@) == entries_view(es@),
        decreases v@.len() - pos + (if finished { 0int } else { 1int }),
    {
        let ghost rest = v@.skip(pos as int);
        let ghost done = entries_view(es@);
        let end = scan_char(v, pos, v.len(), '\n');
        assert(v@.subrange(pos as int, v@.len() as int) =~= rest);
        assert(rest.take(find_char(rest, '\n') as int) =~= v@.subrange(pos as int, end as int));
        let ghost head = first_line_entries(rest);
        match parse_line_range(v, pos, end) {
            Some((ka, kb, wa, wb)) => {
                let key = crate::text::chars_sub(v, ka, kb);
                let value = crate::text::chars_sub(v, wa, wb);
                es.push((key, value));
                assert(entries_view(es@) =~= done + head);
            },
            None => {
                assert(entries_view(es@) =~= done + head);
            },
        }
        if end >= v.len() {
            finished = true;
        } else {
            assert(rest.skip(find_char(rest, '\n') + 1int) =~= v@.skip(end + 1));
            assert(text_entries(rest) == head + text_entries(v@.skip(end + 1)));
            assert(entries_view(es@) + text_entries(v@.skip(end + 1)) =~= done + (head + text_entries(v@.skip(end + 1))));
            pos = end + 1;
        }
    }
    es
}

} // verus!
