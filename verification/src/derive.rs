//! Dictionaries derived from others: the reversed variant tables, the
//! tofu-risk extension of a character table, and the Simplified phrases
//! projected from the regional phrase tables.
//!
//! Derived tables list their keys in code-point order.

use vstd::prelude::*;
use crate::text::{chars_eq, string_of_chars};

verus! {

// ---------------------------------------------------------------------------
// Code-point order on strings
// ---------------------------------------------------------------------------

/// `a` comes before `b` in code-point (lexicographic) order.
pub open spec fn chars_lt(a: Seq<char>, b: Seq<char>) -> bool
    decreases a.len(),
{
    if a.len() == 0 {
        b.len() > 0
    } else if b.len() == 0 {
        false
    } else if a[0] != b[0] {
        (a[0] as u32) < (b[0] as u32)
    } else {
        chars_lt(a.drop_first(), b.drop_first())
    }
}

/// The order is strict: nothing comes before itself, and of two different
/// strings one comes before the other.
pub proof fn lemma_lt_strict_total(a: Seq<char>, b: Seq<char>)
    ensures
        !chars_lt(a, a),
        chars_lt(a, b) ==> !chars_lt(b, a),
        a != b ==> chars_lt(a, b) || chars_lt(b, a),
    decreases a.len(),
{
    if a.len() > 0 && b.len() > 0 {
        lemma_lt_strict_total(a.drop_first(), b.drop_first());
        lemma_lt_strict_total(a.drop_first(), a.drop_first());
        if a != b && a[0] == b[0] {
            assert(a =~= seq![a[0]] + a.drop_first());
            assert(b =~= seq![b[0]] + b.drop_first());
        }
        if a[0] != b[0] {
            vstd::utf8::char_u32_cast(a[0], a[0] as u32);
            vstd::utf8::char_u32_cast(b[0], b[0] as u32);
        }
    } else if a.len() > 0 {
        lemma_lt_strict_total(a.drop_first(), a.drop_first());
    } else if b.len() == 0 {
        assert(a =~= b);
    }
}

/// The order is transitive.
pub proof fn lemma_lt_trans(a: Seq<char>, b: Seq<char>, c: Seq<char>)
    requires
        chars_lt(a, b),
        chars_lt(b, c),
    ensures
        chars_lt(a, c),
    decreases a.len(),
{
    if a.len() > 0 && b.len() > 0 && c.len() > 0 && a[0] == b[0] && b[0] == c[0] {
        lemma_lt_trans(a.drop_first(), b.drop_first(), c.drop_first());
    }
}

/// Whether `a` comes before `b`.
pub fn chars_less(a: &Vec<char>, b: &Vec<char>) -> (r: bool)
    ensures
        r == chars_lt(a@, b@),
{
    let mut i: usize = 0;
    assert(a@.skip(0) =~= a@);
    assert(b@.skip(0) =~= b@);
    assert(a@.take(0) =~= b@.take(0));
    while i < a.len() && i < b.len() && a[i] == b[i]
        invariant
            i <= a@.len(),
            i <= b@.len(),
            a@.take(i as int) == b@.take(i as int),
            chars_lt(a@, b@) == chars_lt(a@.skip(i as int), b@.skip(i as int)),
        decreases a@.len() - i,
    {
        assert(a@.skip(i as int).drop_first() =~= a@.skip(i + 1));
        assert(b@.skip(i as int).drop_first() =~= b@.skip(i + 1));
        assert(a@.take(i + 1) =~= a@.take(i as int).push(a@[i as int]));
        assert(b@.take(i + 1) =~= b@.take(i as int).push(b@[i as int]));
        i += 1;
    }
    if i == a.len() {
        assert(a@.skip(i as int).len() == 0);
        i < b.len()
    } else if i == b.len() {
        assert(b@.skip(i as int).len() == 0);
        false
    } else {
        assert(a@.skip(i as int)[0] == a@[i as int]);
        assert(b@.skip(i as int)[0] == b@[i as int]);
        (a[i] as u32) < (b[i] as u32)
    }
}

// ---------------------------------------------------------------------------
// Sorted tables
// ---------------------------------------------------------------------------

/// The strings come in strictly increasing order.
pub open spec fn strictly_sorted(ks: Seq<Seq<char>>) -> bool {
    forall|i: int, j: int| 0 <= i < j < ks.len() ==> chars_lt(#[trigger] ks[i], #[trigger] ks[j])
}

/// The strings of `s` in increasing order.
pub open spec fn listing_order(s: Set<Seq<char>>) -> Seq<Seq<char>> {
    choose|q: Seq<Seq<char>>| strictly_sorted(q) && q.to_set() == s
}

/// Two strictly increasing sequences of the same strings are equal.
proof fn lemma_sorted_unique(a: Seq<Seq<char>>, b: Seq<Seq<char>>)
    requires
        strictly_sorted(a),
        strictly_sorted(b),
        a.to_set() == b.to_set(),
    ensures
        a == b,
    decreases a.len(),
{
    if a.len() == 0 {
        if b.len() > 0 {
            assert(b.to_set().contains(b[0]));
        }
        assert(a =~= b);
    } else {
        assert(a.to_set().contains(a[0]));
        if b.len() == 0 {
            assert(false);
        }
        assert(b.to_set().contains(b[0]));
        if a[0] != b[0] {
            assert(b.contains(a[0]));
            let j = choose|j: int| 0 <= j < b.len() && b[j] == a[0];
            assert(a.contains(b[0]));
            let i = choose|i: int| 0 <= i < a.len() && a[i] == b[0];
            assert(j > 0 && i > 0);
            assert(chars_lt(b[0], b[j]));
            assert(chars_lt(a[0], a[i]));
            lemma_lt_strict_total(a[0], b[0]);
            assert(false);
        }
        let a2 = a.drop_first();
        let b2 = b.drop_first();
        assert forall|x: Seq<char>| a2.to_set().contains(x) == b2.to_set().contains(x) by {
            if a2.contains(x) {
                let i = choose|i: int| 0 <= i < a2.len() && a2[i] == x;
                assert(a[i + 1] == x);
                assert(chars_lt(a[0], x));
                lemma_lt_strict_total(a[0], x);
                assert(a.to_set().contains(x));
                assert(b.to_set().contains(x));
                assert(b.contains(x));
                let j = choose|j: int| 0 <= j < b.len() && b[j] == x;
                assert(j != 0);
                assert(b2[j - 1] == x);
            }
            if b2.contains(x) {
                let j = choose|j: int| 0 <= j < b2.len() && b2[j] == x;
                assert(b[j + 1] == x);
                assert(chars_lt(b[0], x));
                lemma_lt_strict_total(b[0], x);
                assert(b.to_set().contains(x));
                assert(a.to_set().contains(x));
                assert(a.contains(x));
                let i = choose|i: int| 0 <= i < a.len() && a[i] == x;
                assert(i != 0);
                assert(a2[i - 1] == x);
            }
        }
        assert(a2.to_set() =~= b2.to_set());
        assert(strictly_sorted(a2)) by {
            assert forall|i: int, j: int| 0 <= i < j < a2.len() implies chars_lt(#[trigger] a2[i], #[trigger] a2[j]) by {
                assert(a2[i] == a[i + 1] && a2[j] == a[j + 1]);
            }
        }
        assert(strictly_sorted(b2)) by {
            assert forall|i: int, j: int| 0 <= i < j < b2.len() implies chars_lt(#[trigger] b2[i], #[trigger] b2[j]) by {
                assert(b2[i] == b[i + 1] && b2[j] == b[j + 1]);
            }
        }
        lemma_sorted_unique(a2, b2);
        assert(a =~= seq![a[0]] + a2);
        assert(b =~= seq![b[0]] + b2);
    }
}

/// A strictly increasing sequence is the listing order of its strings.
pub proof fn lemma_listing_order(q: Seq<Seq<char>>)
    requires
        strictly_sorted(q),
    ensures
        listing_order(q.to_set()) == q,
{
    let c = listing_order(q.to_set());
    assert(strictly_sorted(c) && c.to_set() == q.to_set());
    lemma_sorted_unique(c, q);
}

/// The keys of a table.
pub open spec fn tkeys<V>(t: Seq<(Vec<char>, V)>) -> Seq<Seq<char>> {
    t.map_values(|e: (Vec<char>, V)| e.0@)
}

/// Find `k` in a table sorted by key: `Ok` with its position, or `Err`
/// with the position where it would go.
fn table_find<V>(t: &Vec<(Vec<char>, V)>, k: &Vec<char>) -> (r: Result<usize, usize>)
    requires
        strictly_sorted(tkeys(t@)),
    ensures
        match r {
            Ok(i) => i < t@.len() && t@[i as int].0@ == k@,
            Err(p) => p <= t@.len() && (forall|j: int| 0 <= j < p ==> chars_lt(#[trigger] t@[j].0@, k@)) && (forall|
                j: int,
            |
                p <= j < t@.len() ==> chars_lt(k@, #[trigger] t@[j].0@)),
        },
{
    let ghost ks = tkeys(t@);
    let mut lo: usize = 0;
    let mut hi: usize = t.len();
    while lo < hi
        invariant
            ks == tkeys(t@),
            strictly_sorted(ks),
            lo <= hi <= t@.len(),
            forall|j: int| 0 <= j < lo ==> chars_lt(#[trigger] t@[j].0@, k@),
            forall|j: int| hi <= j < t@.len() ==> chars_lt(k@, #[trigger] t@[j].0@),
        decreases hi - lo,
    {
        let mid = lo + (hi - lo) / 2;
        assert(ks[mid as int] == t@[mid as int].0@);
        if chars_less(&t[mid].0, k) {
            assert forall|j: int| 0 <= j < mid + 1 implies chars_lt(#[trigger] t@[j].0@, k@) by {
                if j < mid {
                    assert(ks[j] == t@[j].0@);
                    assert(chars_lt(ks[j], ks[mid as int]));
                    lemma_lt_trans(t@[j].0@, t@[mid as int].0@, k@);
                }
            }
            lo = mid + 1;
        } else if chars_eq(&t[mid].0, k) {
            return Ok(mid);
        } else {
            proof {
                lemma_lt_strict_total(t@[mid as int].0@, k@);
            }
            assert forall|j: int| mid <= j < t@.len() implies chars_lt(k@, #[trigger] t@[j].0@) by {
                if j > mid {
                    assert(ks[j] == t@[j].0@);
                    assert(chars_lt(ks[mid as int], ks[j]));
                    lemma_lt_trans(k@, t@[mid as int].0@, t@[j].0@);
                }
            }
            hi = mid;
        }
    }
    Err(lo)
}

// ---------------------------------------------------------------------------
// Rendering a table
// ---------------------------------------------------------------------------

/// The strings `ws` joined by single spaces.
pub open spec fn join_words(ws: Seq<Seq<char>>) -> Seq<char>
    decreases ws.len(),
{
    if ws.len() == 0 {
        Seq::empty()
    } else if ws.len() == 1 {
        ws[0]
    } else {
        join_words(ws.drop_last()) + " "@ + ws.last()
    }
}

/// The lines `key<TAB>values` of the keys `order` of the table `f`.
pub open spec fn render_rows(order: Seq<Seq<char>>, f: Map<Seq<char>, Seq<Seq<char>>>) -> Seq<char>
    decreases order.len(),
{
    if order.len() == 0 {
        Seq::empty()
    } else {
        render_rows(order.drop_last(), f) + order.last() + "\t"@ + join_words(f[order.last()]) + "\n"@
    }
}

/// The views of a list of character vectors.
pub open spec fn words_view(ws: Seq<Vec<char>>) -> Seq<Seq<char>> {
    ws.map_values(|w: Vec<char>| w@)
}

/// Appends `ws` joined by single spaces.
fn push_joined(out: &mut String, ws: &Vec<Vec<char>>)
    ensures
        final(out)@ == old(out)@ + join_words(words_view(ws@)),
{
    let ghost wv = words_view(ws@);
    let mut i: usize = 0;
    assert(wv.take(0) =~= Seq::<Seq<char>>::empty());
    while i < ws.len()
        invariant
            wv == words_view(ws@),
            i <= ws@.len(),
            out@ == old(out)@ + join_words(wv.take(i as int)),
        decreases ws@.len() - i,
    {
        let ghost before = out@;
        let ghost t = wv.take(i + 1);
        assert(t.drop_last() =~= wv.take(i as int));
        assert(t.last() == ws@[i as int]@);
        let w = string_of_chars(&ws[i]);
        if i > 0 {
            out.append(" ");
            out.append(w.as_str());
            assert(join_words(t) == join_words(t.drop_last()) + " "@ + t.last());
            assert(out@ =~= old(out)@ + join_words(t));
        } else {
            out.append(w.as_str());
            assert(t.len() == 1);
            assert(join_words(t) == t[0]);
            assert(join_words(wv.take(0)) =~= Seq::<char>::empty());
            assert(out@ =~= old(out)@ + join_words(t));
        }
        i += 1;
    }
    assert(wv.take(ws@.len() as int) =~= wv);
}

/// Appends the lines of a table whose rows agree with `f`.
fn push_rows(out: &mut String, t: &Vec<(Vec<char>, Vec<Vec<char>>)>, Ghost(f): Ghost<Map<Seq<char>, Seq<Seq<char>>>>)
    requires
        forall|i: int| 0 <= i < t@.len() ==> f[#[trigger] t@[i].0@] == words_view(t@[i].1@),
    ensures
        final(out)@ == old(out)@ + render_rows(tkeys(t@), f),
{
    let ghost ks = tkeys(t@);
    let mut i: usize = 0;
    assert(ks.take(0) =~= Seq::<Seq<char>>::empty());
    while i < t.len()
        invariant
            ks == tkeys(t@),
            i <= t@.len(),
            forall|i: int| 0 <= i < t@.len() ==> f[#[trigger] t@[i].0@] == words_view(t@[i].1@),
            out@ == old(out)@ + render_rows(ks.take(i as int), f),
        decreases t@.len() - i,
    {
        let ghost q = ks.take(i + 1);
        assert(q.drop_last() =~= ks.take(i as int));
        assert(q.last() == t@[i as int].0@);
        let k = string_of_chars(&t[i].0);
        out.append(k.as_str());
        out.append("\t");
        push_joined(out, &t[i].1);
        out.append("\n");
        assert(render_rows(q, f) == render_rows(q.drop_last(), f) + q.last() + "\t"@ + join_words(f[q.last()]) + "\n"@);
        assert(out@ =~= old(out)@ + render_rows(q, f));
        i += 1;
    }
    assert(ks.take(t@.len() as int) =~= ks);
}

// ---------------------------------------------------------------------------
// Reversed variant tables
// ---------------------------------------------------------------------------

/// The `(value, key)` pairs of the entries, entry by entry and value by value.
pub open spec fn value_key_pairs(es: Seq<(Seq<char>, Seq<Seq<char>>)>) -> Seq<(Seq<char>, Seq<char>)>
    decreases es.len(),
{
    if es.len() == 0 {
        Seq::empty()
    } else {
        value_key_pairs(es.drop_last()) + es.last().1.map_values(|v: Seq<char>| (v, es.last().0))
    }
}

/// Each first member of `ps` to the second members paired with it, in order.
pub open spec fn group_keys(ps: Seq<(Seq<char>, Seq<char>)>) -> Map<Seq<char>, Seq<Seq<char>>>
    decreases ps.len(),
{
    if ps.len() == 0 {
        Map::empty()
    } else {
        let m = group_keys(ps.drop_last());
        let v = ps.last().0;
        m.insert(
            v,
            (if m.contains_key(v) {
                m[v]
            } else {
                Seq::empty()
            }).push(ps.last().1),
        )
    }
}

/// The marker of a reverse preference line.
pub open spec fn prefer_marker() -> Seq<char> {
    "# @reverse-prefer:"@
}

/// The preference a line states, if any: `# @reverse-prefer: <value> ... <key>`
/// prefers `key` first among the keys of `value`.
pub open spec fn prefer_line(line: Seq<char>) -> Option<(Seq<char>, Seq<char>)> {
    let l = crate::lines::trim_cr(line);
    let p = prefer_marker();
    if p.len() <= l.len() && l.take(p.len() as int) == p {
        let fs = crate::lines::words(l.skip(p.len() as int));
        if fs.len() > 0 {
            Some((fs[0], fs.last()))
        } else {
            None
        }
    } else {
        None
    }
}

/// The preferences of a text, line by line.
pub open spec fn prefer_lines(s: Seq<char>) -> Seq<(Seq<char>, Seq<char>)>
    decreases s.len(),
{
    let e = crate::lines::find_char(s, '\n');
    let head = match prefer_line(s.take(e as int)) {
        Some(x) => seq![x],
        None => Seq::empty(),
    };
    if e >= s.len() {
        head
    } else {
        head + prefer_lines(s.skip(e + 1int))
    }
}

/// The table that pairs give when entered in order, a later pair replacing
/// an earlier one.
pub open spec fn pairs_map(ps: Seq<(Seq<char>, Seq<char>)>) -> Map<Seq<char>, Seq<char>>
    decreases ps.len(),
{
    if ps.len() == 0 {
        Map::empty()
    } else {
        pairs_map(ps.drop_last()).insert(ps.last().0, ps.last().1)
    }
}

/// Index of the first `x` in `s`, or `s.len()`.
pub open spec fn first_index(s: Seq<Seq<char>>, x: Seq<char>) -> nat
    decreases s.len(),
{
    if s.len() == 0 {
        0
    } else if s[0] == x {
        0
    } else {
        1 + first_index(s.drop_first(), x)
    }
}

/// `ks` with `p` moved to the front, when it occurs.
pub open spec fn prefer_first(ks: Seq<Seq<char>>, p: Seq<char>) -> Seq<Seq<char>> {
    let i = first_index(ks, p);
    if i < ks.len() {
        seq![p] + ks.remove(i as int)
    } else {
        ks
    }
}

/// The reversed table of a dictionary text: each value to the keys that
/// list it, in order, with preferred keys moved first.
pub open spec fn reversed_table(text: Seq<char>) -> Map<Seq<char>, Seq<Seq<char>>> {
    let g = group_keys(value_key_pairs(crate::dict_marisa::marisa_entries(text)));
    let prefs = pairs_map(prefer_lines(text));
    Map::new(
        |v: Seq<char>| g.contains_key(v),
        |v: Seq<char>| if prefs.contains_key(v) {
            prefer_first(g[v], prefs[v])
        } else {
            g[v]
        },
    )
}

proof fn lemma_group_keys(ps: Seq<(Seq<char>, Seq<char>)>)
    ensures
        forall|v: Seq<char>|
            #[trigger] group_keys(ps).contains_key(v) ==> exists|q: int| 0 <= q < ps.len() && (#[trigger] ps[q]).0 == v,
        forall|q: int|
            0 <= q < ps.len() ==> group_keys(ps).contains_key((#[trigger] ps[q]).0) && group_keys(ps)[ps[q].0].contains(
                ps[q].1,
            ),
    decreases ps.len(),
{
    if ps.len() > 0 {
        let d = ps.drop_last();
        lemma_group_keys(d);
        let m = group_keys(d);
        let last = ps.last();
        let old_list = if m.contains_key(last.0) { m[last.0] } else { Seq::<Seq<char>>::empty() };
        assert(group_keys(ps) == m.insert(last.0, old_list.push(last.1)));
        assert forall|v: Seq<char>| #[trigger] group_keys(ps).contains_key(v) implies exists|q: int|
            0 <= q < ps.len() && (#[trigger] ps[q]).0 == v by {
            if v == last.0 {
                assert(ps[ps.len() - 1].0 == v);
            } else {
                let q = choose|q: int| 0 <= q < d.len() && (#[trigger] d[q]).0 == v;
                assert(ps[q] == d[q]);
            }
        }
        assert forall|q: int| 0 <= q < ps.len() implies group_keys(ps).contains_key((#[trigger] ps[q]).0)
            && group_keys(ps)[ps[q].0].contains(ps[q].1) by {
            if q == ps.len() - 1 {
                assert(old_list.push(last.1)[old_list.len() as int] == last.1);
            } else {
                assert(ps[q] == d[q]);
                if ps[q].0 == last.0 {
                    let k = choose|k: int| 0 <= k < m[ps[q].0].len() && m[ps[q].0][k] == ps[q].1;
                    assert(old_list.push(last.1)[k] == ps[q].1);
                }
            }
        }
    }
}

proof fn lemma_value_key_pairs(es: Seq<(Seq<char>, Seq<Seq<char>>)>, i: int, j: int)
    requires
        0 <= i < es.len(),
        0 <= j < es[i].1.len(),
    ensures
        exists|q: int| 0 <= q < value_key_pairs(es).len() && #[trigger] value_key_pairs(es)[q] == (es[i].1[j], es[i].0),
    decreases es.len(),
{
    let d = es.drop_last();
    let tail = es.last().1.map_values(|v: Seq<char>| (v, es.last().0));
    assert(value_key_pairs(es) == value_key_pairs(d) + tail);
    if i == es.len() - 1 {
        let q = value_key_pairs(d).len() + j;
        assert(value_key_pairs(es)[q] == tail[j]);
    } else {
        assert(d[i] == es[i]);
        lemma_value_key_pairs(d, i, j);
        let q = choose|q: int| 0 <= q < value_key_pairs(d).len() && #[trigger] value_key_pairs(d)[q] == (d[i].1[j], d[i].0);
        assert(value_key_pairs(es)[q] == value_key_pairs(d)[q]);
    }
}

proof fn lemma_value_key_pairs_from(es: Seq<(Seq<char>, Seq<Seq<char>>)>, q: int)
    requires
        0 <= q < value_key_pairs(es).len(),
    ensures
        exists|i: int, j: int|
            0 <= i < es.len() && 0 <= j < es[i].1.len() && #[trigger] es[i].1[j] == value_key_pairs(es)[q].0,
    decreases es.len(),
{
    let d = es.drop_last();
    let tail = es.last().1.map_values(|v: Seq<char>| (v, es.last().0));
    assert(value_key_pairs(es) == value_key_pairs(d) + tail);
    if q < value_key_pairs(d).len() {
        assert(value_key_pairs(es)[q] == value_key_pairs(d)[q]);
        lemma_value_key_pairs_from(d, q);
        let (i, j) = choose|i: int, j: int|
            0 <= i < d.len() && 0 <= j < d[i].1.len() && #[trigger] d[i].1[j] == value_key_pairs(d)[q].0;
        assert(es[i] == d[i]);
    } else {
        let j = q - value_key_pairs(d).len();
        assert(value_key_pairs(es)[q] == tail[j]);
        assert(es[es.len() - 1].1[j] == tail[j].0);
    }
}

proof fn lemma_prefer_first_keeps(ks: Seq<Seq<char>>, p: Seq<char>, x: Seq<char>)
    requires
        ks.contains(x),
    ensures
        prefer_first(ks, p).contains(x),
{
    let i = first_index(ks, p);
    if i < ks.len() {
        lemma_first_index_props(ks, p);
        let k = choose|k: int| 0 <= k < ks.len() && ks[k] == x;
        let r = seq![p] + ks.remove(i as int);
        if k < i {
            assert(r[k + 1] == x);
        } else if k > i {
            assert(r[k] == x);
        } else {
            assert(r[0] == x);
        }
    }
}

proof fn lemma_first_index_props(s: Seq<Seq<char>>, x: Seq<char>)
    ensures
        first_index(s, x) <= s.len(),
        first_index(s, x) < s.len() ==> s[first_index(s, x) as int] == x,
    decreases s.len(),
{
    if s.len() > 0 && s[0] != x {
        lemma_first_index_props(s.drop_first(), x);
    }
}

/// What the reversed table holds: every value of every entry lists that
/// entry's key among its keys, and every value of the table is a value of
/// some entry.
pub proof fn lemma_reversed_table(text: Seq<char>)
    ensures
        forall|i: int, j: int|
            0 <= i < crate::dict_marisa::marisa_entries(text).len() && 0 <= j < crate::dict_marisa::marisa_entries(
                text,
            )[i].1.len() ==> reversed_table(text).contains_key(
                #[trigger] crate::dict_marisa::marisa_entries(text)[i].1[j],
            ) && reversed_table(text)[crate::dict_marisa::marisa_entries(text)[i].1[j]].contains(
                crate::dict_marisa::marisa_entries(text)[i].0,
            ),
        forall|v: Seq<char>|
            #[trigger] reversed_table(text).contains_key(v) ==> exists|i: int, j: int|
                0 <= i < crate::dict_marisa::marisa_entries(text).len() && 0 <= j
                    < crate::dict_marisa::marisa_entries(text)[i].1.len() && #[trigger] crate::dict_marisa::marisa_entries(
                    text,
                )[i].1[j] == v,
{
    let es = crate::dict_marisa::marisa_entries(text);
    let ps = value_key_pairs(es);
    let g = group_keys(ps);
    let prefs = pairs_map(prefer_lines(text));
    lemma_group_keys(ps);
    assert forall|i: int, j: int| 0 <= i < es.len() && 0 <= j < es[i].1.len() implies reversed_table(
        text,
    ).contains_key(#[trigger] es[i].1[j]) && reversed_table(text)[es[i].1[j]].contains(es[i].0) by {
        lemma_value_key_pairs(es, i, j);
        let q = choose|q: int| 0 <= q < ps.len() && #[trigger] ps[q] == (es[i].1[j], es[i].0);
        assert(g.contains_key(ps[q].0) && g[ps[q].0].contains(ps[q].1));
        let v = es[i].1[j];
        if prefs.contains_key(v) {
            lemma_prefer_first_keeps(g[v], prefs[v], es[i].0);
        }
    }
    assert forall|v: Seq<char>| #[trigger] reversed_table(text).contains_key(v) implies exists|i: int, j: int|
        0 <= i < es.len() && 0 <= j < es[i].1.len() && #[trigger] es[i].1[j] == v by {
        let q = choose|q: int| 0 <= q < ps.len() && (#[trigger] ps[q]).0 == v;
        lemma_value_key_pairs_from(es, q);
    }
}

/// The header of a reversed table.
pub open spec fn reverse_header() -> Seq<char> {
    "# Open Chinese Convert (OpenCC) Dictionary (generated, reversed)\n"@
        + "# Format: key\tvalue(s) (values separated by spaces)\n"@ + "# License: Apache-2.0 (see LICENSE)\n"@
        + "# Source: generated by zhhz from the corresponding variants file\n"@ + "\n"@
}

/// The reversed table as a dictionary text: the header, then each value
/// with its keys, values in code-point order.
pub open spec fn spec_reverse_dict(text: Seq<char>) -> Seq<char> {
    reverse_header() + render_rows(listing_order(reversed_table(text).dom()), reversed_table(text))
}

/// The table `t`, sorted by key, holds exactly the map `m`.
pub open spec fn table_holds(t: Seq<(Vec<char>, Vec<Vec<char>>)>, m: Map<Seq<char>, Seq<Seq<char>>>) -> bool {
    &&& strictly_sorted(tkeys(t))
    &&& forall|x: Seq<char>| #[trigger] m.contains_key(x) <==> tkeys(t).contains(x)
    &&& forall|i: int| 0 <= i < t.len() ==> m[#[trigger] t[i].0@] == words_view(t[i].1@)
}

/// A copy of a character vector.
fn chars_copy(v: &Vec<char>) -> (r: Vec<char>)
    ensures
        r@ == v@,
{
    let r = crate::text::chars_sub(v, 0, v.len());
    assert(v@.subrange(0, v@.len() as int) =~= v@);
    r
}

/// The keys of a table after inserting `e` at `p`, where it keeps the order.
proof fn lemma_sorted_insert<V>(t: Seq<(Vec<char>, V)>, p: int, e: (Vec<char>, V))
    requires
        strictly_sorted(tkeys(t)),
        0 <= p <= t.len(),
        forall|j: int| 0 <= j < p ==> chars_lt(#[trigger] t[j].0@, e.0@),
        forall|j: int| p <= j < t.len() ==> chars_lt(e.0@, #[trigger] t[j].0@),
    ensures
        strictly_sorted(tkeys(t.insert(p, e))),
        tkeys(t.insert(p, e)) == tkeys(t).insert(p, e.0@),
{
    let u = t.insert(p, e);
    assert(tkeys(u) =~= tkeys(t).insert(p, e.0@));
    assert forall|i: int, j: int| 0 <= i < j < tkeys(u).len() implies chars_lt(#[trigger] tkeys(u)[i], #[trigger] tkeys(u)[j]) by {
        assert(tkeys(u)[i] == u[i].0@ && tkeys(u)[j] == u[j].0@);
        if i < p && j < p {
            assert(tkeys(t)[i] == t[i].0@ && tkeys(t)[j] == t[j].0@);
        } else if i < p && j == p {
        } else if i < p && j > p {
            assert(u[j] == t[j - 1]);
            lemma_lt_trans(t[i].0@, e.0@, t[j - 1].0@);
        } else if i == p {
            assert(u[j] == t[j - 1]);
        } else {
            assert(u[i] == t[i - 1] && u[j] == t[j - 1]);
            assert(tkeys(t)[i - 1] == t[i - 1].0@ && tkeys(t)[j - 1] == t[j - 1].0@);
        }
    }
}

/// Record the pair `(v, k)`: append `k` to the keys of `v`.
fn table_add(t: &mut Vec<(Vec<char>, Vec<Vec<char>>)>, v: Vec<char>, k: Vec<char>, Ghost(ps): Ghost<Seq<(Seq<char>, Seq<char>)>>)
    requires
        table_holds(old(t)@, group_keys(ps)),
    ensures
        table_holds(final(t)@, group_keys(ps.push((v@, k@)))),
{
    let ghost m = group_keys(ps);
    let ghost ps2 = ps.push((v@, k@));
    let ghost m2 = group_keys(ps2);
    assert(ps2.drop_last() =~= ps);
    assert(ps2.last() == (v@, k@));
    let ghost kv = k@;
    match table_find(t, &v) {
        Ok(i) => {
            let ghost old_t = t@;
            assert(tkeys(old_t)[i as int] == v@);
            assert(m.contains_key(v@));
            let mut e = t.remove(i);
            let ghost before = words_view(e.1@);
            e.1.push(k);
            assert(words_view(e.1@) =~= before.push(kv));
            t.insert(i, e);
            assert(t@ =~= old_t.update(i as int, e));
            assert(tkeys(t@) =~= tkeys(old_t));
            assert forall|x: Seq<char>| #[trigger] m2.contains_key(x) <==> tkeys(t@).contains(x) by {
                if x == v@ {
                    assert(tkeys(t@)[i as int] == x);
                }
            }
            assert forall|j: int| 0 <= j < t@.len() implies m2[#[trigger] t@[j].0@] == words_view(t@[j].1@) by {
                if j != i {
                    assert(t@[j] == old_t[j]);
                    assert(tkeys(old_t)[j] == old_t[j].0@);
                    lemma_lt_strict_total(old_t[j].0@, v@);
                    if j < i {
                        assert(chars_lt(tkeys(old_t)[j], tkeys(old_t)[i as int]));
                    } else {
                        assert(chars_lt(tkeys(old_t)[i as int], tkeys(old_t)[j]));
                    }
                }
            }
        },
        Err(p) => {
            let ghost old_t = t@;
            assert(!m.contains_key(v@)) by {
                if m.contains_key(v@) {
                    let j = choose|j: int| 0 <= j < tkeys(old_t).len() && tkeys(old_t)[j] == v@;
                    assert(tkeys(old_t)[j] == old_t[j].0@);
                    lemma_lt_strict_total(v@, v@);
                }
            }
            let mut ks: Vec<Vec<char>> = Vec::new();
            ks.push(k);
            assert(words_view(ks@) =~= Seq::<Seq<char>>::empty().push(kv));
            let e = (v, ks);
            proof {
                lemma_sorted_insert(old_t, p as int, e);
            }
            t.insert(p, e);
            assert forall|x: Seq<char>| #[trigger] m2.contains_key(x) <==> tkeys(t@).contains(x) by {
                if x == e.0@ {
                    assert(tkeys(t@)[p as int] == x);
                } else {
                    if tkeys(t@).contains(x) {
                        let j = choose|j: int| 0 <= j < tkeys(t@).len() && tkeys(t@)[j] == x;
                        if j < p {
                            assert(tkeys(old_t)[j] == x);
                        } else {
                            assert(tkeys(old_t)[j - 1] == x);
                        }
                    }
                    if m.contains_key(x) {
                        let j = choose|j: int| 0 <= j < tkeys(old_t).len() && tkeys(old_t)[j] == x;
                        if j < p {
                            assert(tkeys(t@)[j] == x);
                        } else {
                            assert(tkeys(t@)[j + 1] == x);
                        }
                    }
                }
            }
            assert forall|j: int| 0 <= j < t@.len() implies m2[#[trigger] t@[j].0@] == words_view(t@[j].1@) by {
                if j < p {
                    assert(t@[j] == old_t[j]);
                    assert(tkeys(old_t)[j] == old_t[j].0@);
                    lemma_lt_strict_total(old_t[j].0@, e.0@);
                } else if j > p {
                    assert(t@[j] == old_t[j - 1]);
                    assert(tkeys(old_t)[j - 1] == old_t[j - 1].0@);
                    lemma_lt_strict_total(old_t[j - 1].0@, e.0@);
                }
            }
        },
    }
}

/// `ks` with `p` moved to the front, when it occurs.
fn prefer_first_vec(ks: &Vec<Vec<char>>, p: &Vec<char>) -> (r: Vec<Vec<char>>)
    ensures
        words_view(r@) == prefer_first(words_view(ks@), p@),
{
    let ghost kv = words_view(ks@);
    let mut i: usize = 0;
    while i < ks.len() && !chars_eq(&ks[i], p)
        invariant
            kv == words_view(ks@),
            i <= ks@.len(),
            forall|j: int| 0 <= j < i ==> kv[j] != p@,
        decreases ks@.len() - i,
    {
        i += 1;
    }
    proof {
        lemma_first_index(kv, p@, i as int);
    }
    if i == ks.len() {
        let mut r: Vec<Vec<char>> = Vec::new();
        let mut j: usize = 0;
        while j < ks.len()
            invariant
                kv == words_view(ks@),
                j <= ks@.len(),
                words_view(r@) == kv.take(j as int),
            decreases ks@.len() - j,
        {
            let ghost before = words_view(r@);
            let c = chars_copy(&ks[j]);
            assert(c@ == kv[j as int]);
            r.push(c);
            assert(words_view(r@) =~= before.push(kv[j as int]));
            assert(words_view(r@) =~= kv.take(j + 1));
            j += 1;
        }
        assert(kv.take(ks@.len() as int) =~= kv);
        return r;
    }
    let mut r: Vec<Vec<char>> = Vec::new();
    r.push(chars_copy(p));
    let mut j: usize = 0;
    assert(words_view(r@) =~= seq![p@] + kv.remove(i as int).take(0));
    while j < ks.len()
        invariant
            kv == words_view(ks@),
            i < ks@.len(),
            j <= ks@.len(),
            words_view(r@) == seq![p@] + kv.remove(i as int).take(if j <= i {
                j as int
            } else {
                j - 1
            }),
        decreases ks@.len() - j,
    {
        if j != i {
            let ghost before = words_view(r@);
            let c = chars_copy(&ks[j]);
            assert(c@ == kv[j as int]);
            r.push(c);
            assert(words_view(r@) =~= before.push(kv[j as int]));
            let ghost n = if j < i {
                j as int
            } else {
                j - 1
            };
            assert(kv.remove(i as int)[n] == kv[j as int]);
            assert(words_view(r@) =~= seq![p@] + kv.remove(i as int).take(n + 1));
        }
        j += 1;
    }
    assert(kv.remove(i as int).take(ks@.len() - 1) =~= kv.remove(i as int));
    r
}

/// `first_index` is the index of the first occurrence.
proof fn lemma_first_index(s: Seq<Seq<char>>, x: Seq<char>, i: int)
    requires
        0 <= i <= s.len(),
        forall|k: int| 0 <= k < i ==> s[k] != x,
        i == s.len() || s[i] == x,
    ensures
        first_index(s, x) == i,
    decreases i,
{
    if i > 0 {
        lemma_first_index(s.drop_first(), x, i - 1);
    }
}

/// The table `t`, sorted by key, holds exactly the map `m`.
pub open spec fn pairs_table_holds(t: Seq<(Vec<char>, Vec<char>)>, m: Map<Seq<char>, Seq<char>>) -> bool {
    &&& strictly_sorted(tkeys(t))
    &&& forall|x: Seq<char>| #[trigger] m.contains_key(x) <==> tkeys(t).contains(x)
    &&& forall|i: int| 0 <= i < t.len() ==> m[#[trigger] t[i].0@] == t[i].1@
}

/// Enter the pair `(k, v)`, replacing the value of `k` if it has one.
fn pairs_table_put(t: &mut Vec<(Vec<char>, Vec<char>)>, k: Vec<char>, v: Vec<char>, Ghost(ps): Ghost<Seq<(Seq<char>, Seq<char>)>>)
    requires
        pairs_table_holds(old(t)@, pairs_map(ps)),
    ensures
        pairs_table_holds(final(t)@, pairs_map(ps.push((k@, v@)))),
{
    let ghost m = pairs_map(ps);
    let ghost ps2 = ps.push((k@, v@));
    let ghost m2 = pairs_map(ps2);
    assert(ps2.drop_last() =~= ps);
    assert(ps2.last() == (k@, v@));
    let ghost old_t = t@;
    match table_find(t, &k) {
        Ok(i) => {
            let e = (k, v);
            t.set(i, e);
            assert(tkeys(t@) =~= tkeys(old_t));
            assert forall|x: Seq<char>| #[trigger] m2.contains_key(x) <==> tkeys(t@).contains(x) by {
                if x == e.0@ {
                    assert(tkeys(t@)[i as int] == x);
                }
            }
            assert forall|j: int| 0 <= j < t@.len() implies m2[#[trigger] t@[j].0@] == t@[j].1@ by {
                if j != i {
                    assert(t@[j] == old_t[j]);
                    assert(tkeys(old_t)[j] == old_t[j].0@);
                    assert(tkeys(old_t)[i as int] == e.0@);
                    if j < i {
                        assert(chars_lt(tkeys(old_t)[j], tkeys(old_t)[i as int]));
                    } else {
                        assert(chars_lt(tkeys(old_t)[i as int], tkeys(old_t)[j]));
                    }
                    lemma_lt_strict_total(old_t[j].0@, e.0@);
                }
            }
        },
        Err(p) => {
            let e = (k, v);
            proof {
                lemma_sorted_insert(old_t, p as int, e);
            }
            t.insert(p, e);
            assert forall|x: Seq<char>| #[trigger] m2.contains_key(x) <==> tkeys(t@).contains(x) by {
                if x == e.0@ {
                    assert(tkeys(t@)[p as int] == x);
                } else {
                    if tkeys(t@).contains(x) {
                        let j = choose|j: int| 0 <= j < tkeys(t@).len() && tkeys(t@)[j] == x;
                        if j < p {
                            assert(tkeys(old_t)[j] == x);
                        } else {
                            assert(tkeys(old_t)[j - 1] == x);
                        }
                    }
                    if m.contains_key(x) {
                        let j = choose|j: int| 0 <= j < tkeys(old_t).len() && tkeys(old_t)[j] == x;
                        if j < p {
                            assert(tkeys(t@)[j] == x);
                        } else {
                            assert(tkeys(t@)[j + 1] == x);
                        }
                    }
                }
            }
            assert forall|j: int| 0 <= j < t@.len() implies m2[#[trigger] t@[j].0@] == t@[j].1@ by {
                if j < p {
                    assert(t@[j] == old_t[j]);
                    assert(tkeys(old_t)[j] == old_t[j].0@);
                    lemma_lt_strict_total(old_t[j].0@, e.0@);
                } else if j > p {
                    assert(t@[j] == old_t[j - 1]);
                    assert(tkeys(old_t)[j - 1] == old_t[j - 1].0@);
                    lemma_lt_strict_total(old_t[j - 1].0@, e.0@);
                }
            }
        },
    }
}

/// Whether `v[from..to]` starts with `lit`.
fn starts_with_at(v: &Vec<char>, from: usize, to: usize, lit: &str) -> (r: bool)
    requires
        from <= to <= v@.len(),
    ensures
        r == (lit@.len() <= to - from && v@.subrange(from as int, to as int).take(lit@.len() as int) == lit@),
{
    let l = crate::text::str_chars(lit);
    if l.len() > to - from {
        return false;
    }
    let mut i: usize = 0;
    while i < l.len()
        invariant
            from <= to <= v@.len(),
            l@ == lit@,
            l@.len() <= to - from,
            i <= l@.len(),
            forall|k: int| 0 <= k < i ==> v@[from + k] == l@[k],
        decreases l@.len() - i,
    {
        if v[from + i] != l[i] {
            assert(v@.subrange(from as int, to as int).take(l@.len() as int)[i as int] == v@[from + i]);
            return false;
        }
        i += 1;
    }
    assert(v@.subrange(from as int, to as int).take(l@.len() as int) =~= l@);
    true
}

/// The preference on the line `v[from..to]`, if any.
fn prefer_line_at(v: &Vec<char>, from: usize, to: usize) -> (r: Option<(Vec<char>, Vec<char>)>)
    requires
        from <= to <= v@.len(),
    ensures
        match prefer_line(v@.subrange(from as int, to as int)) {
            Some((a, b)) => r matches Some(x) && x.0@ == a && x.1@ == b,
            None => r is None,
        },
{
    let e = crate::lines::trim_cr_end(v, from, to);
    let ghost l = v@.subrange(from as int, e as int);
    let marker = "# @reverse-prefer:";
    if !starts_with_at(v, from, e, marker) {
        return None;
    }
    let n = crate::text::str_chars(marker).len();
    assert(l.skip(marker@.len() as int) =~= v@.subrange(from + n, e as int));
    let fs = crate::lines::words_in(v, from + n, e);
    if fs.len() == 0 {
        return None;
    }
    let a = crate::text::str_chars(fs[0].as_str());
    let b = crate::text::str_chars(fs[fs.len() - 1].as_str());
    Some((a, b))
}

/// The views of character-vector pairs.
pub open spec fn char_pairs_view(v: Seq<(Vec<char>, Vec<char>)>) -> Seq<(Seq<char>, Seq<char>)> {
    v.map_values(|e: (Vec<char>, Vec<char>)| (e.0@, e.1@))
}

/// The preferences of a text given as characters.
fn prefer_entries(v: &Vec<char>) -> (r: Vec<(Vec<char>, Vec<char>)>)
    ensures
        char_pairs_view(r@) == prefer_lines(v@),
{
    let mut es: Vec<(Vec<char>, Vec<char>)> = Vec::new();
    let mut pos: usize = 0;
    let mut finished = false;
    assert(v@.skip(0) =~= v@);
    assert(char_pairs_view(es@) + prefer_lines(v@) =~= prefer_lines(v@));
    while !finished
        invariant
            pos <= v@.len(),
            !finished ==> prefer_lines(v@) == char_pairs_view(es@) + prefer_lines(v@.skip(pos as int)),
            finished ==> prefer_lines(v@) == char_pairs_view(es@),
        decreases v@.len() - pos + (if finished { 0int } else { 1int }),
    {
        let ghost rest = v@.skip(pos as int);
        let ghost done = char_pairs_view(es@);
        let end = crate::lines::scan_char(v, pos, v.len(), '\n');
        assert(v@.subrange(pos as int, v@.len() as int) =~= rest);
        assert(rest.take(crate::lines::find_char(rest, '\n') as int) =~= v@.subrange(pos as int, end as int));
        let ghost head = match prefer_line(v@.subrange(pos as int, end as int)) {
            Some(x) => seq![x],
            None => Seq::<(Seq<char>, Seq<char>)>::empty(),
        };
        match prefer_line_at(v, pos, end) {
            Some(x) => {
                let ghost xv = (x.0@, x.1@);
                es.push(x);
                assert(char_pairs_view(es@) =~= done.push(xv));
                assert(char_pairs_view(es@) =~= done + head);
            },
            None => {
                assert(char_pairs_view(es@) =~= done + head);
            },
        }
        if end >= v.len() {
            finished = true;
        } else {
            assert(rest.skip(crate::lines::find_char(rest, '\n') + 1int) =~= v@.skip(end + 1));
            assert(prefer_lines(rest) == head + prefer_lines(v@.skip(end + 1)));
            assert(char_pairs_view(es@) + prefer_lines(v@.skip(end + 1)) =~= done + (head + prefer_lines(
                v@.skip(end + 1),
            )));
            pos = end + 1;
        }
    }
    es
}

/// The value of `k` in the reversed table while the preferences of the keys
/// in `done` have been applied.
pub open spec fn partly_preferred(
    g: Map<Seq<char>, Seq<Seq<char>>>,
    prefs: Map<Seq<char>, Seq<char>>,
    done: Seq<Seq<char>>,
    k: Seq<char>,
) -> Seq<Seq<char>> {
    if prefs.contains_key(k) && done.contains(k) {
        prefer_first(g[k], prefs[k])
    } else {
        g[k]
    }
}

/// `value_key_pairs` of one more entry.
proof fn lemma_value_key_pairs_step(es: Seq<(Seq<char>, Seq<Seq<char>>)>, i: int, j: int)
    requires
        0 <= i < es.len(),
        0 <= j < es[i].1.len(),
    ensures
        (value_key_pairs(es.take(i)) + es[i].1.take(j).map_values(|x: Seq<char>| (x, es[i].0))).push(
            (es[i].1[j], es[i].0),
        ) == value_key_pairs(es.take(i)) + es[i].1.take(j + 1).map_values(|x: Seq<char>| (x, es[i].0)),
{
    assert(es[i].1.take(j + 1).map_values(|x: Seq<char>| (x, es[i].0)) =~= es[i].1.take(j).map_values(
        |x: Seq<char>| (x, es[i].0),
    ).push((es[i].1[j], es[i].0)));
}

/// `value_key_pairs` after a whole entry.
proof fn lemma_value_key_pairs_entry(es: Seq<(Seq<char>, Seq<Seq<char>>)>, i: int)
    requires
        0 <= i < es.len(),
    ensures
        value_key_pairs(es.take(i)) + es[i].1.take(es[i].1.len() as int).map_values(|x: Seq<char>| (x, es[i].0))
            == value_key_pairs(es.take(i + 1)),
{
    assert(es.take(i + 1).drop_last() =~= es.take(i));
    assert(es.take(i + 1).last() == es[i]);
    assert(es[i].1.take(es[i].1.len() as int) =~= es[i].1);
}

/// Reverse a dictionary text: each value, in code-point order, with the
/// keys that list it, in order; a `# @reverse-prefer: <value> ... <key>`
/// line moves `key` first among the keys of `value` (the last such line for
/// a value counts).
pub fn reverse_dict(text: &str) -> (r: String)
    ensures
        r@ == spec_reverse_dict(text@),
{
    let v = crate::text::str_chars(text);
    let es = crate::dict_marisa::marisa_text_entries(text);
    let ghost ev = crate::dict_marisa::marisa_view(es@);
    let mut t: Vec<(Vec<char>, Vec<Vec<char>>)> = Vec::new();
    let ghost mut ps: Seq<(Seq<char>, Seq<char>)> = Seq::empty();
    assert(ev.take(0) =~= Seq::<(Seq<char>, Seq<Seq<char>>)>::empty());
    assert(tkeys(t@) =~= Seq::<Seq<char>>::empty());
    let mut i: usize = 0;
    while i < es.len()
        invariant
            ev == crate::dict_marisa::marisa_view(es@),
            i <= es@.len(),
            ps == value_key_pairs(ev.take(i as int)),
            table_holds(t@, group_keys(ps)),
        decreases es@.len() - i,
    {
        let kc = crate::text::str_chars(es[i].0.as_str());
        assert(kc@ == ev[i as int].0);
        let mut j: usize = 0;
        let ghost base = ps;
        assert(ev[i as int].1.take(0).map_values(|x: Seq<char>| (x, ev[i as int].0)) =~= Seq::<(Seq<char>, Seq<char>)>::empty());
        assert(base + Seq::<(Seq<char>, Seq<char>)>::empty() =~= base);
        while j < es[i].1.len()
            invariant
                ev == crate::dict_marisa::marisa_view(es@),
                i < es@.len(),
                j <= es@[i as int].1@.len(),
                kc@ == ev[i as int].0,
                ev[i as int].1 == crate::text::strings_view(es@[i as int].1@),
                base == value_key_pairs(ev.take(i as int)),
                ps == base + ev[i as int].1.take(j as int).map_values(|x: Seq<char>| (x, ev[i as int].0)),
                table_holds(t@, group_keys(ps)),
            decreases es@[i as int].1@.len() - j,
        {
            let vc = crate::text::str_chars(es[i].1[j].as_str());
            assert(vc@ == ev[i as int].1[j as int]);
            let kcopy = chars_copy(&kc);
            table_add(&mut t, vc, kcopy, Ghost(ps));
            proof {
                lemma_value_key_pairs_step(ev, i as int, j as int);
                ps = ps.push((ev[i as int].1[j as int], ev[i as int].0));
            }
            j += 1;
        }
        proof {
            lemma_value_key_pairs_entry(ev, i as int);
        }
        i += 1;
    }
    assert(ev.take(es@.len() as int) =~= ev);
    let ghost g = group_keys(value_key_pairs(ev));
    let pl = prefer_entries(&v);
    let ghost plv = char_pairs_view(pl@);
    let mut pt: Vec<(Vec<char>, Vec<char>)> = Vec::new();
    assert(plv.take(0) =~= Seq::<(Seq<char>, Seq<char>)>::empty());
    assert(tkeys(pt@) =~= Seq::<Seq<char>>::empty());
    let mut q: usize = 0;
    while q < pl.len()
        invariant
            plv == char_pairs_view(pl@),
            q <= pl@.len(),
            pairs_table_holds(pt@, pairs_map(plv.take(q as int))),
        decreases pl@.len() - q,
    {
        let a = chars_copy(&pl[q].0);
        let b = chars_copy(&pl[q].1);
        pairs_table_put(&mut pt, a, b, Ghost(plv.take(q as int)));
        assert(plv.take(q as int).push((pl@[q as int].0@, pl@[q as int].1@)) =~= plv.take(q + 1));
        q += 1;
    }
    assert(plv.take(pl@.len() as int) =~= plv);
    let ghost prefs = pairs_map(plv);
    let ghost k0 = tkeys(t@);
    let ghost pk = tkeys(pt@);
    let mut q: usize = 0;
    assert(pk.take(0) =~= Seq::<Seq<char>>::empty());
    while q < pt.len()
        invariant
            pk == tkeys(pt@),
            pairs_table_holds(pt@, prefs),
            q <= pt@.len(),
            k0 == tkeys(t@),
            strictly_sorted(k0),
            forall|x: Seq<char>| #[trigger] g.contains_key(x) <==> k0.contains(x),
            forall|j: int|
                0 <= j < t@.len() ==> words_view(t@[j].1@) == partly_preferred(
                    g,
                    prefs,
                    pk.take(q as int),
                    #[trigger] t@[j].0@,
                ),
        decreases pt@.len() - q,
    {
        let ghost rk = pt@[q as int].0@;
        assert(pk[q as int] == rk);
        assert(pk.take(q + 1) =~= pk.take(q as int).push(rk));
        assert(!pk.take(q as int).contains(rk)) by {
            if pk.take(q as int).contains(rk) {
                let j = choose|j: int| 0 <= j < q && pk.take(q as int)[j] == rk;
                assert(chars_lt(pk[j], pk[q as int]));
                lemma_lt_strict_total(rk, rk);
            }
        }
        match table_find(&t, &pt[q].0) {
            Ok(i) => {
                let ghost old_t = t@;
                let e = t.remove(i);
                let nl = prefer_first_vec(&e.1, &pt[q].1);
                t.insert(i, (e.0, nl));
                assert(t@ =~= old_t.update(i as int, t@[i as int]));
                assert(tkeys(t@) =~= k0);
                assert forall|j: int|
                    0 <= j < t@.len() implies words_view(t@[j].1@) == partly_preferred(
                    g,
                    prefs,
                    pk.take(q + 1),
                    #[trigger] t@[j].0@,
                ) by {
                    if j == i {
                        assert(pk.contains(rk)) by {
                            assert(pk[q as int] == rk);
                        }
                        assert(prefs.contains_key(rk));
                        assert(prefs[rk] == pt@[q as int].1@);
                        assert(old_t[i as int].0@ == rk);
                        assert(words_view(old_t[i as int].1@) == g[rk]);
                        assert(pk.take(q + 1).contains(rk)) by {
                            assert(pk.take(q + 1)[q as int] == rk);
                        }
                        assert(t@[i as int].0@ == rk);
                    } else {
                        assert(t@[j] == old_t[j]);
                        assert(k0[j] == old_t[j].0@ && k0[i as int] == rk);
                        if j < i {
                            assert(chars_lt(k0[j], k0[i as int]));
                        } else {
                            assert(chars_lt(k0[i as int], k0[j]));
                        }
                        lemma_lt_strict_total(rk, old_t[j].0@);
                    }
                }
            },
            Err(_) => {
                assert forall|j: int|
                    0 <= j < t@.len() implies words_view(t@[j].1@) == partly_preferred(
                    g,
                    prefs,
                    pk.take(q + 1),
                    #[trigger] t@[j].0@,
                ) by {
                    assert(t@[j].0@ != rk) by {
                        lemma_lt_strict_total(rk, rk);
                    }
                }
            },
        }
        q += 1;
    }
    assert(pk.take(pt@.len() as int) =~= pk);
    let ghost f = reversed_table(text@);
    assert(plv == prefer_lines(text@));
    assert forall|j: int| 0 <= j < t@.len() implies f[#[trigger] t@[j].0@] == words_view(t@[j].1@) by {
        let k = t@[j].0@;
        assert(k0[j] == k);
        assert(g.contains_key(k));
        assert(prefs.contains_key(k) == pk.contains(k));
    }
    assert(k0.to_set() =~= f.dom()) by {
        assert forall|x: Seq<char>| k0.to_set().contains(x) == f.dom().contains(x) by {
            assert(g.contains_key(x) == k0.contains(x));
        }
    }
    proof {
        lemma_listing_order(k0);
    }
    let mut out = String::new();
    out.append("# Open Chinese Convert (OpenCC) Dictionary (generated, reversed)\n");
    out.append("# Format: key\tvalue(s) (values separated by spaces)\n");
    out.append("# License: Apache-2.0 (see LICENSE)\n");
    out.append("# Source: generated by zhhz from the corresponding variants file\n");
    out.append("\n");
    push_rows(&mut out, &t, Ghost(f));
    assert(out@ =~= spec_reverse_dict(text@));
    out
}

// ---------------------------------------------------------------------------
// Lines
// ---------------------------------------------------------------------------

/// The `[start, end)` ranges of the lines of `v` (the pieces between
/// newlines).
fn line_ranges(v: &Vec<char>) -> (r: Vec<(usize, usize)>)
    ensures
        r@.len() == crate::custom::split_char(v@, '\n').len(),
        forall|i: int|
            0 <= i < r@.len() ==> (#[trigger] r@[i]).0 <= r@[i].1 <= v@.len() && v@.subrange(r@[i].0 as int, r@[i].1 as int)
                == crate::custom::split_char(v@, '\n')[i],
{
    let ghost lines = crate::custom::split_char(v@, '\n');
    let mut r: Vec<(usize, usize)> = Vec::new();
    let mut a: usize = 0;
    let mut i: usize = 0;
    assert(v@.subrange(0, v@.len() as int) =~= v@);
    while i < v.len()
        invariant
            lines == crate::custom::split_char(v@, '\n'),
            a <= i <= v@.len(),
            forall|k: int| a <= k < i ==> v@[k] != '\n',
            r@.len() + crate::custom::split_char(v@.subrange(a as int, v@.len() as int), '\n').len() == lines.len(),
            forall|j: int|
                0 <= j < r@.len() ==> (#[trigger] r@[j]).0 <= r@[j].1 <= v@.len() && v@.subrange(r@[j].0 as int, r@[j].1 as int)
                    == lines[j],
            forall|j: int|
                0 <= j < crate::custom::split_char(v@.subrange(a as int, v@.len() as int), '\n').len() ==> lines[r@.len()
                    + j] == #[trigger] crate::custom::split_char(v@.subrange(a as int, v@.len() as int), '\n')[j],
        decreases v@.len() - i,
    {
        if v[i] == '\n' {
            proof {
                crate::custom::lemma_split_char_step(v@, '\n', a as int, i as int, v@.len() as int);
            }
            let ghost rest = crate::custom::split_char(v@.subrange(i + 1, v@.len() as int), '\n');
            let ghost cur = crate::custom::split_char(v@.subrange(a as int, v@.len() as int), '\n');
            assert(cur == seq![v@.subrange(a as int, i as int)] + rest);
            assert(cur[0] == v@.subrange(a as int, i as int));
            assert forall|j: int| 0 <= j < rest.len() implies lines[r@.len() + 1 + j] == #[trigger] rest[j] by {
                assert(cur[j + 1] == rest[j]);
            }
            r.push((a, i));
            a = i + 1;
        }
        i += 1;
    }
    proof {
        crate::custom::lemma_split_char_last(v@, '\n', a as int, v@.len() as int);
    }
    let ghost cur = crate::custom::split_char(v@.subrange(a as int, v@.len() as int), '\n');
    assert(cur[0] == v@.subrange(a as int, v@.len() as int));
    r.push((a, v.len()));
    r
}

// ---------------------------------------------------------------------------
// The tofu-risk extension
// ---------------------------------------------------------------------------

/// The marker of a tofu-risk mapping: the line after it is the mapping.
pub open spec fn tofu_marker() -> Seq<char> {
    "# @tofu-risk:"@
}

/// Whether `line` starts with the tofu-risk marker.
pub open spec fn is_tofu_marker(line: Seq<char>) -> bool {
    tofu_marker().len() <= line.len() && line.take(tofu_marker().len() as int) == tofu_marker()
}

/// The row that a mapping line after a marker gives: the key and its values
/// without a first value equal to the key; `None` when the line is blank, a
/// comment, or has no other value.
pub open spec fn tofu_row(raw: Seq<char>) -> Option<Seq<char>> {
    let m = crate::lines::trim_cr(raw);
    if crate::lines::trim_ws(m).len() == 0 || (m.len() > 0 && m[0] == '#') {
        None
    } else {
        let t = crate::lines::find_char(m, '\t');
        let key = if t < m.len() {
            m.take(t as int)
        } else {
            m
        };
        let vals = if t < m.len() {
            crate::lines::words(m.skip(t + 1int))
        } else {
            Seq::empty()
        };
        let vs = if vals.len() > 0 && vals[0] == key {
            vals.drop_first()
        } else {
            vals
        };
        if vs.len() == 0 {
            None
        } else {
            Some(key + "\t"@ + join_words(vs) + "\n"@)
        }
    }
}

/// Every marker has a line after it, and that line is a valid mapping.
pub open spec fn tofu_well_formed(ls: Seq<Seq<char>>) -> bool {
    forall|i: int| 0 <= i < ls.len() && is_tofu_marker(#[trigger] ls[i]) ==> i + 1 < ls.len() && tofu_row(ls[i + 1]) is Some
}

/// The rows of the mappings after the markers among the first `n` lines.
pub open spec fn tofu_rows(ls: Seq<Seq<char>>, n: nat) -> Seq<char>
    decreases n,
{
    if n == 0 {
        Seq::empty()
    } else {
        tofu_rows(ls, (n - 1) as nat) + (if is_tofu_marker(ls[n - 1]) && n < ls.len() && tofu_row(ls[n as int]) is Some {
            tofu_row(ls[n as int])->Some_0
        } else {
            Seq::empty()
        })
    }
}

/// Whether every tofu-risk marker of `text` is followed by a valid mapping.
pub open spec fn spec_tofu_ok(text: Seq<char>) -> bool {
    tofu_well_formed(crate::custom::split_char(text, '\n'))
}

/// The tofu-risk extension of a character table: the rows of the mappings
/// that follow the markers, in order.
pub open spec fn spec_extract_tofu_risk(text: Seq<char>) -> Seq<char> {
    let ls = crate::custom::split_char(text, '\n');
    tofu_rows(ls, ls.len())
}

/// The row of the mapping line `v[a..b]`.
fn tofu_row_at(v: &Vec<char>, a: usize, b: usize) -> (r: Option<String>)
    requires
        a <= b <= v@.len(),
    ensures
        match tofu_row(v@.subrange(a as int, b as int)) {
            Some(x) => r matches Some(s) && s@ == x,
            None => r is None,
        },
{
    let e = crate::lines::trim_cr_end(v, a, b);
    let ghost m = v@.subrange(a as int, e as int);
    let te = crate::lines::trim_end_at(v, a, e);
    let ts = crate::lines::trim_start_at(v, a, te);
    assert(v@.subrange(ts as int, te as int) == crate::lines::trim_ws(m));
    if ts == te || (e > a && v[a] == '#') {
        return None;
    }
    let t = crate::lines::scan_char(v, a, e, '\t');
    let key_end = t;
    assert(m.take(t - a) =~= v@.subrange(a as int, t as int));
    if t >= e {
        assert(m.take(t - a) =~= m);
    }
    let vals = if t < e {
        assert(m.skip(t - a + 1) =~= v@.subrange(t + 1, e as int));
        crate::lines::words_in(v, t + 1, e)
    } else {
        Vec::new()
    };
    let ghost vv = crate::text::strings_view(vals@);
    assert(vv =~= (if t < e {
        crate::lines::words(m.skip(t - a + 1))
    } else {
        Seq::<Seq<char>>::empty()
    }));
    let key = crate::text::string_from_chars(v, a, key_end);
    let mut start: usize = 0;
    if vals.len() > 0 {
        if crate::text::str_eq(vals[0].as_str(), key.as_str()) {
            start = 1;
        }
    }
    if start >= vals.len() {
        return None;
    }
    let ghost vs = vv.skip(start as int);
    assert(start == 1 ==> vs =~= vv.drop_first());
    assert(start == 0 ==> vs =~= vv);
    let mut ws: Vec<Vec<char>> = Vec::new();
    let mut j = start;
    while j < vals.len()
        invariant
            start <= j <= vals@.len(),
            vv == crate::text::strings_view(vals@),
            vs == vv.skip(start as int),
            words_view(ws@) == vs.take(j - start),
        decreases vals@.len() - j,
    {
        let c = crate::text::str_chars(vals[j].as_str());
        let ghost before = words_view(ws@);
        ws.push(c);
        assert(words_view(ws@) =~= before.push(vv[j as int]));
        assert(vs.take(j + 1 - start) =~= vs.take(j - start).push(vv[j as int]));
        j += 1;
    }
    assert(vs.take(vals@.len() - start) =~= vs);
    let mut out = key;
    out.append("\t");
    push_joined(&mut out, &ws);
    out.append("\n");
    Some(out)
}

/// The tofu-risk rows of a text, or `None` when a marker lacks a valid
/// mapping after it.
fn tofu_scan(text: &str) -> (r: Option<String>)
    ensures
        r is Some <==> spec_tofu_ok(text@),
        r matches Some(s) ==> s@ == spec_extract_tofu_risk(text@),
{
    let v = crate::text::str_chars(text);
    let ghost ls = crate::custom::split_char(v@, '\n');
    let rs = line_ranges(&v);
    let mut out = String::new();
    let mut i: usize = 0;
    while i < rs.len()
        invariant
            v@ == text@,
            ls == crate::custom::split_char(v@, '\n'),
            rs@.len() == ls.len(),
            forall|k: int|
                0 <= k < rs@.len() ==> (#[trigger] rs@[k]).0 <= rs@[k].1 <= v@.len() && v@.subrange(rs@[k].0 as int, rs@[k].1 as int)
                    == ls[k],
            i <= rs@.len(),
            forall|k: int| 0 <= k < i && is_tofu_marker(#[trigger] ls[k]) ==> k + 1 < ls.len() && tofu_row(ls[k + 1]) is Some,
            out@ == tofu_rows(ls, i as nat),
        decreases rs@.len() - i,
    {
        let (a, b) = rs[i];
        let ghost line = ls[i as int];
        let is_marker = starts_with_at(&v, a, b, "# @tofu-risk:");
        assert(is_marker == is_tofu_marker(line));
        if is_marker {
            if i + 1 >= rs.len() {
                return None;
            }
            let (c, d) = rs[i + 1];
            match tofu_row_at(&v, c, d) {
                Some(row) => {
                    out.append(row.as_str());
                },
                None => {
                    return None;
                },
            }
        }
        assert(tofu_rows(ls, (i + 1) as nat) == tofu_rows(ls, i as nat) + (if is_tofu_marker(ls[i as int]) && i + 1 < ls.len()
            && tofu_row(ls[i + 1]) is Some {
            tofu_row(ls[i + 1])->Some_0
        } else {
            Seq::<char>::empty()
        }));
        i += 1;
    }
    Some(out)
}

/// Whether every tofu-risk marker of `text` is followed by a valid mapping.
pub fn tofu_markers_ok(text: &str) -> (r: bool)
    ensures
        r == spec_tofu_ok(text@),
{
    tofu_scan(text).is_some()
}

/// The tofu-risk extension of a character table: for each `# @tofu-risk:`
/// marker, the mapping on the next line, `key<TAB>values`, with a first
/// value equal to the key dropped.
pub fn extract_tofu_risk(text: &str) -> (r: String)
    requires
        spec_tofu_ok(text@),
    ensures
        r@ == spec_extract_tofu_risk(text@),
{
    match tofu_scan(text) {
        Some(s) => s,
        None => String::new(),
    }
}

// ---------------------------------------------------------------------------
// Simplified phrases projected from regional phrases
// ---------------------------------------------------------------------------

/// The projections of the entries' keys through the group `g` (one
/// conversion stage), as `(projection, key)`, for projections of at least
/// three characters.
pub open spec fn st_projections(
    es: Seq<(Seq<char>, Seq<char>)>,
    g: crate::engine::GroupView,
) -> Seq<(Seq<char>, Seq<char>)>
    decreases es.len(),
{
    if es.len() == 0 {
        Seq::empty()
    } else {
        let init = st_projections(es.drop_last(), g);
        let k = es.last().0;
        let c = crate::engine::convert_all(g, k);
        if c.len() >= 3 {
            init.push((c, k))
        } else {
            init
        }
    }
}

/// No projection comes from two different keys.
pub open spec fn projections_consistent(ps: Seq<(Seq<char>, Seq<char>)>) -> bool {
    forall|i: int, j: int| 0 <= i < j < ps.len() && ps[i].0 == ps[j].0 ==> ps[i].1 == ps[j].1
}

/// Each projection to the key it first came from.
pub open spec fn projection_table(ps: Seq<(Seq<char>, Seq<char>)>) -> Map<Seq<char>, Seq<Seq<char>>>
    decreases ps.len(),
{
    if ps.len() == 0 {
        Map::empty()
    } else {
        let m = projection_table(ps.drop_last());
        if m.contains_key(ps.last().0) {
            m
        } else {
            m.insert(ps.last().0, seq![ps.last().1])
        }
    }
}

/// The header of the projected phrase table.
pub open spec fn st_header() -> Seq<char> {
    "# Open Chinese Convert (OpenCC) Dictionary\n"@ + "# File: STPhrases_GeneratedFromRegionalPhrases.txt\n"@
        + "# Format: key\tvalue(s) (values separated by spaces)\n"@ + "# License: Apache-2.0 (see LICENSE)\n"@
        + "# Source: generated from HKPhrases.txt, TWPhrases.txt keys via t2s.json\n"@
        + "# Used in configs: s2t.json, s2hk.json, s2hkp.json, s2tw.json, s2twp.json\n"@ + "#\n"@
        + "# This generated ST phrase dictionary preserves Simplified-input spans\n"@
        + "# before applying regional phrase vocabulary.\n"@ + "\n"@
}

/// The projections of the keys of the Hong Kong and then the Taiwan phrase
/// texts through the group.
pub open spec fn regional_projections(hk: Seq<char>, tw: Seq<char>, g: crate::engine::GroupView) -> Seq<(Seq<char>, Seq<char>)> {
    st_projections(crate::lines::text_entries(hk) + crate::lines::text_entries(tw), g)
}

/// The projected phrase table as a dictionary text: each projection, in
/// code-point order, with the regional key it came from.
pub open spec fn spec_st_phrases(hk: Seq<char>, tw: Seq<char>, g: crate::engine::GroupView) -> Seq<char> {
    let t = projection_table(regional_projections(hk, tw, g));
    st_header() + render_rows(listing_order(t.dom()), t)
}

/// `st_projections` of one more entry.
proof fn lemma_st_projections_step(es: Seq<(Seq<char>, Seq<char>)>, i: int, g: crate::engine::GroupView)
    requires
        0 <= i < es.len(),
    ensures
        st_projections(es.take(i + 1), g) == (if crate::engine::convert_all(g, es[i].0).len() >= 3 {
            st_projections(es.take(i), g).push((crate::engine::convert_all(g, es[i].0), es[i].0))
        } else {
            st_projections(es.take(i), g)
        }),
{
    assert(es.take(i + 1).drop_last() =~= es.take(i));
    assert(es.take(i + 1).last() == es[i]);
}

/// The table maps a projection to the first key it came from.
proof fn lemma_projection_table(ps: Seq<(Seq<char>, Seq<char>)>, c: Seq<char>)
    ensures
        projection_table(ps).contains_key(c) <==> exists|i: int| 0 <= i < ps.len() && (#[trigger] ps[i]).0 == c,
        projection_table(ps).contains_key(c) ==> exists|i: int|
            0 <= i < ps.len() && (#[trigger] ps[i]).0 == c && projection_table(ps)[c] == seq![ps[i].1],
    decreases ps.len(),
{
    if ps.len() > 0 {
        let d = ps.drop_last();
        lemma_projection_table(d, c);
        if exists|i: int| 0 <= i < d.len() && (#[trigger] d[i]).0 == c {
            let i = choose|i: int| 0 <= i < d.len() && (#[trigger] d[i]).0 == c;
            assert(ps[i] == d[i]);
        }
        if projection_table(d).contains_key(c) {
            let i = choose|i: int| 0 <= i < d.len() && (#[trigger] d[i]).0 == c && projection_table(d)[c] == seq![d[i].1];
            assert(ps[i] == d[i]);
        }
        if exists|i: int| 0 <= i < ps.len() && (#[trigger] ps[i]).0 == c {
            let i = choose|i: int| 0 <= i < ps.len() && (#[trigger] ps[i]).0 == c;
            if i < d.len() {
                assert(d[i] == ps[i]);
            }
        }
        if projection_table(ps).contains_key(c) && !projection_table(d).contains_key(c) {
            assert(ps[ps.len() - 1].0 == c);
        }
    }
}

/// The projections and the projected phrase table, or `None` when two
/// different keys project to the same phrase.
fn st_scan(hk: &str, tw: &str, group: &[crate::dict::Dict]) -> (r: Option<String>)
    requires
        crate::config::group_wf(group@),
    ensures
        r is Some <==> projections_consistent(regional_projections(hk@, tw@, crate::dict::group_view(group@))),
        r matches Some(s) ==> s@ == spec_st_phrases(hk@, tw@, crate::dict::group_view(group@)),
{
    let ghost g = crate::dict::group_view(group@);
    let mut es = crate::lines::dict_entries(hk);
    let mut more = crate::lines::dict_entries(tw);
    let ghost ev1 = crate::lines::entries_view(es@);
    let ghost ev2 = crate::lines::entries_view(more@);
    es.append(&mut more);
    let ghost ev = crate::lines::entries_view(es@);
    assert(ev =~= ev1 + ev2);
    let ghost ps_all = st_projections(ev, g);
    let mut t: Vec<(Vec<char>, Vec<Vec<char>>)> = Vec::new();
    assert(tkeys(t@) =~= Seq::<Seq<char>>::empty());
    assert(ev.take(0) =~= Seq::<(Seq<char>, Seq<char>)>::empty());
    let mut i: usize = 0;
    while i < es.len()
        invariant
            crate::config::group_wf(group@),
            g == crate::dict::group_view(group@),
            ev == crate::lines::entries_view(es@),
            ev == crate::lines::text_entries(hk@) + crate::lines::text_entries(tw@),
            i <= es@.len(),
            projections_consistent(st_projections(ev.take(i as int), g)),
            table_holds(t@, projection_table(st_projections(ev.take(i as int), g))),
        decreases es@.len() - i,
    {
        let ghost ps = st_projections(ev.take(i as int), g);
        let ghost m = projection_table(ps);
        proof {
            lemma_st_projections_step(ev, i as int, g);
        }
        assert(ev[i as int].0 == es@[i as int].0@);
        let c = crate::engine::convert_segment(&es[i].0, group);
        assert(c@ == crate::engine::convert_all(g, ev[i as int].0));
        if c.len() >= 3 {
            let ghost ps2 = ps.push((c@, ev[i as int].0));
            assert(ps2.drop_last() =~= ps);
            assert(ps2.last() == (c@, ev[i as int].0));
            match table_find(&t, &c) {
                Ok(j) => {
                    assert(tkeys(t@)[j as int] == c@);
                    assert(m.contains_key(c@));
                    proof {
                        lemma_projection_table(ps, c@);
                    }
                    let same = t[j].1.len() > 0 && chars_eq(&t[j].1[0], &es[i].0);
                    let ghost first = choose|q: int| 0 <= q < ps.len() && (#[trigger] ps[q]).0 == c@ && m[c@] == seq![ps[q].1];
                    assert(words_view(t@[j as int].1@) == seq![ps[first].1]);
                    assert(t@[j as int].1@.len() == 1);
                    assert(words_view(t@[j as int].1@)[0] == t@[j as int].1@[0]@);
                    if !same {
                        assert(ps2[first].0 == ps2[ps.len() as int].0);
                        assert(!projections_consistent(ps2));
                        proof {
                            lemma_projections_prefix(ev, (i + 1) as int, g);
                        }
                        return None;
                    }
                    assert(projections_consistent(ps2)) by {
                        assert forall|x: int, y: int| 0 <= x < y < ps2.len() && ps2[x].0 == ps2[y].0 implies ps2[x].1
                            == ps2[y].1 by {
                            if y == ps.len() {
                                assert(ps2[x] == ps[x]);
                                assert(ps[x].1 == ps[first].1) by {
                                    if x != first {
                                        if x < first {
                                            assert(ps[x].0 == ps[first].0);
                                        } else {
                                            assert(ps[first].0 == ps[x].0);
                                        }
                                    }
                                }
                            } else {
                                assert(ps2[x] == ps[x] && ps2[y] == ps[y]);
                            }
                        }
                    }
                    assert(projection_table(ps2) == m);
                },
                Err(p) => {
                    let ghost old_t = t@;
                    assert(!m.contains_key(c@)) by {
                        if m.contains_key(c@) {
                            let q = choose|q: int| 0 <= q < tkeys(old_t).len() && tkeys(old_t)[q] == c@;
                            assert(tkeys(old_t)[q] == old_t[q].0@);
                            lemma_lt_strict_total(c@, c@);
                        }
                    }
                    proof {
                        lemma_projection_table(ps, c@);
                    }
                    assert(projections_consistent(ps2)) by {
                        assert forall|x: int, y: int| 0 <= x < y < ps2.len() && ps2[x].0 == ps2[y].0 implies ps2[x].1
                            == ps2[y].1 by {
                            if y == ps.len() {
                                assert(ps2[x] == ps[x]);
                            } else {
                                assert(ps2[x] == ps[x] && ps2[y] == ps[y]);
                            }
                        }
                    }
                    let mut ks: Vec<Vec<char>> = Vec::new();
                    let kc = chars_copy(&es[i].0);
                    ks.push(kc);
                    assert(words_view(ks@) =~= seq![ev[i as int].0]);
                    let e = (c, ks);
                    proof {
                        lemma_sorted_insert(old_t, p as int, e);
                    }
                    t.insert(p, e);
                    let ghost m2 = projection_table(ps2);
                    assert(m2 == m.insert(e.0@, seq![ev[i as int].0]));
                    assert forall|x: Seq<char>| #[trigger] m2.contains_key(x) <==> tkeys(t@).contains(x) by {
                        if x == e.0@ {
                            assert(tkeys(t@)[p as int] == x);
                        } else {
                            if tkeys(t@).contains(x) {
                                let j = choose|j: int| 0 <= j < tkeys(t@).len() && tkeys(t@)[j] == x;
                                if j < p {
                                    assert(tkeys(old_t)[j] == x);
                                } else {
                                    assert(tkeys(old_t)[j - 1] == x);
                                }
                            }
                            if m.contains_key(x) {
                                let j = choose|j: int| 0 <= j < tkeys(old_t).len() && tkeys(old_t)[j] == x;
                                if j < p {
                                    assert(tkeys(t@)[j] == x);
                                } else {
                                    assert(tkeys(t@)[j + 1] == x);
                                }
                            }
                        }
                    }
                    assert forall|j: int| 0 <= j < t@.len() implies m2[#[trigger] t@[j].0@] == words_view(t@[j].1@) by {
                        if j < p {
                            assert(t@[j] == old_t[j]);
                            assert(tkeys(old_t)[j] == old_t[j].0@);
                            lemma_lt_strict_total(old_t[j].0@, e.0@);
                        } else if j > p {
                            assert(t@[j] == old_t[j - 1]);
                            assert(tkeys(old_t)[j - 1] == old_t[j - 1].0@);
                            lemma_lt_strict_total(old_t[j - 1].0@, e.0@);
                        }
                    }
                },
            }
        }
        i += 1;
    }
    assert(ev.take(es@.len() as int) =~= ev);
    let ghost f = projection_table(ps_all);
    let ghost k0 = tkeys(t@);
    assert(k0.to_set() =~= f.dom()) by {
        assert forall|x: Seq<char>| k0.to_set().contains(x) == f.dom().contains(x) by {
            assert(f.contains_key(x) == k0.contains(x));
        }
    }
    proof {
        lemma_listing_order(k0);
    }
    let mut out = String::new();
    out.append("# Open Chinese Convert (OpenCC) Dictionary\n");
    out.append("# File: STPhrases_GeneratedFromRegionalPhrases.txt\n");
    out.append("# Format: key\tvalue(s) (values separated by spaces)\n");
    out.append("# License: Apache-2.0 (see LICENSE)\n");
    out.append("# Source: generated from HKPhrases.txt, TWPhrases.txt keys via t2s.json\n");
    out.append("# Used in configs: s2t.json, s2hk.json, s2hkp.json, s2tw.json, s2twp.json\n");
    out.append("#\n");
    out.append("# This generated ST phrase dictionary preserves Simplified-input spans\n");
    out.append("# before applying regional phrase vocabulary.\n");
    out.append("\n");
    push_rows(&mut out, &t, Ghost(f));
    assert(out@ =~= spec_st_phrases(hk@, tw@, g));
    Some(out)
}

/// An inconsistency among the first `n` projections stays among all.
proof fn lemma_projections_prefix(es: Seq<(Seq<char>, Seq<char>)>, n: int, g: crate::engine::GroupView)
    requires
        0 <= n <= es.len(),
        !projections_consistent(st_projections(es.take(n), g)),
    ensures
        !projections_consistent(st_projections(es, g)),
    decreases es.len() - n,
{
    if n == es.len() {
        assert(es.take(n) =~= es);
    } else {
        lemma_st_projections_step(es, n, g);
        let a = st_projections(es.take(n), g);
        let b = st_projections(es.take(n + 1), g);
        let (x, y) = choose|x: int, y: int| 0 <= x < y < a.len() && a[x].0 == a[y].0 && a[x].1 != a[y].1;
        assert(b[x] == a[x] && b[y] == a[y]);
        lemma_projections_prefix(es, n + 1, g);
    }
}

/// Whether no two different regional keys project to the same phrase.
pub fn st_projections_ok(hk: &str, tw: &str, group: &[crate::dict::Dict]) -> (r: bool)
    requires
        crate::config::group_wf(group@),
    ensures
        r == projections_consistent(regional_projections(hk@, tw@, crate::dict::group_view(group@))),
{
    st_scan(hk, tw, group).is_some()
}

/// The Simplified phrase table projected from the Hong Kong and Taiwan
/// phrase texts: each key of theirs, converted by one pass of the group
/// (the t2s conversion), when the result has at least three characters,
/// maps back to the key; rows in code-point order of the projection.
pub fn generate_st_phrases(hk: &str, tw: &str, group: &[crate::dict::Dict]) -> (r: String)
    requires
        crate::config::group_wf(group@),
        projections_consistent(regional_projections(hk@, tw@, crate::dict::group_view(group@))),
    ensures
        r@ == spec_st_phrases(hk@, tw@, crate::dict::group_view(group@)),
{
    match st_scan(hk, tw, group) {
        Some(s) => s,
        None => String::new(),
    }
}

} // verus!
