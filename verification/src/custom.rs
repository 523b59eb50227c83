//! Custom words written as one string: `"key value|key value|..."`.
//!
//! The string is split on `|`. Each piece is trimmed; empty pieces are
//! skipped. A piece is split on its first ASCII space into a key and a
//! value, each trimmed, so the value may contain spaces. A piece with no
//! space, or a string with no entry at all, is an error. Two front ends read
//! this form: `parse_dict_string` (JavaScript callers), which also refuses a
//! blank string outright, and `parse_pair_string` (Python callers); they
//! word the no-space error differently.

use vstd::prelude::*;
use crate::lines::{find_char, scan_char, trim_end_at, trim_start_at, trim_ws};
use crate::text::{decimal, push_decimal, str_chars, string_from_chars};

verus! {

/// What `format!("{:?}", s)` makes of the string `s`.
pub uninterp spec fn debug_quoted(s: Seq<char>) -> Seq<char>;

/// The `Debug` rendering of a string (`format!("{:?}", s)`). The result is
/// named by `debug_quoted`, a function of the string; how characters are
/// quoted and escaped is not stated here.
#[verifier::external_body]
fn debug_of(s: &str) -> (r: String)
    ensures
        r@ == debug_quoted(s@),
{
    format!("{:?}", s)
}

/// The pieces of `s` between separators `c` (`str::split`): one more piece
/// than there are separators.
pub open spec fn split_char(s: Seq<char>, c: char) -> Seq<Seq<char>>
    decreases s.len(),
{
    let e = find_char(s, c);
    if e >= s.len() {
        seq![s]
    } else {
        seq![s.take(e as int)] + split_char(s.skip(e + 1int), c)
    }
}

/// The error for piece `i` when it has no space; `expect` is the wording of
/// what was expected.
pub open spec fn no_space_message(i: nat, piece: Seq<char>, expect: Seq<char>) -> Seq<char> {
    "dict entry "@ + decimal(i) + expect + debug_quoted(piece)
}

/// The wording of `parse_dict_string`'s no-space error.
pub open spec fn double_quoted_expect() -> Seq<char> {
    ": expected \"key value\" separated by a space, got "@
}

/// The wording of `parse_pair_string`'s no-space error.
pub open spec fn single_quoted_expect() -> Seq<char> {
    ": expected 'key value' separated by a space, got "@
}

/// The error for piece `i` when its key is empty.
pub open spec fn empty_key_message(i: nat) -> Seq<char> {
    "dict entry "@ + decimal(i) + ": empty key"@
}

/// The entries of `pieces`, the first of them being piece number `i`.
pub open spec fn dict_pieces(pieces: Seq<Seq<char>>, i: nat, expect: Seq<char>) -> Result<Seq<(Seq<char>, Seq<char>)>, Seq<char>>
    decreases pieces.len(),
{
    if pieces.len() == 0 {
        Ok(Seq::empty())
    } else {
        let piece = trim_ws(pieces[0]);
        if piece.len() == 0 {
            dict_pieces(pieces.drop_first(), i + 1, expect)
        } else {
            let sp = find_char(piece, ' ');
            if sp >= piece.len() {
                Err(no_space_message(i, piece, expect))
            } else {
                let key = trim_ws(piece.take(sp as int));
                let value = trim_ws(piece.skip(sp + 1int));
                if key.len() == 0 {
                    Err(empty_key_message(i))
                } else {
                    match dict_pieces(pieces.drop_first(), i + 1, expect) {
                        Ok(rest) => Ok(seq![(key, value)] + rest),
                        Err(e) => Err(e),
                    }
                }
            }
        }
    }
}

/// The custom words that the string `s` holds, or the error.
pub open spec fn spec_parse_dict_string(s: Seq<char>) -> Result<Seq<(Seq<char>, Seq<char>)>, Seq<char>> {
    let t = trim_ws(s);
    if t.len() == 0 {
        Err("custom dict string is empty"@)
    } else {
        nonempty_entries(dict_pieces(split_char(t, '|'), 0, double_quoted_expect()))
    }
}

/// The entries, or the error when there are none.
pub open spec fn nonempty_entries(r: Result<Seq<(Seq<char>, Seq<char>)>, Seq<char>>) -> Result<Seq<(Seq<char>, Seq<char>)>, Seq<char>> {
    match r {
        Ok(es) => if es.len() == 0 {
            Err("custom dict string parsed to zero entries"@)
        } else {
            Ok(es)
        },
        Err(e) => Err(e),
    }
}

/// The custom words that the string `s` holds for `parse_pair_string`, or
/// the error.
pub open spec fn spec_parse_pair_string(s: Seq<char>) -> Result<Seq<(Seq<char>, Seq<char>)>, Seq<char>> {
    nonempty_entries(dict_pieces(split_char(s, '|'), 0, single_quoted_expect()))
}

/// `full` is what `done` followed by the outcome `rest` gives.
pub open spec fn continues(
    full: Result<Seq<(Seq<char>, Seq<char>)>, Seq<char>>,
    done: Seq<(Seq<char>, Seq<char>)>,
    rest: Result<Seq<(Seq<char>, Seq<char>)>, Seq<char>>,
) -> bool {
    match rest {
        Ok(r) => full is Ok && full->Ok_0 == done + r,
        Err(x) => full is Err && full->Err_0 == x,
    }
}

/// The views of `(key, value)` string pairs.
pub open spec fn pairs_of(v: Seq<(String, String)>) -> Seq<(Seq<char>, Seq<char>)> {
    v.map_values(|e: (String, String)| (e.0@, e.1@))
}

pub(crate) proof fn lemma_split_char_step(s: Seq<char>, c: char, a: int, e: int, to: int)
    requires
        0 <= a <= e < to <= s.len(),
        s[e] == c,
        forall|k: int| a <= k < e ==> s[k] != c,
    ensures
        split_char(s.subrange(a, to), c) == seq![s.subrange(a, e)] + split_char(s.subrange(e + 1, to), c),
{
    let r = s.subrange(a, to);
    crate::lines::lemma_find_char(r, c, e - a);
    assert(r.take(e - a) =~= s.subrange(a, e));
    assert(r.skip(e - a + 1) =~= s.subrange(e + 1, to));
}

pub(crate) proof fn lemma_split_char_last(s: Seq<char>, c: char, a: int, to: int)
    requires
        0 <= a <= to <= s.len(),
        forall|k: int| a <= k < to ==> s[k] != c,
    ensures
        split_char(s.subrange(a, to), c) == seq![s.subrange(a, to)],
{
    crate::lines::lemma_find_char(s.subrange(a, to), c, to - a);
}

/// The outcome of one piece: `Ok(None)` when it is blank, `Ok(Some(..))`
/// with its entry, or the error.
pub open spec fn piece_outcome(piece_raw: Seq<char>, i: nat, expect: Seq<char>) -> Result<Option<(Seq<char>, Seq<char>)>, Seq<char>> {
    let piece = trim_ws(piece_raw);
    if piece.len() == 0 {
        Ok(None)
    } else {
        let sp = find_char(piece, ' ');
        if sp >= piece.len() {
            Err(no_space_message(i, piece, expect))
        } else {
            let key = trim_ws(piece.take(sp as int));
            let value = trim_ws(piece.skip(sp + 1int));
            if key.len() == 0 {
                Err(empty_key_message(i))
            } else {
                Ok(Some((key, value)))
            }
        }
    }
}

proof fn lemma_dict_pieces_step(p: Seq<char>, rest: Seq<Seq<char>>, i: nat, expect: Seq<char>)
    ensures
        dict_pieces(seq![p] + rest, i, expect) == match piece_outcome(p, i, expect) {
            Ok(None) => dict_pieces(rest, i + 1, expect),
            Ok(Some(e)) => match dict_pieces(rest, i + 1, expect) {
                Ok(r) => Ok(seq![e] + r),
                Err(x) => Err(x),
            },
            Err(x) => Err(x),
        },
{
    assert((seq![p] + rest).drop_first() =~= rest);
    assert((seq![p] + rest)[0] == p);
}

fn message_with_index(head: &str, i: usize, tail: &str) -> (m: String)
    ensures
        m@ == head@ + decimal(i as nat) + tail@,
{
    let mut m = String::from_str(head);
    push_decimal(&mut m, i as u64);
    m.append(tail);
    m
}

/// The entry of the piece `v[a..b]`, number `i`.
fn piece_entry(v: &Vec<char>, a: usize, b: usize, i: usize, expect: &str) -> (r: Result<Option<(String, String)>, String>)
    requires
        a <= b <= v@.len(),
    ensures
        match piece_outcome(v@.subrange(a as int, b as int), i as nat, expect@) {
            Ok(None) => r matches Ok(None),
            Ok(Some((k, w))) => r matches Ok(Some((x, y))) && x@ == k && y@ == w,
            Err(e) => r matches Err(x) && x@ == e,
        },
{
    let e = trim_end_at(v, a, b);
    let s = trim_start_at(v, a, e);
    let ghost piece = v@.subrange(s as int, e as int);
    assert(piece == trim_ws(v@.subrange(a as int, b as int)));
    if s == e {
        return Ok(None);
    }
    let sp = scan_char(v, s, e, ' ');
    if sp >= e {
        let p = string_from_chars(v, s, e);
        let d = debug_of(p.as_str());
        let mut m = message_with_index("dict entry ", i, expect);
        m.append(d.as_str());
        return Err(m);
    }
    let ke = trim_end_at(v, s, sp);
    let ks = trim_start_at(v, s, ke);
    assert(piece.take(sp - s) =~= v@.subrange(s as int, sp as int));
    if ks == ke {
        return Err(message_with_index("dict entry ", i, ": empty key"));
    }
    let ve = trim_end_at(v, sp + 1, e);
    let vs = trim_start_at(v, sp + 1, ve);
    assert(piece.skip(sp - s + 1) =~= v@.subrange(sp + 1, e as int));
    let key = string_from_chars(v, ks, ke);
    let value = string_from_chars(v, vs, ve);
    Ok(Some((key, value)))
}

/// The entries of the pieces of `v[b..e]` between `|` separators.
fn parse_pieces(v: &Vec<char>, b: usize, e: usize, expect: &str) -> (r: Result<Vec<(String, String)>, String>)
    requires
        b <= e <= v@.len(),
    ensures
        match dict_pieces(split_char(v@.subrange(b as int, e as int), '|'), 0, expect@) {
            Ok(es) => r matches Ok(x) && pairs_of(x@) == es,
            Err(m) => r matches Err(x) && x@ == m,
        },
{
    let ghost t = v@.subrange(b as int, e as int);
    let mut out: Vec<(String, String)> = Vec::new();
    let mut a = b;
    let mut i = b;
    let mut idx: usize = 0;
    assert(pairs_of(out@) =~= Seq::<(Seq<char>, Seq<char>)>::empty());
    proof {
        let full = dict_pieces(split_char(t, '|'), 0, expect@);
        if full is Ok {
            assert(Seq::<(Seq<char>, Seq<char>)>::empty() + full->Ok_0 =~= full->Ok_0);
        }
    }
    while i <= e
        invariant
            b <= a <= i <= e + 1,
            a <= e,
            e <= v@.len(),
            t == v@.subrange(b as int, e as int),
            idx <= i - b,
            forall|k: int| a <= k < i && k < e ==> v@[k] != '|',
            i <= e,
            continues(dict_pieces(split_char(t, '|'), 0, expect@), pairs_of(out@), dict_pieces(
                split_char(v@.subrange(a as int, e as int), '|'),
                idx as nat,
                expect@,
            )),
        decreases e - i,
    {
        if i == e || v[i] == '|' {
            let ghost piece_raw = v@.subrange(a as int, i as int);
            let ghost before = pairs_of(out@);
            let ghost rest = if i < e {
                split_char(v@.subrange(i + 1, e as int), '|')
            } else {
                Seq::<Seq<char>>::empty()
            };
            proof {
                if i < e {
                    lemma_split_char_step(v@, '|', a as int, i as int, e as int);
                } else {
                    lemma_split_char_last(v@, '|', a as int, e as int);
                    assert(seq![piece_raw] + rest =~= seq![piece_raw]);
                }
                lemma_dict_pieces_step(piece_raw, rest, idx as nat, expect@);
            }
            match piece_entry(v, a, i, idx, expect) {
                Ok(None) => {},
                Ok(Some(kv)) => {
                    out.push(kv);
                    assert(pairs_of(out@) =~= before + seq![(kv.0@, kv.1@)]);
                    proof {
                        let tail = dict_pieces(rest, (idx + 1) as nat, expect@);
                        if tail is Ok {
                            assert(before + (seq![(kv.0@, kv.1@)] + tail->Ok_0) =~= pairs_of(out@) + tail->Ok_0);
                        }
                    }
                },
                Err(m) => {
                    return Err(m);
                },
            }
            if i == e {
                proof {
                    assert(dict_pieces(Seq::<Seq<char>>::empty(), (idx + 1) as nat, expect@) == Ok::<
                        Seq<(Seq<char>, Seq<char>)>,
                        Seq<char>,
                    >(Seq::empty()));
                }
                assert(pairs_of(out@) + Seq::<(Seq<char>, Seq<char>)>::empty() =~= pairs_of(out@));
                return Ok(out);
            }
            a = i + 1;
            idx = idx + 1;
        }
        i += 1;
    }
    Ok(out)
}

fn zero_entries() -> (m: String)
    ensures
        m@ == "custom dict string parsed to zero entries"@,
{
    "custom dict string parsed to zero entries".to_string()
}

/// Parse custom words written as `"key value|key value|..."`; a blank
/// string is refused outright.
pub fn parse_dict_string(s: &str) -> (r: Result<Vec<(String, String)>, String>)
    ensures
        match spec_parse_dict_string(s@) {
            Ok(es) => r matches Ok(v) && pairs_of(v@) == es,
            Err(e) => r matches Err(x) && x@ == e,
        },
{
    let v = str_chars(s);
    let e = trim_end_at(&v, 0, v.len());
    let b = trim_start_at(&v, 0, e);
    assert(v@.subrange(0, v@.len() as int) =~= v@);
    if b == e {
        return Err("custom dict string is empty".to_string());
    }
    match parse_pieces(&v, b, e, ": expected \"key value\" separated by a space, got ") {
        Ok(out) => {
            if out.len() == 0 {
                Err(zero_entries())
            } else {
                Ok(out)
            }
        },
        Err(m) => Err(m),
    }
}

/// Parse custom words written as `"key value|key value|..."`, as the Python
/// binding reads them.
pub fn parse_pair_string(s: &str) -> (r: Result<Vec<(String, String)>, String>)
    ensures
        match spec_parse_pair_string(s@) {
            Ok(es) => r matches Ok(v) && pairs_of(v@) == es,
            Err(e) => r matches Err(x) && x@ == e,
        },
{
    let v = str_chars(s);
    assert(v@.subrange(0, v@.len() as int) =~= v@);
    match parse_pieces(&v, 0, v.len(), ": expected 'key value' separated by a space, got ") {
        Ok(out) => {
            if out.len() == 0 {
                Err(zero_entries())
            } else {
                Ok(out)
            }
        },
        Err(m) => Err(m),
    }
}

/// One item of the array form of custom words (`[[key, value], ...]`), as
/// read from the caller's value: not an array, with the name of its type, or
/// an array whose first two elements are given where they are strings.
pub enum PairItem {
    NotPair(String),
    Pair(Option<String>, Option<String>),
}

/// The entry of item number `i`, or its error.
pub open spec fn pair_item_outcome(item: PairItem, i: nat) -> Result<(Seq<char>, Seq<char>), Seq<char>> {
    match item {
        PairItem::NotPair(t) => Err("entries["@ + decimal(i) + "] must be a [key, value] pair, got "@ + t@),
        PairItem::Pair(None, _) => Err("entries["@ + decimal(i) + "][0] (key) must be a string"@),
        PairItem::Pair(Some(_), None) => Err("entries["@ + decimal(i) + "][1] (value) must be a string"@),
        PairItem::Pair(Some(k), Some(v)) => if k@.len() == 0 {
            Err("entries["@ + decimal(i) + "] has an empty key"@)
        } else {
            Ok((k@, v@))
        },
    }
}

/// The entries of `items`, the first being item number `i`: the first error
/// met, or every entry.
pub open spec fn pair_items_from(items: Seq<PairItem>, i: nat) -> Result<Seq<(Seq<char>, Seq<char>)>, Seq<char>>
    decreases items.len(),
{
    if items.len() == 0 {
        Ok(Seq::empty())
    } else {
        match pair_item_outcome(items[0], i) {
            Err(e) => Err(e),
            Ok(p) => match pair_items_from(items.drop_first(), i + 1) {
                Ok(r) => Ok(seq![p] + r),
                Err(e) => Err(e),
            },
        }
    }
}

/// The array form of custom words: the entries of the items, or the first
/// error; an empty array is an error too.
pub open spec fn spec_pair_entries(items: Seq<PairItem>) -> Result<Seq<(Seq<char>, Seq<char>)>, Seq<char>> {
    match pair_items_from(items, 0) {
        Ok(r) => if r.len() == 0 {
            Err("entries array is empty"@)
        } else {
            Ok(r)
        },
        Err(e) => Err(e),
    }
}

/// Read the array form of custom words: see `spec_pair_entries`.
pub fn pair_entries(items: &Vec<PairItem>) -> (r: Result<Vec<(String, String)>, String>)
    ensures
        match spec_pair_entries(items@) {
            Ok(es) => r matches Ok(x) && pairs_of(x@) == es,
            Err(m) => r matches Err(x) && x@ == m,
        },
{
    let mut out: Vec<(String, String)> = Vec::new();
    let mut i: usize = 0;
    assert(items@.skip(0) =~= items@);
    assert(pairs_of(out@) =~= Seq::<(Seq<char>, Seq<char>)>::empty());
    proof {
        let full = pair_items_from(items@, 0);
        if full is Ok {
            assert(Seq::<(Seq<char>, Seq<char>)>::empty() + full->Ok_0 =~= full->Ok_0);
        }
    }
    while i < items.len()
        invariant
            i <= items@.len(),
            pairs_of(out@).len() == i,
            continues(pair_items_from(items@, 0), pairs_of(out@), pair_items_from(items@.skip(i as int), i as nat)),
        decreases items@.len() - i,
    {
        let ghost rest = items@.skip(i as int);
        let ghost before = pairs_of(out@);
        assert(rest[0] == items@[i as int]);
        assert(rest.drop_first() =~= items@.skip(i + 1));
        match &items[i] {
            PairItem::NotPair(t) => {
                let mut m = message_with_index("entries[", i, "] must be a [key, value] pair, got ");
                m.append(t.as_str());
                return Err(m);
            },
            PairItem::Pair(None, _) => {
                return Err(message_with_index("entries[", i, "][0] (key) must be a string"));
            },
            PairItem::Pair(Some(_), None) => {
                return Err(message_with_index("entries[", i, "][1] (value) must be a string"));
            },
            PairItem::Pair(Some(k), Some(v)) => {
                if k.as_str().unicode_len() == 0 {
                    return Err(message_with_index("entries[", i, "] has an empty key"));
                }
                out.push((k.clone(), v.clone()));
                proof {
                    let p = (k@, v@);
                    assert(pairs_of(out@) =~= before.push(p));
                    match pair_items_from(items@.skip(i + 1), (i + 1) as nat) {
                        Ok(r) => {
                            assert(before + (seq![p] + r) =~= before.push(p) + r);
                        },
                        Err(_) => {},
                    }
                }
            },
        }
        i += 1;
    }
    assert(items@.skip(i as int).len() == 0);
    assert(pairs_of(out@) + Seq::<(Seq<char>, Seq<char>)>::empty() =~= pairs_of(out@));
    if out.len() == 0 {
        return Err(String::from_str("entries array is empty"));
    }
    Ok(out)
}

} // verus!
