//! The input lists of the command lines.
//!
//! `--files-from` names a list of paths separated by newlines (or by NUL
//! bytes with `-0`). Each piece is decoded as UTF-8, invalid sequences
//! replaced, and trimmed; empty pieces are dropped. Among the inputs, `-`
//! means stdin, which is read once however often it is named.

use vstd::prelude::*;
use crate::lines::{trim_string, trim_ws};
use crate::text::strings_view;

verus! {

/// What `String::from_utf8_lossy` makes of `bytes`.
pub uninterp spec fn utf8_lossy(bytes: Seq<u8>) -> Seq<char>;

/// `String::from_utf8_lossy`. The result is named by `utf8_lossy`, a
/// function of the bytes; for valid UTF-8 the documentation gives it: the
/// decoded text. What replaces invalid sequences is not stated here.
#[verifier::external_body]
fn decode_lossy(bytes: &[u8]) -> (s: String)
    ensures
        s@ == utf8_lossy(bytes@),
        vstd::utf8::valid_utf8(bytes@) ==> s@ == vstd::utf8::decode_utf8(bytes@),
{
    String::from_utf8_lossy(bytes).into_owned()
}

/// Index of the first `b` in `s`, or `s.len()` when it does not occur.
pub open spec fn find_byte(s: Seq<u8>, b: u8) -> nat
    decreases s.len(),
{
    if s.len() == 0 {
        0
    } else if s[0] == b {
        0
    } else {
        1 + find_byte(s.drop_first(), b)
    }
}

/// The pieces of `raw` between separators `sep`, as `<[u8]>::split` gives
/// them: one more piece than there are separators.
pub open spec fn split_on(raw: Seq<u8>, sep: u8) -> Seq<Seq<u8>>
    decreases raw.len(),
{
    let e = find_byte(raw, sep);
    if e >= raw.len() {
        seq![raw]
    } else {
        seq![raw.take(e as int)] + split_on(raw.skip(e + 1int), sep)
    }
}

/// The decoded, trimmed, non-empty pieces.
pub open spec fn kept_paths(pieces: Seq<Seq<u8>>) -> Seq<Seq<char>>
    decreases pieces.len(),
{
    if pieces.len() == 0 {
        Seq::empty()
    } else {
        let t = trim_ws(utf8_lossy(pieces[0]));
        (if t.len() > 0 {
            seq![t]
        } else {
            Seq::empty()
        }) + kept_paths(pieces.drop_first())
    }
}

/// The separator of a path list: NUL with `-0`, newline otherwise.
pub open spec fn list_separator(nul: bool) -> u8 {
    if nul {
        0
    } else {
        10
    }
}

/// The paths that a path list holds.
pub open spec fn file_list_spec(raw: Seq<u8>, nul: bool) -> Seq<Seq<char>> {
    kept_paths(split_on(raw, list_separator(nul)))
}

proof fn lemma_find_byte(s: Seq<u8>, b: u8, i: int)
    requires
        0 <= i <= s.len(),
        forall|k: int| 0 <= k < i ==> s[k] != b,
        i == s.len() || s[i] == b,
    ensures
        find_byte(s, b) == i,
    decreases i,
{
    if i > 0 {
        lemma_find_byte(s.drop_first(), b, i - 1);
    }
}

/// `split_on` over the text after a first separator at `e`.
proof fn lemma_split_step(raw: Seq<u8>, sep: u8, a: int, e: int)
    requires
        0 <= a <= e < raw.len(),
        raw[e] == sep,
        forall|k: int| a <= k < e ==> raw[k] != sep,
    ensures
        split_on(raw.skip(a), sep) == seq![raw.subrange(a, e)] + split_on(raw.skip(e + 1), sep),
{
    let r = raw.skip(a);
    lemma_find_byte(r, sep, e - a);
    assert(r.take(e - a) =~= raw.subrange(a, e));
    assert(r.skip(e - a + 1) =~= raw.skip(e + 1));
}

/// The last piece, when no separator follows `a`.
proof fn lemma_split_last(raw: Seq<u8>, sep: u8, a: int)
    requires
        0 <= a <= raw.len(),
        forall|k: int| a <= k < raw.len() ==> raw[k] != sep,
    ensures
        split_on(raw.skip(a), sep) == seq![raw.skip(a)],
{
    lemma_find_byte(raw.skip(a), sep, raw.len() - a);
}

/// `kept_paths` of one piece more.
proof fn lemma_kept_paths_cons(p: Seq<u8>, ps: Seq<Seq<u8>>)
    ensures
        kept_paths(seq![p] + ps) == kept_paths(seq![p]) + kept_paths(ps),
{
    assert((seq![p] + ps).drop_first() =~= ps);
    assert(seq![p].drop_first() =~= Seq::<Seq<u8>>::empty());
    assert(kept_paths(seq![p]) =~= kept_paths(seq![p]) + kept_paths(Seq::<Seq<u8>>::empty()));
}

/// `kept_paths` of a single piece.
proof fn lemma_kept_one(p: Seq<u8>)
    ensures
        kept_paths(seq![p]) == (if trim_ws(utf8_lossy(p)).len() > 0 {
            seq![trim_ws(utf8_lossy(p))]
        } else {
            Seq::<Seq<char>>::empty()
        }),
{
    assert(seq![p].drop_first() =~= Seq::<Seq<u8>>::empty());
    assert(seq![p][0] == p);
    assert(kept_paths(Seq::<Seq<u8>>::empty()) =~= Seq::<Seq<char>>::empty());
    let t = trim_ws(utf8_lossy(p));
    if t.len() > 0 {
        assert(seq![t] + Seq::<Seq<char>>::empty() =~= seq![t]);
    } else {
        assert(Seq::<Seq<char>>::empty() + Seq::<Seq<char>>::empty() =~= Seq::<Seq<char>>::empty());
    }
}

/// A copy of `raw[a..e]`.
fn bytes_sub(raw: &[u8], a: usize, e: usize) -> (r: Vec<u8>)
    requires
        a <= e <= raw@.len(),
    ensures
        r@ == raw@.subrange(a as int, e as int),
{
    let mut r: Vec<u8> = Vec::new();
    let mut i = a;
    while i < e
        invariant
            a <= i <= e <= raw@.len(),
            r@ == raw@.subrange(a as int, i as int),
        decreases e - i,
    {
        r.push(raw[i]);
        assert(raw@.subrange(a as int, i + 1) =~= raw@.subrange(a as int, i as int).push(raw@[i as int]));
        i += 1;
    }
    r
}

/// The paths of a path list: the pieces between separators (NUL with
/// `nul`, newline otherwise), decoded, trimmed, the empty ones dropped.
pub fn file_list(raw: &[u8], nul: bool) -> (r: Vec<String>)
    ensures
        strings_view(r@) == file_list_spec(raw@, nul),
{
    let sep: u8 = if nul { 0 } else { 10 };
    let ghost pieces = split_on(raw@, sep);
    let mut out: Vec<String> = Vec::new();
    let mut a: usize = 0;
    let mut i: usize = 0;
    assert(raw@.skip(0) =~= raw@);
    assert(strings_view(out@) =~= Seq::<Seq<char>>::empty());
    while i < raw.len()
        invariant
            sep == list_separator(nul),
            a <= i <= raw@.len(),
            forall|k: int| a <= k < i ==> raw@[k] != sep,
            file_list_spec(raw@, nul) == strings_view(out@) + kept_paths(split_on(raw@.skip(a as int), sep)),
        decreases raw@.len() - i,
    {
        if raw[i] == sep {
            let chunk = bytes_sub(raw, a, i);
            let piece = decode_lossy(chunk.as_slice());
            let t = trim_string(piece.as_str());
            let ghost before = strings_view(out@);
            proof {
                lemma_split_step(raw@, sep, a as int, i as int);
                lemma_kept_paths_cons(raw@.subrange(a as int, i as int), split_on(raw@.skip(i + 1), sep));
                lemma_kept_one(raw@.subrange(a as int, i as int));
            }
            if t.as_str().unicode_len() > 0 {
                out.push(t);
                assert(strings_view(out@) =~= before.push(t@));
            }
            assert(strings_view(out@) =~= before + kept_paths(seq![raw@.subrange(a as int, i as int)]));
            a = i + 1;
        }
        i += 1;
    }
    let chunk = bytes_sub(raw, a, raw.len());
    let piece = decode_lossy(chunk.as_slice());
    let t = trim_string(piece.as_str());
    let ghost before = strings_view(out@);
    proof {
        lemma_split_last(raw@, sep, a as int);
        assert(raw@.subrange(a as int, raw@.len() as int) =~= raw@.skip(a as int));
        lemma_kept_one(raw@.skip(a as int));
    }
    if t.as_str().unicode_len() > 0 {
        out.push(t);
        assert(strings_view(out@) =~= before.push(t@));
    }
    assert(strings_view(out@) =~= before + kept_paths(seq![raw@.skip(a as int)]));
    out
}

/// The inputs named by `paths`, stdin (`-`) kept at its first mention only,
/// with `seen` telling whether it was already named.
pub open spec fn collapse_stdin_from(seen: bool, paths: Seq<Seq<char>>) -> Seq<Seq<char>>
    decreases paths.len(),
{
    if paths.len() == 0 {
        Seq::empty()
    } else if paths[0] == "-"@ {
        if seen {
            collapse_stdin_from(true, paths.drop_first())
        } else {
            seq![paths[0]] + collapse_stdin_from(true, paths.drop_first())
        }
    } else {
        seq![paths[0]] + collapse_stdin_from(seen, paths.drop_first())
    }
}

/// The paths of `p` other than stdin (`-`), in order.
pub open spec fn without_stdin(p: Seq<Seq<char>>) -> Seq<Seq<char>>
    decreases p.len(),
{
    if p.len() == 0 {
        Seq::empty()
    } else if p[0] == "-"@ {
        without_stdin(p.drop_first())
    } else {
        seq![p[0]] + without_stdin(p.drop_first())
    }
}

proof fn lemma_collapse_from(seen: bool, p: Seq<Seq<char>>)
    ensures
        without_stdin(collapse_stdin_from(seen, p)) == without_stdin(p),
        seen ==> !collapse_stdin_from(seen, p).contains("-"@),
        !seen ==> (collapse_stdin_from(seen, p).contains("-"@) <==> p.contains("-"@)),
        forall|i: int, j: int|
            0 <= i < j < collapse_stdin_from(seen, p).len() && #[trigger] collapse_stdin_from(seen, p)[i] == "-"@
                ==> #[trigger] collapse_stdin_from(seen, p)[j] != "-"@,
    decreases p.len(),
{
    if p.len() > 0 {
        let x = p[0];
        let rest = p.drop_first();
        let r = collapse_stdin_from(seen, p);
        let stdin_seen = seen || x == "-"@;
        lemma_collapse_from(stdin_seen, rest);
        let t = collapse_stdin_from(stdin_seen, rest);
        if x == "-"@ && seen {
            assert(r == t);
        } else {
            assert(r == seq![x] + t);
            assert((seq![x] + t)[0] == x);
            assert((seq![x] + t).drop_first() =~= t);
            assert forall|k: int| 0 <= k < t.len() implies r[k + 1] == t[k] by {}
            if !seen {
                if x == "-"@ {
                    assert(r[0] == "-"@);
                } else {
                    if r.contains("-"@) {
                        let k = choose|k: int| 0 <= k < r.len() && r[k] == "-"@;
                        assert(k > 0);
                        assert(t[k - 1] == "-"@);
                    }
                    if p.contains("-"@) {
                        let k = choose|k: int| 0 <= k < p.len() && p[k] == "-"@;
                        assert(k > 0);
                        assert(rest[k - 1] == "-"@);
                        assert(rest.contains("-"@));
                        let m = choose|m: int| 0 <= m < t.len() && t[m] == "-"@;
                        assert(r[m + 1] == "-"@);
                    }
                    if rest.contains("-"@) {
                        let k = choose|k: int| 0 <= k < rest.len() && rest[k] == "-"@;
                        assert(p[k + 1] == "-"@);
                    }
                }
            } else {
                if r.contains("-"@) {
                    let k = choose|k: int| 0 <= k < r.len() && r[k] == "-"@;
                    if k > 0 {
                        assert(t[k - 1] == "-"@);
                    }
                }
            }
            assert forall|i: int, j: int|
                0 <= i < j < r.len() && #[trigger] r[i] == "-"@ implies #[trigger] r[j] != "-"@ by {
                if i > 0 {
                    assert(t[i - 1] == "-"@);
                    assert(r[j] == t[j - 1]);
                } else {
                    assert(stdin_seen);
                    assert(r[j] == t[j - 1]);
                    assert(!t.contains("-"@));
                }
            }
        }
    }
}

/// Collapsing stdin keeps every other path, in order; keeps stdin exactly
/// when it is named; and names it at most once.
pub proof fn lemma_collapse_stdin(p: Seq<Seq<char>>)
    ensures
        without_stdin(collapse_stdin_from(false, p)) == without_stdin(p),
        collapse_stdin_from(false, p).contains("-"@) <==> p.contains("-"@),
        forall|i: int, j: int|
            0 <= i < j < collapse_stdin_from(false, p).len() && #[trigger] collapse_stdin_from(false, p)[i] == "-"@
                ==> #[trigger] collapse_stdin_from(false, p)[j] != "-"@,
{
    lemma_collapse_from(false, p);
}

/// The inputs named by `paths`, in order, with stdin (`-`) kept at its first
/// mention only.
pub fn collapse_stdin(paths: &Vec<String>) -> (r: Vec<String>)
    ensures
        strings_view(r@) == collapse_stdin_from(false, strings_view(paths@)),
{
    let ghost pv = strings_view(paths@);
    let mut out: Vec<String> = Vec::new();
    let mut seen = false;
    let mut i: usize = 0;
    assert(pv.skip(0) =~= pv);
    assert(strings_view(out@) =~= Seq::<Seq<char>>::empty());
    while i < paths.len()
        invariant
            pv == strings_view(paths@),
            i <= paths@.len(),
            collapse_stdin_from(false, pv) == strings_view(out@) + collapse_stdin_from(seen, pv.skip(i as int)),
        decreases paths@.len() - i,
    {
        let ghost rest = pv.skip(i as int);
        let ghost before = strings_view(out@);
        assert(rest[0] == paths@[i as int]@);
        assert(rest.drop_first() =~= pv.skip(i + 1));
        let is_stdin = crate::text::str_eq(paths[i].as_str(), "-");
        if is_stdin {
            if !seen {
                out.push(paths[i].clone());
                assert(strings_view(out@) =~= before + seq![rest[0]]);
            }
            seen = true;
        } else {
            out.push(paths[i].clone());
            assert(strings_view(out@) =~= before + seq![rest[0]]);
        }
        i += 1;
    }
    assert(pv.skip(paths@.len() as int) =~= Seq::<Seq<char>>::empty());
    assert(strings_view(out@) + Seq::<Seq<char>>::empty() =~= strings_view(out@));
    out
}

} // verus!
