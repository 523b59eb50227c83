//! ARPA n-gram language models, used to choose between candidate characters.
//!
//! An ARPA file is text, one record per line:
//!
//! ```text
//! \data\
//! ngram 1=N
//! \1-grams:
//! -2.34  word     [backoff]
//! \2-grams:
//! -3.45  w1 w2    [backoff]
//! \3-grams:
//! -1.00  w1 w2 w3
//! \end\
//! ```
//!
//! A line starting with a backslash opens a section (the whole line, with
//! trailing whitespace removed, names it). Blank lines and `#` comments are
//! skipped. In the `\1-grams:`, `\2-grams:` and `\3-grams:` sections a line of
//! whitespace-separated tokens is a log10 probability followed by the n-gram's
//! words and an optional backoff weight (none for 3-grams); any other line is
//! ignored.
//!
//! Log-probabilities are IEEE-754 binary64 numbers. The model keeps each one
//! as its bit pattern and compares them the way `f64` compares (`f64_gt`):
//! reading the decimal token into a binary64 value is done by the caller,
//! who hands the bit patterns to `NgramModel::from_entries`.

use std::collections::HashMap;
use vstd::prelude::*;
use crate::lines::{find_char, scan_char, trim_end_at, trim_end_ws, words, words_in};
use crate::text::{str_chars, strings_view};

verus! {

// ---------------------------------------------------------------------------
// binary64 comparison on bit patterns
// ---------------------------------------------------------------------------

/// Bit pattern of negative infinity: the score of an n-gram that the model
/// lacks, and of a log-probability token that is not a number.
pub const NEG_INFINITY_BITS: u64 = 0xFFF0_0000_0000_0000;

/// Whether the binary64 value with bit pattern `b` is a NaN.
pub open spec fn is_nan_bits(b: u64) -> bool {
    (b & 0x7FF0_0000_0000_0000) == 0x7FF0_0000_0000_0000 && (b & 0x000F_FFFF_FFFF_FFFF) != 0
}

/// An unsigned integer that orders the non-NaN binary64 values as their
/// numeric order does, with both zeros mapped to the same integer.
pub open spec fn order_key(b: u64) -> u64 {
    if (b & 0x7FFF_FFFF_FFFF_FFFF) == 0 {
        0x8000_0000_0000_0000
    } else if (b & 0x8000_0000_0000_0000) != 0 {
        !b
    } else {
        b | 0x8000_0000_0000_0000
    }
}

/// `a > b` for the binary64 values with bit patterns `a` and `b`: false when
/// either is a NaN.
pub open spec fn f64_gt(a: u64, b: u64) -> bool {
    !is_nan_bits(a) && !is_nan_bits(b) && order_key(a) > order_key(b)
}

fn is_nan(b: u64) -> (r: bool)
    ensures
        r == is_nan_bits(b),
{
    (b & 0x7FF0_0000_0000_0000) == 0x7FF0_0000_0000_0000 && (b & 0x000F_FFFF_FFFF_FFFF) != 0
}

fn key_of(b: u64) -> (r: u64)
    ensures
        r == order_key(b),
{
    if (b & 0x7FFF_FFFF_FFFF_FFFF) == 0 {
        0x8000_0000_0000_0000
    } else if (b & 0x8000_0000_0000_0000) != 0 {
        !b
    } else {
        b | 0x8000_0000_0000_0000
    }
}

/// `a > b` on binary64 bit patterns.
pub fn gt_bits(a: u64, b: u64) -> (r: bool)
    ensures
        r == f64_gt(a, b),
{
    !is_nan(a) && !is_nan(b) && key_of(a) > key_of(b)
}

// ---------------------------------------------------------------------------
// ARPA text
// ---------------------------------------------------------------------------

/// The n-gram order of a section: 1, 2 or 3 for the n-gram sections, 0 for
/// any other.
pub open spec fn section_order(section: Seq<char>) -> nat {
    if section == "\\1-grams:"@ {
        1
    } else if section == "\\2-grams:"@ {
        2
    } else if section == "\\3-grams:"@ {
        3
    } else {
        0
    }
}

/// An entry read from an ARPA text: the n-gram's words and the token that
/// holds its log10 probability.
pub type ArpaEntryView = (Seq<Seq<char>>, Seq<char>);

/// The entry on a data line of a section of order `k`: the line must have
/// the probability, `k` words and, below order 3, an optional backoff.
pub open spec fn line_entry(k: nat, line: Seq<char>) -> Option<ArpaEntryView> {
    let toks = words(line);
    if k > 0 && (toks.len() == k + 1 || (k < 3 && toks.len() == k + 2)) {
        Some((toks.subrange(1, k + 1int), toks[0]))
    } else {
        None
    }
}

/// One line read in `section`: the section after it, and the entry it holds.
pub open spec fn arpa_step(section: Seq<char>, raw: Seq<char>) -> (Seq<char>, Option<ArpaEntryView>) {
    let line = trim_end_ws(raw);
    if line.len() > 0 && line[0] == '\\' {
        (line, None)
    } else if line.len() == 0 || line[0] == '#' {
        (section, None)
    } else {
        (section, line_entry(section_order(section), line))
    }
}

/// The entries of the lines of `s`, read from `section` on.
pub open spec fn arpa_from(section: Seq<char>, s: Seq<char>) -> Seq<ArpaEntryView>
    decreases s.len(),
{
    let e = find_char(s, '\n');
    let step = arpa_step(section, s.take(e as int));
    let head = match step.1 {
        Some(x) => seq![x],
        None => Seq::empty(),
    };
    if e >= s.len() {
        head
    } else {
        head + arpa_from(step.0, s.skip(e + 1int))
    }
}

/// The entries of an ARPA text, in order. Reading starts outside any section.
pub open spec fn arpa_entries_of(text: Seq<char>) -> Seq<ArpaEntryView> {
    arpa_from(Seq::empty(), text)
}

/// An entry read from an ARPA text.
#[derive(Debug)]
pub struct ArpaEntry {
    /// The n-gram's words (one to three).
    pub words: Vec<String>,
    /// The log10-probability token, as written.
    pub logprob: String,
}

impl ArpaEntry {
    pub open spec fn view(&self) -> ArpaEntryView {
        (strings_view(self.words@), self.logprob@)
    }
}

/// The views of a list of entries.
pub open spec fn arpa_view(es: Seq<ArpaEntry>) -> Seq<ArpaEntryView> {
    es.map_values(|e: ArpaEntry| e.view())
}

/// Whether `v[a..b]` spells `lit`.
fn range_is(v: &Vec<char>, a: usize, b: usize, lit: &str) -> (r: bool)
    requires
        a <= b <= v@.len(),
    ensures
        r == (v@.subrange(a as int, b as int) == lit@),
{
    let l = str_chars(lit);
    if b - a != l.len() {
        return false;
    }
    let mut i: usize = 0;
    while i < l.len()
        invariant
            a <= b <= v@.len(),
            b - a == l@.len(),
            l@ == lit@,
            i <= l@.len(),
            forall|k: int| 0 <= k < i ==> v@[a + k] == l@[k],
        decreases l@.len() - i,
    {
        if v[a + i] != l[i] {
            assert(v@.subrange(a as int, b as int)[i as int] == v@[a + i]);
            assert(v@.subrange(a as int, b as int) != l@);
            return false;
        }
        i += 1;
    }
    assert(v@.subrange(a as int, b as int) =~= l@);
    true
}

/// The n-gram order of the section named by `v[a..b]`.
fn section_order_at(v: &Vec<char>, a: usize, b: usize) -> (k: usize)
    requires
        a <= b <= v@.len(),
    ensures
        k == section_order(v@.subrange(a as int, b as int)),
{
    if range_is(v, a, b, "\\1-grams:") {
        1
    } else if range_is(v, a, b, "\\2-grams:") {
        2
    } else if range_is(v, a, b, "\\3-grams:") {
        3
    } else {
        0
    }
}

/// The entry on the data line `v[from..to]` (already trimmed) of a section
/// of order `k`.
fn line_entry_at(v: &Vec<char>, from: usize, to: usize, k: usize) -> (r: Option<ArpaEntry>)
    requires
        from <= to <= v@.len(),
        k <= 3,
    ensures
        match line_entry(k as nat, v@.subrange(from as int, to as int)) {
            Some(x) => r matches Some(e) && e.view() == x,
            None => r is None,
        },
{
    if k == 0 {
        return None;
    }
    let toks = words_in(v, from, to);
    let ghost tv = words(v@.subrange(from as int, to as int));
    let n = toks.len();
    if n == k + 1 || (k < 3 && n == k + 2) {
        let mut ws: Vec<String> = Vec::new();
        let mut j: usize = 1;
        while j <= k
            invariant
                1 <= j <= k + 1,
                k <= 3,
                k + 1 <= toks@.len(),
                strings_view(toks@) == tv,
                strings_view(ws@) == tv.subrange(1, j as int),
            decreases k + 1 - j,
        {
            let w = toks[j].clone();
            assert(w@ == tv[j as int]);
            let ghost prev = strings_view(ws@);
            ws.push(w);
            assert(strings_view(ws@) =~= prev.push(w@));
            assert(prev.push(w@) =~= tv.subrange(1, j + 1));
            j += 1;
        }
        let lp = toks[0].clone();
        Some(ArpaEntry { words: ws, logprob: lp })
    } else {
        None
    }
}

/// The entries of an ARPA text, in order.
pub fn arpa_entries(text: &str) -> (es: Vec<ArpaEntry>)
    ensures
        arpa_view(es@) == arpa_entries_of(text@),
{
    let v = str_chars(text);
    let mut es: Vec<ArpaEntry> = Vec::new();
    let mut pos: usize = 0;
    let mut sa: usize = 0;
    let mut sb: usize = 0;
    let mut finished = false;
    assert(v@.skip(0) =~= v@);
    assert(v@.subrange(0, 0) =~= Seq::<char>::empty());
    assert(arpa_view(es@) + arpa_entries_of(v@) =~= arpa_entries_of(v@));
    while !finished
        invariant
            pos <= v@.len(),
            sa <= sb <= v@.len(),
            v@ == text@,
            !finished ==> arpa_entries_of(v@) == arpa_view(es@) + arpa_from(
                v@.subrange(sa as int, sb as int),
                v@.skip(pos as int),
            ),
            finished ==> arpa_entries_of(v@) == arpa_view(es@),
        decreases v@.len() - pos + (if finished { 0int } else { 1int }),
    {
        let ghost rest = v@.skip(pos as int);
        let ghost section = v@.subrange(sa as int, sb as int);
        let ghost done = arpa_view(es@);
        let end = scan_char(&v, pos, v.len(), '\n');
        assert(v@.subrange(pos as int, v@.len() as int) =~= rest);
        let ghost raw = rest.take(find_char(rest, '\n') as int);
        assert(raw =~= v@.subrange(pos as int, end as int));
        let ghost step = arpa_step(section, raw);
        let lend = trim_end_at(&v, pos, end);
        let ghost line = v@.subrange(pos as int, lend as int);
        if lend > pos && v[pos] == '\\' {
            sa = pos;
            sb = lend;
            assert(arpa_view(es@) =~= done);
        } else if lend == pos || v[pos] == '#' {
            assert(arpa_view(es@) =~= done);
        } else {
            let k = section_order_at(&v, sa, sb);
            match line_entry_at(&v, pos, lend, k) {
                Some(e) => {
                    es.push(e);
                    assert(arpa_view(es@) =~= done.push(step.1.unwrap()));
                },
                None => {
                    assert(arpa_view(es@) =~= done);
                },
            }
        }
        let ghost head = match step.1 {
            Some(x) => seq![x],
            None => Seq::<ArpaEntryView>::empty(),
        };
        assert(arpa_view(es@) =~= done + head);
        assert(step.0 == v@.subrange(sa as int, sb as int));
        if end >= v.len() {
            finished = true;
        } else {
            assert(rest.skip(find_char(rest, '\n') + 1int) =~= v@.skip(end + 1));
            assert(arpa_view(es@) + arpa_from(step.0, v@.skip(end + 1)) =~= done + (head + arpa_from(
                step.0,
                v@.skip(end + 1),
            )));
            pos = end + 1;
        }
    }
    es
}

// ---------------------------------------------------------------------------
// The model
// ---------------------------------------------------------------------------

/// The table that `(n-gram, probability)` pairs give when entered in order:
/// a later pair for the same n-gram replaces an earlier one.
pub open spec fn table_of(es: Seq<(Seq<Seq<char>>, u64)>) -> Map<Seq<Seq<char>>, u64>
    decreases es.len(),
{
    if es.len() == 0 {
        Map::empty()
    } else {
        table_of(es.drop_last()).insert(es.last().0, es.last().1)
    }
}

/// The probability bits of a parsed token: negative infinity when it did not
/// parse.
pub open spec fn logprob_bits(p: Option<u64>) -> u64 {
    match p {
        Some(b) => b,
        None => NEG_INFINITY_BITS,
    }
}

/// The `(n-gram, probability)` pairs of `es`, with `ps[i]` the parsed
/// log-probability of `es[i]`; entries of other than one to three words are
/// left out.
pub open spec fn scored_pairs(es: Seq<ArpaEntryView>, ps: Seq<Option<u64>>) -> Seq<(Seq<Seq<char>>, u64)>
    decreases es.len(),
{
    if es.len() == 0 {
        Seq::empty()
    } else {
        let init = scored_pairs(es.drop_last(), ps);
        let e = es.last();
        if 1 <= e.0.len() <= 3 {
            init.push((e.0, logprob_bits(ps[es.len() - 1])))
        } else {
            init
        }
    }
}

/// Every entry of one to three words is in the model, with the probability
/// of its last entry: when no later entry has the same words, the model maps
/// them to this entry's parsed probability (negative infinity when it did
/// not parse).
pub proof fn lemma_model_has_entry(es: Seq<ArpaEntryView>, ps: Seq<Option<u64>>, i: int)
    requires
        0 <= i < es.len(),
        1 <= es[i].0.len() <= 3,
        forall|j: int| i < j < es.len() ==> (#[trigger] es[j]).0 != es[i].0,
    ensures
        table_of(scored_pairs(es, ps)).contains_key(es[i].0),
        table_of(scored_pairs(es, ps))[es[i].0] == logprob_bits(ps[i]),
    decreases es.len(),
{
    let d = es.drop_last();
    let init = scored_pairs(d, ps);
    let x = (es.last().0, logprob_bits(ps[es.len() - 1]));
    assert(init.push(x).drop_last() =~= init);
    assert(init.push(x).last() == x);
    if i < es.len() - 1 {
        assert(d[i] == es[i]);
        assert(es[es.len() - 1].0 != es[i].0);
        assert forall|j: int| i < j < d.len() implies (#[trigger] d[j]).0 != d[i].0 by {
            assert(d[j] == es[j]);
        }
        lemma_model_has_entry(d, ps, i);
    }
}

/// The model holds nothing else: each of its n-grams is the words of some
/// entry, of one to three words.
pub proof fn lemma_model_keys_from_entries(es: Seq<ArpaEntryView>, ps: Seq<Option<u64>>, k: Seq<Seq<char>>)
    ensures
        table_of(scored_pairs(es, ps)).contains_key(k) ==> 1 <= k.len() <= 3 && exists|i: int|
            0 <= i < es.len() && (#[trigger] es[i]).0 == k,
    decreases es.len(),
{
    if es.len() > 0 {
        let d = es.drop_last();
        let init = scored_pairs(d, ps);
        let x = (es.last().0, logprob_bits(ps[es.len() - 1]));
        assert(init.push(x).drop_last() =~= init);
        assert(init.push(x).last() == x);
        lemma_model_keys_from_entries(d, ps, k);
        if table_of(scored_pairs(es, ps)).contains_key(k) {
            if table_of(scored_pairs(d, ps)).contains_key(k) {
                let i = choose|i: int| 0 <= i < d.len() && (#[trigger] d[i]).0 == k;
                assert(es[i] == d[i]);
            } else {
                assert(es[es.len() - 1].0 == k);
            }
        }
    }
}

/// The score of `key` in `t`: its probability bits, negative infinity when
/// `t` lacks it.
pub open spec fn score(t: Map<Seq<Seq<char>>, u64>, key: Seq<Seq<char>>) -> u64 {
    if t.contains_key(key) {
        t[key]
    } else {
        NEG_INFINITY_BITS
    }
}

/// The context word of a query: the previous character, or the
/// sentence-start token `<s>`.
pub open spec fn context_word(prev: Option<Seq<char>>) -> Seq<char> {
    match prev {
        Some(p) => p,
        None => "<s>"@,
    }
}

/// The bigram score of candidate `c` after the context word `prev`.
pub open spec fn cand_score(t: Map<Seq<Seq<char>>, u64>, prev: Seq<char>, c: Seq<char>) -> u64 {
    score(t, seq![prev, c])
}

/// Index of the best of the first `n` candidates: the first one whose bigram
/// score after `prev` no later candidate strictly exceeds.
pub open spec fn best_upto(t: Map<Seq<Seq<char>>, u64>, prev: Seq<char>, cands: Seq<Seq<char>>, n: nat) -> nat
    decreases n,
{
    if n <= 1 {
        0
    } else {
        let b = best_upto(t, prev, cands, (n - 1) as nat);
        if f64_gt(cand_score(t, prev, cands[n - 1]), cand_score(t, prev, cands[b as int])) {
            (n - 1) as nat
        } else {
            b
        }
    }
}

/// The context word of a query whose previous character is `prev`.
pub open spec fn query_context(prev: Option<&str>) -> Seq<char> {
    context_word(
        match prev {
            Some(p) => Some(p@),
            None => None,
        },
    )
}

/// Index of the candidate that `disambiguate` picks.
pub open spec fn best_candidate(t: Map<Seq<Seq<char>>, u64>, prev: Option<&str>, cands: Seq<String>) -> nat {
    best_upto(t, query_context(prev), strings_view(cands), cands.len())
}

/// The n-grams of two words in `t`.
pub open spec fn bigram_keys(t: Map<Seq<Seq<char>>, u64>) -> Set<Seq<Seq<char>>> {
    t.dom().filter(|k: Seq<Seq<char>>| k.len() == 2)
}

/// The views of stored `(words, probability)` pairs.
pub open spec fn grams_view(v: Seq<(Vec<String>, u64)>) -> Seq<(Seq<Seq<char>>, u64)> {
    v.map_values(|e: (Vec<String>, u64)| (strings_view(e.0@), e.1))
}

/// An n-gram table is the last pair entered for each n-gram.
pub proof fn lemma_table_of_dom(es: Seq<(Seq<Seq<char>>, u64)>, k: Seq<Seq<char>>)
    ensures
        table_of(es).contains_key(k) <==> exists|i: int| 0 <= i < es.len() && (#[trigger] es[i]).0 == k,
        table_of(es).dom().finite(),
    decreases es.len(),
{
    if es.len() > 0 {
        let d = es.drop_last();
        lemma_table_of_dom(d, k);
        if table_of(es).contains_key(k) && es.last().0 != k {
            let i = choose|i: int| 0 <= i < d.len() && (#[trigger] d[i]).0 == k;
            assert(es[i] == d[i]);
        }
        if exists|i: int| 0 <= i < es.len() && (#[trigger] es[i]).0 == k {
            let i = choose|i: int| 0 <= i < es.len() && (#[trigger] es[i]).0 == k;
            if i < es.len() - 1 {
                assert(d[i] == es[i]);
            }
        }
    }
}

/// Pairs after position `i` that do not enter `k` leave its entry as the
/// first `i` pairs made it.
proof fn lemma_table_of_tail(es: Seq<(Seq<Seq<char>>, u64)>, i: int, k: Seq<Seq<char>>)
    requires
        0 <= i <= es.len(),
        forall|j: int| i <= j < es.len() ==> (#[trigger] es[j]).0 != k,
    ensures
        table_of(es).contains_key(k) == table_of(es.take(i)).contains_key(k),
        table_of(es).contains_key(k) ==> table_of(es)[k] == table_of(es.take(i))[k],
    decreases es.len() - i,
{
    if i == es.len() {
        assert(es.take(i) =~= es);
    } else {
        lemma_table_of_tail(es, i + 1, k);
        assert(es.take(i + 1).drop_last() =~= es.take(i));
        assert(es.take(i + 1).last() == es[i]);
    }
}

/// The first `i + 1` pairs give the table of the first `i` with pair `i` entered.
proof fn lemma_table_of_take(es: Seq<(Seq<Seq<char>>, u64)>, i: int)
    requires
        0 <= i < es.len(),
    ensures
        table_of(es.take(i + 1)) == table_of(es.take(i)).insert(es[i].0, es[i].1),
{
    assert(es.take(i + 1).drop_last() =~= es.take(i));
    assert(es.take(i + 1).last() == es[i]);
}

/// The best candidate's index is one of the first `n`.
pub proof fn lemma_best_upto_bound(t: Map<Seq<Seq<char>>, u64>, prev: Seq<char>, cands: Seq<Seq<char>>, n: nat)
    ensures
        n >= 1 ==> best_upto(t, prev, cands, n) < n,
    decreases n,
{
    if n > 1 {
        lemma_best_upto_bound(t, prev, cands, (n - 1) as nat);
    }
}

/// The candidate picked among the first `n` is a first maximum: no candidate
/// scores strictly higher, and every candidate before it whose score is a
/// number scores strictly lower.
pub proof fn lemma_best_is_first_maximum(t: Map<Seq<Seq<char>>, u64>, prev: Seq<char>, cands: Seq<Seq<char>>, n: nat)
    requires
        1 <= n <= cands.len(),
    ensures
        best_upto(t, prev, cands, n) < n,
        forall|j: int|
            0 <= j < n ==> !f64_gt(
                #[trigger] cand_score(t, prev, cands[j]),
                cand_score(t, prev, cands[best_upto(t, prev, cands, n) as int]),
            ),
        forall|j: int|
            0 <= j < best_upto(t, prev, cands, n) && !is_nan_bits(#[trigger] cand_score(t, prev, cands[j]))
                ==> f64_gt(cand_score(t, prev, cands[best_upto(t, prev, cands, n) as int]), cand_score(t, prev, cands[j])),
    decreases n,
{
    if n > 1 {
        lemma_best_is_first_maximum(t, prev, cands, (n - 1) as nat);
    }
}

/// When the model has none of the candidates' bigrams, the first candidate
/// is picked.
pub proof fn lemma_all_missing_picks_first(t: Map<Seq<Seq<char>>, u64>, prev: Seq<char>, cands: Seq<Seq<char>>)
    requires
        cands.len() >= 1,
        forall|j: int| 0 <= j < cands.len() ==> !t.contains_key(seq![prev, #[trigger] cands[j]]),
    ensures
        best_upto(t, prev, cands, cands.len()) == 0,
{
    lemma_best_is_first_maximum(t, prev, cands, cands.len());
    let b = best_upto(t, prev, cands, cands.len()) as int;
    if b > 0 {
        assert(!t.contains_key(seq![prev, cands[0]]));
        assert(!t.contains_key(seq![prev, cands[b]]));
        assert(cand_score(t, prev, cands[0]) == NEG_INFINITY_BITS);
        assert(cand_score(t, prev, cands[b]) == NEG_INFINITY_BITS);
        assert(!is_nan_bits(NEG_INFINITY_BITS)) by (bit_vector);
    }
}

/// Whether two lists of strings are equal.
fn words_eq(a: &Vec<String>, b: &Vec<String>) -> (r: bool)
    ensures
        r == (strings_view(a@) == strings_view(b@)),
{
    if a.len() != b.len() {
        return false;
    }
    let mut i: usize = 0;
    while i < a.len()
        invariant
            a@.len() == b@.len(),
            i <= a@.len(),
            forall|k: int| 0 <= k < i ==> a@[k]@ == b@[k]@,
        decreases a@.len() - i,
    {
        if a[i] != b[i] {
            assert(strings_view(a@)[i as int] != strings_view(b@)[i as int]);
            return false;
        }
        i += 1;
    }
    assert(strings_view(a@) =~= strings_view(b@));
    true
}

/// A copy of a list of strings.
fn copy_words(a: &Vec<String>) -> (r: Vec<String>)
    ensures
        strings_view(r@) == strings_view(a@),
{
    let mut r: Vec<String> = Vec::new();
    let mut i: usize = 0;
    while i < a.len()
        invariant
            i <= a@.len(),
            strings_view(r@) == strings_view(a@).take(i as int),
        decreases a@.len() - i,
    {
        let w = a[i].clone();
        let ghost prev = strings_view(r@);
        r.push(w);
        assert(strings_view(r@) =~= prev.push(w@));
        assert(prev.push(w@) =~= strings_view(a@).take(i + 1));
        i += 1;
    }
    assert(strings_view(a@).take(a@.len() as int) =~= strings_view(a@));
    r
}

/// The modulus of the n-gram hash.
pub const HASH_MOD: u64 = 1_000_000_007;

/// One step of the n-gram hash: the running value `h` extended by `c`.
pub open spec fn hash_step(h: nat, c: nat) -> nat {
    (h * 31 + c) % (HASH_MOD as nat)
}

/// The hash `h` extended by the characters of `s`.
pub open spec fn hash_chars(h: nat, s: Seq<char>) -> nat
    decreases s.len(),
{
    if s.len() == 0 {
        h
    } else {
        hash_chars(hash_step(h, (s[0] as u32) as nat), s.drop_first())
    }
}

/// The hash `h` extended by the words `ws`, each followed by a separator
/// that no character equals.
pub open spec fn hash_words(h: nat, ws: Seq<Seq<char>>) -> nat
    decreases ws.len(),
{
    if ws.len() == 0 {
        h
    } else {
        hash_words(hash_step(hash_chars(h, ws[0]), 0x110000), ws.drop_first())
    }
}

/// The hash of an n-gram, its key in the model's index.
pub open spec fn gram_hash(ws: Seq<Seq<char>>) -> u64 {
    (hash_words(0, ws) % (HASH_MOD as nat)) as u64
}

proof fn lemma_hash_chars_bound(h: nat, s: Seq<char>)
    requires
        h < HASH_MOD,
    ensures
        hash_chars(h, s) < HASH_MOD,
    decreases s.len(),
{
    if s.len() > 0 {
        lemma_hash_chars_bound(hash_step(h, (s[0] as u32) as nat), s.drop_first());
    }
}

proof fn lemma_hash_words_bound(h: nat, ws: Seq<Seq<char>>)
    requires
        h < HASH_MOD,
    ensures
        hash_words(h, ws) < HASH_MOD,
    decreases ws.len(),
{
    if ws.len() > 0 {
        lemma_hash_chars_bound(h, ws[0]);
        lemma_hash_words_bound(hash_step(hash_chars(h, ws[0]), 0x110000), ws.drop_first());
    }
}

/// The hash of the n-gram `words`.
fn hash_of_words(words: &Vec<String>) -> (r: u64)
    ensures
        r == gram_hash(strings_view(words@)),
{
    let ghost wv = strings_view(words@);
    let mut h: u64 = 0;
    let mut i: usize = 0;
    assert(wv.skip(0) =~= wv);
    while i < words.len()
        invariant
            i <= words@.len(),
            wv == strings_view(words@),
            h < HASH_MOD,
            hash_words(h as nat, wv.skip(i as int)) == hash_words(0, wv),
        decreases words@.len() - i,
    {
        let cs = str_chars(words[i].as_str());
        let ghost h0 = h as nat;
        let mut j: usize = 0;
        assert(cs@.skip(0) =~= cs@);
        while j < cs.len()
            invariant
                j <= cs@.len(),
                h < HASH_MOD,
                hash_chars(h as nat, cs@.skip(j as int)) == hash_chars(h0, cs@),
            decreases cs@.len() - j,
        {
            let c = cs[j] as u32 as u64;
            assert(cs@.skip(j as int)[0] == cs@[j as int]);
            assert(cs@.skip(j as int).drop_first() =~= cs@.skip(j + 1));
            h = (h * 31 + c) % HASH_MOD;
            j += 1;
        }
        assert(cs@.skip(j as int).len() == 0);
        assert(wv.skip(i as int)[0] == cs@);
        assert(wv.skip(i as int).drop_first() =~= wv.skip(i + 1));
        h = (h * 31 + 0x110000) % HASH_MOD;
        i += 1;
    }
    assert(wv.skip(i as int).len() == 0);
    proof {
        lemma_hash_words_bound(0, wv);
    }
    h
}

/// The index of stored n-grams is exact: each n-gram's position is in the
/// bucket of its hash, each bucket holds only positions of n-grams with that
/// hash, and in increasing order.
pub open spec fn index_ok(gv: Seq<(Seq<Seq<char>>, u64)>, index: Map<u64, Vec<usize>>) -> bool {
    &&& forall|j: int|
        0 <= j < gv.len() ==> index.contains_key(#[trigger] gram_hash(gv[j].0)) && index[gram_hash(
            gv[j].0,
        )]@.contains(j as usize)
    &&& forall|h: u64, p: int|
        #![trigger index[h]@[p]]
        index.contains_key(h) && 0 <= p < index[h]@.len() ==> (index[h]@[p] as int) < gv.len() && gram_hash(
            gv[index[h]@[p] as int].0,
        ) == h
    &&& forall|h: u64, p: int, q: int|
        #![trigger index[h]@[p], index[h]@[q]]
        index.contains_key(h) && 0 <= p < q < index[h]@.len() ==> index[h]@[p] < index[h]@[q]
}

/// An ARPA n-gram language model: the log10 probability of each n-gram of
/// one to three words, as a binary64 bit pattern. The n-grams are kept in
/// the order they were entered, with an index from their hash to their
/// positions.
#[derive(Debug)]
pub struct NgramModel {
    grams: Vec<(Vec<String>, u64)>,
    index: HashMap<u64, Vec<usize>>,
}

impl View for NgramModel {
    type V = Map<Seq<Seq<char>>, u64>;

    closed spec fn view(&self) -> Map<Seq<Seq<char>>, u64> {
        table_of(grams_view(self.grams@))
    }
}

impl Default for NgramModel {
    /// The empty model.
    fn default() -> (m: NgramModel)
        ensures
            m@ == Map::<Seq<Seq<char>>, u64>::empty(),
    {
        NgramModel::new()
    }
}

impl NgramModel {
    #[verifier::type_invariant]
    closed spec fn inv(&self) -> bool {
        index_ok(grams_view(self.grams@), self.index@)
    }

    /// The model of the stored pairs `grams`, with their index built.
    fn build(grams: Vec<(Vec<String>, u64)>) -> (m: NgramModel)
        ensures
            m@ == table_of(grams_view(grams@)),
    {
        let ghost gv = grams_view(grams@);
        let mut index: HashMap<u64, Vec<usize>> = HashMap::new();
        let mut i: usize = 0;
        while i < grams.len()
            invariant
                i <= grams@.len(),
                gv == grams_view(grams@),
                index_ok(gv.take(i as int), index@),
            decreases grams@.len() - i,
        {
            let h = hash_of_words(&grams[i].0);
            let ghost old_index = index@;
            let ghost pre = gv.take(i as int);
            let mut bucket = match index.remove(&h) {
                Some(b) => b,
                None => Vec::new(),
            };
            let ghost old_bucket = bucket@;
            proof {
                if old_index.contains_key(h) {
                    assert(old_bucket == old_index[h]@);
                } else {
                    assert(old_bucket.len() == 0);
                }
            }
            bucket.push(i);
            index.insert(h, bucket);
            proof {
                let post = gv.take(i + 1);
                assert(post.drop_last() =~= pre);
                assert(gv[i as int] == post[i as int]);
                assert(gram_hash(post[i as int].0) == h);
                assert forall|j: int| 0 <= j < post.len() implies index@.contains_key(
                    #[trigger] gram_hash(post[j].0),
                ) && index@[gram_hash(post[j].0)]@.contains(j as usize) by {
                    if j < i {
                        assert(post[j] == pre[j]);
                        let hj = gram_hash(pre[j].0);
                        assert(old_index.contains_key(hj) && old_index[hj]@.contains(j as usize));
                        if hj == h {
                            let p = choose|p: int| 0 <= p < old_bucket.len() && old_bucket[p] == j as usize;
                            assert(index@[h]@[p] == j as usize);
                        } else {
                            assert(index@[hj] == old_index[hj]);
                        }
                    } else {
                        assert(index@[h]@[old_bucket.len() as int] == i);
                    }
                }
                assert forall|hh: u64, p: int|
                    #![trigger index@[hh]@[p]]
                    index@.contains_key(hh) && 0 <= p < index@[hh]@.len() implies (index@[hh]@[p] as int)
                    < post.len() && gram_hash(post[index@[hh]@[p] as int].0) == hh by {
                    if hh == h {
                        if p < old_bucket.len() {
                            assert(index@[hh]@[p] == old_index[h]@[p]);
                            assert(pre[old_index[h]@[p] as int] == post[old_index[h]@[p] as int]);
                        }
                    } else {
                        assert(index@[hh] == old_index[hh]);
                        assert(pre[old_index[hh]@[p] as int] == post[old_index[hh]@[p] as int]);
                    }
                }
                assert forall|hh: u64, p: int, q: int|
                    #![trigger index@[hh]@[p], index@[hh]@[q]]
                    index@.contains_key(hh) && 0 <= p < q < index@[hh]@.len() implies index@[hh]@[p]
                    < index@[hh]@[q] by {
                    if hh == h {
                        if q < old_bucket.len() {
                            assert(index@[hh]@[p] == old_index[h]@[p]);
                            assert(index@[hh]@[q] == old_index[h]@[q]);
                        } else {
                            assert(index@[hh]@[p] == old_index[h]@[p]);
                            assert((old_index[h]@[p] as int) < pre.len());
                        }
                    } else {
                        assert(index@[hh] == old_index[hh]);
                    }
                }
            }
            i += 1;
        }
        assert(gv.take(grams@.len() as int) =~= gv);
        NgramModel { grams, index }
    }

    /// The empty model.
    pub fn new() -> (m: NgramModel)
        ensures
            m@ == Map::<Seq<Seq<char>>, u64>::empty(),
    {
        let g: Vec<(Vec<String>, u64)> = Vec::new();
        assert(grams_view(g@).len() == 0);
        NgramModel::build(g)
    }

    /// Build a model from ARPA entries, `parsed[i]` being the bit pattern of
    /// the number that `entries[i].logprob` reads as (`None` when it is not a
    /// number, which scores negative infinity). A later entry for the same
    /// n-gram replaces an earlier one; entries of other than one to three
    /// words are left out.
    pub fn from_entries(entries: &Vec<ArpaEntry>, parsed: &Vec<Option<u64>>) -> (m: NgramModel)
        requires
            entries@.len() == parsed@.len(),
        ensures
            m@ == table_of(scored_pairs(arpa_view(entries@), parsed@)),
            forall|i: int|
                0 <= i < entries@.len() && 1 <= (#[trigger] entries@[i]).words@.len() <= 3 && (forall|j: int|
                    i < j < entries@.len() ==> strings_view(entries@[j].words@) != strings_view(entries@[i].words@))
                    ==> m@.contains_key(strings_view(entries@[i].words@)) && m@[strings_view(entries@[i].words@)]
                    == logprob_bits(parsed@[i]),
    {
        let ghost ev = arpa_view(entries@);
        proof {
            assert forall|i: int|
                0 <= i < entries@.len() && 1 <= (#[trigger] entries@[i]).words@.len() <= 3 && (forall|j: int|
                    i < j < entries@.len() ==> strings_view(entries@[j].words@) != strings_view(entries@[i].words@))
                    implies table_of(scored_pairs(ev, parsed@)).contains_key(strings_view(entries@[i].words@))
                && table_of(scored_pairs(ev, parsed@))[strings_view(entries@[i].words@)] == logprob_bits(parsed@[i]) by {
                assert(ev[i].0 == strings_view(entries@[i].words@));
                assert forall|j: int| i < j < ev.len() implies (#[trigger] ev[j]).0 != ev[i].0 by {
                    assert(ev[j].0 == strings_view(entries@[j].words@));
                }
                lemma_model_has_entry(ev, parsed@, i);
            }
        }
        let mut grams: Vec<(Vec<String>, u64)> = Vec::new();
        let mut i: usize = 0;
        while i < entries.len()
            invariant
                entries@.len() == parsed@.len(),
                i <= entries@.len(),
                grams_view(grams@) == scored_pairs(arpa_view(entries@).take(i as int), parsed@),
            decreases entries@.len() - i,
        {
            let ghost ev = arpa_view(entries@).take(i + 1);
            assert(ev.drop_last() =~= arpa_view(entries@).take(i as int));
            assert(ev.last() == entries@[i as int].view());
            let n = entries[i].words.len();
            if 1 <= n && n <= 3 {
                let ws = copy_words(&entries[i].words);
                let bits = match parsed[i] {
                    Some(b) => b,
                    None => NEG_INFINITY_BITS,
                };
                let ghost prev = grams_view(grams@);
                grams.push((ws, bits));
                assert(grams_view(grams@) =~= prev.push((strings_view(entries@[i as int].words@), bits)));
            }
            i += 1;
        }
        assert(arpa_view(entries@).take(entries@.len() as int) =~= arpa_view(entries@));
        NgramModel::build(grams)
    }

    /// The stored `(words, probability bits)` pairs, in the order they were
    /// entered; entering them in order into a table gives the model.
    pub fn grams(&self) -> (r: &Vec<(Vec<String>, u64)>)
        ensures
            table_of(grams_view(r@)) == self@,
    {
        &self.grams
    }

    /// The probability bits of the n-gram `words`, if the model has it.
    pub fn logprob(&self, words: &Vec<String>) -> (r: Option<u64>)
        ensures
            r == (if self@.contains_key(strings_view(words@)) {
                Some(self@[strings_view(words@)])
            } else {
                None
            }),
    {
        proof {
            use_type_invariant(self);
        }
        let ghost es = grams_view(self.grams@);
        let ghost k = strings_view(words@);
        let ng = self.grams.len();
        let h = hash_of_words(words);
        let bucket = match self.index.get(&h) {
            Some(b) => b,
            None => {
                proof {
                    assert forall|j: int| 0 <= j < es.len() implies (#[trigger] es[j]).0 != k by {
                        if es[j].0 == k {
                            assert(self.index@.contains_key(gram_hash(es[j].0)));
                        }
                    }
                    lemma_table_of_tail(es, 0, k);
                    assert(es.take(0).len() == 0);
                }
                return None;
            },
        };
        let mut p = bucket.len();
        while p > 0
            invariant
                p <= bucket@.len(),
                es == grams_view(self.grams@),
                k == strings_view(words@),
                h == gram_hash(k),
                self.index@.contains_key(h),
                bucket@ == self.index@[h]@,
                index_ok(es, self.index@),
                ng == self.grams@.len(),
                forall|q: int| p <= q < bucket@.len() ==> es[#[trigger] bucket@[q] as int].0 != k,
            decreases p,
        {
            let j = bucket[p - 1];
            assert(bucket@[p - 1] == self.index@[h]@[p - 1]);
            assert((j as int) < es.len());
            if words_eq(&self.grams[j].0, words) {
                proof {
                    assert(es[j as int].0 == k);
                    assert forall|jj: int| j < jj < es.len() implies (#[trigger] es[jj]).0 != k by {
                        if es[jj].0 == k {
                            assert(es.len() == self.grams@.len());
                            assert(gram_hash(es[jj].0) == h);
                            assert(self.index@[h]@.contains(jj as usize));
                            let q = choose|q: int| 0 <= q < bucket@.len() && bucket@[q] == jj as usize;
                            assert(bucket@[q] as int == jj);
                            if q < p - 1 {
                                assert(self.index@[h]@[q] < self.index@[h]@[p - 1]);
                            } else if q >= p {
                                assert(es[bucket@[q] as int].0 != k);
                            }
                        }
                    }
                    lemma_table_of_tail(es, j + 1, k);
                    lemma_table_of_take(es, j as int);
                }
                return Some(self.grams[j].1);
            }
            p -= 1;
        }
        proof {
            assert forall|j: int| 0 <= j < es.len() implies (#[trigger] es[j]).0 != k by {
                if es[j].0 == k {
                    assert(es.len() == self.grams@.len());
                    assert(gram_hash(es[j].0) == h);
                    assert(self.index@[h]@.contains(j as usize));
                    let q = choose|q: int| 0 <= q < bucket@.len() && bucket@[q] == j as usize;
                    assert(bucket@[q] as int == j);
                    assert(es[bucket@[q] as int].0 != k);
                }
            }
            lemma_table_of_tail(es, 0, k);
            assert(es.take(0).len() == 0);
        }
        None
    }

    /// Pick the best candidate after the previous character `prev` (`None`
    /// at the start of a sentence, which stands for `<s>`): the first
    /// candidate whose bigram log-probability no later candidate strictly
    /// exceeds. A bigram the model lacks scores negative infinity, so when
    /// every candidate is missing the first one is returned. `None` when
    /// there are no candidates.
    pub fn disambiguate(&self, prev: Option<&str>, candidates: &[String]) -> (r: Option<String>)
        ensures
            candidates@.len() == 0 ==> r is None,
            candidates@.len() > 0 ==> (r matches Some(s) && s@ == candidates@[best_candidate(
                self@,
                prev,
                candidates@,
            ) as int]@),
    {
        let ghost pv = query_context(prev);
        let ghost cv = strings_view(candidates@);
        if candidates.len() == 0 {
            return None;
        }
        if candidates.len() == 1 {
            return Some(candidates[0].clone());
        }
        let prev_key = match prev {
            Some(p) => crate::text::string_of_chars(&str_chars(p)),
            None => crate::text::string_of_chars(&str_chars("<s>")),
        };
        let mut best_idx: usize = 0;
        let mut best_score = self.bigram_score(&prev_key, &candidates[0]);
        let mut i: usize = 1;
        while i < candidates.len()
            invariant
                1 <= i <= candidates@.len(),
                prev_key@ == pv,
                cv == strings_view(candidates@),
                best_idx == best_upto(self@, pv, cv, i as nat),
                best_idx < i,
                best_score == cand_score(self@, pv, cv[best_idx as int]),
            decreases candidates@.len() - i,
        {
            let s = self.bigram_score(&prev_key, &candidates[i]);
            if gt_bits(s, best_score) {
                best_idx = i;
                best_score = s;
            }
            i += 1;
        }
        Some(candidates[best_idx].clone())
    }

    /// The score of the bigram `(w1, w2)`.
    fn bigram_score(&self, w1: &String, w2: &String) -> (r: u64)
        ensures
            r == score(self@, seq![w1@, w2@]),
    {
        let mut key: Vec<String> = Vec::new();
        key.push(w1.clone());
        key.push(w2.clone());
        assert(strings_view(key@) =~= seq![w1@, w2@]);
        match self.logprob(&key) {
            Some(b) => b,
            None => NEG_INFINITY_BITS,
        }
    }

    /// Number of distinct bigrams in the model.
    pub fn bigram_count(&self) -> (n: usize)
        ensures
            n == bigram_keys(self@).len(),
    {
        proof {
            use_type_invariant(self);
        }
        let ghost es = grams_view(self.grams@);
        let ng = self.grams.len();
        let mut count: usize = 0;
        let mut i: usize = 0;
        assert(es.take(0).len() == 0);
        assert(bigram_keys(table_of(es.take(0))) =~= Set::<Seq<Seq<char>>>::empty());
        while i < self.grams.len()
            invariant
                i <= self.grams@.len(),
                es == grams_view(self.grams@),
                count <= i,
                count == bigram_keys(table_of(es.take(i as int))).len(),
                ng == self.grams@.len(),
                index_ok(es, self.index@),
            decreases self.grams@.len() - i,
        {
            let ghost pre = es.take(i as int);
            let ghost k = es[i as int].0;
            proof {
                lemma_table_of_take(es, i as int);
                lemma_table_of_dom(pre, k);
                table_of(pre).dom().lemma_len_filter(|q: Seq<Seq<char>>| q.len() == 2);
            }
            if self.grams[i].0.len() == 2 {
                let h = hash_of_words(&self.grams[i].0);
                proof {
                    assert(gram_hash(es[i as int].0) == h);
                    assert(self.index@.contains_key(h));
                }
                let bucket = match self.index.get(&h) {
                    Some(b) => b,
                    None => {
                        assert(false);
                        return 0;
                    },
                };
                let mut seen = false;
                let mut p: usize = 0;
                while p < bucket.len()
                    invariant
                        i < self.grams@.len(),
                        ng == self.grams@.len(),
                        es == grams_view(self.grams@),
                        pre == es.take(i as int),
                        k == es[i as int].0,
                        index_ok(es, self.index@),
                        self.index@.contains_key(h),
                        bucket@ == self.index@[h]@,
                        p <= bucket@.len(),
                        seen <==> exists|q: int|
                            0 <= q < p && (#[trigger] bucket@[q] as int) < i && es[bucket@[q] as int].0 == k,
                    decreases bucket@.len() - p,
                {
                    let j = bucket[p];
                    assert(bucket@[p as int] == self.index@[h]@[p as int]);
                    if j < i && words_eq(&self.grams[j].0, &self.grams[i].0) {
                        seen = true;
                    }
                    p += 1;
                }
                proof {
                    if exists|q: int| 0 <= q < i && (#[trigger] pre[q]).0 == k {
                        let q = choose|q: int| 0 <= q < i && (#[trigger] pre[q]).0 == k;
                        assert(pre[q] == es[q]);
                        assert(gram_hash(es[q].0) == h);
                        assert(self.index@[h]@.contains(q as usize));
                        let r = choose|r: int| 0 <= r < bucket@.len() && bucket@[r] == q as usize;
                        assert(bucket@[r] as int == q);
                    }
                    if seen {
                        let q = choose|q: int|
                            0 <= q < p && (#[trigger] bucket@[q] as int) < i && es[bucket@[q] as int].0 == k;
                        assert(pre[bucket@[q] as int] == es[bucket@[q] as int]);
                    }
                }
                if seen {
                    assert(bigram_keys(table_of(es.take(i + 1))) =~= bigram_keys(table_of(pre)));
                } else {
                    assert(bigram_keys(table_of(es.take(i + 1))) =~= bigram_keys(table_of(pre)).insert(k));
                    count += 1;
                }
            } else {
                assert(bigram_keys(table_of(es.take(i + 1))) =~= bigram_keys(table_of(pre)));
            }
            i += 1;
        }
        assert(es.take(self.grams@.len() as int) =~= es);
        count
    }

    /// A copy of the model.
    pub fn clone_model(&self) -> (m: NgramModel)
        ensures
            m@ == self@,
    {
        let mut grams: Vec<(Vec<String>, u64)> = Vec::new();
        let mut i: usize = 0;
        while i < self.grams.len()
            invariant
                i <= self.grams@.len(),
                grams_view(grams@) == grams_view(self.grams@).take(i as int),
            decreases self.grams@.len() - i,
        {
            let ws = copy_words(&self.grams[i].0);
            let ghost prev = grams_view(grams@);
            let ghost wv = strings_view(ws@);
            grams.push((ws, self.grams[i].1));
            assert(grams_view(grams@) =~= prev.push((wv, self.grams@[i as int].1)));
            assert(grams_view(self.grams@)[i as int] == (wv, self.grams@[i as int].1));
            assert(prev.push((wv, self.grams@[i as int].1)) =~= grams_view(self.grams@).take(i + 1));
            i += 1;
        }
        assert(grams_view(self.grams@).take(self.grams@.len() as int) =~= grams_view(self.grams@));
        NgramModel::build(grams)
    }
}

} // verus!
