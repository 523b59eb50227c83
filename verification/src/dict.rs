//! Dictionary representation and longest-prefix matching.
//!
//! A dictionary is a character trie kept in one arena (`Vec<Node>`); each
//! node holds its children as a `Vec<(char, usize)>` sorted by character,
//! looked up by binary search, and the values of the key that ends there, if
//! any. Its meaning is a map from keys to default (first) values, `view`,
//! beside the map from keys to all their values, `cands`.

use vstd::prelude::*;
use crate::lines::text_entries;
use crate::dict_marisa::{marisa_entries, marisa_text_entries, marisa_view};
use crate::text::{string_of_chars, strings_view, lemma_utf8_len_push, lemma_utf8_len_take, str_chars, utf8_len, utf8_width};

verus! {

/// The map built by inserting `entries` in order: a later entry overrides an
/// earlier one with the same key.
pub open spec fn map_of(entries: Seq<(Seq<char>, Seq<char>)>) -> Map<Seq<char>, Seq<char>>
    decreases entries.len(),
{
    if entries.len() == 0 {
        Map::empty()
    } else {
        map_of(entries.drop_last()).insert(entries.last().0, entries.last().1)
    }
}

/// The map built by inserting `(key, values)` entries in order: a later
/// entry overrides an earlier one with the same key.
pub open spec fn cands_map(entries: Seq<(Seq<char>, Seq<Seq<char>>)>) -> Map<Seq<char>, Seq<Seq<char>>>
    decreases entries.len(),
{
    if entries.len() == 0 {
        Map::empty()
    } else {
        cands_map(entries.drop_last()).insert(entries.last().0, entries.last().1)
    }
}

/// Each `(key, value)` entry as a key with that one value.
pub open spec fn singletons(es: Seq<(Seq<char>, Seq<char>)>) -> Seq<(Seq<char>, Seq<Seq<char>>)> {
    es.map_values(|e: (Seq<char>, Seq<char>)| (e.0, seq![e.1]))
}

/// Every entry of a dictionary text has at least one value.
proof fn lemma_marisa_values_nonempty(s: Seq<char>)
    ensures
        forall|j: int| 0 <= j < marisa_entries(s).len() ==> (#[trigger] marisa_entries(s)[j]).1.len() > 0,
    decreases s.len(),
{
    let e = crate::lines::find_char(s, '\n');
    let head = match crate::dict_marisa::marisa_line(s.take(e as int)) {
        Some(x) => seq![x],
        None => Seq::<(Seq<char>, Seq<Seq<char>>)>::empty(),
    };
    assert(forall|j: int| 0 <= j < head.len() ==> (#[trigger] head[j]).1.len() > 0);
    if e < s.len() {
        let r = s.skip(e + 1int);
        lemma_marisa_values_nonempty(r);
        assert(marisa_entries(s) == head + marisa_entries(r));
        assert forall|j: int| 0 <= j < marisa_entries(s).len() implies (#[trigger] marisa_entries(s)[j]).1.len() > 0 by {
            if j < head.len() {
                assert(marisa_entries(s)[j] == head[j]);
            } else {
                assert(marisa_entries(s)[j] == marisa_entries(r)[j - head.len()]);
            }
        }
    } else {
        assert(marisa_entries(s) == head);
    }
}

/// A copy of a list of strings.
fn copy_strings(v: &Vec<String>) -> (r: Vec<String>)
    ensures
        strings_view(r@) == strings_view(v@),
{
    let mut r: Vec<String> = Vec::new();
    let mut i: usize = 0;
    while i < v.len()
        invariant
            i <= v@.len(),
            strings_view(r@) == strings_view(v@).take(i as int),
        decreases v@.len() - i,
    {
        let ghost before = strings_view(r@);
        r.push(v[i].clone());
        assert(strings_view(r@) =~= before.push(v@[i as int]@));
        assert(strings_view(v@).take(i + 1) =~= strings_view(v@).take(i as int).push(v@[i as int]@));
        i += 1;
    }
    assert(strings_view(v@).take(v@.len() as int) =~= strings_view(v@));
    r
}

/// The views of `(key, value)` string pairs.
pub open spec fn pairs_view(p: Seq<(String, String)>) -> Seq<(Seq<char>, Seq<char>)> {
    p.map_values(|e: (String, String)| (e.0@, e.1@))
}

/// Length (in chars) of the longest non-empty prefix of `text` that is a key
/// of `m`; 0 when no non-empty prefix is a key.
pub open spec fn longest_key_len(m: Map<Seq<char>, Seq<char>>, text: Seq<char>) -> nat
    decreases text.len(),
{
    if text.len() == 0 {
        0
    } else if m.contains_key(text) {
        text.len()
    } else {
        longest_key_len(m, text.drop_last())
    }
}

/// The answer of one dictionary to a longest-prefix query on `text`: the
/// matched length in chars and the value of the matched key.
pub open spec fn dict_lookup(m: Map<Seq<char>, Seq<char>>, text: Seq<char>) -> Option<(nat, Seq<char>)> {
    let n = longest_key_len(m, text);
    if n > 0 {
        Some((n, m[text.take(n as int)]))
    } else {
        None
    }
}

/// The answer of a priority-ordered group: the first dictionary that has any
/// key prefixing `text` answers with its longest match.
pub open spec fn group_lookup(group: Seq<Map<Seq<char>, Seq<char>>>, text: Seq<char>) -> Option<(nat, Seq<char>)>
    decreases group.len(),
{
    if group.len() == 0 {
        None
    } else {
        match dict_lookup(group[0], text) {
            Some(r) => Some(r),
            None => group_lookup(group.drop_first(), text),
        }
    }
}

/// `longest_key_len` is the longest matching length: the prefix of that length
/// is a key (when it is positive) and no longer prefix is.
pub proof fn lemma_longest_key_len(m: Map<Seq<char>, Seq<char>>, text: Seq<char>)
    ensures
        longest_key_len(m, text) <= text.len(),
        longest_key_len(m, text) > 0 ==> m.contains_key(text.take(longest_key_len(m, text) as int)),
        forall|k: int|
            longest_key_len(m, text) < k <= text.len() ==> !m.contains_key(#[trigger] text.take(k)),
    decreases text.len(),
{
    if text.len() == 0 {
    } else if m.contains_key(text) {
        assert(text.take(text.len() as int) =~= text);
    } else {
        let d = text.drop_last();
        lemma_longest_key_len(m, d);
        assert forall|k: int| longest_key_len(m, text) < k <= text.len() implies !m.contains_key(
            #[trigger] text.take(k),
        ) by {
            if k == text.len() {
                assert(text.take(k) =~= text);
            } else {
                assert(d.take(k) =~= text.take(k));
            }
        }
        if longest_key_len(m, text) > 0 {
            assert(d.take(longest_key_len(m, d) as int) =~= text.take(longest_key_len(m, text) as int));
        }
    }
}

/// A length with the longest-match property is `longest_key_len`.
pub proof fn lemma_longest_key_len_unique(m: Map<Seq<char>, Seq<char>>, text: Seq<char>, n: int)
    requires
        0 <= n <= text.len(),
        n > 0 ==> m.contains_key(text.take(n)),
        forall|k: int| n < k <= text.len() ==> !m.contains_key(#[trigger] text.take(k)),
    ensures
        longest_key_len(m, text) == n,
{
    lemma_longest_key_len(m, text);
    let l = longest_key_len(m, text) as int;
    if l < n {
        assert(!m.contains_key(text.take(n)));
    } else if n < l {
        assert(!m.contains_key(text.take(l)));
    }
}

/// A group's match, when there is one, is a non-empty prefix of `text`.
pub proof fn lemma_group_lookup_bound(group: Seq<Map<Seq<char>, Seq<char>>>, text: Seq<char>)
    ensures
        group_lookup(group, text) matches Some((n, v)) ==> 1 <= n <= text.len(),
    decreases group.len(),
{
    if group.len() > 0 {
        lemma_longest_key_len(group[0], text);
        lemma_group_lookup_bound(group.drop_first(), text);
    }
}

/// A key is in `map_of(es)` exactly when some entry has it.
pub proof fn lemma_map_of_dom(es: Seq<(Seq<char>, Seq<char>)>, k: Seq<char>)
    ensures
        map_of(es).contains_key(k) <==> exists|i: int| 0 <= i < es.len() && (#[trigger] es[i]).0 == k,
    decreases es.len(),
{
    if es.len() > 0 {
        let d = es.drop_last();
        lemma_map_of_dom(d, k);
        if map_of(es).contains_key(k) && es.last().0 != k {
            let i = choose|i: int| 0 <= i < d.len() && (#[trigger] d[i]).0 == k;
            assert(es[i] == d[i]);
        }
        if exists|i: int| 0 <= i < es.len() && (#[trigger] es[i]).0 == k {
            let i = choose|i: int| 0 <= i < es.len() && (#[trigger] es[i]).0 == k;
            if i < es.len() - 1 {
                assert(d[i] == es[i]);
            }
        }
    }
}

/// The map of two runs of entries is the map of the first overlaid by the
/// map of the second.
pub proof fn lemma_map_of_concat(a: Seq<(Seq<char>, Seq<char>)>, b: Seq<(Seq<char>, Seq<char>)>)
    ensures
        map_of(a + b) == map_of(a).union_prefer_right(map_of(b)),
    decreases b.len(),
{
    if b.len() == 0 {
        assert(a + b =~= a);
        assert(map_of(a).union_prefer_right(map_of(b)) =~= map_of(a));
    } else {
        assert((a + b).drop_last() =~= a + b.drop_last());
        assert((a + b).last() == b.last());
        lemma_map_of_concat(a, b.drop_last());
        assert(map_of(a).union_prefer_right(map_of(b.drop_last())).insert(b.last().0, b.last().1) =~= map_of(
            a,
        ).union_prefer_right(map_of(b)));
    }
}

/// Later entries win: the value of a key is the one of its last entry.
pub proof fn lemma_map_of_last_wins(es: Seq<(Seq<char>, Seq<char>)>, j: int)
    requires
        0 <= j < es.len(),
        forall|i: int| j < i < es.len() ==> (#[trigger] es[i]).0 != es[j].0,
    ensures
        map_of(es).contains_key(es[j].0),
        map_of(es)[es[j].0] == es[j].1,
    decreases es.len(),
{
    if j < es.len() - 1 {
        let d = es.drop_last();
        assert(es[es.len() - 1].0 != es[j].0);
        assert(d[j] == es[j]);
        assert forall|i: int| j < i < d.len() implies (#[trigger] d[i]).0 != d[j].0 by {
            assert(d[i] == es[i]);
        }
        lemma_map_of_last_wins(d, j);
    }
}

/// Priority dominates length: when the first dictionary of a group has any
/// key prefixing `text`, the group answers with that dictionary's longest
/// match, whatever longer keys later dictionaries hold; otherwise the rest of
/// the group answers.
pub proof fn lemma_group_priority(group: Seq<Map<Seq<char>, Seq<char>>>, text: Seq<char>)
    requires
        group.len() > 0,
    ensures
        dict_lookup(group[0], text) is Some ==> group_lookup(group, text) == dict_lookup(group[0], text),
        dict_lookup(group[0], text) is None ==> group_lookup(group, text) == group_lookup(group.drop_first(), text),
{
}

/// Custom words prepended to a group override it: where a custom key
/// prefixes `text`, the longest custom match is the answer; elsewhere the
/// group answers as it did without them.
pub proof fn lemma_custom_first(custom: Map<Seq<char>, Seq<char>>, group: Seq<Map<Seq<char>, Seq<char>>>, text: Seq<char>)
    ensures
        dict_lookup(custom, text) is Some ==> group_lookup(seq![custom] + group, text) == dict_lookup(custom, text),
        dict_lookup(custom, text) is None ==> group_lookup(seq![custom] + group, text) == group_lookup(group, text),
{
    assert((seq![custom] + group)[0] == custom);
    assert((seq![custom] + group).drop_first() =~= group);
}

/// A dictionary built from a text answers every longest-prefix query as one
/// built from the `(key, first value)` pairs read out of that text.
pub proof fn lemma_text_matches_entries(
    raw: Seq<char>,
    pairs: Seq<(String, String)>,
    from_text: Dict,
    from_pairs: Dict,
    text: Seq<char>,
)
    requires
        pairs_view(pairs) == text_entries(raw),
        from_text@ == map_of(text_entries(raw)),
        from_pairs@ == map_of(pairs_view(pairs)),
    ensures
        dict_lookup(from_text@, text) == dict_lookup(from_pairs@, text),
{
}

/// Children sorted strictly by character.
pub open spec fn sorted_children(s: Seq<(char, usize)>) -> bool {
    forall|a: int, b: int| 0 <= a < b < s.len() ==> (#[trigger] s[a].0 as u32) < (#[trigger] s[b].0 as u32)
}

struct Node {
    children: Vec<(char, usize)>,
    value: Option<String>,
    /// Every value of the key that ends here, the default first.
    cands: Vec<String>,
}

/// A conversion dictionary: a character trie mapping each key to its values,
/// the first being the default.
pub struct Dict {
    nodes: Vec<Node>,
    /// The key spelled by the path from the root to each node.
    paths: Ghost<Seq<Seq<char>>>,
    /// The keys that carry a value, with that value.
    entries: Ghost<Map<Seq<char>, Seq<char>>>,
    /// The keys that carry a value, with all their values.
    alts: Ghost<Map<Seq<char>, Seq<Seq<char>>>>,
}

impl View for Dict {
    type V = Map<Seq<char>, Seq<char>>;

    closed spec fn view(&self) -> Map<Seq<char>, Seq<char>> {
        self.entries@
    }
}

/// Binary search for `ch` among sorted children: `Ok` with its position, or
/// `Err` with the position where it would be inserted.
fn find_child(children: &Vec<(char, usize)>, ch: char) -> (r: Result<usize, usize>)
    requires
        sorted_children(children@),
    ensures
        match r {
            Ok(t) => t < children@.len() && children@[t as int].0 == ch,
            Err(p) => {
                &&& p <= children@.len()
                &&& forall|t: int| 0 <= t < p ==> (#[trigger] children@[t].0 as u32) < (ch as u32)
                &&& forall|t: int| p <= t < children@.len() ==> (ch as u32) < (#[trigger] children@[t].0 as u32)
            },
        },
{
    let mut lo: usize = 0;
    let mut hi: usize = children.len();
    let key = ch as u32;
    while lo < hi
        invariant
            lo <= hi <= children@.len(),
            sorted_children(children@),
            key == ch as u32,
            forall|t: int| 0 <= t < lo ==> (#[trigger] children@[t].0 as u32) < key,
            forall|t: int| hi <= t < children@.len() ==> key < (#[trigger] children@[t].0 as u32),
        decreases hi - lo,
    {
        let mid = lo + (hi - lo) / 2;
        let c = children[mid].0 as u32;
        if c == key {
            proof {
                vstd::utf8::char_u32_cast(children@[mid as int].0, c);
                vstd::utf8::char_u32_cast(ch, key);
            }
            return Ok(mid);
        } else if c < key {
            lo = mid + 1;
        } else {
            hi = mid;
        }
    }
    Err(lo)
}

impl Dict {
    /// Whether some node's path is `p`.
    closed spec fn has_node(&self, p: Seq<char>) -> bool {
        exists|k: int| 0 <= k < self.nodes@.len() && self.paths@[k] == p
    }

    /// The arena invariant: paths follow the edges, children are sorted, every
    /// path names one node, paths are closed under prefixes, every existing
    /// one-character extension of a node is one of its children, and the
    /// values stored at the nodes are exactly `view`.
    pub closed spec fn wf(&self) -> bool {
        let n = self.nodes@.len();
        &&& n >= 1
        &&& self.paths@.len() == n
        &&& self.paths@[0] == Seq::<char>::empty()
        &&& forall|i: int, t: int|
            0 <= i < n && 0 <= t < self.nodes@[i].children@.len() ==> {
                &&& ((#[trigger] self.nodes@[i].children@[t]).1 as int) < n
                &&& self.paths@[self.nodes@[i].children@[t].1 as int] == self.paths@[i].push(
                    self.nodes@[i].children@[t].0,
                )
            }
        &&& forall|i: int| 0 <= i < n ==> sorted_children(#[trigger] self.nodes@[i].children@)
        &&& forall|a: int, b: int|
            0 <= a < n && 0 <= b < n && a != b ==> #[trigger] self.paths@[a] != #[trigger] self.paths@[b]
        &&& forall|j: int, l: int|
            0 <= j < n && 0 <= l <= self.paths@[j].len() ==> self.has_node(
                #[trigger] self.paths@[j].take(l),
            )
        &&& forall|i: int, c: char|
            0 <= i < n && self.has_node(#[trigger] self.paths@[i].push(c)) ==> exists|t: int|
                0 <= t < self.nodes@[i].children@.len() && (#[trigger] self.nodes@[i].children@[t]).0
                    == c
        &&& forall|i: int|
            0 <= i < n ==> match #[trigger] self.nodes@[i].value {
                Some(v) => self.entries@.contains_key(self.paths@[i]) && self.entries@[self.paths@[i]]
                    == v@,
                None => !self.entries@.contains_key(self.paths@[i]),
            }
        &&& forall|k: Seq<char>| #[trigger] self.entries@.contains_key(k) ==> self.has_node(k)
        &&& forall|k: Seq<char>| #[trigger] self.alts@.contains_key(k) == self.entries@.contains_key(k)
        &&& forall|i: int|
            0 <= i < n && (#[trigger] self.nodes@[i].value) is Some ==> {
                &&& self.alts@[self.paths@[i]] == strings_view(self.nodes@[i].cands@)
                &&& self.nodes@[i].cands@.len() > 0
                &&& self.nodes@[i].cands@[0]@ == (self.nodes@[i].value->Some_0)@
            }
    }

    /// Every value of each key, the default first.
    pub closed spec fn cands(&self) -> Map<Seq<char>, Seq<Seq<char>>> {
        self.alts@
    }

    /// A well-formed dictionary has the same keys in `cands` as in `view`,
    /// each with a non-empty list whose first value is the default.
    pub proof fn lemma_cands(&self)
        requires
            self.wf(),
        ensures
            forall|k: Seq<char>| #[trigger] self.cands().contains_key(k) == self@.contains_key(k),
            forall|k: Seq<char>|
                #[trigger] self.cands().contains_key(k) ==> self.cands()[k].len() > 0 && self.cands()[k][0]
                    == self@[k],
    {
        assert forall|k: Seq<char>| #[trigger] self.cands().contains_key(k) implies self.cands()[k].len() > 0
            && self.cands()[k][0] == self@[k] by {
            let w = choose|w: int| 0 <= w < self.nodes@.len() && self.paths@[w] == k;
            assert(self.nodes@[w].value is Some);
        }
    }

    /// The empty dictionary: a lone root.
    fn empty() -> (d: Dict)
        ensures
            d.wf(),
            d@ == Map::<Seq<char>, Seq<char>>::empty(),
    {
        let d = Dict {
            nodes: vec![Node { children: Vec::new(), value: None, cands: Vec::new() }],
            paths: Ghost(Seq::<Seq<char>>::empty().push(Seq::<char>::empty())),
            entries: Ghost(Map::empty()),
            alts: Ghost(Map::empty()),
        };
        proof {
            assert(d.nodes@.len() == 1);
            assert(d.nodes@[0].children@.len() == 0);
            assert(d.nodes@[0].value is None);
            assert forall|i: int, c: char|
                0 <= i < d.nodes@.len() && d.has_node(#[trigger] d.paths@[i].push(c)) implies exists|t: int|
                0 <= t < d.nodes@[i].children@.len() && (#[trigger] d.nodes@[i].children@[t]).0 == c by {
                let k = choose|k: int| 0 <= k < d.nodes@.len() && d.paths@[k] == d.paths@[i].push(c);
                assert(d.paths@[k].len() == 0);
            }
            assert forall|j: int, l: int|
                0 <= j < d.nodes@.len() && 0 <= l <= d.paths@[j].len() implies d.has_node(
                #[trigger] d.paths@[j].take(l),
            ) by {
                assert(d.paths@[0].take(l) =~= d.paths@[0]);
            }
        }
        d
    }

    /// Adding a fresh child `(ch, idx)` of `cur` at position `p` keeps the
    /// invariant.
    proof fn lemma_add_child(old_d: Dict, new_d: Dict, cur: int, p: int, ch: char)
        requires
            old_d.wf(),
            old_d.nodes@.len() <= usize::MAX,
            0 <= cur < old_d.nodes@.len(),
            ({
                let ch_s = old_d.nodes@[cur].children@;
                &&& 0 <= p <= ch_s.len()
                &&& forall|t: int| 0 <= t < p ==> (#[trigger] ch_s[t].0 as u32) < (ch as u32)
                &&& forall|t: int| p <= t < ch_s.len() ==> (ch as u32) < (#[trigger] ch_s[t].0 as u32)
            }),
            new_d.nodes@.len() == old_d.nodes@.len() + 1,
            forall|i: int|
                0 <= i < old_d.nodes@.len() && i != cur ==> #[trigger] new_d.nodes@[i] == old_d.nodes@[i],
            new_d.nodes@[cur].value == old_d.nodes@[cur].value,
            new_d.nodes@[cur].children@ == old_d.nodes@[cur].children@.insert(
                p,
                (ch, old_d.nodes@.len() as usize),
            ),
            new_d.nodes@[old_d.nodes@.len() as int].children@.len() == 0,
            new_d.nodes@[old_d.nodes@.len() as int].value is None,
            new_d.paths@ == old_d.paths@.push(old_d.paths@[cur].push(ch)),
            new_d.entries@ == old_d.entries@,
            new_d.alts@ == old_d.alts@,
            new_d.nodes@[cur].cands == old_d.nodes@[cur].cands,
        ensures
            new_d.wf(),
    {
        let n = old_d.nodes@.len() as int;
        let idx = n;
        let np = old_d.paths@[cur].push(ch);
        let ch_s = old_d.nodes@[cur].children@;
        ch_s.insert_ensures(p, (ch, n as usize));
        // The new path is not an old node's path.
        assert(!old_d.has_node(np)) by {
            if old_d.has_node(np) {
                let t = choose|t: int| 0 <= t < ch_s.len() && (#[trigger] ch_s[t]).0 == ch;
                if t < p {
                    assert((ch_s[t].0 as u32) < (ch as u32));
                } else {
                    assert((ch as u32) < (ch_s[t].0 as u32));
                }
            }
        }
        assert forall|k: int| 0 <= k < n implies #[trigger] new_d.paths@[k] == old_d.paths@[k] by {}
        assert(new_d.paths@[idx] == np);
        // Old witnesses remain witnesses.
        assert forall|q: Seq<char>| old_d.has_node(q) implies new_d.has_node(q) by {
            let k = choose|k: int| 0 <= k < n && old_d.paths@[k] == q;
            assert(new_d.paths@[k] == q);
        }
        // edges
        assert forall|i: int, t: int|
            0 <= i < n + 1 && 0 <= t < new_d.nodes@[i].children@.len() implies {
            &&& ((#[trigger] new_d.nodes@[i].children@[t]).1 as int) < n + 1
            &&& new_d.paths@[new_d.nodes@[i].children@[t].1 as int] == new_d.paths@[i].push(
                new_d.nodes@[i].children@[t].0,
            )
        } by {
            if i == cur {
                assert(new_d.paths@[cur] == old_d.paths@[cur]);
                if t < p {
                    assert(new_d.nodes@[i].children@[t] == ch_s[t]);
                    let j = ch_s[t].1 as int;
                    assert(j < n && old_d.paths@[j] == old_d.paths@[cur].push(ch_s[t].0));
                    assert(new_d.paths@[j] == old_d.paths@[j]);
                    assert(new_d.paths@[new_d.nodes@[i].children@[t].1 as int] == new_d.paths@[i].push(new_d.nodes@[i].children@[t].0));
                } else if t == p {
                    assert(new_d.nodes@[i].children@[t] == (ch, n as usize));
                    assert(new_d.paths@[n] == np);
                    assert(new_d.paths@[new_d.nodes@[i].children@[t].1 as int] == new_d.paths@[i].push(new_d.nodes@[i].children@[t].0));
                } else {
                    assert(new_d.nodes@[i].children@[t] == ch_s[t - 1]);
                    let j = ch_s[t - 1].1 as int;
                    assert(j < n && old_d.paths@[j] == old_d.paths@[cur].push(ch_s[t - 1].0));
                    assert(new_d.paths@[j] == old_d.paths@[j]);
                    assert(new_d.paths@[new_d.nodes@[i].children@[t].1 as int] == new_d.paths@[i].push(new_d.nodes@[i].children@[t].0));
                }
            } else if i < n {
                assert(new_d.nodes@[i] == old_d.nodes@[i]);
                assert(new_d.paths@[i] == old_d.paths@[i]);
                let e = old_d.nodes@[i].children@[t];
                assert((e.1 as int) < n && old_d.paths@[e.1 as int] == old_d.paths@[i].push(e.0));
                assert(new_d.paths@[e.1 as int] == old_d.paths@[e.1 as int]);
                assert(new_d.paths@[new_d.nodes@[i].children@[t].1 as int] == new_d.paths@[i].push(new_d.nodes@[i].children@[t].0));
            } else {
                assert(i == n);
                assert(false);
            }
        }
        // sorted
        assert forall|i: int| 0 <= i < n + 1 implies sorted_children(
            #[trigger] new_d.nodes@[i].children@,
        ) by {
            if i == cur {
                let s = new_d.nodes@[i].children@;
                assert forall|a: int, b: int| 0 <= a < b < s.len() implies (#[trigger] s[a].0 as u32)
                    < (#[trigger] s[b].0 as u32) by {
                    assert(sorted_children(ch_s));
                    if b < p {
                        assert(s[a] == ch_s[a] && s[b] == ch_s[b]);
                    } else if b == p {
                        assert(s[a] == ch_s[a]);
                    } else if a < p {
                        assert(s[a] == ch_s[a] && s[b] == ch_s[b - 1]);
                    } else if a == p {
                        assert(s[b] == ch_s[b - 1]);
                    } else {
                        assert(s[a] == ch_s[a - 1] && s[b] == ch_s[b - 1]);
                    }
                }
            } else if i < n {
                assert(new_d.nodes@[i] == old_d.nodes@[i]);
            }
        }
        // injective
        assert forall|a: int, b: int|
            0 <= a < n + 1 && 0 <= b < n + 1 && a != b implies #[trigger] new_d.paths@[a]
            != #[trigger] new_d.paths@[b] by {
            if a == idx {
                assert(old_d.paths@[b] == new_d.paths@[b]);
            } else if b == idx {
                assert(old_d.paths@[a] == new_d.paths@[a]);
            } else {
                assert(old_d.paths@[a] != old_d.paths@[b]);
            }
        }
        // prefix closed
        assert forall|j: int, l: int|
            0 <= j < n + 1 && 0 <= l <= new_d.paths@[j].len() implies new_d.has_node(
            #[trigger] new_d.paths@[j].take(l),
        ) by {
            if j == idx {
                if l == np.len() {
                    assert(np.take(l) =~= np);
                } else {
                    assert(np.take(l) =~= old_d.paths@[cur].take(l));
                    assert(old_d.has_node(old_d.paths@[cur].take(l)));
                }
            } else {
                assert(old_d.has_node(old_d.paths@[j].take(l)));
            }
        }
        // complete
        assert forall|i: int, c: char|
            0 <= i < n + 1 && new_d.has_node(#[trigger] new_d.paths@[i].push(c)) implies exists|t: int|
            0 <= t < new_d.nodes@[i].children@.len() && (#[trigger] new_d.nodes@[i].children@[t]).0
                == c by {
            let q = new_d.paths@[i].push(c);
            let k = choose|k: int| 0 <= k < n + 1 && new_d.paths@[k] == q;
            if k == idx {
                // q == np: same parent path and same last char.
                assert(q.drop_last() =~= new_d.paths@[i]);
                assert(np.drop_last() =~= old_d.paths@[cur]);
                assert(q.last() == c && np.last() == ch);
                if i == idx {
                    assert(new_d.paths@[i].len() == np.len());
                } else if i != cur {
                    assert(old_d.paths@[i] != old_d.paths@[cur]);
                }
                assert(new_d.nodes@[i].children@[p].0 == ch);
            } else {
                assert(old_d.has_node(q));
                if i == idx {
                    // q extends np, so np is an old node's prefix: impossible.
                    assert(old_d.has_node(old_d.paths@[k].take(np.len() as int)));
                    assert(old_d.paths@[k].take(np.len() as int) =~= np);
                } else {
                    assert(new_d.paths@[i] == old_d.paths@[i]);
                    let t = choose|t: int|
                        0 <= t < old_d.nodes@[i].children@.len() && (#[trigger] old_d.nodes@[i].children@[t]).0
                            == c;
                    if i == cur {
                        if t < p {
                            assert(new_d.nodes@[i].children@[t] == ch_s[t]);
                        } else {
                            assert(new_d.nodes@[i].children@[t + 1] == ch_s[t]);
                        }
                    } else {
                        assert(new_d.nodes@[i] == old_d.nodes@[i]);
                    }
                }
            }
        }
        // values
        assert forall|i: int| 0 <= i < n + 1 implies match #[trigger] new_d.nodes@[i].value {
            Some(v) => new_d.entries@.contains_key(new_d.paths@[i]) && new_d.entries@[new_d.paths@[i]]
                == v@,
            None => !new_d.entries@.contains_key(new_d.paths@[i]),
        } by {
            if i == idx {
                if old_d.entries@.contains_key(np) {
                    assert(old_d.has_node(np));
                }
            } else if i == cur {
                assert(old_d.nodes@[i].value == new_d.nodes@[i].value);
            } else {
                assert(new_d.nodes@[i] == old_d.nodes@[i]);
            }
        }
        assert forall|k: Seq<char>| #[trigger] new_d.entries@.contains_key(k) implies new_d.has_node(k) by {
            assert(old_d.has_node(k));
        }
        assert forall|i: int|
            0 <= i < n + 1 && (#[trigger] new_d.nodes@[i].value) is Some implies {
            &&& new_d.alts@[new_d.paths@[i]] == strings_view(new_d.nodes@[i].cands@)
            &&& new_d.nodes@[i].cands@.len() > 0
            &&& new_d.nodes@[i].cands@[0]@ == (new_d.nodes@[i].value->Some_0)@
        } by {
            if i == cur {
                assert(old_d.nodes@[i].value == new_d.nodes@[i].value);
            } else if i < n {
                assert(new_d.nodes@[i] == old_d.nodes@[i]);
            }
        }
    }

    /// Insert `key` with the values `values` (the first the default),
    /// replacing any earlier values.
    fn insert(&mut self, key: &Vec<char>, values: Vec<String>)
        requires
            old(self).wf(),
            values@.len() > 0,
        ensures
            final(self).wf(),
            final(self)@ == old(self)@.insert(key@, values@[0]@),
            final(self).cands() == old(self).cands().insert(key@, strings_view(values@)),
    {
        let value = values[0].clone();
        let mut cur: usize = 0;
        let mut i: usize = 0;
        assert(key@.take(0) =~= Seq::<char>::empty());
        while i < key.len()
            invariant
                self.wf(),
                self@ == old(self)@,
                self.alts@ == old(self).alts@,
                0 <= i <= key@.len(),
                cur < self.nodes@.len(),
                self.paths@[cur as int] == key@.take(i as int),
            decreases key@.len() - i,
        {
            let ch = key[i];
            let found = find_child(&self.nodes[cur].children, ch);
            match found {
                Ok(t) => {
                    let child = self.nodes[cur].children[t].1;
                    assert(key@.take(i + 1) =~= key@.take(i as int).push(ch));
                    cur = child;
                },
                Err(p) => {
                    let ghost old_d = *self;
                    let idx = self.nodes.len();
                    self.nodes.push(Node { children: Vec::new(), value: None, cands: Vec::new() });
                    self.paths = Ghost(self.paths@.push(self.paths@[cur as int].push(ch)));
                    self.nodes[cur].children.insert(p, (ch, idx));
                    proof {
                        Dict::lemma_add_child(old_d, *self, cur as int, p as int, ch);
                    }
                    assert(key@.take(i + 1) =~= key@.take(i as int).push(ch));
                    cur = idx;
                },
            }
            i += 1;
        }
        assert(key@.take(key@.len() as int) =~= key@);
        let ghost old_d = *self;
        self.nodes[cur].value = Some(value);
        self.nodes[cur].cands = values;
        self.entries = Ghost(self.entries@.insert(key@, value@));
        self.alts = Ghost(self.alts@.insert(key@, strings_view(self.nodes@[cur as int].cands@)));
        proof {
            let n = self.nodes@.len() as int;
            assert forall|k: int| 0 <= k < n && k != cur implies #[trigger] self.nodes@[k] == old_d.nodes@[k] by {}
            assert forall|q: Seq<char>| old_d.has_node(q) implies self.has_node(q) by {
                let k = choose|k: int| 0 <= k < n && old_d.paths@[k] == q;
                assert(self.paths@[k] == q);
            }
            assert forall|i: int, t: int|
                0 <= i < n && 0 <= t < self.nodes@[i].children@.len() implies {
                &&& ((#[trigger] self.nodes@[i].children@[t]).1 as int) < n
                &&& self.paths@[self.nodes@[i].children@[t].1 as int] == self.paths@[i].push(
                    self.nodes@[i].children@[t].0,
                )
            } by {
                assert(self.nodes@[i].children@ == old_d.nodes@[i].children@);
            }
            assert forall|i: int| 0 <= i < n implies sorted_children(#[trigger] self.nodes@[i].children@) by {
                assert(self.nodes@[i].children@ == old_d.nodes@[i].children@);
            }
            assert forall|j: int, l: int|
                0 <= j < n && 0 <= l <= self.paths@[j].len() implies self.has_node(
                #[trigger] self.paths@[j].take(l),
            ) by {
                assert(old_d.has_node(old_d.paths@[j].take(l)));
            }
            assert forall|i: int, c: char|
                0 <= i < n && self.has_node(#[trigger] self.paths@[i].push(c)) implies exists|t: int|
                0 <= t < self.nodes@[i].children@.len() && (#[trigger] self.nodes@[i].children@[t]).0
                    == c by {
                assert(old_d.has_node(old_d.paths@[i].push(c)));
                assert(self.nodes@[i].children@ == old_d.nodes@[i].children@);
            }
            assert forall|i: int| 0 <= i < n implies match #[trigger] self.nodes@[i].value {
                Some(v) => self.entries@.contains_key(self.paths@[i]) && self.entries@[self.paths@[i]]
                    == v@,
                None => !self.entries@.contains_key(self.paths@[i]),
            } by {
                if i != cur {
                    assert(old_d.paths@[i] != old_d.paths@[cur as int]);
                    assert(self.nodes@[i] == old_d.nodes@[i]);
                }
            }
            assert forall|k: Seq<char>| #[trigger] self.entries@.contains_key(k) implies self.has_node(k) by {
                if k != key@ {
                    assert(old_d.entries@.contains_key(k));
                }
            }
            assert forall|i: int|
                0 <= i < n && (#[trigger] self.nodes@[i].value) is Some implies {
                &&& self.alts@[self.paths@[i]] == strings_view(self.nodes@[i].cands@)
                &&& self.nodes@[i].cands@.len() > 0
                &&& self.nodes@[i].cands@[0]@ == (self.nodes@[i].value->Some_0)@
            } by {
                if i != cur {
                    assert(old_d.paths@[i] != old_d.paths@[cur as int]);
                    assert(self.nodes@[i] == old_d.nodes@[i]);
                }
            }
        }
    }

    /// Longest key that prefixes `text[start..]`, counted in chars, with its
    /// default value.
    fn lookup_from<'a>(&'a self, text: &Vec<char>, start: usize) -> (r: Option<(usize, &'a str)>)
        requires
            self.wf(),
            start <= text@.len(),
        ensures
            match dict_lookup(self@, text@.skip(start as int)) {
                Some((n, v)) => r matches Some((k, s)) && k == n && s@ == v,
                None => r is None,
            },
    {
        let ghost s = text@.skip(start as int);
        let mut node: usize = 0;
        let mut best: Option<(usize, &'a str)> = None;
        let mut i = start;
        let mut stop = false;
        assert(s.take(0) =~= Seq::<char>::empty());
        while i < text.len() && !stop
            invariant
                self.wf(),
                start <= i <= text@.len(),
                s == text@.skip(start as int),
                node < self.nodes@.len(),
                self.paths@[node as int] == s.take(i - start),
                match best {
                    Some((n, v)) => {
                        &&& 1 <= n <= i - start
                        &&& self@.contains_key(s.take(n as int))
                        &&& v@ == self@[s.take(n as int)]
                        &&& forall|k: int| n < k <= i - start ==> !self@.contains_key(#[trigger] s.take(k))
                    },
                    None => forall|k: int| 1 <= k <= i - start ==> !self@.contains_key(#[trigger] s.take(k)),
                },
                stop ==> forall|k: int| i - start < k <= s.len() ==> !self@.contains_key(#[trigger] s.take(k)),
            decreases text@.len() - i + (if stop { 0int } else { 1int }),
        {
            let ch = text[i];
            let found = find_child(&self.nodes[node].children, ch);
            match found {
                Ok(t) => {
                    let child = self.nodes[node].children[t].1;
                    assert(s.take(i + 1 - start) =~= s.take(i - start).push(ch));
                    assert(self.paths@[child as int] == s.take(i + 1 - start));
                    match &self.nodes[child].value {
                        Some(v) => {
                            best = Some((i + 1 - start, v.as_str()));
                        },
                        None => {},
                    }
                    node = child;
                    i += 1;
                },
                Err(_) => {
                    proof {
                        assert forall|k: int| i - start < k <= s.len() implies !self@.contains_key(
                            #[trigger] s.take(k),
                        ) by {
                            if self@.contains_key(s.take(k)) {
                                assert(self.has_node(s.take(k)));
                                let w = choose|w: int|
                                    0 <= w < self.nodes@.len() && self.paths@[w] == s.take(k);
                                assert(self.has_node(self.paths@[w].take(i + 1 - start)));
                                assert(self.paths@[w].take(i + 1 - start) =~= self.paths@[node as int].push(ch));
                                let t = choose|t: int|
                                    0 <= t < self.nodes@[node as int].children@.len()
                                        && (#[trigger] self.nodes@[node as int].children@[t]).0 == ch;
                            }
                        }
                    }
                    stop = true;
                },
            }
        }
        proof {
            let n: int = match best {
                Some((k, _)) => k as int,
                None => 0,
            };
            if !stop {
                assert(i == text@.len());
            }
            lemma_longest_key_len_unique(self@, s, n);
        }
        best
    }

    /// Longest key that prefixes `text[start..]`, counted in chars, with all
    /// its values.
    fn lookup_cands_from<'a>(&'a self, text: &Vec<char>, start: usize) -> (r: Option<(usize, &'a Vec<String>)>)
        requires
            self.wf(),
            start <= text@.len(),
        ensures
            match dict_cands(self@, self.cands(), text@.skip(start as int)) {
                Some((n, v)) => r matches Some((k, s)) && k == n && strings_view(s@) == v,
                None => r is None,
            },
    {
        let ghost s = text@.skip(start as int);
        let mut node: usize = 0;
        let mut best: Option<(usize, &'a Vec<String>)> = None;
        let mut i = start;
        let mut stop = false;
        assert(s.take(0) =~= Seq::<char>::empty());
        while i < text.len() && !stop
            invariant
                self.wf(),
                start <= i <= text@.len(),
                s == text@.skip(start as int),
                node < self.nodes@.len(),
                self.paths@[node as int] == s.take(i - start),
                match best {
                    Some((n, v)) => {
                        &&& 1 <= n <= i - start
                        &&& self@.contains_key(s.take(n as int))
                        &&& strings_view(v@) == self.cands()[s.take(n as int)]
                        &&& forall|k: int| n < k <= i - start ==> !self@.contains_key(#[trigger] s.take(k))
                    },
                    None => forall|k: int| 1 <= k <= i - start ==> !self@.contains_key(#[trigger] s.take(k)),
                },
                stop ==> forall|k: int| i - start < k <= s.len() ==> !self@.contains_key(#[trigger] s.take(k)),
            decreases text@.len() - i + (if stop { 0int } else { 1int }),
        {
            let ch = text[i];
            let found = find_child(&self.nodes[node].children, ch);
            match found {
                Ok(t) => {
                    let child = self.nodes[node].children[t].1;
                    assert(s.take(i + 1 - start) =~= s.take(i - start).push(ch));
                    assert(self.paths@[child as int] == s.take(i + 1 - start));
                    match &self.nodes[child].value {
                        Some(_) => {
                            best = Some((i + 1 - start, &self.nodes[child].cands));
                        },
                        None => {},
                    }
                    node = child;
                    i += 1;
                },
                Err(_) => {
                    proof {
                        assert forall|k: int| i - start < k <= s.len() implies !self@.contains_key(
                            #[trigger] s.take(k),
                        ) by {
                            if self@.contains_key(s.take(k)) {
                                assert(self.has_node(s.take(k)));
                                let w = choose|w: int|
                                    0 <= w < self.nodes@.len() && self.paths@[w] == s.take(k);
                                assert(self.has_node(self.paths@[w].take(i + 1 - start)));
                                assert(self.paths@[w].take(i + 1 - start) =~= self.paths@[node as int].push(ch));
                                let t = choose|t: int|
                                    0 <= t < self.nodes@[node as int].children@.len()
                                        && (#[trigger] self.nodes@[node as int].children@[t]).0 == ch;
                            }
                        }
                    }
                    stop = true;
                },
            }
        }
        proof {
            let n: int = match best {
                Some((k, _)) => k as int,
                None => 0,
            };
            if !stop {
                assert(i == text@.len());
            }
            lemma_longest_key_len_unique(self@, s, n);
        }
        best
    }

    /// Build a dictionary from raw OpenCC `.txt` dictionary text: each
    /// `key<TAB>value ...` line maps the key to its values (the first the
    /// default), later lines overriding earlier ones.
    pub fn from_text(raw: &str) -> (d: Dict)
        ensures
            d.wf(),
            d@ == map_of(text_entries(raw@)),
            d.cands() == cands_map(marisa_entries(raw@)),
    {
        let es = marisa_text_entries(raw);
        let ghost me = marisa_view(es@);
        let ghost te = text_entries(raw@);
        proof {
            crate::dict_marisa::lemma_entries_correspond(raw@);
            lemma_marisa_values_nonempty(raw@);
        }
        let mut d = Dict::empty();
        let mut i: usize = 0;
        while i < es.len()
            invariant
                d.wf(),
                i <= es@.len(),
                me == marisa_view(es@),
                me == marisa_entries(raw@),
                te == text_entries(raw@),
                te.len() == me.len(),
                forall|j: int| 0 <= j < te.len() ==> (#[trigger] te[j]).0 == me[j].0 && te[j].1 == me[j].1[0],
                forall|j: int| 0 <= j < me.len() ==> (#[trigger] me[j]).1.len() > 0,
                d@ == map_of(te.take(i as int)),
                d.cands() == cands_map(me.take(i as int)),
            decreases es@.len() - i,
        {
            let key = str_chars(es[i].0.as_str());
            let values = copy_strings(&es[i].1);
            assert(me[i as int] == (es@[i as int].0@, strings_view(es@[i as int].1@)));
            assert(te[i as int].1 == strings_view(values@)[0]);
            d.insert(&key, values);
            assert(te.take(i + 1).drop_last() =~= te.take(i as int));
            assert(me.take(i + 1).drop_last() =~= me.take(i as int));
            i += 1;
        }
        assert(te.take(es@.len() as int) =~= te);
        assert(me.take(es@.len() as int) =~= me);
        d
    }

    /// `from_text` on a text given as characters.
    pub fn from_chars(v: &Vec<char>) -> (d: Dict)
        ensures
            d.wf(),
            d@ == map_of(text_entries(v@)),
            d.cands() == cands_map(marisa_entries(v@)),
    {
        let s = string_of_chars(v);
        Dict::from_text(s.as_str())
    }

    /// Build a dictionary from explicit `(key, value)` entries (e.g. user
    /// custom words); later entries win on duplicate keys, and each key has
    /// its one value as its only candidate.
    pub fn from_entries(entries: &[(String, String)]) -> (d: Dict)
        ensures
            d.wf(),
            d@ == map_of(pairs_view(entries@)),
            d.cands() == cands_map(singletons(pairs_view(entries@))),
    {
        let ghost es = pairs_view(entries@);
        let ghost ss = singletons(es);
        let mut d = Dict::empty();
        let mut i: usize = 0;
        while i < entries.len()
            invariant
                d.wf(),
                i <= entries@.len(),
                es == pairs_view(entries@),
                ss == singletons(es),
                d@ == map_of(es.take(i as int)),
                d.cands() == cands_map(ss.take(i as int)),
            decreases entries@.len() - i,
        {
            let key = str_chars(entries[i].0.as_str());
            let value = entries[i].1.clone();
            let values = vec![value];
            assert(strings_view(values@) =~= seq![entries@[i as int].1@]);
            d.insert(&key, values);
            assert(es.take(i + 1).drop_last() =~= es.take(i as int));
            assert(ss.take(i + 1).drop_last() =~= ss.take(i as int));
            i += 1;
        }
        assert(es.take(entries@.len() as int) =~= es);
        assert(ss.take(entries@.len() as int) =~= ss);
        d
    }

    /// Longest key that is a prefix of `text`. Returns the matched byte
    /// length and the default value, or `None` if no key prefixes `text`.
    pub fn longest_prefix(&self, text: &str) -> (r: Option<(usize, &str)>)
        requires
            self.wf(),
            utf8_len(text@) <= usize::MAX,
        ensures
            match dict_lookup(self@, text@) {
                Some((n, v)) => r matches Some((b, s)) && b == utf8_len(text@.take(n as int)) && s@
                    == v,
                None => r is None,
            },
    {
        let chars = str_chars(text);
        assert(chars@.skip(0) =~= chars@);
        proof {
            lemma_longest_key_len(self@, text@);
        }
        match self.lookup_from(&chars, 0) {
            Some((n, v)) => {
                let b = byte_len_of_prefix(&chars, n);
                Some((b, v))
            },
            None => None,
        }
    }
}

/// UTF-8 byte length of `v[..n]`.
pub fn byte_len_of_prefix(v: &Vec<char>, n: usize) -> (b: usize)
    requires
        n <= v@.len(),
        utf8_len(v@) <= usize::MAX,
    ensures
        b == utf8_len(v@.take(n as int)),
{
    let mut b: usize = 0;
    let mut i: usize = 0;
    assert(v@.take(0) =~= Seq::<char>::empty());
    while i < n
        invariant
            i <= n <= v@.len(),
            utf8_len(v@) <= usize::MAX,
            b == utf8_len(v@.take(i as int)),
        decreases n - i,
    {
        let w = utf8_width(v[i]);
        proof {
            assert(v@.take(i + 1) =~= v@.take(i as int).push(v@[i as int]));
            lemma_utf8_len_push(v@.take(i as int), v@[i as int]);
            lemma_utf8_len_take(v@, i + 1);
        }
        b = b + w;
        i += 1;
    }
    b
}

/// Group longest-prefix: the first (highest-priority) dictionary that has
/// any prefix of `text` wins, returning that dictionary's longest match.
/// Lower-priority longer matches never override a higher-priority shorter
/// match.
pub fn group_longest_prefix<'a>(group: &'a [Dict], text: &str) -> (r: Option<(usize, &'a str)>)
    requires
        forall|i: int| 0 <= i < group@.len() ==> (#[trigger] group@[i]).wf(),
        utf8_len(text@) <= usize::MAX,
    ensures
        match group_lookup(group_view(group@), text@) {
            Some((n, v)) => r matches Some((b, s)) && b == utf8_len(text@.take(n as int)) && s@ == v,
            None => r is None,
        },
{
    let chars = str_chars(text);
    assert(chars@.skip(0) =~= chars@);
    proof {
        lemma_group_lookup_bound(group_view(group@), text@);
    }
    match group_lookup_from(group, &chars, 0) {
        Some((n, v)) => {
            let b = byte_len_of_prefix(&chars, n);
            Some((b, v))
        },
        None => None,
    }
}

/// The answer of one dictionary, with value map `m` and candidate map `c`,
/// to a longest-prefix query on `text`: the matched length in chars and all
/// values of the matched key.
pub open spec fn dict_cands(m: Map<Seq<char>, Seq<char>>, c: Map<Seq<char>, Seq<Seq<char>>>, text: Seq<char>) -> Option<(nat, Seq<Seq<char>>)> {
    let n = longest_key_len(m, text);
    if n > 0 {
        Some((n, c[text.take(n as int)]))
    } else {
        None
    }
}

/// The candidates a priority-ordered group answers with: those of the first
/// dictionary that has any key prefixing `text`, for its longest match.
pub open spec fn group_cands(g: Seq<Map<Seq<char>, Seq<char>>>, gc: Seq<Map<Seq<char>, Seq<Seq<char>>>>, text: Seq<char>) -> Option<(nat, Seq<Seq<char>>)>
    decreases g.len(),
{
    if g.len() == 0 || gc.len() == 0 {
        None
    } else {
        match dict_cands(g[0], gc[0], text) {
            Some(r) => Some(r),
            None => group_cands(g.drop_first(), gc.drop_first(), text),
        }
    }
}

/// The candidate maps of a group of dictionaries, in priority order.
pub open spec fn group_cands_view(group: Seq<Dict>) -> Seq<Map<Seq<char>, Seq<Seq<char>>>> {
    group.map_values(|d: Dict| d.cands())
}

/// Group longest-prefix on `text[start..]` with all values of the match.
pub fn group_cands_from<'a>(group: &'a [Dict], text: &Vec<char>, start: usize) -> (r: Option<(usize, &'a Vec<String>)>)
    requires
        forall|i: int| 0 <= i < group@.len() ==> (#[trigger] group@[i]).wf(),
        start <= text@.len(),
    ensures
        match group_cands(group_view(group@), group_cands_view(group@), text@.skip(start as int)) {
            Some((n, v)) => r matches Some((k, s)) && k == n && strings_view(s@) == v,
            None => r is None,
        },
{
    let ghost s = text@.skip(start as int);
    let mut i: usize = 0;
    assert(group_view(group@).skip(0) =~= group_view(group@));
    assert(group_cands_view(group@).skip(0) =~= group_cands_view(group@));
    while i < group.len()
        invariant
            i <= group@.len(),
            start <= text@.len(),
            s == text@.skip(start as int),
            forall|j: int| 0 <= j < group@.len() ==> (#[trigger] group@[j]).wf(),
            group_cands(group_view(group@), group_cands_view(group@), s) == group_cands(
                group_view(group@).skip(i as int),
                group_cands_view(group@).skip(i as int),
                s,
            ),
        decreases group@.len() - i,
    {
        let ghost gv = group_view(group@).skip(i as int);
        let ghost gc = group_cands_view(group@).skip(i as int);
        assert(gv[0] == group@[i as int]@);
        assert(gc[0] == group@[i as int].cands());
        assert(gv.drop_first() =~= group_view(group@).skip(i + 1));
        assert(gc.drop_first() =~= group_cands_view(group@).skip(i + 1));
        match group[i].lookup_cands_from(text, start) {
            Some(m) => {
                return Some(m);
            },
            None => {},
        }
        i += 1;
    }
    assert(group_view(group@).skip(group@.len() as int).len() == 0);
    None
}

/// Every key of `d` has exactly one value.
pub open spec fn single_valued(d: Dict) -> bool {
    forall|k: Seq<char>| #[trigger] d.cands().contains_key(k) ==> d.cands()[k].len() == 1
}

/// The candidates agree with the group's answer: the same matched length,
/// a non-empty list whose first value is the answer's value, and a single
/// value where every dictionary has one value per key.
pub proof fn lemma_group_cands(group: Seq<Dict>, text: Seq<char>)
    requires
        forall|i: int| 0 <= i < group.len() ==> (#[trigger] group[i]).wf(),
    ensures
        match group_lookup(group_view(group), text) {
            Some((n, v)) => group_cands(group_view(group), group_cands_view(group), text) matches Some((k, c)) && k
                == n && c.len() > 0 && c[0] == v,
            None => group_cands(group_view(group), group_cands_view(group), text) is None,
        },
        (forall|i: int| 0 <= i < group.len() ==> single_valued(#[trigger] group[i])) ==> (group_cands(
            group_view(group),
            group_cands_view(group),
            text,
        ) matches Some((_, c)) ==> c.len() == 1),
    decreases group.len(),
{
    if group.len() > 0 {
        let d = group[0];
        d.lemma_cands();
        lemma_longest_key_len(d@, text);
        assert(group_view(group).drop_first() =~= group_view(group.drop_first()));
        assert(group_cands_view(group).drop_first() =~= group_cands_view(group.drop_first()));
        assert(group_view(group)[0] == d@);
        assert(group_cands_view(group)[0] == d.cands());
        assert(group_cands_view(group).len() > 0);
        let n = longest_key_len(d@, text);
        if n > 0 {
            assert(d@.contains_key(text.take(n as int)));
            assert(d.cands().contains_key(text.take(n as int)));
        }
        assert forall|i: int| 0 <= i < group.drop_first().len() implies (#[trigger] group.drop_first()[i]).wf() by {
            assert(group.drop_first()[i] == group[i + 1]);
        }
        if forall|i: int| 0 <= i < group.len() ==> single_valued(#[trigger] group[i]) {
            assert(single_valued(group[0]));
            assert forall|i: int| 0 <= i < group.drop_first().len() implies single_valued(
                #[trigger] group.drop_first()[i],
            ) by {
                assert(group.drop_first()[i] == group[i + 1]);
            }
        }
        lemma_group_cands(group.drop_first(), text);
    }
}

/// The maps of a group of dictionaries, in priority order.
pub open spec fn group_view(group: Seq<Dict>) -> Seq<Map<Seq<char>, Seq<char>>> {
    group.map_values(|d: Dict| d@)
}

/// Group longest-prefix on `text[start..]`, counting in chars.
pub fn group_lookup_from<'a>(group: &'a [Dict], text: &Vec<char>, start: usize) -> (r: Option<(usize, &'a str)>)
    requires
        forall|i: int| 0 <= i < group@.len() ==> (#[trigger] group@[i]).wf(),
        start <= text@.len(),
    ensures
        match group_lookup(group_view(group@), text@.skip(start as int)) {
            Some((n, v)) => r matches Some((k, s)) && k == n && s@ == v,
            None => r is None,
        },
{
    let ghost s = text@.skip(start as int);
    let mut i: usize = 0;
    assert(group_view(group@).skip(0) =~= group_view(group@));
    while i < group.len()
        invariant
            i <= group@.len(),
            start <= text@.len(),
            s == text@.skip(start as int),
            forall|j: int| 0 <= j < group@.len() ==> (#[trigger] group@[j]).wf(),
            group_lookup(group_view(group@), s) == group_lookup(group_view(group@).skip(i as int), s),
        decreases group@.len() - i,
    {
        let ghost gv = group_view(group@).skip(i as int);
        assert(gv[0] == group@[i as int]@);
        assert(gv.drop_first() =~= group_view(group@).skip(i + 1));
        match group[i].lookup_from(text, start) {
            Some(m) => {
                return Some(m);
            },
            None => {},
        }
        i += 1;
    }
    assert(group_view(group@).skip(group@.len() as int).len() == 0);
    None
}

} // verus!
