//! A dictionary backed by a `rsmarisa::Trie` (a marisa-trie).
//!
//! The trie stores the keys only, as UTF-8 bytes; marisa gives each key an
//! id. The candidate values are kept beside it, indexed by that id. A line
//! of the dictionary text is `key<TAB>value [value...]`, as for `Dict`, but
//! every value is kept (the first is the default; the others are the
//! candidates for n-gram disambiguation).

use rsmarisa::{Agent, Keyset, Trie};
use vstd::prelude::*;
use vstd::utf8::encode_utf8;
use crate::lines::{find_char, first_line_entries, scan_char, text_entries, trim_cr, trim_cr_end, words, words_in};
use crate::text::{push_str_to, str_chars, string_from_chars, strings_view};

verus! {

// ---------------------------------------------------------------------------
// rsmarisa
// ---------------------------------------------------------------------------

#[verifier::external_type_specification]
#[verifier::external_body]
pub struct ExKeyset(Keyset);

#[verifier::external_type_specification]
#[verifier::external_body]
pub struct ExTrie(Trie);

#[verifier::external_type_specification]
#[verifier::external_body]
pub struct ExAgent(Agent);

/// The keys pushed into a keyset, in order, as bytes.
pub uninterp spec fn keyset_keys(k: Keyset) -> Seq<Seq<u8>>;

/// The keys of a trie, each with the id marisa gave it.
pub uninterp spec fn trie_keys(t: Trie) -> Map<Seq<u8>, usize>;

/// Whether the trie has been built.
pub uninterp spec fn trie_built(t: Trie) -> bool;

/// The query an agent holds.
pub uninterp spec fn agent_query(a: Agent) -> Seq<u8>;

/// The key an agent last reported.
pub uninterp spec fn agent_key(a: Agent) -> Seq<u8>;

/// The id of the key an agent last reported.
pub uninterp spec fn agent_key_id(a: Agent) -> usize;

/// How far a common-prefix search has looked along the query: the length
/// of the last prefix it reported, or the query's length once it has
/// reported all; -1 before it starts.
pub uninterp spec fn agent_searched(a: Agent) -> int;

/// `Keyset::new`: an empty keyset.
#[verifier::external_body]
fn keyset_new() -> (k: Keyset)
    ensures
        keyset_keys(k) == Seq::<Seq<u8>>::empty(),
{
    Keyset::new()
}

/// `Keyset::push_back_str`: appends the UTF-8 bytes of `key` (with weight
/// 1.0), a copy that the keyset owns. A key of more than `u32::MAX` bytes is
/// refused (an `Err`), the keyset left as it was.
#[verifier::external_body]
fn keyset_push(k: &mut Keyset, key: &str) -> (ok: bool)
    ensures
        ok == (encode_utf8(key@).len() <= u32::MAX),
        ok ==> keyset_keys(*final(k)) == keyset_keys(*old(k)).push(encode_utf8(key@)),
        !ok ==> keyset_keys(*final(k)) == keyset_keys(*old(k)),
{
    k.push_back_str(key).is_ok()
}

/// `Trie::new`: a trie not yet built.
#[verifier::external_body]
fn trie_new() -> (t: Trie)
    ensures
        !trie_built(t),
{
    Trie::new()
}

/// `Trie::build`: builds the trie of the keyset's keys. Its keys are the
/// distinct keys pushed; distinct keys get distinct ids, each below the
/// number of keys pushed. What the build leaves in the keyset is not stated.
/// Flags outside marisa's configuration mask make the build panic, so only
/// the default configuration (`0`) is admitted.
#[verifier::external_body]
fn trie_build(t: &mut Trie, k: &mut Keyset, flags: i32)
    requires
        flags == 0,
    ensures
        trie_built(*final(t)),
        trie_keys(*final(t)).dom() == keyset_keys(*old(k)).to_set(),
        forall|a: Seq<u8>, b: Seq<u8>|
            #![trigger trie_keys(*final(t))[a], trie_keys(*final(t))[b]]
            trie_keys(*final(t)).contains_key(a) && trie_keys(*final(t)).contains_key(b) && a != b
                ==> trie_keys(*final(t))[a] != trie_keys(*final(t))[b],
        forall|a: Seq<u8>|
            #[trigger] trie_keys(*final(t)).contains_key(a) ==> trie_keys(*final(t))[a] < keyset_keys(*old(k)).len(),
{
    t.build(k, flags);
}

/// `Trie::num_keys`: the number of keys.
#[verifier::external_body]
fn trie_num_keys(t: &Trie) -> (n: usize)
    requires
        trie_built(*t),
    ensures
        n == trie_keys(*t).dom().len(),
{
    t.num_keys()
}

/// The number of nodes of a trie.
pub uninterp spec fn trie_node_count(t: Trie) -> usize;

/// The size in bytes of a trie's serialized form.
pub uninterp spec fn trie_io_bytes(t: Trie) -> usize;

/// `Trie::num_nodes`: the number of nodes, named by `trie_node_count`.
#[verifier::external_body]
fn trie_num_nodes(t: &Trie) -> (n: usize)
    requires
        trie_built(*t),
    ensures
        n == trie_node_count(*t),
{
    t.num_nodes()
}

/// `Trie::io_size`: the size of the trie's serialized form, in bytes,
/// named by `trie_io_bytes`.
#[verifier::external_body]
fn trie_io_size(t: &Trie) -> (n: usize)
    requires
        trie_built(*t),
    ensures
        n == trie_io_bytes(*t),
{
    t.io_size()
}

/// `Agent::new`: an agent with an empty query, before any search.
#[verifier::external_body]
fn agent_new() -> (a: Agent)
    ensures
        agent_query(a) == Seq::<u8>::empty(),
        agent_searched(a) == -1,
{
    Agent::new()
}

/// `Agent::set_query_bytes` with the UTF-8 bytes of `text`: the query is
/// set and any search starts over. The agent refers to those bytes without
/// owning them, so `text` must stay alive while the agent searches.
#[verifier::external_body]
fn agent_set_query(a: &mut Agent, text: &str)
    ensures
        agent_query(*final(a)) == encode_utf8(text@),
        agent_searched(*final(a)) == -1,
{
    a.set_query_bytes(text.as_bytes());
}

/// `Key::id` of the agent's key.
#[verifier::external_body]
fn agent_key_id_of(a: &Agent) -> (id: usize)
    ensures
        id == agent_key_id(*a),
{
    a.key().id()
}

/// `Key::length` of the agent's key.
#[verifier::external_body]
fn agent_key_len(a: &Agent) -> (n: usize)
    ensures
        n == agent_key(*a).len(),
{
    a.key().length()
}

/// `Trie::lookup`: whether the query is a key of the trie; if it is, the
/// agent reports it with its id.
#[verifier::external_body]
fn trie_lookup(t: &Trie, a: &mut Agent) -> (found: bool)
    requires
        trie_built(*t),
    ensures
        agent_query(*final(a)) == agent_query(*old(a)),
        found == trie_keys(*t).contains_key(agent_query(*old(a))),
        found ==> agent_key(*final(a)) == agent_query(*old(a)),
        found ==> agent_key_id(*final(a)) == trie_keys(*t)[agent_query(*old(a))],
{
    t.lookup(a)
}

/// `Trie::common_prefix_search`: reports the next key, by increasing
/// length, that is a prefix of the query, past the prefixes already looked
/// at; `false` when there is none left.
#[verifier::external_body]
fn trie_common_prefix(t: &Trie, a: &mut Agent) -> (found: bool)
    requires
        trie_built(*t),
        -1 <= agent_searched(*old(a)) <= agent_query(*old(a)).len(),
    ensures
        agent_query(*final(a)) == agent_query(*old(a)),
        found ==> agent_searched(*old(a)) < agent_key(*final(a)).len() <= agent_query(*old(a)).len(),
        found ==> agent_key(*final(a)) == agent_query(*old(a)).take(agent_key(*final(a)).len() as int),
        found ==> trie_keys(*t).contains_key(agent_key(*final(a))),
        found ==> agent_key_id(*final(a)) == trie_keys(*t)[agent_key(*final(a))],
        found ==> agent_searched(*final(a)) == agent_key(*final(a)).len(),
        found ==> forall|n: int|
            agent_searched(*old(a)) < n < agent_key(*final(a)).len() ==> !trie_keys(*t).contains_key(
                #[trigger] agent_query(*old(a)).take(n),
            ),
        !found ==> agent_searched(*final(a)) == agent_query(*old(a)).len(),
        !found ==> forall|n: int|
            agent_searched(*old(a)) < n <= agent_query(*old(a)).len() ==> !trie_keys(*t).contains_key(
                #[trigger] agent_query(*old(a)).take(n),
            ),
{
    t.common_prefix_search(a)
}

// ---------------------------------------------------------------------------
// The dictionary text
// ---------------------------------------------------------------------------

/// The `(key, values)` entry that one line gives, if any: the key before
/// the first tab and every whitespace-separated value after it.
pub open spec fn marisa_line(line: Seq<char>) -> Option<(Seq<char>, Seq<Seq<char>>)> {
    let l = trim_cr(line);
    if l.len() == 0 || l[0] == '#' {
        None
    } else {
        let t = find_char(l, '\t');
        if t >= l.len() {
            None
        } else {
            let ws = words(l.skip(t + 1int));
            if ws.len() == 0 {
                None
            } else {
                Some((l.take(t as int), ws))
            }
        }
    }
}

/// The entries of a dictionary text, line by line, in order.
pub open spec fn marisa_entries(s: Seq<char>) -> Seq<(Seq<char>, Seq<Seq<char>>)>
    decreases s.len(),
{
    let e = find_char(s, '\n');
    let head = match marisa_line(s.take(e as int)) {
        Some(x) => seq![x],
        None => Seq::empty(),
    };
    if e >= s.len() {
        head
    } else {
        head + marisa_entries(s.skip(e + 1int))
    }
}

/// No two entries have the same key.
pub open spec fn keys_distinct(es: Seq<(Seq<char>, Seq<Seq<char>>)>) -> bool {
    forall|i: int, j: int| 0 <= i < j < es.len() ==> (#[trigger] es[i]).0 != (#[trigger] es[j]).0
}

/// Every key fits marisa's limit of `u32::MAX` bytes.
pub open spec fn keys_fit(es: Seq<(Seq<char>, Seq<Seq<char>>)>) -> bool {
    forall|i: int| 0 <= i < es.len() ==> encode_utf8((#[trigger] es[i]).0).len() <= u32::MAX
}

/// The table of entries: the UTF-8 bytes of each key to its values.
pub open spec fn entry_table(es: Seq<(Seq<char>, Seq<Seq<char>>)>) -> Map<Seq<u8>, Seq<Seq<char>>>
    decreases es.len(),
{
    if es.len() == 0 {
        Map::empty()
    } else {
        entry_table(es.drop_last()).insert(encode_utf8(es.last().0), es.last().1)
    }
}

/// The views of parsed entries.
pub open spec fn marisa_view(es: Seq<(String, Vec<String>)>) -> Seq<(Seq<char>, Seq<Seq<char>>)> {
    es.map_values(|e: (String, Vec<String>)| (e.0@, strings_view(e.1@)))
}

/// The entry of the line `v[from..to]`, if any.
fn marisa_line_at(v: &Vec<char>, from: usize, to: usize) -> (r: Option<(String, Vec<String>)>)
    requires
        from <= to <= v@.len(),
    ensures
        match marisa_line(v@.subrange(from as int, to as int)) {
            Some((k, ws)) => r matches Some(e) && e.0@ == k && strings_view(e.1@) == ws,
            None => r is None,
        },
{
    let end = trim_cr_end(v, from, to);
    let ghost l = v@.subrange(from as int, end as int);
    if end == from || v[from] == '#' {
        return None;
    }
    let tab = scan_char(v, from, end, '\t');
    if tab >= end {
        return None;
    }
    assert(l.skip(tab - from + 1) =~= v@.subrange(tab + 1, end as int));
    assert(l.take(tab - from) =~= v@.subrange(from as int, tab as int));
    let ws = words_in(v, tab + 1, end);
    if ws.len() == 0 {
        return None;
    }
    let key = string_from_chars(v, from, tab);
    Some((key, ws))
}

/// The entries of a dictionary text.
pub fn marisa_text_entries(raw: &str) -> (es: Vec<(String, Vec<String>)>)
    ensures
        marisa_view(es@) == marisa_entries(raw@),
{
    let v = str_chars(raw);
    let mut es: Vec<(String, Vec<String>)> = Vec::new();
    let mut pos: usize = 0;
    let mut finished = false;
    assert(v@.skip(0) =~= v@);
    assert(marisa_view(es@) + marisa_entries(v@) =~= marisa_entries(v@));
    while !finished
        invariant
            pos <= v@.len(),
            v@ == raw@,
            !finished ==> marisa_entries(v@) == marisa_view(es@) + marisa_entries(v@.skip(pos as int)),
            finished ==> marisa_entries(v@) == marisa_view(es@),
        decreases v@.len() - pos + (if finished { 0int } else { 1int }),
    {
        let ghost rest = v@.skip(pos as int);
        let ghost done = marisa_view(es@);
        let end = scan_char(&v, pos, v.len(), '\n');
        assert(v@.subrange(pos as int, v@.len() as int) =~= rest);
        assert(rest.take(find_char(rest, '\n') as int) =~= v@.subrange(pos as int, end as int));
        let ghost head = match marisa_line(v@.subrange(pos as int, end as int)) {
            Some(x) => seq![x],
            None => Seq::<(Seq<char>, Seq<Seq<char>>)>::empty(),
        };
        match marisa_line_at(&v, pos, end) {
            Some(e) => {
                es.push(e);
                assert(marisa_view(es@) =~= done + head);
            },
            None => {
                assert(marisa_view(es@) =~= done + head);
            },
        }
        if end >= v.len() {
            finished = true;
        } else {
            assert(rest.skip(find_char(rest, '\n') + 1int) =~= v@.skip(end + 1));
            assert(marisa_entries(rest) == head + marisa_entries(v@.skip(end + 1)));
            assert(marisa_view(es@) + marisa_entries(v@.skip(end + 1)) =~= done + (head + marisa_entries(
                v@.skip(end + 1),
            )));
            pos = end + 1;
        }
    }
    es
}

// ---------------------------------------------------------------------------
// The dictionary
// ---------------------------------------------------------------------------

/// The UTF-8 bytes of the entries' keys, in order.
pub open spec fn key_bytes(es: Seq<(Seq<char>, Seq<Seq<char>>)>) -> Seq<Seq<u8>> {
    es.map_values(|e: (Seq<char>, Seq<Seq<char>>)| encode_utf8(e.0))
}

/// The length of the longest prefix of `q`, at most `n` bytes long, that
/// is a key of `m`.
pub open spec fn longest_key_upto<V>(m: Map<Seq<u8>, V>, q: Seq<u8>, n: nat) -> Option<nat>
    decreases n,
{
    if m.contains_key(q.take(n as int)) {
        Some(n)
    } else if n == 0 {
        None
    } else {
        longest_key_upto(m, q, (n - 1) as nat)
    }
}

/// The length of the longest prefix of `q` that is a key of `m`.
pub open spec fn longest_key<V>(m: Map<Seq<u8>, V>, q: Seq<u8>) -> Option<nat> {
    longest_key_upto(m, q, q.len())
}

/// The dictionary text of `(key, value)` pairs: one `key<TAB>value` line each.
pub open spec fn entries_text(es: Seq<(Seq<char>, Seq<char>)>) -> Seq<char>
    decreases es.len(),
{
    if es.len() == 0 {
        Seq::empty()
    } else {
        entries_text(es.drop_last()) + es.last().0 + "\t"@ + es.last().1 + "\n"@
    }
}

/// Lengths past `a` up to `b` that are not keys leave the answer as it was at `a`.
proof fn lemma_longest_gap<V>(m: Map<Seq<u8>, V>, q: Seq<u8>, a: int, b: nat)
    requires
        -1 <= a <= b,
        forall|n: int| a < n <= b ==> !m.contains_key(#[trigger] q.take(n)),
    ensures
        a >= 0 ==> longest_key_upto(m, q, b) == longest_key_upto(m, q, a as nat),
        a < 0 ==> longest_key_upto(m, q, b) is None,
    decreases b,
{
    if b as int != a {
        assert(!m.contains_key(q.take(b as int)));
        if b > 0 {
            lemma_longest_gap(m, q, a, (b - 1) as nat);
        }
    }
}

/// Every entry of a dictionary text has at least one value.
proof fn lemma_entries_have_values(s: Seq<char>)
    ensures
        forall|i: int| 0 <= i < marisa_entries(s).len() ==> (#[trigger] marisa_entries(s)[i]).1.len() >= 1,
    decreases s.len(),
{
    let e = find_char(s, '\n');
    if e < s.len() {
        lemma_entries_have_values(s.skip(e + 1int));
    }
    let head = match marisa_line(s.take(e as int)) {
        Some(x) => seq![x],
        None => Seq::<(Seq<char>, Seq<Seq<char>>)>::empty(),
    };
    assert forall|i: int| 0 <= i < marisa_entries(s).len() implies (#[trigger] marisa_entries(s)[i]).1.len() >= 1 by {
        if i < head.len() {
            assert(marisa_entries(s)[i] == head[i]);
        } else {
            assert(marisa_entries(s)[i] == marisa_entries(s.skip(e + 1int))[i - head.len()]);
        }
    }
}

/// The table of entries with distinct keys maps each key's bytes to its values.
proof fn lemma_entry_table(es: Seq<(Seq<char>, Seq<Seq<char>>)>)
    requires
        keys_distinct(es),
    ensures
        forall|k: Seq<u8>| entry_table(es).contains_key(k) <==> key_bytes(es).contains(k),
        forall|j: int| 0 <= j < es.len() ==> entry_table(es)[encode_utf8((#[trigger] es[j]).0)] == es[j].1,
    decreases es.len(),
{
    if es.len() > 0 {
        let d = es.drop_last();
        assert(keys_distinct(d)) by {
            assert forall|i: int, j: int| 0 <= i < j < d.len() implies (#[trigger] d[i]).0 != (#[trigger] d[j]).0 by {
                assert(d[i] == es[i] && d[j] == es[j]);
            }
        }
        lemma_entry_table(d);
        let last = es.last();
        assert forall|k: Seq<u8>| entry_table(es).contains_key(k) <==> key_bytes(es).contains(k) by {
            assert(entry_table(es) == entry_table(d).insert(encode_utf8(last.0), last.1));
            if k == encode_utf8(last.0) {
                assert(key_bytes(es)[es.len() - 1] == k);
            }
            if key_bytes(d).contains(k) {
                let i = choose|i: int| 0 <= i < key_bytes(d).len() && key_bytes(d)[i] == k;
                assert(key_bytes(es)[i] == k);
            }
            if key_bytes(es).contains(k) {
                let i = choose|i: int| 0 <= i < key_bytes(es).len() && key_bytes(es)[i] == k;
                if i < d.len() {
                    assert(key_bytes(d)[i] == k);
                } else {
                    assert(k == encode_utf8(last.0));
                }
            }
        }
        assert forall|j: int| 0 <= j < es.len() implies entry_table(es)[encode_utf8((#[trigger] es[j]).0)] == es[j].1 by {
            if j < es.len() - 1 {
                assert(d[j] == es[j]);
                assert(es[j].0 != last.0);
                vstd::utf8::encode_utf8_decode_utf8(es[j].0);
                vstd::utf8::encode_utf8_decode_utf8(last.0);
            }
        }
    }
}

/// A dictionary backed by a marisa-trie: each key (as UTF-8 bytes) to its
/// values, the default first.
pub struct MarisaDict {
    trie: Trie,
    values: Vec<Option<Vec<String>>>,
}

impl View for MarisaDict {
    type V = Map<Seq<u8>, Seq<Seq<char>>>;

    closed spec fn view(&self) -> Map<Seq<u8>, Seq<Seq<char>>> {
        Map::new(
            |k: Seq<u8>| trie_keys(self.trie).contains_key(k),
            |k: Seq<u8>| strings_view(self.values@[trie_keys(self.trie)[k] as int]->Some_0@),
        )
    }
}

impl MarisaDict {
    #[verifier::type_invariant]
    closed spec fn inv(&self) -> bool {
        &&& trie_built(self.trie)
        &&& forall|k: Seq<u8>|
            #[trigger] trie_keys(self.trie).contains_key(k) ==> {
                &&& trie_keys(self.trie)[k] < self.values@.len()
                &&& self.values@[trie_keys(self.trie)[k] as int] is Some
                &&& self.values@[trie_keys(self.trie)[k] as int]->Some_0@.len() >= 1
            }
    }

    /// Build from a dictionary text. Every line of the form
    /// `key<TAB>value [value...]` gives an entry; the keys must be distinct
    /// (and each at most `u32::MAX` bytes long).
    pub fn from_text(raw: &str) -> (d: MarisaDict)
        requires
            keys_distinct(marisa_entries(raw@)),
            keys_fit(marisa_entries(raw@)),
        ensures
            d@ == entry_table(marisa_entries(raw@)),
    {
        let es = marisa_text_entries(raw);
        let ghost ev = marisa_view(es@);
        let ghost kb = key_bytes(ev);
        proof {
            lemma_entries_have_values(raw@);
            lemma_entry_table(ev);
        }
        let mut ks = keyset_new();
        let mut i: usize = 0;
        while i < es.len()
            invariant
                ev == marisa_view(es@),
                kb == key_bytes(ev),
                keys_fit(ev),
                i <= es@.len(),
                keyset_keys(ks) == kb.take(i as int),
            decreases es@.len() - i,
        {
            assert(ev[i as int].0 == es@[i as int].0@);
            let ok = keyset_push(&mut ks, es[i].0.as_str());
            assert(ok);
            assert(kb.take(i + 1) =~= kb.take(i as int).push(kb[i as int]));
            i += 1;
        }
        assert(kb.take(es@.len() as int) =~= kb);
        let mut trie = trie_new();
        trie_build(&mut trie, &mut ks, 0);
        let mut values: Vec<Option<Vec<String>>> = Vec::new();
        let mut n: usize = 0;
        while n < es.len()
            invariant
                n <= es@.len(),
                values@.len() == n,
            decreases es@.len() - n,
        {
            values.push(None);
            n += 1;
        }
        let mut agent = agent_new();
        let mut j: usize = 0;
        while j < es.len()
            invariant
                ev == marisa_view(es@),
                kb == key_bytes(ev),
                keys_distinct(ev),
                forall|i: int| 0 <= i < ev.len() ==> (#[trigger] ev[i]).1.len() >= 1,
                trie_built(trie),
                trie_keys(trie).dom() == kb.to_set(),
                forall|a: Seq<u8>, b: Seq<u8>|
                    #![trigger trie_keys(trie)[a], trie_keys(trie)[b]]
                    trie_keys(trie).contains_key(a) && trie_keys(trie).contains_key(b) && a != b
                        ==> trie_keys(trie)[a] != trie_keys(trie)[b],
                forall|a: Seq<u8>| #[trigger] trie_keys(trie).contains_key(a) ==> trie_keys(trie)[a] < kb.len(),
                j <= es@.len(),
                values@.len() == es@.len(),
                forall|i: int|
                    0 <= i < j ==> {
                        &&& values@[trie_keys(trie)[#[trigger] kb[i]] as int] is Some
                        &&& strings_view(values@[trie_keys(trie)[kb[i]] as int]->Some_0@) == ev[i].1
                    },
            decreases es@.len() - j,
        {
            assert(ev[j as int].0 == es@[j as int].0@);
            assert(kb[j as int] == encode_utf8(ev[j as int].0));
            agent_set_query(&mut agent, es[j].0.as_str());
            assert(kb.to_set().contains(kb[j as int]));
            let found = trie_lookup(&trie, &mut agent);
            assert(found);
            let id = agent_key_id_of(&agent);
            let ws = es[j].1.clone();
            let ghost old_values = values@;
            values.set(id, Some(ws));
            assert forall|i: int| 0 <= i < j + 1 implies {
                &&& values@[trie_keys(trie)[#[trigger] kb[i]] as int] is Some
                &&& strings_view(values@[trie_keys(trie)[kb[i]] as int]->Some_0@) == ev[i].1
            } by {
                if i < j {
                    assert(ev[i].0 != ev[j as int].0);
                    vstd::utf8::encode_utf8_decode_utf8(ev[i].0);
                    vstd::utf8::encode_utf8_decode_utf8(ev[j as int].0);
                    assert(kb[i] != kb[j as int]);
                    assert(kb.to_set().contains(kb[i]));
                    assert(trie_keys(trie)[kb[i]] != trie_keys(trie)[kb[j as int]]);
                } else {
                    assert(strings_view(ws@) == ev[j as int].1);
                }
            }
            j += 1;
        }
        let d = MarisaDict { trie, values };
        assert(d@ =~= entry_table(ev)) by {
            assert forall|k: Seq<u8>| #[trigger] d@.contains_key(k) == entry_table(ev).contains_key(k) by {
                assert(trie_keys(d.trie).contains_key(k) == kb.to_set().contains(k));
            }
            assert forall|k: Seq<u8>| #[trigger] d@.contains_key(k) implies d@[k] == entry_table(ev)[k] by {
                assert(kb.to_set().contains(k));
                let i = choose|i: int| 0 <= i < kb.len() && kb[i] == k;
                assert(ev[i] == ev[i]);
            }
        }
        d
    }

    /// The byte length and id of the longest key that is a prefix of `text`.
    fn longest_id(&self, text: &str) -> (r: Option<(usize, usize)>)
        ensures
            match longest_key(self@, encode_utf8(text@)) {
                Some(n) => r matches Some((l, id)) && l == n && id == trie_keys(self.trie)[encode_utf8(text@).take(
                    n as int,
                )] && self@.contains_key(encode_utf8(text@).take(n as int)),
                None => r is None,
            },
    {
        proof {
            use_type_invariant(self);
        }
        let ghost q = encode_utf8(text@);
        let ghost m = self@;
        let mut agent = agent_new();
        agent_set_query(&mut agent, text);
        let mut best: Option<(usize, usize)> = None;
        loop
            invariant
                trie_built(self.trie),
                m == self@,
                agent_query(agent) == q,
                -1 <= agent_searched(agent) <= q.len(),
                agent_searched(agent) < 0 ==> best is None,
                agent_searched(agent) >= 0 ==> match longest_key_upto(m, q, agent_searched(agent) as nat) {
                    Some(n) => best matches Some((l, id)) && l == n && id == trie_keys(self.trie)[q.take(n as int)]
                        && m.contains_key(q.take(n as int)),
                    None => best is None,
                },
            ensures
                match longest_key(m, q) {
                    Some(n) => best matches Some((l, id)) && l == n && id == trie_keys(self.trie)[q.take(n as int)]
                        && m.contains_key(q.take(n as int)),
                    None => best is None,
                },
            decreases q.len() - agent_searched(agent),
        {
            let ghost before = agent_searched(agent);
            let found = trie_common_prefix(&self.trie, &mut agent);
            if !found {
                proof {
                    assert forall|n: int| before < n <= q.len() implies !m.contains_key(#[trigger] q.take(n)) by {
                        assert(!trie_keys(self.trie).contains_key(q.take(n)));
                    }
                    lemma_longest_gap(m, q, before, q.len());
                }
                break;
            }
            let id = agent_key_id_of(&agent);
            let n = agent_key_len(&agent);
            proof {
                assert(agent_key(agent) == q.take(n as int));
                assert(m.contains_key(q.take(n as int)));
            }
            best = Some((n, id));
        }
        best
    }

    /// Longest key that is a prefix of `text`: its length in bytes and its
    /// default value; `None` when no key is a prefix of `text`.
    pub fn longest_prefix(&self, text: &str) -> (r: Option<(usize, &str)>)
        ensures
            match longest_key(self@, encode_utf8(text@)) {
                Some(n) => r matches Some((l, v)) && l == n && v@ == self@[encode_utf8(text@).take(n as int)][0],
                None => r is None,
            },
    {
        proof {
            use_type_invariant(self);
        }
        match self.longest_id(text) {
            Some((n, id)) => {
                let ghost k = encode_utf8(text@).take(n as int);
                assert(trie_keys(self.trie).contains_key(k));
                match &self.values[id] {
                    Some(ws) => {
                        assert(strings_view(ws@)[0] == ws@[0]@);
                        Some((n, ws[0].as_str()))
                    },
                    None => {
                        proof {
                            assert(false);
                        }
                        None
                    },
                }
            },
            None => None,
        }
    }

    /// Longest key that is a prefix of `text`: its length in bytes and all
    /// its values, the default first.
    pub fn longest_prefix_multi(&self, text: &str) -> (r: Option<(usize, Vec<&str>)>)
        ensures
            match longest_key(self@, encode_utf8(text@)) {
                Some(n) => r matches Some((l, v)) && l == n && v@.map_values(|s: &str| s@) == self@[encode_utf8(
                    text@,
                ).take(n as int)],
                None => r is None,
            },
    {
        proof {
            use_type_invariant(self);
        }
        match self.longest_id(text) {
            Some((n, id)) => {
                let ghost k = encode_utf8(text@).take(n as int);
                assert(trie_keys(self.trie).contains_key(k));
                match &self.values[id] {
                    Some(ws) => {
                        let mut out: Vec<&str> = Vec::new();
                        let mut i: usize = 0;
                        while i < ws.len()
                            invariant
                                i <= ws@.len(),
                                out@.map_values(|s: &str| s@) == strings_view(ws@).take(i as int),
                            decreases ws@.len() - i,
                        {
                            let ghost before = out@.map_values(|s: &str| s@);
                            out.push(ws[i].as_str());
                            assert(out@.map_values(|s: &str| s@) =~= before.push(ws@[i as int]@));
                            assert(strings_view(ws@).take(i + 1) =~= strings_view(ws@).take(i as int).push(
                                ws@[i as int]@,
                            ));
                            i += 1;
                        }
                        assert(strings_view(ws@).take(ws@.len() as int) =~= strings_view(ws@));
                        Some((n, out))
                    },
                    None => {
                        proof {
                            assert(false);
                        }
                        None
                    },
                }
            },
            None => None,
        }
    }

    /// The number of nodes of the trie.
    pub closed spec fn node_count(&self) -> usize {
        trie_node_count(self.trie)
    }

    /// The size in bytes of the trie's serialized form.
    pub closed spec fn io_bytes(&self) -> usize {
        trie_io_bytes(self.trie)
    }

    /// Statistics: the number of keys, and the trie's node count and
    /// serialized size.
    pub fn stats(&self) -> (r: (usize, usize, usize))
        ensures
            r.0 == self@.dom().len(),
            r.1 == self.node_count(),
            r.2 == self.io_bytes(),
    {
        proof {
            use_type_invariant(self);
            assert(self@.dom() =~= trie_keys(self.trie).dom());
        }
        (trie_num_keys(&self.trie), trie_num_nodes(&self.trie), trie_io_size(&self.trie))
    }

    /// Build from `(key, value)` pairs, written out as one `key<TAB>value`
    /// line each and read as a dictionary text.
    pub fn from_entries(entries: &[(String, String)]) -> (d: MarisaDict)
        requires
            keys_distinct(marisa_entries(entries_text(crate::dict::pairs_view(entries@)))),
            keys_fit(marisa_entries(entries_text(crate::dict::pairs_view(entries@)))),
        ensures
            d@ == entry_table(marisa_entries(entries_text(crate::dict::pairs_view(entries@)))),
    {
        let ghost pv = crate::dict::pairs_view(entries@);
        let mut s = String::new();
        let mut i: usize = 0;
        assert(pv.take(0) =~= Seq::<(Seq<char>, Seq<char>)>::empty());
        while i < entries.len()
            invariant
                pv == crate::dict::pairs_view(entries@),
                i <= entries@.len(),
                s@ == entries_text(pv.take(i as int)),
            decreases entries@.len() - i,
        {
            push_str_to(&mut s, entries[i].0.as_str());
            push_str_to(&mut s, "\t");
            push_str_to(&mut s, entries[i].1.as_str());
            push_str_to(&mut s, "\n");
            assert(pv.take(i + 1).drop_last() =~= pv.take(i as int));
            i += 1;
        }
        assert(pv.take(entries@.len() as int) =~= pv);
        MarisaDict::from_text(s.as_str())
    }
}

// ---------------------------------------------------------------------------
// Agreement with `Dict`
// ---------------------------------------------------------------------------

/// Line by line, the entries `Dict` reads from a text are the marisa entries
/// with only their first value.
pub(crate) proof fn lemma_entries_correspond(s: Seq<char>)
    ensures
        text_entries(s).len() == marisa_entries(s).len(),
        forall|i: int|
            0 <= i < text_entries(s).len() ==> (#[trigger] text_entries(s)[i]).0 == marisa_entries(s)[i].0
                && text_entries(s)[i].1 == marisa_entries(s)[i].1[0],
    decreases s.len(),
{
    let e = find_char(s, '\n');
    let line = s.take(e as int);
    let l = trim_cr(line);
    if !(l.len() == 0 || l[0] == '#') {
        let t = find_char(l, '\t');
        if t < l.len() {
            crate::lines::lemma_first_word_words(l.skip(t + 1int));
        }
    }
    let th = first_line_entries(s);
    let mh = match marisa_line(line) {
        Some(x) => seq![x],
        None => Seq::<(Seq<char>, Seq<Seq<char>>)>::empty(),
    };
    assert(th.len() == mh.len());
    assert(forall|i: int| 0 <= i < th.len() ==> th[i].0 == mh[i].0 && th[i].1 == mh[i].1[0]);
    if e < s.len() {
        let r = s.skip(e + 1int);
        lemma_entries_correspond(r);
        assert forall|i: int| 0 <= i < text_entries(s).len() implies (#[trigger] text_entries(s)[i]).0
            == marisa_entries(s)[i].0 && text_entries(s)[i].1 == marisa_entries(s)[i].1[0] by {
            if i < th.len() {
                assert(text_entries(s)[i] == th[i]);
                assert(marisa_entries(s)[i] == mh[i]);
            } else {
                assert(text_entries(s)[i] == text_entries(r)[i - th.len()]);
                assert(marisa_entries(s)[i] == marisa_entries(r)[i - mh.len()]);
            }
        }
    }
}

/// The character table `Dict` builds and the byte table of the marisa
/// dictionary hold the same keys, with the same default values.
proof fn lemma_tables_correspond(te: Seq<(Seq<char>, Seq<char>)>, me: Seq<(Seq<char>, Seq<Seq<char>>)>)
    requires
        te.len() == me.len(),
        forall|i: int| 0 <= i < te.len() ==> (#[trigger] te[i]).0 == me[i].0 && te[i].1 == me[i].1[0],
    ensures
        forall|k: Seq<char>|
            crate::dict::map_of(te).contains_key(k) <==> #[trigger] entry_table(me).contains_key(encode_utf8(k)),
        forall|k: Seq<char>|
            #[trigger] crate::dict::map_of(te).contains_key(k) ==> entry_table(me)[encode_utf8(k)][0]
                == crate::dict::map_of(te)[k],
        forall|b: Seq<u8>|
            #[trigger] entry_table(me).contains_key(b) ==> exists|k: Seq<char>|
                crate::dict::map_of(te).contains_key(k) && b == #[trigger] encode_utf8(k),
    decreases te.len(),
{
    if te.len() > 0 {
        let td = te.drop_last();
        let md = me.drop_last();
        assert forall|i: int| 0 <= i < td.len() implies (#[trigger] td[i]).0 == md[i].0 && td[i].1 == md[i].1[0] by {
            assert(td[i] == te[i] && md[i] == me[i]);
        }
        lemma_tables_correspond(td, md);
        let kl = te.last().0;
        assert(me.last().0 == kl);
        assert(te.last() == te[te.len() - 1]);
        assert(crate::dict::map_of(te) == crate::dict::map_of(td).insert(kl, te.last().1));
        assert(entry_table(me) == entry_table(md).insert(encode_utf8(kl), me.last().1));
        assert forall|k: Seq<char>|
            crate::dict::map_of(te).contains_key(k) <==> #[trigger] entry_table(me).contains_key(encode_utf8(k)) by {
            if k != kl {
                vstd::utf8::encode_utf8_decode_utf8(k);
                vstd::utf8::encode_utf8_decode_utf8(kl);
                assert(encode_utf8(k) != encode_utf8(kl));
            }
        }
        assert forall|k: Seq<char>| #[trigger] crate::dict::map_of(te).contains_key(k) implies entry_table(
            me,
        )[encode_utf8(k)][0] == crate::dict::map_of(te)[k] by {
            if k != kl {
                vstd::utf8::encode_utf8_decode_utf8(k);
                vstd::utf8::encode_utf8_decode_utf8(kl);
                assert(encode_utf8(k) != encode_utf8(kl));
            }
        }
        assert forall|b: Seq<u8>| #[trigger] entry_table(me).contains_key(b) implies exists|k: Seq<char>|
            crate::dict::map_of(te).contains_key(k) && b == #[trigger] encode_utf8(k) by {
            if b == encode_utf8(kl) {
                assert(crate::dict::map_of(te).contains_key(kl));
            } else {
                assert(entry_table(md).contains_key(b));
                let k = choose|k: Seq<char>| crate::dict::map_of(td).contains_key(k) && b == #[trigger] encode_utf8(k);
                assert(crate::dict::map_of(te).contains_key(k));
            }
        }
    }
}

/// UTF-8 is a prefix code: when the encoding of `k` begins the encoding of
/// `t`, `k` begins `t`.
proof fn lemma_encode_prefix(k: Seq<char>, t: Seq<char>)
    requires
        encode_utf8(k).len() <= encode_utf8(t).len(),
        encode_utf8(t).take(encode_utf8(k).len() as int) == encode_utf8(k),
    ensures
        k.len() <= t.len(),
        t.take(k.len() as int) == k,
    decreases k.len(),
{
    if k.len() == 0 {
        assert(t.take(0) =~= k);
    } else {
        let a = encode_utf8(k);
        let b = encode_utf8(t);
        if t.len() == 0 {
            assert(b.len() == 0);
            assert(false);
        }
        vstd::utf8::encode_utf8_first_scalar(k);
        vstd::utf8::encode_utf8_first_scalar(t);
        let la = encode_scalar_len(k[0]);
        assert(a == vstd::utf8::encode_scalar(k[0] as u32) + encode_utf8(k.drop_first()));
        assert(b == vstd::utf8::encode_scalar(t[0] as u32) + encode_utf8(t.drop_first()));
        assert forall|i: int| 0 <= i < a.len() implies a[i] == b[i] by {
            assert(b.take(a.len() as int)[i] == b[i]);
        }
        assert(a[0] == b[0]);
        assert(vstd::utf8::length_of_first_scalar(a) == vstd::utf8::length_of_first_scalar(b));
        assert(vstd::utf8::decode_first_scalar(a) == vstd::utf8::decode_first_scalar(b));
        vstd::utf8::char_u32_cast(k[0], k[0] as u32);
        vstd::utf8::char_u32_cast(t[0], t[0] as u32);
        assert(k[0] == t[0]);
        let l = la as int;
        assert(encode_utf8(k.drop_first()) =~= a.skip(l));
        assert(encode_utf8(t.drop_first()) =~= b.skip(l));
        assert(encode_utf8(t.drop_first()).take(encode_utf8(k.drop_first()).len() as int) =~= encode_utf8(
            k.drop_first(),
        ));
        lemma_encode_prefix(k.drop_first(), t.drop_first());
        assert(t.take(k.len() as int) =~= seq![t[0]] + t.drop_first().take(k.drop_first().len() as int));
        assert(k =~= seq![k[0]] + k.drop_first());
    }
}

/// Number of bytes of the UTF-8 encoding of `c`.
spec fn encode_scalar_len(c: char) -> nat {
    vstd::utf8::encode_scalar(c as u32).len()
}

/// The encoding of a prefix is the prefix of the encoding of the same byte
/// length, and longer prefixes have longer encodings.
proof fn lemma_prefix_bytes(t: Seq<char>, c: int, d: int)
    requires
        0 <= c < d <= t.len(),
    ensures
        crate::text::utf8_len(t.take(c)) < crate::text::utf8_len(t.take(d)),
        encode_utf8(t).take(crate::text::utf8_len(t.take(c)) as int) == encode_utf8(t.take(c)),
        crate::text::utf8_len(t.take(d)) <= encode_utf8(t).len(),
{
    crate::text::lemma_encode_utf8_concat(t.take(c), t.skip(c));
    assert(t.take(c) + t.skip(c) =~= t);
    crate::text::lemma_encode_utf8_concat(t.take(c), t.subrange(c, d));
    assert(t.take(c) + t.subrange(c, d) =~= t.take(d));
    crate::text::lemma_utf8_len_take(t.subrange(c, d), 0);
    crate::text::lemma_utf8_len_take(t, d);
}

/// Built from the same dictionary text, whose keys are distinct and
/// non-empty, the marisa dictionary answers a longest-prefix query as `Dict`
/// does: the same length in bytes and the same default value.
pub proof fn lemma_agrees_with_dict(raw: Seq<char>, text: Seq<char>)
    requires
        keys_distinct(marisa_entries(raw)),
        forall|i: int| 0 <= i < marisa_entries(raw).len() ==> (#[trigger] marisa_entries(raw)[i]).0.len() > 0,
    ensures
        match crate::dict::dict_lookup(crate::dict::map_of(text_entries(raw)), text) {
            Some((n, v)) => longest_key(entry_table(marisa_entries(raw)), encode_utf8(text)) == Some(
                crate::text::utf8_len(text.take(n as int)),
            ) && entry_table(marisa_entries(raw))[encode_utf8(text).take(
                crate::text::utf8_len(text.take(n as int)) as int,
            )][0] == v,
            None => longest_key(entry_table(marisa_entries(raw)), encode_utf8(text)) is None,
        },
{
    let te = text_entries(raw);
    let me = marisa_entries(raw);
    let m = crate::dict::map_of(te);
    let big = entry_table(me);
    let q = encode_utf8(text);
    lemma_entries_correspond(raw);
    lemma_tables_correspond(te, me);
    lemma_entry_table(me);
    crate::dict::lemma_longest_key_len(m, text);
    let n = crate::dict::longest_key_len(m, text);
    // Every key of the byte table that begins `q` is a non-empty key of `m`
    // that begins `text`.
    assert forall|j: int| 0 <= j <= q.len() && #[trigger] big.contains_key(q.take(j)) implies exists|c: int|
        1 <= c <= text.len() && m.contains_key(text.take(c)) && j == crate::text::utf8_len(text.take(c)) by {
        let k = choose|k: Seq<char>| m.contains_key(k) && q.take(j) == #[trigger] encode_utf8(k);
        assert(key_bytes(me).contains(q.take(j)));
        let i = choose|i: int| 0 <= i < key_bytes(me).len() && key_bytes(me)[i] == q.take(j);
        vstd::utf8::encode_utf8_decode_utf8(k);
        vstd::utf8::encode_utf8_decode_utf8(me[i].0);
        assert(me[i].0 == k);
        lemma_encode_prefix(k, text);
        assert(k.len() > 0);
        assert(text.take(k.len() as int) == k);
    }
    if n > 0 {
        let jn = crate::text::utf8_len(text.take(n as int));
        if n < text.len() {
            lemma_prefix_bytes(text, n as int, text.len() as int);
        } else {
            assert(text.take(n as int) =~= text);
        }
        assert(q.take(jn as int) == encode_utf8(text.take(n as int))) by {
            if n < text.len() {
            } else {
                assert(q.take(jn as int) =~= q);
            }
        }
        assert(big.contains_key(q.take(jn as int)));
        assert forall|j: int| jn < j <= q.len() implies !big.contains_key(#[trigger] q.take(j)) by {
            if big.contains_key(q.take(j)) {
                let c = choose|c: int|
                    1 <= c <= text.len() && m.contains_key(text.take(c)) && j == crate::text::utf8_len(text.take(c));
                if c <= n {
                    if c < n {
                        lemma_prefix_bytes(text, c, n as int);
                    }
                    assert(false);
                } else {
                    assert(!m.contains_key(text.take(c)));
                }
            }
        }
        lemma_longest_gap(big, q, jn as int, q.len());
        assert(big[encode_utf8(text.take(n as int))][0] == m[text.take(n as int)]);
    } else {
        assert forall|j: int| -1 < j <= q.len() implies !big.contains_key(#[trigger] q.take(j)) by {
            if big.contains_key(q.take(j)) {
                let c = choose|c: int|
                    1 <= c <= text.len() && m.contains_key(text.take(c)) && j == crate::text::utf8_len(text.take(c));
                assert(!m.contains_key(text.take(c)));
            }
        }
        lemma_longest_gap(big, q, -1, q.len());
    }
}

} // verus!
