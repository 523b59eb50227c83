//! OpenCC config resolution.
//!
//! A config describes a pipeline:
//!
//! ```text
//! text --[segmentation (FMM)]--> segments --[conversion_chain stage 1]--> ...
//!      ... --[stage N]--> output
//! ```
//!
//! Each stage and the segmentation step use a *dictionary group* — an ordered
//! list of dictionaries where earlier members have higher priority. Custom user
//! words are injected as the highest-priority member of every group so they
//! override the built-in tables.

use vstd::prelude::*;
use crate::dict::{cands_map, group_cands_view, group_view, map_of, pairs_view, singletons, Dict};
use crate::dict_marisa::marisa_entries;
use crate::lines::{first_word, first_word_range, text_entries};
use crate::text::{chars_eq, str_chars, str_eq, string_from_chars, string_of_chars};

verus! {

/// A fully resolved conversion config: an optional segmentation group plus an
/// ordered list of conversion stages (each a dictionary group).
pub struct ResolvedConfig {
    pub segmentation: Option<Vec<Dict>>,
    pub chain: Vec<Vec<Dict>>,
}

/// Every dictionary of a group is well formed.
pub open spec fn group_wf(g: Seq<Dict>) -> bool {
    forall|i: int| 0 <= i < g.len() ==> (#[trigger] g[i]).wf()
}

/// Every dictionary of a resolved config is well formed.
pub open spec fn spec_resolved_wf(c: ResolvedConfig) -> bool {
    &&& (c.segmentation matches Some(g) ==> group_wf(g@))
    &&& forall|i: int| 0 <= i < c.chain@.len() ==> group_wf(#[trigger] c.chain@[i]@)
}

/// The maps of an optional group.
pub open spec fn opt_group_view(o: Option<Vec<Dict>>) -> Option<Seq<Map<Seq<char>, Seq<char>>>> {
    match o {
        Some(g) => Some(group_view(g@)),
        None => None,
    }
}

impl ResolvedConfig {
    /// The segmentation group's maps, if there is a segmentation step.
    pub open spec fn seg_view(&self) -> Option<Seq<Map<Seq<char>, Seq<char>>>> {
        opt_group_view(self.segmentation)
    }

    /// The conversion stages' maps, in order.
    pub open spec fn chain_view(&self) -> Seq<Seq<Map<Seq<char>, Seq<char>>>> {
        self.chain@.map_values(|g: Vec<Dict>| group_view(g@))
    }

    /// The segmentation group's candidate maps, if there is a segmentation
    /// step.
    pub open spec fn seg_cands_view(&self) -> Option<Seq<Map<Seq<char>, Seq<Seq<char>>>>> {
        match self.segmentation {
            Some(g) => Some(group_cands_view(g@)),
            None => None,
        }
    }

    /// The conversion stages' candidate maps, in order.
    pub open spec fn chain_cands_view(&self) -> Seq<Seq<Map<Seq<char>, Seq<Seq<char>>>>> {
        self.chain@.map_values(|g: Vec<Dict>| group_cands_view(g@))
    }
}


/// A JSON value, as a config file holds it. An object keeps its members in
/// order, each key once.
pub enum Json {
    Null,
    Bool(bool),
    /// A number, in its textual form.
    Number(String),
    Str(String),
    Array(Vec<Json>),
    Object(Vec<(String, Json)>),
}

/// Position of the first member named `key`, or `es.len()` when there is none.
pub open spec fn key_index(es: Seq<(String, Json)>, key: Seq<char>) -> nat
    decreases es.len(),
{
    if es.len() == 0 {
        0
    } else if es[0].0@ == key {
        0
    } else {
        1 + key_index(es.drop_first(), key)
    }
}

/// The member `key` of an object (`Value::get` with a string index); `None`
/// for a missing member or a value that is not an object.
pub open spec fn get_field(j: Json, key: Seq<char>) -> Option<Json> {
    match j {
        Json::Object(es) => {
            let i = key_index(es@, key);
            if i < es@.len() {
                Some(es@[i as int].1)
            } else {
                None
            }
        },
        _ => None,
    }
}

pub proof fn lemma_key_index(es: Seq<(String, Json)>, key: Seq<char>, i: int)
    requires
        0 <= i <= es.len(),
        forall|k: int| 0 <= k < i ==> (#[trigger] es[k]).0@ != key,
        i == es.len() || es[i].0@ == key,
    ensures
        key_index(es, key) == i,
    decreases i,
{
    if i > 0 {
        assert forall|k: int| 0 <= k < i - 1 implies (#[trigger] es.drop_first()[k]).0@ != key by {
            assert(es.drop_first()[k] == es[k + 1]);
        }
        lemma_key_index(es.drop_first(), key, i - 1);
    }
}

/// A member of a value is smaller than the value.
pub proof fn lemma_get_field_decreases(j: Json, key: Seq<char>)
    ensures
        get_field(j, key) matches Some(x) ==> decreases_to!(j => x),
{
    match j {
        Json::Object(es) => {
            let i = key_index(es@, key) as int;
            if i < es@.len() {
                assert(decreases_to!(j => es));
                assert(decreases_to!(es => es@));
                assert(decreases_to!(es@ => es@[i]));
                assert(decreases_to!(es@[i] => es@[i].1));
            }
        },
        _ => {},
    }
}

/// The member `key` of `j`.
fn json_get<'a>(j: &'a Json, key: &str) -> (r: Option<&'a Json>)
    ensures
        match get_field(*j, key@) {
            Some(x) => r matches Some(y) && *y == x,
            None => r is None,
        },
{
    match j {
        Json::Object(es) => {
            let mut i: usize = 0;
            while i < es.len()
                invariant
                    *j == Json::Object(*es),
                    i <= es@.len(),
                    forall|k: int| 0 <= k < i ==> (#[trigger] es@[k]).0@ != key@,
                decreases es@.len() - i,
            {
                if str_eq(es[i].0.as_str(), key) {
                    proof {
                        assert(es@[i as int].0@ == key@);
                        lemma_key_index(es@, key@, i as int);
                    }
                    return Some(&es[i].1);
                }
                i += 1;
            }
            proof {
                lemma_key_index(es@, key@, i as int);
            }
            None
        },
        _ => None,
    }
}

/// The dictionary type of a spec: its `type` member when that is a string,
/// `"text"` otherwise.
pub open spec fn dict_type(j: Json) -> Seq<char> {
    match get_field(j, "type"@) {
        Some(Json::Str(s)) => s@,
        _ => "text"@,
    }
}

/// Types of file-based dictionaries.
pub open spec fn is_file_type(t: Seq<char>) -> bool {
    t == "text"@ || t == "ocd"@ || t == "ocd2"@
}

/// `s` with every trailing repetition of `suf` removed (`trim_end_matches`).
pub open spec fn strip_all(s: Seq<char>, suf: Seq<char>) -> Seq<char>
    decreases s.len(),
{
    if suf.len() > 0 && s.len() >= suf.len() && s.skip(s.len() - suf.len()) == suf {
        strip_all(s.take(s.len() - suf.len()), suf)
    } else {
        s
    }
}

/// The dictionary name of a file: the file without its `.ocd2`, `.ocd` and
/// `.txt` suffixes.
pub open spec fn dict_name(file: Seq<char>) -> Seq<char> {
    strip_all(strip_all(strip_all(file, ".ocd2"@), ".ocd"@), ".txt"@)
}

/// The text of the embedded dictionary `name`: the first entry so named.
pub open spec fn text_of(texts: Seq<(String, String)>, name: Seq<char>) -> Option<Seq<char>>
    decreases texts.len(),
{
    if texts.len() == 0 {
        None
    } else if texts[0].0@ == name {
        Some(texts[0].1@)
    } else {
        text_of(texts.drop_first(), name)
    }
}

/// The names of a group's members when every member is a file-based
/// dictionary with a file name; `None` otherwise.
pub open spec fn merge_names(dicts: Seq<Json>) -> Option<Seq<Seq<char>>>
    decreases dicts.len(),
{
    if dicts.len() == 0 {
        Some(Seq::empty())
    } else if !is_file_type(dict_type(dicts[0])) {
        None
    } else {
        match get_field(dicts[0], "file"@) {
            Some(Json::Str(f)) => match merge_names(dicts.drop_first()) {
                Some(ns) => Some(seq![dict_name(f@)] + ns),
                None => None,
            },
            _ => None,
        }
    }
}

/// `acc` followed by the texts of `names` in order, each one followed by a
/// newline when the text so far does not end with one; an error naming the
/// first unknown dictionary.
pub open spec fn merge_texts(names: Seq<Seq<char>>, texts: Seq<(String, String)>, acc: Seq<char>) -> Result<Seq<char>, Seq<char>>
    decreases names.len(),
{
    if names.len() == 0 {
        Ok(acc)
    } else {
        match text_of(texts, names[0]) {
            Some(t) => {
                let a = acc + t;
                let a2 = if a.len() > 0 && a.last() == '\n' {
                    a
                } else {
                    a.push('\n')
                };
                merge_texts(names.drop_first(), texts, a2)
            },
            None => Err("unknown embedded dictionary: "@ + names[0]),
        }
    }
}

/// The entries of the named texts, one text after another (up to the first
/// unknown name).
pub open spec fn entries_of_names(names: Seq<Seq<char>>, texts: Seq<(String, String)>) -> Seq<(Seq<char>, Seq<char>)>
    decreases names.len(),
{
    if names.len() == 0 {
        Seq::empty()
    } else {
        match text_of(texts, names[0]) {
            Some(t) => text_entries(t) + entries_of_names(names.drop_first(), texts),
            None => Seq::empty(),
        }
    }
}

/// The maps of the named texts laid over `acc` in order, each later one
/// overriding the earlier ones.
pub open spec fn overlay_names(acc: Map<Seq<char>, Seq<char>>, names: Seq<Seq<char>>, texts: Seq<(String, String)>) -> Map<Seq<char>, Seq<char>>
    decreases names.len(),
{
    if names.len() == 0 {
        acc
    } else {
        match text_of(texts, names[0]) {
            Some(t) => overlay_names(acc.union_prefer_right(map_of(text_entries(t))), names.drop_first(), texts),
            None => acc,
        }
    }
}

proof fn lemma_merge_texts_entries(names: Seq<Seq<char>>, texts: Seq<(String, String)>, acc: Seq<char>)
    requires
        acc.len() == 0 || acc.last() == '\n',
    ensures
        merge_texts(names, texts, acc) matches Ok(t) ==> text_entries(t) == text_entries(acc) + entries_of_names(
            names,
            texts,
        ),
    decreases names.len(),
{
    crate::lines::lemma_text_entries_empty();
    if names.len() == 0 {
        assert(text_entries(acc) + Seq::<(Seq<char>, Seq<char>)>::empty() =~= text_entries(acc));
    } else {
        match text_of(texts, names[0]) {
            Some(t0) => {
                let a = acc + t0;
                let a2 = if a.len() > 0 && a.last() == '\n' {
                    a
                } else {
                    a.push('\n')
                };
                if !(a.len() > 0 && a.last() == '\n') {
                    crate::lines::lemma_text_entries_push_newline(a);
                }
                if acc.len() > 0 {
                    crate::lines::lemma_text_entries_concat(acc, t0);
                } else {
                    assert(a =~= t0);
                    assert(text_entries(acc) + text_entries(t0) =~= text_entries(t0));
                }
                assert(text_entries(a2) == text_entries(acc) + text_entries(t0));
                lemma_merge_texts_entries(names.drop_first(), texts, a2);
                assert(text_entries(acc) + text_entries(t0) + entries_of_names(names.drop_first(), texts) =~= text_entries(
                    acc,
                ) + (text_entries(t0) + entries_of_names(names.drop_first(), texts)));
            },
            None => {},
        }
    }
}

proof fn lemma_overlay_names(acc: Seq<(Seq<char>, Seq<char>)>, names: Seq<Seq<char>>, texts: Seq<(String, String)>)
    ensures
        map_of(acc + entries_of_names(names, texts)) == overlay_names(map_of(acc), names, texts),
    decreases names.len(),
{
    if names.len() == 0 {
        assert(acc + entries_of_names(names, texts) =~= acc);
    } else {
        match text_of(texts, names[0]) {
            Some(t0) => {
                let rest = entries_of_names(names.drop_first(), texts);
                assert(acc + (text_entries(t0) + rest) =~= (acc + text_entries(t0)) + rest);
                lemma_overlay_names(acc + text_entries(t0), names.drop_first(), texts);
                crate::dict::lemma_map_of_concat(acc, text_entries(t0));
            },
            None => {
                assert(acc + entries_of_names(names, texts) =~= acc);
            },
        }
    }
}

/// A group of file dictionaries is merged into one dictionary text that
/// holds every entry of every member text, members in order, whether or not
/// a member text ends with a newline; so the merged dictionary's map is the
/// members' maps laid one over the other, later members overriding earlier
/// ones.
pub proof fn lemma_merged_group(names: Seq<Seq<char>>, texts: Seq<(String, String)>)
    ensures
        merge_texts(names, texts, Seq::empty()) matches Ok(t) ==> {
            &&& text_entries(t) == entries_of_names(names, texts)
            &&& map_of(text_entries(t)) == overlay_names(Map::empty(), names, texts)
        },
{
    lemma_merge_texts_entries(names, texts, Seq::empty());
    crate::lines::lemma_text_entries_empty();
    let e = Seq::<(Seq<char>, Seq<char>)>::empty();
    assert(text_entries(Seq::<char>::empty()) =~= e);
    assert(e + entries_of_names(names, texts) =~= entries_of_names(names, texts));
    lemma_overlay_names(e, names, texts);
    assert(map_of(e) == Map::<Seq<char>, Seq<char>>::empty());
}

/// The first word of an inline value, or the empty string.
pub open spec fn inline_value(j: Json) -> Seq<char> {
    match j {
        Json::Str(s) => match first_word(s@) {
            Some(w) => w,
            None => Seq::empty(),
        },
        _ => Seq::empty(),
    }
}

/// The entries of an inline dictionary.
pub open spec fn inline_pairs(es: Seq<(String, Json)>) -> Seq<(Seq<char>, Seq<char>)> {
    es.map_values(|e: (String, Json)| (e.0@, inline_value(e.1)))
}

/// The dictionaries (as maps, in priority order) that a dictionary spec
/// expands to, or the error it gives.
pub open spec fn spec_expand(j: Json, texts: Seq<(String, String)>) -> Result<Seq<Map<Seq<char>, Seq<char>>>, Seq<char>>
    decreases j, 0int,
{
    let ty = dict_type(j);
    if ty == "group"@ {
        proof {
            lemma_get_field_decreases(j, "dicts"@);
        }
        match get_field(j, "dicts"@) {
            Some(Json::Array(v)) => {
                match merge_names(v@) {
                    Some(names) => match merge_texts(names, texts, Seq::empty()) {
                        Ok(t) => Ok(seq![map_of(text_entries(t))]),
                        Err(e) => Err(e),
                    },
                    None => spec_expand_list(v@, 0, texts),
                }
            },
            _ => Err("group.dicts is missing or not an array"@),
        }
    } else if is_file_type(ty) {
        match get_field(j, "file"@) {
            Some(Json::Str(f)) => match text_of(texts, dict_name(f@)) {
                Some(t) => Ok(seq![map_of(text_entries(t))]),
                None => Err("unknown embedded dictionary: "@ + dict_name(f@)),
            },
            _ => Err("file-based dict is missing its file name"@),
        }
    } else if ty == "inline"@ {
        match get_field(j, "entries"@) {
            Some(Json::Object(es)) => Ok(seq![map_of(inline_pairs(es@))]),
            _ => Err("inline.entries is missing or not an object"@),
        }
    } else {
        Err("unsupported dictionary type: "@ + ty)
    }
}

/// The candidate maps (every value of each key) of the dictionaries that a
/// dictionary spec expands to, where it expands without error.
pub open spec fn expand_cands(j: Json, texts: Seq<(String, String)>) -> Seq<Map<Seq<char>, Seq<Seq<char>>>>
    decreases j, 0int,
{
    let ty = dict_type(j);
    if ty == "group"@ {
        proof {
            lemma_get_field_decreases(j, "dicts"@);
        }
        match get_field(j, "dicts"@) {
            Some(Json::Array(v)) => {
                match merge_names(v@) {
                    Some(names) => match merge_texts(names, texts, Seq::empty()) {
                        Ok(t) => seq![cands_map(marisa_entries(t))],
                        Err(_) => Seq::empty(),
                    },
                    None => expand_cands_list(v@, 0, texts),
                }
            },
            _ => Seq::empty(),
        }
    } else if is_file_type(ty) {
        match get_field(j, "file"@) {
            Some(Json::Str(f)) => match text_of(texts, dict_name(f@)) {
                Some(t) => seq![cands_map(marisa_entries(t))],
                None => Seq::empty(),
            },
            _ => Seq::empty(),
        }
    } else if ty == "inline"@ {
        match get_field(j, "entries"@) {
            Some(Json::Object(es)) => seq![cands_map(singletons(inline_pairs(es@)))],
            _ => Seq::empty(),
        }
    } else {
        Seq::empty()
    }
}

/// The candidate maps of the members `l[i..]` of a group, in order.
pub open spec fn expand_cands_list(l: Seq<Json>, i: int, texts: Seq<(String, String)>) -> Seq<Map<Seq<char>, Seq<Seq<char>>>>
    decreases l, l.len() - i,
{
    if i < 0 || i >= l.len() {
        Seq::empty()
    } else {
        expand_cands(l[i], texts) + expand_cands_list(l, i + 1, texts)
    }
}

/// The members `l[i..]` of a group expanded in order and concatenated; the
/// first error stops.
pub open spec fn spec_expand_list(l: Seq<Json>, i: int, texts: Seq<(String, String)>) -> Result<Seq<Map<Seq<char>, Seq<char>>>, Seq<char>>
    decreases l, l.len() - i,
{
    if i < 0 || i >= l.len() {
        Ok(Seq::empty())
    } else {
        match spec_expand(l[i], texts) {
            Ok(a) => match spec_expand_list(l, i + 1, texts) {
                Ok(b) => Ok(a + b),
                Err(e) => Err(e),
            },
            Err(e) => Err(e),
        }
    }
}


/// The dictionary type of `j`.
fn json_dict_type<'a>(j: &'a Json) -> (r: &'a str)
    ensures
        r@ == dict_type(*j),
{
    match json_get(j, "type") {
        Some(Json::Str(s)) => s.as_str(),
        _ => "text",
    }
}

/// Whether `v[..end]` ends with `suf`.
fn ends_with_at(v: &Vec<char>, end: usize, suf: &Vec<char>) -> (r: bool)
    requires
        end <= v@.len(),
    ensures
        r == (end >= suf@.len() && v@.take(end as int).skip(end - suf@.len()) == suf@),
{
    if end < suf.len() {
        return false;
    }
    let start = end - suf.len();
    let mut k: usize = 0;
    while k < suf.len()
        invariant
            start + suf@.len() == end <= v@.len(),
            k <= suf@.len(),
            forall|m: int| 0 <= m < k ==> v@[start + m] == suf@[m],
        decreases suf@.len() - k,
    {
        if v[start + k] != suf[k] {
            assert(v@.take(end as int).skip(start as int)[k as int] == v@[start + k]);
            return false;
        }
        k += 1;
    }
    assert(v@.take(end as int).skip(start as int) =~= suf@);
    true
}

/// End of `v[..end]` once every trailing repetition of `suf` is removed.
fn strip_all_end(v: &Vec<char>, end: usize, suf: &str) -> (r: usize)
    requires
        end <= v@.len(),
        suf@.len() > 0,
    ensures
        r <= end,
        v@.take(r as int) == strip_all(v@.take(end as int), suf@),
{
    let sv = str_chars(suf);
    let mut e = end;
    while ends_with_at(v, e, &sv)
        invariant
            e <= end <= v@.len(),
            sv@ == suf@,
            sv@.len() > 0,
            strip_all(v@.take(e as int), suf@) == strip_all(v@.take(end as int), suf@),
        decreases e,
    {
        assert(v@.take(e as int).take(e - sv@.len()) =~= v@.take(e - sv@.len()));
        e = e - sv.len();
    }
    e
}

/// The dictionary name of `file`.
fn dict_name_of(file: &str) -> (r: Vec<char>)
    ensures
        r@ == dict_name(file@),
{
    let v = str_chars(file);
    assert(v@.take(v@.len() as int) =~= v@);
    proof {
        reveal_strlit(".ocd2");
        reveal_strlit(".ocd");
        reveal_strlit(".txt");
    }
    let e1 = strip_all_end(&v, v.len(), ".ocd2");
    let e2 = strip_all_end(&v, e1, ".ocd");
    let e3 = strip_all_end(&v, e2, ".txt");
    crate::text::chars_sub(&v, 0, e3)
}

/// The text of the embedded dictionary `name`.
fn lookup_text<'a>(texts: &'a [(String, String)], name: &Vec<char>) -> (r: Option<&'a String>)
    ensures
        match text_of(texts@, name@) {
            Some(t) => r matches Some(x) && x@ == t,
            None => r is None,
        },
{
    let mut i: usize = 0;
    assert(texts@.skip(0) =~= texts@);
    while i < texts.len()
        invariant
            i <= texts@.len(),
            text_of(texts@, name@) == text_of(texts@.skip(i as int), name@),
        decreases texts@.len() - i,
    {
        assert(texts@.skip(i as int)[0] == texts@[i as int]);
        assert(texts@.skip(i as int).drop_first() =~= texts@.skip(i + 1));
        let n = str_chars(texts[i].0.as_str());
        if chars_eq(&n, name) {
            return Some(&texts[i].1);
        }
        i += 1;
    }
    None
}

/// The error for an unknown embedded dictionary.
fn unknown_dict_error(name: &Vec<char>) -> (e: String)
    ensures
        e@ == "unknown embedded dictionary: "@ + name@,
{
    let mut e = String::from_str("unknown embedded dictionary: ");
    let n = string_of_chars(name);
    e.append(n.as_str());
    e
}

/// `Some(d + ns)` where `o` is `Some(ns)`.
pub open spec fn opt_prepend(d: Seq<Seq<char>>, o: Option<Seq<Seq<char>>>) -> Option<Seq<Seq<char>>> {
    match o {
        Some(ns) => Some(d + ns),
        None => None,
    }
}

/// The names of a group's members, if it can be merged.
fn group_merge_names(v: &Vec<Json>) -> (r: Option<Vec<Vec<char>>>)
    ensures
        match merge_names(v@) {
            Some(ns) => r matches Some(x) && x@.map_values(|n: Vec<char>| n@) == ns,
            None => r is None,
        },
{
    let mut names: Vec<Vec<char>> = Vec::new();
    let mut i: usize = 0;
    assert(v@.skip(0) =~= v@);
    assert(names@.map_values(|n: Vec<char>| n@) + Seq::<Seq<char>>::empty() =~= Seq::<Seq<char>>::empty());
    while i < v.len()
        invariant
            i <= v@.len(),
            merge_names(v@) == opt_prepend(names@.map_values(|n: Vec<char>| n@), merge_names(v@.skip(i as int))),
        decreases v@.len() - i,
    {
        let ghost rest = v@.skip(i as int);
        assert(rest[0] == v@[i as int]);
        assert(rest.drop_first() =~= v@.skip(i + 1));
        let child = &v[i];
        let ty = json_dict_type(child);
        if !(str_eq(ty, "text") || str_eq(ty, "ocd") || str_eq(ty, "ocd2")) {
            return None;
        }
        match json_get(child, "file") {
            Some(Json::Str(f)) => {
                let ghost before = names@.map_values(|n: Vec<char>| n@);
                let name = dict_name_of(f.as_str());
                names.push(name);
                proof {
                    let after = names@.map_values(|n: Vec<char>| n@);
                    assert(after =~= before.push(dict_name(f@)));
                    match merge_names(v@.skip(i + 1)) {
                        Some(ns) => {
                            assert(before + (seq![dict_name(f@)] + ns) =~= after + ns);
                        },
                        None => {},
                    }
                }
            },
            _ => {
                return None;
            },
        }
        i += 1;
    }
    assert(v@.skip(i as int).len() == 0);
    assert(names@.map_values(|n: Vec<char>| n@) + Seq::<Seq<char>>::empty() =~= names@.map_values(
        |n: Vec<char>| n@,
    ));
    Some(names)
}

/// The merged text of the dictionaries `names`.
fn merged_text(names: &Vec<Vec<char>>, texts: &[(String, String)]) -> (r: Result<Vec<char>, String>)
    ensures
        match merge_texts(names@.map_values(|n: Vec<char>| n@), texts@, Seq::empty()) {
            Ok(t) => r matches Ok(x) && x@ == t,
            Err(e) => r matches Err(x) && x@ == e,
        },
{
    let ghost nv = names@.map_values(|n: Vec<char>| n@);
    let mut acc: Vec<char> = Vec::new();
    let mut i: usize = 0;
    assert(nv.skip(0) =~= nv);
    while i < names.len()
        invariant
            i <= names@.len(),
            nv == names@.map_values(|n: Vec<char>| n@),
            merge_texts(nv, texts@, Seq::empty()) == merge_texts(nv.skip(i as int), texts@, acc@),
        decreases names@.len() - i,
    {
        assert(nv.skip(i as int)[0] == names@[i as int]@);
        assert(nv.skip(i as int).drop_first() =~= nv.skip(i + 1));
        match lookup_text(texts, &names[i]) {
            Some(t) => {
                let mut tv = str_chars(t.as_str());
                acc.append(&mut tv);
                let n = acc.len();
                if !(n > 0 && acc[n - 1] == '\n') {
                    acc.push('\n');
                }
            },
            None => {
                return Err(unknown_dict_error(&names[i]));
            },
        }
        i += 1;
    }
    Ok(acc)
}

/// The first word of an inline value, or the empty string.
fn inline_value_of(j: &Json) -> (r: String)
    ensures
        r@ == inline_value(*j),
{
    match j {
        Json::Str(s) => {
            let v = str_chars(s.as_str());
            assert(v@.subrange(0, v@.len() as int) =~= v@);
            match first_word_range(&v, 0, v.len()) {
                Some((a, b)) => string_from_chars(&v, a, b),
                None => String::new(),
            }
        },
        _ => String::new(),
    }
}

/// `Ok(a + b)` where `r` is `Ok(b)`.
pub open spec fn res_prepend(
    a: Seq<Map<Seq<char>, Seq<char>>>,
    r: Result<Seq<Map<Seq<char>, Seq<char>>>, Seq<char>>,
) -> Result<Seq<Map<Seq<char>, Seq<char>>>, Seq<char>> {
    match r {
        Ok(b) => Ok(a + b),
        Err(e) => Err(e),
    }
}

/// Append the dictionaries that the spec `j` expands to onto `out`.
fn expand(j: &Json, texts: &[(String, String)], out: &mut Vec<Dict>) -> (r: Result<(), String>)
    requires
        group_wf(old(out)@),
    ensures
        match spec_expand(*j, texts@) {
            Ok(ms) => {
                &&& r is Ok
                &&& group_wf(final(out)@)
                &&& group_view(final(out)@) == group_view(old(out)@) + ms
                &&& group_cands_view(final(out)@) == group_cands_view(old(out)@) + expand_cands(*j, texts@)
            },
            Err(e) => r matches Err(x) && x@ == e,
        },
    decreases *j,
{
    let ty = json_dict_type(j);
    if str_eq(ty, "group") {
        proof {
            lemma_get_field_decreases(*j, "dicts"@);
        }
        match json_get(j, "dicts") {
            Some(Json::Array(v)) => {
                match group_merge_names(v) {
                    Some(names) => {
                        let t = merged_text(&names, texts)?;
                        let d = Dict::from_chars(&t);
                        let ghost before = group_view(out@);
                        let ghost cbefore = group_cands_view(out@);
                        out.push(d);
                        assert(group_view(out@) =~= before + seq![d@]);
                        assert(group_cands_view(out@) =~= cbefore + seq![d.cands()]);
                        Ok(())
                    },
                    None => {
                        let ghost start = group_view(out@);
                        let ghost cstart = group_cands_view(out@);
                        let ghost mut acc: Seq<Map<Seq<char>, Seq<char>>> = Seq::empty();
                        let ghost mut cacc: Seq<Map<Seq<char>, Seq<Seq<char>>>> = Seq::empty();
                        assert(expand_cands(*j, texts@) == expand_cands_list(v@, 0, texts@));
                        assert(cacc + expand_cands_list(v@, 0, texts@) =~= expand_cands_list(v@, 0, texts@));
                        assert(cstart + cacc =~= cstart);
                        let mut k: usize = 0;
                        assert(res_prepend(acc, spec_expand_list(v@, 0, texts@)) =~= spec_expand_list(v@, 0, texts@)) by {
                            match spec_expand_list(v@, 0, texts@) {
                                Ok(b) => { assert(acc + b =~= b); },
                                Err(_) => {},
                            }
                        }
                        assert(start + acc =~= start);
                        while k < v.len()
                            invariant
                                k <= v@.len(),
                                group_wf(out@),
                                group_view(out@) == start + acc,
                                group_cands_view(out@) == cstart + cacc,
                                expand_cands(*j, texts@) == cacc + expand_cands_list(v@, k as int, texts@),
                                spec_expand(*j, texts@) == spec_expand_list(v@, 0, texts@),
                                spec_expand_list(v@, 0, texts@) == res_prepend(acc, spec_expand_list(v@, k as int, texts@)),
                                decreases_to!(*j => v@),
                            decreases v@.len() - k,
                        {
                            assert(decreases_to!(v@ => v@[k as int]));
                            let ghost before = group_view(out@);
                            let rr = expand(&v[k], texts, out);
                            match rr {
                                Ok(()) => {
                                    proof {
                                        let a = spec_expand(v@[k as int], texts@)->Ok_0;
                                        let ca = expand_cands(v@[k as int], texts@);
                                        assert(group_view(out@) =~= start + (acc + a));
                                        assert(group_cands_view(out@) =~= cstart + (cacc + ca));
                                        assert(cacc + expand_cands_list(v@, k as int, texts@) =~= (cacc + ca)
                                            + expand_cands_list(v@, k + 1, texts@));
                                        cacc = cacc + ca;
                                        match spec_expand_list(v@, k + 1, texts@) {
                                            Ok(b) => {
                                                assert(acc + (a + b) =~= (acc + a) + b);
                                            },
                                            Err(_) => {},
                                        }
                                        acc = acc + a;
                                    }
                                },
                                Err(e) => {
                                    return Err(e);
                                },
                            }
                            k += 1;
                        }
                        assert(acc + Seq::<Map<Seq<char>, Seq<char>>>::empty() =~= acc);
                        assert(cacc + Seq::<Map<Seq<char>, Seq<Seq<char>>>>::empty() =~= cacc);
                        Ok(())
                    },
                }
            },
            _ => {
                Err(String::from_str("group.dicts is missing or not an array"))
            },
        }
    } else if str_eq(ty, "text") || str_eq(ty, "ocd") || str_eq(ty, "ocd2") {
        match json_get(j, "file") {
            Some(Json::Str(f)) => {
                let name = dict_name_of(f.as_str());
                match lookup_text(texts, &name) {
                    Some(t) => {
                        let d = Dict::from_text(t.as_str());
                        let ghost before = group_view(out@);
                        let ghost cbefore = group_cands_view(out@);
                        out.push(d);
                        assert(group_view(out@) =~= before + seq![d@]);
                        assert(group_cands_view(out@) =~= cbefore + seq![d.cands()]);
                        Ok(())
                    },
                    None => Err(unknown_dict_error(&name)),
                }
            },
            _ => Err(String::from_str("file-based dict is missing its file name")),
        }
    } else if str_eq(ty, "inline") {
        match json_get(j, "entries") {
            Some(Json::Object(es)) => {
                let mut pairs: Vec<(String, String)> = Vec::new();
                let mut i: usize = 0;
                while i < es.len()
                    invariant
                        i <= es@.len(),
                        pairs_view(pairs@) == inline_pairs(es@.take(i as int)),
                    decreases es@.len() - i,
                {
                    let key = es[i].0.clone();
                    let first = inline_value_of(&es[i].1);
                    let ghost before = pairs@;
                    pairs.push((key, first));
                    proof {
                        assert(pairs@ == before.push((key, first)));
                        assert(pairs_view(pairs@) =~= pairs_view(before).push((key@, first@)));
                        assert(es@.take(i + 1) =~= es@.take(i as int).push(es@[i as int]));
                        assert(inline_pairs(es@.take(i + 1)) =~= inline_pairs(es@.take(i as int)).push(
                            (es@[i as int].0@, inline_value(es@[i as int].1)),
                        ));
                    }
                    i += 1;
                }
                assert(es@.take(es@.len() as int) =~= es@);
                let d = Dict::from_entries(&pairs);
                let ghost before = group_view(out@);
                let ghost cbefore = group_cands_view(out@);
                out.push(d);
                assert(group_view(out@) =~= before + seq![d@]);
                assert(group_cands_view(out@) =~= cbefore + seq![d.cands()]);
                Ok(())
            },
            _ => Err(String::from_str("inline.entries is missing or not an object")),
        }
    } else {
        let mut e = String::from_str("unsupported dictionary type: ");
        e.append(ty);
        Err(e)
    }
}


/// A dictionary spec resolved into a group: the custom words first (when
/// there are any), then the spec's dictionaries.
pub open spec fn spec_resolve_group(
    j: Json,
    custom: Seq<(Seq<char>, Seq<char>)>,
    texts: Seq<(String, String)>,
) -> Result<Seq<Map<Seq<char>, Seq<char>>>, Seq<char>> {
    let head = if custom.len() > 0 {
        seq![map_of(custom)]
    } else {
        Seq::empty()
    };
    res_prepend(head, spec_expand(j, texts))
}

/// The candidate maps of the group a dictionary spec resolves into: the
/// custom words (each with its one value) first, when there are any.
pub open spec fn resolve_group_cands(
    j: Json,
    custom: Seq<(Seq<char>, Seq<char>)>,
    texts: Seq<(String, String)>,
) -> Seq<Map<Seq<char>, Seq<Seq<char>>>> {
    let head = if custom.len() > 0 {
        seq![cands_map(singletons(custom))]
    } else {
        Seq::empty()
    };
    head + expand_cands(j, texts)
}

/// The candidate maps of the stages `stages[i..]` of a conversion chain.
pub open spec fn chain_cands(
    stages: Seq<Json>,
    i: int,
    custom: Seq<(Seq<char>, Seq<char>)>,
    texts: Seq<(String, String)>,
) -> Seq<Seq<Map<Seq<char>, Seq<Seq<char>>>>>
    decreases stages.len() - i,
{
    if i < 0 || i >= stages.len() {
        Seq::empty()
    } else {
        match get_field(stages[i], "dict"@) {
            Some(d) => seq![resolve_group_cands(d, custom, texts)] + chain_cands(stages, i + 1, custom, texts),
            None => Seq::empty(),
        }
    }
}

/// The candidate maps of the segmentation group and the conversion stages
/// that a config resolves to, where it resolves.
pub open spec fn resolve_cands(
    root: Json,
    custom: Seq<(Seq<char>, Seq<char>)>,
    texts: Seq<(String, String)>,
) -> (Option<Seq<Map<Seq<char>, Seq<Seq<char>>>>>, Seq<Seq<Map<Seq<char>, Seq<Seq<char>>>>>) {
    let seg = match get_field(root, "segmentation"@) {
        Some(s) => match get_field(s, "dict"@) {
            Some(d) => Some(resolve_group_cands(d, custom, texts)),
            None => None,
        },
        None => None,
    };
    let chain = match get_field(root, "conversion_chain"@) {
        Some(Json::Array(stages)) => chain_cands(stages@, 0, custom, texts),
        _ => Seq::empty(),
    };
    (seg, chain)
}

/// The stages `stages[i..]` of a conversion chain, resolved in order.
pub open spec fn spec_chain(
    stages: Seq<Json>,
    i: int,
    custom: Seq<(Seq<char>, Seq<char>)>,
    texts: Seq<(String, String)>,
) -> Result<Seq<Seq<Map<Seq<char>, Seq<char>>>>, Seq<char>>
    decreases stages.len() - i,
{
    if i < 0 || i >= stages.len() {
        Ok(Seq::empty())
    } else {
        match get_field(stages[i], "dict"@) {
            Some(d) => match spec_resolve_group(d, custom, texts) {
                Ok(g) => match spec_chain(stages, i + 1, custom, texts) {
                    Ok(rest) => Ok(seq![g] + rest),
                    Err(e) => Err(e),
                },
                Err(e) => Err(e),
            },
            None => Err("a conversion_chain stage is missing its dict"@),
        }
    }
}

/// The segmentation group and conversion stages that a config resolves to,
/// or the error it gives.
pub open spec fn spec_resolve(
    root: Json,
    custom: Seq<(Seq<char>, Seq<char>)>,
    texts: Seq<(String, String)>,
) -> Result<(Option<Seq<Map<Seq<char>, Seq<char>>>>, Seq<Seq<Map<Seq<char>, Seq<char>>>>), Seq<char>> {
    let seg: Result<Option<Seq<Map<Seq<char>, Seq<char>>>>, Seq<char>> = match get_field(root, "segmentation"@) {
        Some(s) => match get_field(s, "dict"@) {
            Some(d) => match spec_resolve_group(d, custom, texts) {
                Ok(g) => Ok(Some(g)),
                Err(e) => Err(e),
            },
            None => Err("segmentation.dict is missing"@),
        },
        None => Ok(None),
    };
    match seg {
        Err(e) => Err(e),
        Ok(sg) => match get_field(root, "conversion_chain"@) {
            Some(Json::Array(stages)) => match spec_chain(stages@, 0, custom, texts) {
                Ok(c) => Ok((sg, c)),
                Err(e) => Err(e),
            },
            _ => Err("conversion_chain is missing or not an array"@),
        },
    }
}

/// Every group of `spec_chain(stages, i, ..)` begins with the custom words.
proof fn lemma_chain_custom_first(
    stages: Seq<Json>,
    i: int,
    custom: Seq<(Seq<char>, Seq<char>)>,
    texts: Seq<(String, String)>,
)
    requires
        custom.len() > 0,
        spec_chain(stages, i, custom, texts) is Ok,
    ensures
        forall|k: int|
            0 <= k < spec_chain(stages, i, custom, texts)->Ok_0.len() ==> (#[trigger] spec_chain(
                stages,
                i,
                custom,
                texts,
            )->Ok_0[k]).len() > 0 && spec_chain(stages, i, custom, texts)->Ok_0[k][0] == map_of(custom),
    decreases stages.len() - i,
{
    if 0 <= i < stages.len() {
        lemma_chain_custom_first(stages, i + 1, custom, texts);
        let c = spec_chain(stages, i, custom, texts)->Ok_0;
        let d = get_field(stages[i], "dict"@)->Some_0;
        let g = spec_resolve_group(d, custom, texts)->Ok_0;
        let rest = spec_chain(stages, i + 1, custom, texts)->Ok_0;
        assert(c == seq![g] + rest);
        assert forall|k: int| 0 <= k < c.len() implies (#[trigger] c[k]).len() > 0 && c[k][0] == map_of(custom) by {
            if k == 0 {
                assert(c[0] == g);
            } else {
                assert(c[k] == rest[k - 1]);
            }
        }
    }
}

/// Custom words come first: when a config resolves with custom words, their
/// map is the highest-priority member of the segmentation group and of
/// every conversion stage.
pub proof fn lemma_custom_words_first(root: Json, custom: Seq<(Seq<char>, Seq<char>)>, texts: Seq<(String, String)>)
    requires
        custom.len() > 0,
        spec_resolve(root, custom, texts) is Ok,
    ensures
        spec_resolve(root, custom, texts)->Ok_0.0 matches Some(g) ==> g.len() > 0 && g[0] == map_of(custom),
        forall|k: int|
            0 <= k < spec_resolve(root, custom, texts)->Ok_0.1.len() ==> (#[trigger] spec_resolve(
                root,
                custom,
                texts,
            )->Ok_0.1[k]).len() > 0 && spec_resolve(root, custom, texts)->Ok_0.1[k][0] == map_of(custom),
{
    match get_field(root, "conversion_chain"@) {
        Some(Json::Array(stages)) => {
            lemma_chain_custom_first(stages@, 0, custom, texts);
        },
        _ => {},
    }
}

/// Resolve a dictionary spec into a priority group, with `custom` words
/// prepended.
fn resolve_group(j: &Json, custom: &[(String, String)], texts: &[(String, String)]) -> (r: Result<Vec<Dict>, String>)
    ensures
        match spec_resolve_group(*j, pairs_view(custom@), texts@) {
            Ok(ms) => r matches Ok(g) && group_wf(g@) && group_view(g@) == ms && group_cands_view(g@)
                == resolve_group_cands(*j, pairs_view(custom@), texts@),
            Err(e) => r matches Err(x) && x@ == e,
        },
{
    let mut group: Vec<Dict> = Vec::new();
    if custom.len() > 0 {
        group.push(Dict::from_entries(custom));
    }
    let ghost head = group_view(group@);
    assert(group_cands_view(group@) =~= (if pairs_view(custom@).len() > 0 {
        seq![cands_map(singletons(pairs_view(custom@)))]
    } else {
        Seq::empty()
    }));
    assert(head =~= (if pairs_view(custom@).len() > 0 {
        seq![map_of(pairs_view(custom@))]
    } else {
        Seq::empty()
    }));
    expand(j, texts, &mut group)?;
    Ok(group)
}

/// Resolve a parsed OpenCC config into dictionaries, injecting `custom` words
/// as the highest-priority member of every group. `texts` holds the embedded
/// dictionary texts by name.
pub fn resolve_root(root: &Json, custom: &[(String, String)], texts: &[(String, String)]) -> (r: Result<ResolvedConfig, String>)
    ensures
        match spec_resolve(*root, pairs_view(custom@), texts@) {
            Ok((seg, chain)) => {
                &&& r matches Ok(c)
                &&& spec_resolved_wf(c)
                &&& c.seg_view() == seg
                &&& c.chain_view() == chain
                &&& c.seg_cands_view() == resolve_cands(*root, pairs_view(custom@), texts@).0
                &&& c.chain_cands_view() == resolve_cands(*root, pairs_view(custom@), texts@).1
            },
            Err(e) => r matches Err(x) && x@ == e,
        },
{
    let segmentation = match json_get(root, "segmentation") {
        Some(seg) => {
            let dict = match json_get(seg, "dict") {
                Some(d) => d,
                None => {
                    return Err(String::from_str("segmentation.dict is missing"));
                },
            };
            Some(resolve_group(dict, custom, texts)?)
        },
        None => None,
    };
    let stages = match json_get(root, "conversion_chain") {
        Some(Json::Array(v)) => v,
        _ => {
            return Err(String::from_str("conversion_chain is missing or not an array"));
        },
    };
    let ghost cv = pairs_view(custom@);
    let ghost sg: Option<Seq<Map<Seq<char>, Seq<char>>>> = opt_group_view(segmentation);
    assert(spec_resolve(*root, cv, texts@) == match spec_chain(stages@, 0, cv, texts@) {
        Ok(c) => Ok((sg, c)),
        Err(e) => Err(e),
    });
    let mut chain: Vec<Vec<Dict>> = Vec::new();
    let mut i: usize = 0;
    assert(chain@.map_values(|g: Vec<Dict>| group_view(g@)) =~= Seq::<Seq<Map<Seq<char>, Seq<char>>>>::empty());
    while i < stages.len()
        invariant
            i <= stages@.len(),
            cv == pairs_view(custom@),
            spec_resolve(*root, cv, texts@) == match spec_chain(stages@, 0, cv, texts@) {
                Ok(c) => Ok((sg, c)),
                Err(e) => Err(e),
            },
            sg == opt_group_view(segmentation),
            segmentation matches Some(g) ==> group_wf(g@),
            forall|k: int| 0 <= k < chain@.len() ==> group_wf(#[trigger] chain@[k]@),
            spec_chain(stages@, 0, cv, texts@) == match spec_chain(stages@, i as int, cv, texts@) {
                Ok(rest) => Ok(chain@.map_values(|g: Vec<Dict>| group_view(g@)) + rest),
                Err(e) => Err(e),
            },
            resolve_cands(*root, cv, texts@).0 == (match segmentation {
                Some(g) => Some(group_cands_view(g@)),
                None => None,
            }),
            resolve_cands(*root, cv, texts@).1 == chain_cands(stages@, 0, cv, texts@),
            spec_chain(stages@, i as int, cv, texts@) is Ok ==> chain_cands(stages@, 0, cv, texts@) == chain@.map_values(
                |g: Vec<Dict>| group_cands_view(g@),
            ) + chain_cands(stages@, i as int, cv, texts@),
        decreases stages@.len() - i,
    {
        let dict = match json_get(&stages[i], "dict") {
            Some(d) => d,
            None => {
                return Err(String::from_str("a conversion_chain stage is missing its dict"));
            },
        };
        let g = resolve_group(dict, custom, texts)?;
        let ghost before = chain@.map_values(|g: Vec<Dict>| group_view(g@));
        let ghost cbefore = chain@.map_values(|g: Vec<Dict>| group_cands_view(g@));
        let ghost gv = group_view(g@);
        let ghost gcv = group_cands_view(g@);
        chain.push(g);
        proof {
            let after = chain@.map_values(|g: Vec<Dict>| group_view(g@));
            let cafter = chain@.map_values(|g: Vec<Dict>| group_cands_view(g@));
            assert(after =~= before.push(gv));
            assert(cafter =~= cbefore.push(gcv));
            if spec_chain(stages@, i + 1, cv, texts@) is Ok {
                assert(cbefore + (seq![gcv] + chain_cands(stages@, i + 1, cv, texts@)) =~= cafter + chain_cands(
                    stages@,
                    i + 1,
                    cv,
                    texts@,
                ));
            }
            match spec_chain(stages@, i + 1, cv, texts@) {
                Ok(rest) => {
                    assert(before + (seq![gv] + rest) =~= after + rest);
                },
                Err(_) => {},
            }
        }
        i += 1;
    }
    let c = ResolvedConfig { segmentation, chain };
    assert(c.chain_view() + Seq::<Seq<Map<Seq<char>, Seq<char>>>>::empty() =~= c.chain_view());
    assert(c.chain_cands_view() + Seq::<Seq<Map<Seq<char>, Seq<Seq<char>>>>>::empty() =~= c.chain_cands_view());
    Ok(c)
}

#[verifier::external_type_specification]
#[verifier::external_body]
pub struct ExJsonValue(serde_json::Value);

/// What `serde_json::from_str::<serde_json::Value>` makes of a text, as the
/// library's `Json` (objects with their members in serde_json's order), or
/// the text of serde_json's error.
pub uninterp spec fn json_of_text(text: Seq<char>) -> Result<Json, Seq<char>>;

/// The library's `Json` for a `serde_json::Value`, variant for variant (a
/// number keeps its textual form).
#[verifier::external_body]
fn json_of_value(v: &serde_json::Value) -> Json {
    match v {
        serde_json::Value::Null => Json::Null,
        serde_json::Value::Bool(b) => Json::Bool(*b),
        serde_json::Value::Number(n) => Json::Number(n.to_string()),
        serde_json::Value::String(t) => Json::Str(t.clone()),
        serde_json::Value::Array(a) => Json::Array(a.iter().map(json_of_value).collect()),
        serde_json::Value::Object(o) => Json::Object(o.iter().map(|(k, x)| (k.clone(), json_of_value(x))).collect()),
    }
}

/// `serde_json::from_str::<serde_json::Value>` on `text`, converted to the
/// library's `Json`; an error gives serde_json's message. The result is the
/// name `json_of_text` of the text: which texts parse, and to what, is left
/// to serde_json.
#[verifier::external_body]
fn parse_json(text: &str) -> (r: Result<Json, String>)
    ensures
        match r {
            Ok(j) => json_of_text(text@) == Ok::<Json, Seq<char>>(j),
            Err(m) => json_of_text(text@) == Err::<Json, Seq<char>>(m@),
        },
{
    match serde_json::from_str::<serde_json::Value>(text) {
        Ok(v) => Ok(json_of_value(&v)),
        Err(e) => Err(e.to_string()),
    }
}

/// Resolve the JSON text of an OpenCC config (see `resolve_root`): a text that
/// does not parse gives `invalid config JSON: ` and the parser's message.
pub fn resolve(json: &str, custom: &[(String, String)], texts: &[(String, String)]) -> (r: Result<
    ResolvedConfig,
    String,
>)
    ensures
        match json_of_text(json@) {
            Err(m) => r matches Err(x) && x@ == "invalid config JSON: "@ + m,
            Ok(root) => match spec_resolve(root, pairs_view(custom@), texts@) {
                Ok((seg, chain)) => {
                    &&& r matches Ok(c)
                    &&& spec_resolved_wf(c)
                    &&& c.seg_view() == seg
                    &&& c.chain_view() == chain
                    &&& c.seg_cands_view() == resolve_cands(root, pairs_view(custom@), texts@).0
                    &&& c.chain_cands_view() == resolve_cands(root, pairs_view(custom@), texts@).1
                },
                Err(e) => r matches Err(x) && x@ == e,
            },
        },
{
    match parse_json(json) {
        Ok(root) => resolve_root(&root, custom, texts),
        Err(m) => {
            let mut e = String::from_str("invalid config JSON: ");
            e.append(m.as_str());
            Err(e)
        },
    }
}

} // verus!
