//! The conversion engine: FMM segmentation + ordered conversion chain.
//!
//! 1. **Segment** the input with forward maximum matching against the
//!    segmentation group. Matched phrases become individual segments; runs of
//!    unmatched characters coalesce into a single segment each.
//! 2. **Convert** each segment through every stage in order (stage *n*'s output
//!    feeds stage *n+1*). Each stage re-walks its segment with longest-prefix
//!    matching against its own group, emitting the first candidate on a match
//!    or copying one character through on a miss.
//! 3. With an n-gram model, a match whose values start with different
//!    characters is settled by the model: the character that best follows
//!    the text written so far is emitted, with the rest of the first value
//!    that starts with it.
//!
//! If a config has no segmentation, the whole input is one segment.

use vstd::prelude::*;
use crate::config::{group_wf, spec_resolved_wf, ResolvedConfig};
use crate::dict::{
    group_cands, group_cands_from, group_cands_view, group_lookup, group_lookup_from, group_view,
    lemma_group_lookup_bound, single_valued, Dict,
};
use crate::ngram::{best_upto, context_word};
use crate::text::{strings_view, utf8_len};
use crate::ngram::NgramModel;
use crate::text::{str_chars, str_eq, string_of_chars};

verus! {

/// N-gram disambiguation mode.
#[derive(Copy, Clone, Debug, PartialEq, Eq, Structural)]
pub enum NgramMode {
    /// No n-gram disambiguation.
    Off,
    /// Use bigram (P(c2 | c1)) for disambiguation.
    Bigram,
    /// Use trigram (P(c3 | c1, c2)) for disambiguation, falling back to bigram.
    Trigram,
}

/// A built-in OpenCC conversion configuration.
#[derive(Copy, Clone, Debug, PartialEq, Eq, Structural)]
pub enum Config {
    S2t,
    T2s,
    S2tw,
    Tw2s,
    S2hk,
    Hk2s,
    S2twp,
    Tw2sp,
    S2hkp,
    Hk2sp,
    T2tw,
    Tw2t,
    T2hk,
    Hk2t,
    T2jp,
    Jp2t,
}

/// The config name as used on the CLI and in OpenCC.
pub open spec fn config_name(c: Config) -> Seq<char> {
    match c {
        Config::S2t => "s2t"@,
        Config::T2s => "t2s"@,
        Config::S2tw => "s2tw"@,
        Config::Tw2s => "tw2s"@,
        Config::S2hk => "s2hk"@,
        Config::Hk2s => "hk2s"@,
        Config::S2twp => "s2twp"@,
        Config::Tw2sp => "tw2sp"@,
        Config::S2hkp => "s2hkp"@,
        Config::Hk2sp => "hk2sp"@,
        Config::T2tw => "t2tw"@,
        Config::Tw2t => "tw2t"@,
        Config::T2hk => "t2hk"@,
        Config::Hk2t => "hk2t"@,
        Config::T2jp => "t2jp"@,
        Config::Jp2t => "jp2t"@,
    }
}

/// The configs in canonical order.
pub open spec fn config_at(i: int) -> Config {
    if i == 0 {
        Config::S2t
    } else if i == 1 {
        Config::T2s
    } else if i == 2 {
        Config::S2tw
    } else if i == 3 {
        Config::Tw2s
    } else if i == 4 {
        Config::S2hk
    } else if i == 5 {
        Config::Hk2s
    } else if i == 6 {
        Config::S2twp
    } else if i == 7 {
        Config::Tw2sp
    } else if i == 8 {
        Config::S2hkp
    } else if i == 9 {
        Config::Hk2sp
    } else if i == 10 {
        Config::T2tw
    } else if i == 11 {
        Config::Tw2t
    } else if i == 12 {
        Config::T2hk
    } else if i == 13 {
        Config::Hk2t
    } else if i == 14 {
        Config::T2jp
    } else {
        Config::Jp2t
    }
}

/// Every config is at some position of the canonical order.
pub proof fn lemma_config_at_covers(c: Config)
    ensures
        exists|i: int| 0 <= i < 16 && config_at(i) == c,
{
    match c {
        Config::S2t => assert(config_at(0) == c),
        Config::T2s => assert(config_at(1) == c),
        Config::S2tw => assert(config_at(2) == c),
        Config::Tw2s => assert(config_at(3) == c),
        Config::S2hk => assert(config_at(4) == c),
        Config::Hk2s => assert(config_at(5) == c),
        Config::S2twp => assert(config_at(6) == c),
        Config::Tw2sp => assert(config_at(7) == c),
        Config::S2hkp => assert(config_at(8) == c),
        Config::Hk2sp => assert(config_at(9) == c),
        Config::T2tw => assert(config_at(10) == c),
        Config::Tw2t => assert(config_at(11) == c),
        Config::T2hk => assert(config_at(12) == c),
        Config::Hk2t => assert(config_at(13) == c),
        Config::T2jp => assert(config_at(14) == c),
        Config::Jp2t => assert(config_at(15) == c),
    }
}

/// The message of a failed `Config::parse`.
pub open spec fn unknown_config_message(name: Seq<char>) -> Seq<char> {
    "unknown config '"@ + name
        + "'. Valid: s2t, t2s, s2tw, tw2s, s2hk, hk2s, s2twp, tw2sp, s2hkp, hk2sp, t2tw, tw2t, t2hk, hk2t, t2jp, jp2t"@
}

impl Config {
    /// All built-in configs, in canonical order.
    pub const ALL: [Config; 16] = [
        Config::S2t,
        Config::T2s,
        Config::S2tw,
        Config::Tw2s,
        Config::S2hk,
        Config::Hk2s,
        Config::S2twp,
        Config::Tw2sp,
        Config::S2hkp,
        Config::Hk2sp,
        Config::T2tw,
        Config::Tw2t,
        Config::T2hk,
        Config::Hk2t,
        Config::T2jp,
        Config::Jp2t,
    ];

    /// The config at position `i` of the canonical order.
    fn at(i: usize) -> (c: Config)
        requires
            i < 16,
        ensures
            c == config_at(i as int),
    {
        if i == 0 {
            Config::S2t
        } else if i == 1 {
            Config::T2s
        } else if i == 2 {
            Config::S2tw
        } else if i == 3 {
            Config::Tw2s
        } else if i == 4 {
            Config::S2hk
        } else if i == 5 {
            Config::Hk2s
        } else if i == 6 {
            Config::S2twp
        } else if i == 7 {
            Config::Tw2sp
        } else if i == 8 {
            Config::S2hkp
        } else if i == 9 {
            Config::Hk2sp
        } else if i == 10 {
            Config::T2tw
        } else if i == 11 {
            Config::Tw2t
        } else if i == 12 {
            Config::T2hk
        } else if i == 13 {
            Config::Hk2t
        } else if i == 14 {
            Config::T2jp
        } else {
            Config::Jp2t
        }
    }

    /// The config name as used on the CLI and in OpenCC (`s2t`, `tw2sp`, ...).
    pub fn name(&self) -> (r: &'static str)
        ensures
            r@ == config_name(*self),
    {
        match self {
            Config::S2t => "s2t",
            Config::T2s => "t2s",
            Config::S2tw => "s2tw",
            Config::Tw2s => "tw2s",
            Config::S2hk => "s2hk",
            Config::Hk2s => "hk2s",
            Config::S2twp => "s2twp",
            Config::Tw2sp => "tw2sp",
            Config::S2hkp => "s2hkp",
            Config::Hk2sp => "hk2sp",
            Config::T2tw => "t2tw",
            Config::Tw2t => "tw2t",
            Config::T2hk => "t2hk",
            Config::Hk2t => "hk2t",
            Config::T2jp => "t2jp",
            Config::Jp2t => "jp2t",
        }
    }

    /// A short human-readable description of the conversion direction.
    pub fn description(&self) -> (r: &'static str)
        ensures
            r@ == config_description(*self),
    {
        match self {
            Config::S2t => "Simplified to Traditional (OpenCC standard)",
            Config::T2s => "Traditional (OpenCC standard) to Simplified",
            Config::S2tw => "Simplified to Traditional (Taiwan)",
            Config::Tw2s => "Traditional (Taiwan) to Simplified",
            Config::S2hk => "Simplified to Traditional (Hong Kong)",
            Config::Hk2s => "Traditional (Hong Kong) to Simplified",
            Config::S2twp => "Simplified to Traditional (Taiwan, with phrases)",
            Config::Tw2sp => "Traditional (Taiwan) to Simplified (with phrases)",
            Config::S2hkp => "Simplified to Traditional (Hong Kong, with phrases)",
            Config::Hk2sp => "Traditional (Hong Kong) to Simplified (with phrases)",
            Config::T2tw => "Traditional (OpenCC standard) to Traditional (Taiwan)",
            Config::Tw2t => "Traditional (Taiwan) to Traditional (OpenCC standard)",
            Config::T2hk => "Traditional (OpenCC standard) to Traditional (Hong Kong)",
            Config::Hk2t => "Traditional (Hong Kong) to Traditional (OpenCC standard)",
            Config::T2jp => "Japanese Kyūjitai (old) to Shinjitai (new)",
            Config::Jp2t => "Japanese Shinjitai (new) to Kyūjitai (old)",
        }
    }

    /// Parse a config name; returns `Err` with the list of valid names on miss.
    pub fn parse(name: &str) -> (r: Result<Config, String>)
        ensures
            match r {
                Ok(c) => config_name(c) == name@,
                Err(e) => (forall|c: Config| config_name(c) != name@) && e@ == unknown_config_message(name@),
            },
    {
        let mut i: usize = 0;
        while i < 16
            invariant
                i <= 16,
                forall|k: int| 0 <= k < i ==> config_name(#[trigger] config_at(k)) != name@,
            decreases 16 - i,
        {
            let c = Config::at(i);
            if str_eq(c.name(), name) {
                return Ok(c);
            }
            i += 1;
        }
        proof {
            assert forall|c: Config| config_name(c) != name@ by {
                lemma_config_at_covers(c);
            }
        }
        let mut e = String::from_str("unknown config '");
        e.append(name);
        e.append(
            "'. Valid: s2t, t2s, s2tw, tw2s, s2hk, hk2s, s2twp, tw2sp, s2hkp, hk2sp, t2tw, tw2t, t2hk, hk2t, t2jp, jp2t",
        );
        Err(e)
    }
}

/// The description of each config.
pub open spec fn config_description(c: Config) -> Seq<char> {
    match c {
        Config::S2t => "Simplified to Traditional (OpenCC standard)"@,
        Config::T2s => "Traditional (OpenCC standard) to Simplified"@,
        Config::S2tw => "Simplified to Traditional (Taiwan)"@,
        Config::Tw2s => "Traditional (Taiwan) to Simplified"@,
        Config::S2hk => "Simplified to Traditional (Hong Kong)"@,
        Config::Hk2s => "Traditional (Hong Kong) to Simplified"@,
        Config::S2twp => "Simplified to Traditional (Taiwan, with phrases)"@,
        Config::Tw2sp => "Traditional (Taiwan) to Simplified (with phrases)"@,
        Config::S2hkp => "Simplified to Traditional (Hong Kong, with phrases)"@,
        Config::Hk2sp => "Traditional (Hong Kong) to Simplified (with phrases)"@,
        Config::T2tw => "Traditional (OpenCC standard) to Traditional (Taiwan)"@,
        Config::Tw2t => "Traditional (Taiwan) to Traditional (OpenCC standard)"@,
        Config::T2hk => "Traditional (OpenCC standard) to Traditional (Hong Kong)"@,
        Config::Hk2t => "Traditional (Hong Kong) to Traditional (OpenCC standard)"@,
        Config::T2jp => "Japanese Kyūjitai (old) to Shinjitai (new)"@,
        Config::Jp2t => "Japanese Shinjitai (new) to Kyūjitai (old)"@,
    }
}


/// Distinct configs have distinct names.
pub proof fn lemma_config_name_injective(a: Config, b: Config)
    ensures
        config_name(a) == config_name(b) ==> a == b,
{
    reveal_strlit("s2t");
    reveal_strlit("t2s");
    reveal_strlit("s2tw");
    reveal_strlit("tw2s");
    reveal_strlit("s2hk");
    reveal_strlit("hk2s");
    reveal_strlit("s2twp");
    reveal_strlit("tw2sp");
    reveal_strlit("s2hkp");
    reveal_strlit("hk2sp");
    reveal_strlit("t2tw");
    reveal_strlit("tw2t");
    reveal_strlit("t2hk");
    reveal_strlit("hk2t");
    reveal_strlit("t2jp");
    reveal_strlit("jp2t");
    if config_name(a) == config_name(b) && a != b {
        assert(config_name(a).len() == config_name(b).len());
        assert(config_name(a)[0] == config_name(b)[0]);
        assert(config_name(a)[1] == config_name(b)[1]);
        assert(config_name(a)[2] == config_name(b)[2]);
        if config_name(a).len() > 3 {
            assert(config_name(a)[3] == config_name(b)[3]);
        }
        if config_name(a).len() > 4 {
            assert(config_name(a)[4] == config_name(b)[4]);
        }
    }
}

/// Parsing a config's own name gives that config back: `Config::parse`
/// succeeds exactly on names and returns the config so named.
pub proof fn lemma_config_parse_name(c: Config, r: Config)
    requires
        config_name(r) == config_name(c),
    ensures
        r == c,
{
    lemma_config_name_injective(r, c);
}

/// A script variant that `zhhz` can convert to/from.
#[derive(Copy, Clone, Debug, PartialEq, Eq, Structural)]
pub enum Region {
    /// Simplified Chinese (mainland).
    CnS,
    /// Traditional Chinese, OpenCC standard.
    CnT,
    /// Traditional Chinese (Taiwan standard).
    CnTw,
    /// Traditional Chinese (Hong Kong standard).
    CnHk,
    /// Japanese Kyūjitai (old-form kanji).
    JpT,
    /// Japanese Shinjitai (new-form kanji).
    JpN,
}

/// The short, stable region code.
pub open spec fn region_code(r: Region) -> Seq<char> {
    match r {
        Region::CnS => "cn-s"@,
        Region::CnT => "cn-t"@,
        Region::CnTw => "cn-tw"@,
        Region::CnHk => "cn-hk"@,
        Region::JpT => "jp-t"@,
        Region::JpN => "jp-n"@,
    }
}

/// The human-readable description of a region.
pub open spec fn region_description(r: Region) -> Seq<char> {
    match r {
        Region::CnS => "Simplified Chinese (mainland)"@,
        Region::CnT => "Traditional Chinese (OpenCC standard)"@,
        Region::CnTw => "Traditional Chinese (Taiwan standard)"@,
        Region::CnHk => "Traditional Chinese (Hong Kong standard)"@,
        Region::JpT => "Japanese Kyūjitai (old-form)"@,
        Region::JpN => "Japanese Shinjitai (new-form)"@,
    }
}

/// The message of a failed `Region::parse`.
pub open spec fn unknown_region_message(s: Seq<char>) -> Seq<char> {
    "unknown region '"@ + s + "'. Valid: cn-s, cn-t, cn-tw, cn-hk, jp-t, jp-n"@
}

/// Distinct regions have distinct codes.
pub proof fn lemma_region_code_injective(a: Region, b: Region)
    ensures
        region_code(a) == region_code(b) ==> a == b,
{
    reveal_strlit("cn-s");
    reveal_strlit("cn-t");
    reveal_strlit("cn-tw");
    reveal_strlit("cn-hk");
    reveal_strlit("jp-t");
    reveal_strlit("jp-n");
    if region_code(a) == region_code(b) && a != b {
        assert(region_code(a).len() == region_code(b).len());
        assert(region_code(a)[0] == region_code(b)[0]);
        assert(region_code(a)[3] == region_code(b)[3]);
        if region_code(a).len() > 4 {
            assert(region_code(a)[4] == region_code(b)[4]);
        }
    }
}

/// Parsing a region's own code gives that region back.
pub proof fn lemma_region_parse_code(r: Region, p: Region)
    requires
        region_code(p) == region_code(r),
    ensures
        p == r,
{
    lemma_region_code_injective(p, r);
}

impl Region {
    /// All regions in canonical order.
    pub const ALL: [Region; 6] = [
        Region::CnS,
        Region::CnT,
        Region::CnTw,
        Region::CnHk,
        Region::JpT,
        Region::JpN,
    ];

    /// The short, stable region code used on the CLI (`cn-s`, `cn-tw`, ...).
    pub fn code(&self) -> (r: &'static str)
        ensures
            r@ == region_code(*self),
    {
        match self {
            Region::CnS => "cn-s",
            Region::CnT => "cn-t",
            Region::CnTw => "cn-tw",
            Region::CnHk => "cn-hk",
            Region::JpT => "jp-t",
            Region::JpN => "jp-n",
        }
    }

    /// A human-readable description for `--list` and error messages.
    pub fn description(&self) -> (r: &'static str)
        ensures
            r@ == region_description(*self),
    {
        match self {
            Region::CnS => "Simplified Chinese (mainland)",
            Region::CnT => "Traditional Chinese (OpenCC standard)",
            Region::CnTw => "Traditional Chinese (Taiwan standard)",
            Region::CnHk => "Traditional Chinese (Hong Kong standard)",
            Region::JpT => "Japanese Kyūjitai (old-form)",
            Region::JpN => "Japanese Shinjitai (new-form)",
        }
    }

    /// Parse a region code (`cn-s`, `cn-tw`, ...); case-sensitive, returns an
    /// error listing valid codes on miss.
    pub fn parse(s: &str) -> (r: Result<Region, String>)
        ensures
            match r {
                Ok(g) => region_code(g) == s@,
                Err(e) => (forall|g: Region| region_code(g) != s@) && e@ == unknown_region_message(s@),
            },
    {
        if str_eq("cn-s", s) {
            return Ok(Region::CnS);
        }
        if str_eq("cn-t", s) {
            return Ok(Region::CnT);
        }
        if str_eq("cn-tw", s) {
            return Ok(Region::CnTw);
        }
        if str_eq("cn-hk", s) {
            return Ok(Region::CnHk);
        }
        if str_eq("jp-t", s) {
            return Ok(Region::JpT);
        }
        if str_eq("jp-n", s) {
            return Ok(Region::JpN);
        }
        let mut e = String::from_str("unknown region '");
        e.append(s);
        e.append("'. Valid: cn-s, cn-t, cn-tw, cn-hk, jp-t, jp-n");
        Err(e)
    }
}

/// The config that converts `from` into `to`, if there is a direct one.
pub open spec fn region_pair(from: Region, to: Region) -> Option<Config> {
    match (from, to) {
        (Region::CnS, Region::CnT) => Some(Config::S2t),
        (Region::CnT, Region::CnS) => Some(Config::T2s),
        (Region::CnS, Region::CnTw) => Some(Config::S2twp),
        (Region::CnTw, Region::CnS) => Some(Config::Tw2sp),
        (Region::CnS, Region::CnHk) => Some(Config::S2hkp),
        (Region::CnHk, Region::CnS) => Some(Config::Hk2sp),
        (Region::CnT, Region::CnTw) => Some(Config::T2tw),
        (Region::CnTw, Region::CnT) => Some(Config::Tw2t),
        (Region::CnT, Region::CnHk) => Some(Config::T2hk),
        (Region::CnHk, Region::CnT) => Some(Config::Hk2t),
        (Region::JpN, Region::JpT) => Some(Config::Jp2t),
        (Region::JpT, Region::JpN) => Some(Config::T2jp),
        (Region::JpN, Region::CnT) => Some(Config::Jp2t),
        (Region::CnT, Region::JpN) => Some(Config::T2jp),
        _ => None,
    }
}

/// The message for a pair with no direct config.
pub open spec fn region_pair_message(from: Region, to: Region) -> Seq<char> {
    if from == to {
        "no conversion needed: "@ + region_code(from) + " -> "@ + region_code(to)
    } else {
        "no direct conversion from '"@ + region_code(from) + "' to '"@ + region_code(to)
            + "'; try an intermediate (e.g. "@ + region_code(from) + " -> cn-t -> "@
            + region_code(to) + ")"@
    }
}

/// Resolve a `(from, to)` region pair to the OpenCC config that performs it.
/// Returns an error for identity pairs and for pairs without a direct config.
pub fn region_pair_config(from: Region, to: Region) -> (r: Result<Config, String>)
    ensures
        match region_pair(from, to) {
            Some(c) => r == Ok::<Config, String>(c),
            None => r matches Err(e) && e@ == region_pair_message(from, to),
        },
{
    let c = match (from, to) {
        (Region::CnS, Region::CnT) => Config::S2t,
        (Region::CnT, Region::CnS) => Config::T2s,
        (Region::CnS, Region::CnTw) => Config::S2twp,
        (Region::CnTw, Region::CnS) => Config::Tw2sp,
        (Region::CnS, Region::CnHk) => Config::S2hkp,
        (Region::CnHk, Region::CnS) => Config::Hk2sp,
        (Region::CnT, Region::CnTw) => Config::T2tw,
        (Region::CnTw, Region::CnT) => Config::Tw2t,
        (Region::CnT, Region::CnHk) => Config::T2hk,
        (Region::CnHk, Region::CnT) => Config::Hk2t,
        (Region::JpN, Region::JpT) => Config::Jp2t,
        (Region::JpT, Region::JpN) => Config::T2jp,
        (Region::JpN, Region::CnT) => Config::Jp2t,
        (Region::CnT, Region::JpN) => Config::T2jp,
        (f, t) => {
            if f == t {
                let mut e = String::from_str("no conversion needed: ");
                e.append(f.code());
                e.append(" -> ");
                e.append(t.code());
                return Err(e);
            }
            let mut e = String::from_str("no direct conversion from '");
            e.append(f.code());
            e.append("' to '");
            e.append(t.code());
            e.append("'; try an intermediate (e.g. ");
            e.append(f.code());
            e.append(" -> cn-t -> ");
            e.append(t.code());
            e.append(")");
            return Err(e);
        },
    };
    Ok(c)
}

/// Identity pairs never map to a config: `region_pair_config(r, r)` is an error.
pub proof fn lemma_region_pair_identity(r: Region)
    ensures
        region_pair(r, r) is None,
{
}

/// Every direct conversion can be undone directly: a pair has a config
/// exactly when the reversed pair has one, and the two are different
/// configs; different pairs from one region give different configs, except
/// that shinjitai goes to kyūjitai and to Traditional by the same `jp2t`.
pub proof fn lemma_region_pairs_reversible(a: Region, b: Region, c: Region)
    ensures
        region_pair(a, b) is Some <==> region_pair(b, a) is Some,
        region_pair(a, b) matches Some(x) ==> region_pair(b, a) != Some(x),
        region_pair(a, b) is Some && region_pair(a, c) is Some && b != c && a != Region::JpN ==> region_pair(a, b)
            != region_pair(a, c),
{
}


/// Maps of one dictionary group, in priority order.
pub type GroupView = Seq<Map<Seq<char>, Seq<char>>>;

/// The pending run of unmatched characters, as zero or one segment.
pub open spec fn flush(pending: Seq<char>) -> Seq<Seq<char>> {
    if pending.len() > 0 {
        seq![pending]
    } else {
        Seq::empty()
    }
}

/// Forward-maximum-matching segmentation of `rest`, with `pending` the run of
/// unmatched characters already collected before it: each match becomes its
/// own segment, each maximal run of unmatched characters one segment.
pub open spec fn fmm_from(g: GroupView, pending: Seq<char>, rest: Seq<char>) -> Seq<Seq<char>>
    decreases rest.len(),
{
    if rest.len() == 0 {
        flush(pending)
    } else {
        match group_lookup(g, rest) {
            Some((n, _)) => if 0 < n <= rest.len() {
                flush(pending) + seq![rest.take(n as int)] + fmm_from(g, Seq::empty(), rest.skip(n as int))
            } else {
                Seq::empty()
            },
            None => fmm_from(g, pending.push(rest[0]), rest.drop_first()),
        }
    }
}

/// The segments of `text` under the segmentation group `g`.
pub open spec fn fmm_segments(g: GroupView, text: Seq<char>) -> Seq<Seq<char>> {
    fmm_from(g, Seq::empty(), text)
}

/// One stage on a segment, looking up at every position: a match emits the
/// matched key's value, a miss copies one character.
pub open spec fn convert_all(g: GroupView, s: Seq<char>) -> Seq<char>
    decreases s.len(),
{
    if s.len() == 0 {
        s
    } else {
        match group_lookup(g, s) {
            Some((n, v)) => if 0 < n <= s.len() {
                v + convert_all(g, s.skip(n as int))
            } else {
                s
            },
            None => seq![s[0]] + convert_all(g, s.drop_first()),
        }
    }
}

/// All conversion stages applied in order to a segment.
pub open spec fn convert_chain(chain: Seq<GroupView>, s: Seq<char>) -> Seq<char>
    decreases chain.len(),
{
    if chain.len() == 0 {
        s
    } else {
        convert_chain(chain.drop_first(), convert_all(chain[0], s))
    }
}

/// The converted segments, concatenated.
pub open spec fn convert_segments(chain: Seq<GroupView>, segs: Seq<Seq<char>>) -> Seq<char>
    decreases segs.len(),
{
    if segs.len() == 0 {
        Seq::empty()
    } else {
        convert_segments(chain, segs.drop_last()) + convert_chain(chain, segs.last())
    }
}

/// What converting `text` under a config produces.
pub open spec fn spec_convert(seg: Option<GroupView>, chain: Seq<GroupView>, text: Seq<char>) -> Seq<char> {
    match seg {
        Some(g) => convert_segments(chain, fmm_segments(g, text)),
        None => convert_chain(chain, text),
    }
}

/// Iterates the segments produced by FMM segmentation of `text`, as
/// `[start, end)` ranges into it.
pub struct SegmentIter<'a> {
    text: &'a Vec<char>,
    seg_group: &'a [Dict],
    pos: usize,
    buf_start: usize,
    buf_len: usize,
    done: bool,
}

impl<'a> SegmentIter<'a> {
    /// The group's maps.
    pub closed spec fn group(&self) -> GroupView {
        group_view(self.seg_group@)
    }

    /// The text being segmented.
    pub closed spec fn text(&self) -> Seq<char> {
        self.text@
    }

    /// The segments still to come.
    pub closed spec fn remaining(&self) -> Seq<Seq<char>> {
        if self.done {
            Seq::empty()
        } else {
            fmm_from(
                self.group(),
                self.text@.subrange(self.buf_start as int, self.buf_start + self.buf_len),
                self.text@.skip(self.pos as int),
            )
        }
    }

    /// The iterator's invariant.
    pub closed spec fn wf(&self) -> bool {
        &&& group_wf(self.seg_group@)
        &&& self.pos <= self.text@.len()
        &&& self.buf_start + self.buf_len == self.pos || self.buf_len == 0
        &&& self.buf_start <= self.pos
    }

    /// Start segmenting `text` with the group `seg_group`.
    pub fn new(text: &'a Vec<char>, seg_group: &'a [Dict]) -> (it: SegmentIter<'a>)
        requires
            group_wf(seg_group@),
        ensures
            it.wf(),
            it.text() == text@,
            it.group() == group_view(seg_group@),
            it.remaining() == fmm_segments(group_view(seg_group@), text@),
    {
        let it = SegmentIter { text, seg_group, pos: 0, buf_start: 0, buf_len: 0, done: false };
        assert(text@.subrange(0, 0) =~= Seq::<char>::empty());
        assert(text@.skip(0) =~= text@);
        it
    }

    /// The next segment, as a range into the text.
    pub fn next_segment(&mut self) -> (r: Option<(usize, usize)>)
        requires
            old(self).wf(),
        ensures
            final(self).wf(),
            final(self).text() == old(self).text(),
            final(self).group() == old(self).group(),
            match r {
                None => old(self).remaining().len() == 0 && final(self).remaining().len() == 0,
                Some((a, b)) => {
                    &&& old(self).remaining().len() > 0
                    &&& a <= b <= old(self).text().len()
                    &&& old(self).text().subrange(a as int, b as int) == old(self).remaining()[0]
                    &&& final(self).remaining() == old(self).remaining().drop_first()
                },
            },
    {
        if self.done {
            return None;
        }
        let ghost g = self.group();
        let ghost t = self.text@;
        let ghost total = self.remaining();
        while self.pos < self.text.len()
            invariant
                self.wf(),
                !self.done,
                self.text@ == t,
                self.group() == g,
                self.remaining() == total,
                old(self).text() == t,
                old(self).group() == g,
                old(self).remaining() == total,
            decreases t.len() - self.pos,
        {
            let ghost pending = t.subrange(self.buf_start as int, self.buf_start + self.buf_len);
            let ghost rest = t.skip(self.pos as int);
            proof {
                lemma_group_lookup_bound(g, rest);
            }
            match group_lookup_from(self.seg_group, self.text, self.pos) {
                Some((key_len, _value)) => {
                    if self.buf_len > 0 {
                        let a = self.buf_start;
                        let b = self.buf_start + self.buf_len;
                        self.buf_len = 0;
                        proof {
                            assert(t.subrange(self.buf_start as int, self.buf_start as int) =~= Seq::<char>::empty());
                            assert(total =~= seq![pending] + (seq![rest.take(key_len as int)] + fmm_from(g, Seq::empty(), rest.skip(key_len as int))));
                            assert(flush(Seq::<char>::empty()) =~= Seq::<Seq<char>>::empty());
                            assert(self.remaining() =~= seq![rest.take(key_len as int)] + fmm_from(g, Seq::empty(), rest.skip(key_len as int)));
                            assert(self.remaining() =~= total.drop_first());
                        }
                        return Some((a, b));
                    }
                    let a = self.pos;
                    let b = self.pos + key_len;
                    self.pos = b;
                    self.buf_start = b;
                    proof {
                        assert(pending =~= Seq::<char>::empty());
                        assert(flush(pending) =~= Seq::<Seq<char>>::empty());
                        assert(t.subrange(b as int, b as int) =~= Seq::<char>::empty());
                        assert(rest.skip(key_len as int) =~= t.skip(b as int));
                        assert(rest.take(key_len as int) =~= t.subrange(a as int, b as int));
                        assert(total =~= seq![rest.take(key_len as int)] + fmm_from(g, Seq::empty(), rest.skip(key_len as int)));
                        assert(self.remaining() =~= total.drop_first());
                    }
                    return Some((a, b));
                },
                None => {
                    if self.buf_len == 0 {
                        self.buf_start = self.pos;
                    }
                    self.buf_len = self.buf_len + 1;
                    self.pos = self.pos + 1;
                    proof {
                        assert(t.subrange(self.buf_start as int, self.buf_start + self.buf_len) =~= pending.push(rest[0]));
                        assert(rest.drop_first() =~= t.skip(self.pos as int));
                    }
                },
            }
        }
        if self.buf_len > 0 {
            let a = self.buf_start;
            let b = self.buf_start + self.buf_len;
            self.buf_len = 0;
            self.done = true;
            proof {
                assert(t.skip(self.pos as int).len() == 0);
            }
            return Some((a, b));
        }
        self.done = true;
        proof {
            assert(t.skip(self.pos as int).len() == 0);
            assert(t.subrange(self.buf_start as int, self.buf_start as int).len() == 0);
        }
        None
    }
}


/// Append the characters of `v` to `out`.
fn push_str_chars(out: &mut Vec<char>, v: &str)
    ensures
        final(out)@ == old(out)@ + v@,
{
    let mut vc = str_chars(v);
    out.append(&mut vc);
}

/// Apply one conversion stage to `seg`.
pub(crate) fn convert_segment(seg: &Vec<char>, group: &[Dict]) -> (out: Vec<char>)
    requires
        group_wf(group@),
    ensures
        out@ == convert_all(group_view(group@), seg@),
{
    let ghost g = group_view(group@);
    let mut out: Vec<char> = Vec::new();
    let mut pos: usize = 0;
    assert(seg@.skip(0) =~= seg@);
    while pos < seg.len()
        invariant
            group_wf(group@),
            g == group_view(group@),
            pos <= seg@.len(),
            out@ + convert_all(g, seg@.skip(pos as int)) == convert_all(g, seg@),
        decreases seg@.len() - pos,
    {
        let ghost rest = seg@.skip(pos as int);
        let ghost old_out = out@;
        let c = seg[pos];
        assert(rest[0] == c);
        proof {
            lemma_group_lookup_bound(g, rest);
        }
        match group_lookup_from(group, seg, pos) {
            Some((n, v)) => {
                push_str_chars(&mut out, v);
                pos += n;
                assert(rest.skip(n as int) =~= seg@.skip(pos as int));
                assert(out@ + convert_all(g, seg@.skip(pos as int)) =~= old_out + convert_all(g, rest));
            },
            None => {
                out.push(c);
                pos += 1;
                assert(rest.drop_first() =~= seg@.skip(pos as int));
                assert(out@ + convert_all(g, seg@.skip(pos as int)) =~= old_out + convert_all(g, rest));
            },
        }
    }
    assert(seg@.skip(pos as int).len() == 0);
    assert(out@ + Seq::<char>::empty() =~= out@);
    out
}

/// Apply every conversion stage, in order, to `seg`.
fn convert_through_chain(seg: Vec<char>, chain: &Vec<Vec<Dict>>) -> (out: Vec<char>)
    requires
        forall|i: int| 0 <= i < chain@.len() ==> group_wf(#[trigger] chain@[i]@),
    ensures
        out@ == convert_chain(chain@.map_values(|g: Vec<Dict>| group_view(g@)), seg@),
{
    let ghost cv = chain@.map_values(|g: Vec<Dict>| group_view(g@));
    let mut cur = seg;
    let mut i: usize = 0;
    assert(cv.skip(0) =~= cv);
    while i < chain.len()
        invariant
            forall|k: int| 0 <= k < chain@.len() ==> group_wf(#[trigger] chain@[k]@),
            cv == chain@.map_values(|g: Vec<Dict>| group_view(g@)),
            i <= chain@.len(),
            convert_chain(cv.skip(i as int), cur@) == convert_chain(cv, seg@),
        decreases chain@.len() - i,
    {
        let ghost before = cur@;
        let next = convert_segment(&cur, chain[i].as_slice());
        assert(cv.skip(i as int)[0] == group_view(chain@[i as int]@));
        assert(cv.skip(i as int).drop_first() =~= cv.skip(i + 1));
        cur = next;
        i += 1;
    }
    assert(cv.skip(chain@.len() as int).len() == 0);
    cur
}

/// Candidate maps of one dictionary group, in priority order.
pub type GroupCands = Seq<Map<Seq<char>, Seq<Seq<char>>>>;

/// The longest suffix of `s` whose UTF-8 encoding fits in `k` bytes.
pub open spec fn suffix_within(s: Seq<char>, k: nat) -> Seq<char>
    decreases s.len(),
{
    if s.len() == 0 || utf8_len(s) <= k {
        s
    } else {
        suffix_within(s.drop_first(), k)
    }
}

/// The last `n` characters of `s`, all of `s` when it is shorter.
pub open spec fn tail_chars(s: Seq<char>, n: nat) -> Seq<char> {
    if s.len() <= n {
        s
    } else {
        s.skip(s.len() - n)
    }
}

/// The distinct first characters of the non-empty candidates `cs`, in order,
/// after those already in `acc`, keeping at most four.
pub open spec fn firsts_from(acc: Seq<char>, cs: Seq<Seq<char>>) -> Seq<char>
    decreases cs.len(),
{
    if cs.len() == 0 {
        acc
    } else {
        let c = cs[0];
        let next = if c.len() > 0 && !acc.contains(c[0]) && acc.len() < 4 {
            acc.push(c[0])
        } else {
            acc
        };
        firsts_from(next, cs.drop_first())
    }
}

/// The distinct first characters of the candidates, in order, at most four.
pub open spec fn first_chars(cs: Seq<Seq<char>>) -> Seq<char> {
    firsts_from(Seq::empty(), cs)
}

/// Index of the first candidate that starts with `p` (`cs.len()` when none
/// does).
pub open spec fn first_starting(cs: Seq<Seq<char>>, p: char) -> nat
    decreases cs.len(),
{
    if cs.len() == 0 {
        0
    } else if cs[0].len() > 0 && cs[0][0] == p {
        0
    } else {
        1 + first_starting(cs.drop_first(), p)
    }
}

/// The character `p` followed by the rest of the first candidate that starts
/// with it.
pub open spec fn splice(cs: Seq<Seq<char>>, p: char) -> Seq<char> {
    let j = first_starting(cs, p);
    if j < cs.len() {
        seq![p] + cs[j as int].drop_first()
    } else {
        seq![p]
    }
}

/// How many trailing bytes of the written text a choice looks at.
pub open spec fn context_bytes(mode: NgramMode) -> nat {
    match mode {
        NgramMode::Bigram => 3,
        _ => 6,
    }
}

/// How many trailing characters of the previous text a choice looks at when
/// nothing fits in the byte budget of the written text.
pub open spec fn context_chars(mode: NgramMode) -> nat {
    match mode {
        NgramMode::Bigram => 1,
        _ => 2,
    }
}

/// The context of a choice: the tail of the written text within the mode's
/// byte budget, or, when that is empty, the last characters of `prev`;
/// `None` when both are empty.
pub open spec fn choice_context(mode: NgramMode, prev: Seq<char>, written: Seq<char>) -> Option<Seq<char>> {
    let t = suffix_within(written, context_bytes(mode));
    let c = if t.len() > 0 {
        t
    } else {
        tail_chars(prev, context_chars(mode))
    };
    if c.len() > 0 {
        Some(c)
    } else {
        None
    }
}

/// Each character as a one-character word.
pub open spec fn singles(fc: Seq<char>) -> Seq<Seq<char>> {
    fc.map_values(|c: char| seq![c])
}

/// What a match with the values `cs` emits under the model `t`, with `prev`
/// the text before this stage's segment and `written` the text written so
/// far. A single value, or values that all start alike, give the default
/// value. Otherwise, with nothing before, the first of the distinct first
/// characters is taken; else the model picks among them after the context.
/// The pick is followed by the rest of the first value that starts with it.
pub open spec fn choose_emit(
    t: Map<Seq<Seq<char>>, u64>,
    mode: NgramMode,
    prev: Seq<char>,
    written: Seq<char>,
    cs: Seq<Seq<char>>,
) -> Seq<char> {
    let fc = first_chars(cs);
    if cs.len() <= 1 || fc.len() <= 1 {
        cs[0]
    } else if prev.len() == 0 && written.len() == 0 {
        splice(cs, fc[0])
    } else {
        splice(
            cs,
            fc[best_upto(t, context_word(choice_context(mode, prev, written)), singles(fc), fc.len()) as int],
        )
    }
}

proof fn lemma_firsts_from(acc: Seq<char>, cs: Seq<Seq<char>>)
    requires
        acc.len() <= 4,
        forall|a: int, b: int| 0 <= a < b < acc.len() ==> acc[a] != acc[b],
    ensures
        firsts_from(acc, cs).len() <= 4,
        acc.len() <= firsts_from(acc, cs).len(),
        firsts_from(acc, cs).take(acc.len() as int) == acc,
        forall|a: int, b: int|
            0 <= a < b < firsts_from(acc, cs).len() ==> firsts_from(acc, cs)[a] != firsts_from(acc, cs)[b],
        forall|i: int|
            #![trigger firsts_from(acc, cs)[i]]
            acc.len() <= i < firsts_from(acc, cs).len() ==> exists|k: int|
                0 <= k < cs.len() && cs[k].len() > 0 && #[trigger] cs[k][0] == firsts_from(acc, cs)[i],
    decreases cs.len(),
{
    if cs.len() > 0 {
        let c = cs[0];
        let next = if c.len() > 0 && !acc.contains(c[0]) && acc.len() < 4 {
            acc.push(c[0])
        } else {
            acc
        };
        if next != acc {
            assert forall|a: int, b: int| 0 <= a < b < next.len() implies next[a] != next[b] by {
                if b == acc.len() {
                    assert(next[a] == acc[a]);
                    assert(acc.contains(acc[a]));
                }
            }
        }
        lemma_firsts_from(next, cs.drop_first());
        let r = firsts_from(next, cs.drop_first());
        assert(r == firsts_from(acc, cs));
        assert(r.take(acc.len() as int) =~= r.take(next.len() as int).take(acc.len() as int));
        assert(next.take(acc.len() as int) =~= acc);
        assert forall|i: int| #![trigger r[i]] acc.len() <= i < r.len() implies exists|k: int|
            0 <= k < cs.len() && cs[k].len() > 0 && #[trigger] cs[k][0] == r[i] by {
            if i < next.len() {
                assert(r[i] == r.take(next.len() as int)[i]);
                assert(cs[0][0] == r[i]);
            } else {
                let k = choose|k: int|
                    0 <= k < cs.drop_first().len() && cs.drop_first()[k].len() > 0 && #[trigger] cs.drop_first()[k][0]
                        == r[i];
                assert(cs[k + 1] == cs.drop_first()[k]);
            }
        }
    }
}

proof fn lemma_first_starting(cs: Seq<Seq<char>>, p: char)
    ensures
        first_starting(cs, p) <= cs.len(),
        first_starting(cs, p) < cs.len() ==> cs[first_starting(cs, p) as int].len() > 0 && cs[first_starting(
            cs,
            p,
        ) as int][0] == p,
        forall|k: int| 0 <= k < first_starting(cs, p) ==> !(cs[k].len() > 0 && #[trigger] cs[k][0] == p),
        (exists|k: int| 0 <= k < cs.len() && cs[k].len() > 0 && #[trigger] cs[k][0] == p) ==> first_starting(cs, p)
            < cs.len(),
    decreases cs.len(),
{
    if cs.len() > 0 && !(cs[0].len() > 0 && cs[0][0] == p) {
        lemma_first_starting(cs.drop_first(), p);
        assert forall|k: int| 0 <= k < first_starting(cs, p) implies !(cs[k].len() > 0 && #[trigger] cs[k][0] == p) by {
            if k > 0 {
                assert(cs[k] == cs.drop_first()[k - 1]);
            }
        }
        if exists|k: int| 0 <= k < cs.len() && cs[k].len() > 0 && #[trigger] cs[k][0] == p {
            let k = choose|k: int| 0 <= k < cs.len() && cs[k].len() > 0 && #[trigger] cs[k][0] == p;
            assert(k > 0);
            assert(cs.drop_first()[k - 1] == cs[k]);
        }
    }
}

/// What a match emits. With a single value, or values that all begin with
/// the same character, the default value. Otherwise a character `p` that
/// begins some value, followed by the rest of the first value that begins
/// with `p`: with nothing before, the first character of the first value
/// that has one; else a character that the model scores, after the
/// context, no lower than any other such character, and strictly higher
/// than every earlier one whose score is a number. The distinct first
/// characters considered are at most four, each beginning some value.
pub proof fn lemma_choose_emit(
    t: Map<Seq<Seq<char>>, u64>,
    mode: NgramMode,
    prev: Seq<char>,
    written: Seq<char>,
    cs: Seq<Seq<char>>,
)
    requires
        cs.len() > 0,
    ensures
        ({
            let fc = first_chars(cs);
            let r = choose_emit(t, mode, prev, written, cs);
            let ctx = context_word(choice_context(mode, prev, written));
            &&& fc.len() <= 4
            &&& forall|a: int, b: int| 0 <= a < b < fc.len() ==> fc[a] != fc[b]
            &&& forall|i: int|
                #![trigger fc[i]]
                0 <= i < fc.len() ==> exists|k: int| 0 <= k < cs.len() && cs[k].len() > 0 && #[trigger] cs[k][0] == fc[i]
            &&& (cs.len() <= 1 || fc.len() <= 1) ==> r == cs[0]
            &&& cs.len() > 1 && fc.len() > 1 ==> exists|j: int| {
                &&& 0 <= j < fc.len()
                &&& r.len() > 0 && r[0] == fc[j]
                &&& exists|k: int| {
                    &&& 0 <= k < cs.len() && cs[k].len() > 0 && cs[k][0] == fc[j]
                    &&& r == #[trigger] cs[k]
                    &&& forall|m: int| 0 <= m < k ==> !(cs[m].len() > 0 && #[trigger] cs[m][0] == fc[j])
                }
                &&& prev.len() == 0 && written.len() == 0 ==> j == 0
                &&& !(prev.len() == 0 && written.len() == 0) ==> {
                    &&& forall|i: int|
                        0 <= i < fc.len() ==> !crate::ngram::f64_gt(
                            #[trigger] crate::ngram::cand_score(t, ctx, seq![fc[i]]),
                            crate::ngram::cand_score(t, ctx, seq![fc[j]]),
                        )
                    &&& forall|i: int|
                        0 <= i < j && !crate::ngram::is_nan_bits(
                            #[trigger] crate::ngram::cand_score(t, ctx, seq![fc[i]]),
                        ) ==> crate::ngram::f64_gt(
                            crate::ngram::cand_score(t, ctx, seq![fc[j]]),
                            crate::ngram::cand_score(t, ctx, seq![fc[i]]),
                        )
                }
            }
        }),
{
    let fc = first_chars(cs);
    lemma_firsts_from(Seq::empty(), cs);
    assert(fc.len() >= 0);
    let r = choose_emit(t, mode, prev, written, cs);
    let ctx = context_word(choice_context(mode, prev, written));
    assert forall|i: int| #![trigger fc[i]] 0 <= i < fc.len() implies exists|k: int|
        0 <= k < cs.len() && cs[k].len() > 0 && #[trigger] cs[k][0] == fc[i] by {
        assert(fc[i] == firsts_from(Seq::<char>::empty(), cs)[i]);
    }
    if cs.len() > 1 && fc.len() > 1 {
        let sf = singles(fc);
        let nocontext = prev.len() == 0 && written.len() == 0;
        crate::ngram::lemma_best_is_first_maximum(t, ctx, sf, fc.len());
        let b = best_upto(t, ctx, sf, fc.len()) as int;
        let j: int = if nocontext { 0 } else { b };
        let p = fc[j];
        lemma_first_starting(cs, p);
        assert(exists|kk: int| 0 <= kk < cs.len() && cs[kk].len() > 0 && #[trigger] cs[kk][0] == p);
        let k = first_starting(cs, p) as int;
        assert(k < cs.len());
        assert(r == splice(cs, p));
        assert(r =~= cs[k]);
        assert(r.len() > 0 && r[0] == fc[j]);
        if !nocontext {
            assert forall|i: int| 0 <= i < fc.len() implies !crate::ngram::f64_gt(
                #[trigger] crate::ngram::cand_score(t, ctx, seq![fc[i]]),
                crate::ngram::cand_score(t, ctx, seq![fc[j]]),
            ) by {
                assert(sf[i] == seq![fc[i]]);
                assert(sf[j] == seq![fc[j]]);
            }
            assert forall|i: int|
                0 <= i < j && !crate::ngram::is_nan_bits(#[trigger] crate::ngram::cand_score(t, ctx, seq![fc[i]]))
                    implies crate::ngram::f64_gt(
                crate::ngram::cand_score(t, ctx, seq![fc[j]]),
                crate::ngram::cand_score(t, ctx, seq![fc[i]]),
            ) by {
                assert(sf[i] == seq![fc[i]]);
                assert(sf[j] == seq![fc[j]]);
            }
        }
        assert(exists|kk: int| {
            &&& 0 <= kk < cs.len() && cs[kk].len() > 0 && cs[kk][0] == fc[j]
            &&& r == #[trigger] cs[kk]
            &&& forall|m: int| 0 <= m < kk ==> !(cs[m].len() > 0 && #[trigger] cs[m][0] == fc[j])
        });
    }
}

/// One stage with n-gram disambiguation on the rest `rest` of a segment,
/// `out` being what the stage has emitted so far and `before` the output of
/// the earlier segments.
pub open spec fn ngram_stage_from(
    g: GroupView,
    gc: GroupCands,
    t: Map<Seq<Seq<char>>, u64>,
    mode: NgramMode,
    prev: Seq<char>,
    before: Seq<char>,
    out: Seq<char>,
    rest: Seq<char>,
) -> Seq<char>
    decreases rest.len(),
{
    if rest.len() == 0 {
        out
    } else {
        match group_cands(g, gc, rest) {
            Some((n, cs)) => if 0 < n <= rest.len() {
                ngram_stage_from(
                    g,
                    gc,
                    t,
                    mode,
                    prev,
                    before,
                    out + choose_emit(t, mode, prev, before + out, cs),
                    rest.skip(n as int),
                )
            } else {
                out + rest
            },
            None => ngram_stage_from(g, gc, t, mode, prev, before, out.push(rest[0]), rest.drop_first()),
        }
    }
}

/// All stages with n-gram disambiguation on a segment: each stage's context
/// `prev` is the last six bytes of the previous stage's output (for the
/// first, what the caller gives).
pub open spec fn ngram_chain(
    chain: Seq<GroupView>,
    cchain: Seq<GroupCands>,
    t: Map<Seq<Seq<char>>, u64>,
    mode: NgramMode,
    prev: Seq<char>,
    before: Seq<char>,
    s: Seq<char>,
) -> Seq<char>
    decreases chain.len(),
{
    if chain.len() == 0 || cchain.len() == 0 {
        s
    } else {
        let o = ngram_stage_from(chain[0], cchain[0], t, mode, prev, before, Seq::empty(), s);
        ngram_chain(chain.drop_first(), cchain.drop_first(), t, mode, suffix_within(o, 6), before, o)
    }
}

/// The segments `segs` converted in turn with n-gram disambiguation, after
/// the output `out`; each segment's context is the last six bytes of the
/// previous segment's output.
pub open spec fn ngram_segments_from(
    chain: Seq<GroupView>,
    cchain: Seq<GroupCands>,
    t: Map<Seq<Seq<char>>, u64>,
    mode: NgramMode,
    prev: Seq<char>,
    out: Seq<char>,
    segs: Seq<Seq<char>>,
) -> Seq<char>
    decreases segs.len(),
{
    if segs.len() == 0 {
        out
    } else {
        let o = ngram_chain(chain, cchain, t, mode, prev, out, segs[0]);
        ngram_segments_from(chain, cchain, t, mode, suffix_within(o, 6), out + o, segs.drop_first())
    }
}

/// What converting `text` with the n-gram model `t` produces.
pub open spec fn spec_convert_ngram(
    seg: Option<GroupView>,
    chain: Seq<GroupView>,
    cchain: Seq<GroupCands>,
    t: Map<Seq<Seq<char>>, u64>,
    mode: NgramMode,
    text: Seq<char>,
) -> Seq<char> {
    match seg {
        Some(g) => ngram_segments_from(chain, cchain, t, mode, Seq::empty(), Seq::empty(), fmm_segments(g, text)),
        None => ngram_chain(chain, cchain, t, mode, Seq::empty(), Seq::empty(), text),
    }
}

/// Where a text longer than `k` characters keeps its suffix within `k`
/// bytes: among its last `k` characters.
proof fn lemma_suffix_within_tail(s: Seq<char>, k: nat)
    ensures
        suffix_within(s, k) == suffix_within(tail_chars(s, k), k),
    decreases s.len(),
{
    if s.len() > k {
        crate::text::lemma_utf8_len_take(s, 0);
        lemma_suffix_within_tail(s.drop_first(), k);
        assert(tail_chars(s.drop_first(), k) =~= tail_chars(s, k));
    }
}

/// A choice depends on the written text only through its last six
/// characters.
proof fn lemma_choose_tail(
    t: Map<Seq<Seq<char>>, u64>,
    mode: NgramMode,
    prev: Seq<char>,
    written: Seq<char>,
    cs: Seq<Seq<char>>,
)
    ensures
        choose_emit(t, mode, prev, written, cs) == choose_emit(t, mode, prev, tail_chars(written, 6), cs),
{
    let k = context_bytes(mode);
    lemma_suffix_within_tail(written, k);
    lemma_suffix_within_tail(tail_chars(written, 6), k);
    assert(tail_chars(tail_chars(written, 6), k) =~= tail_chars(written, k));
}

/// The last (at most) `m` characters of `a + b`.
fn last_chars(a: &Vec<char>, b: &Vec<char>, m: usize) -> (r: Vec<char>)
    ensures
        r@ == tail_chars(a@ + b@, m as nat),
{
    let mut r: Vec<char> = Vec::new();
    let ghost ab = a@ + b@;
    if b.len() >= m {
        let start = b.len() - m;
        let mut i = start;
        while i < b.len()
            invariant
                start <= i <= b@.len(),
                r@ == b@.subrange(start as int, i as int),
            decreases b@.len() - i,
        {
            r.push(b[i]);
            assert(b@.subrange(start as int, i + 1) =~= b@.subrange(start as int, i as int).push(b@[i as int]));
            i += 1;
        }
        proof {
            if ab.len() <= m as nat {
                assert(r@ =~= ab);
            } else {
                assert(r@ =~= ab.skip(ab.len() - m));
            }
        }
    } else {
        let need = m - b.len();
        let start = if a.len() > need { a.len() - need } else { 0 };
        let mut i = start;
        while i < a.len()
            invariant
                start <= i <= a@.len(),
                r@ == a@.subrange(start as int, i as int),
            decreases a@.len() - i,
        {
            r.push(a[i]);
            assert(a@.subrange(start as int, i + 1) =~= a@.subrange(start as int, i as int).push(a@[i as int]));
            i += 1;
        }
        let mut j: usize = 0;
        while j < b.len()
            invariant
                j <= b@.len(),
                r@ == a@.subrange(start as int, a@.len() as int) + b@.take(j as int),
            decreases b@.len() - j,
        {
            r.push(b[j]);
            assert(b@.take(j + 1) =~= b@.take(j as int).push(b@[j as int]));
            j += 1;
        }
        assert(b@.take(b@.len() as int) =~= b@);
        proof {
            if ab.len() <= m as nat {
                assert(r@ =~= ab);
            } else {
                assert(r@ =~= ab.skip(ab.len() - m));
            }
        }
    }
    r
}

/// The longest suffix of `s` within `k` bytes, for a short `s`.
fn suffix_within_short(s: &Vec<char>, k: usize) -> (r: Vec<char>)
    requires
        s@.len() <= 6,
    ensures
        r@ == suffix_within(s@, k as nat),
{
    let mut total: usize = 0;
    let mut i: usize = 0;
    while i < s.len()
        invariant
            i <= s@.len() <= 6,
            total == utf8_len(s@.take(i as int)),
            total <= 4 * i,
        decreases s@.len() - i,
    {
        proof {
            crate::text::lemma_utf8_len_push(s@.take(i as int), s@[i as int]);
            assert(s@.take(i + 1) =~= s@.take(i as int).push(s@[i as int]));
        }
        total = total + crate::text::utf8_width(s[i]);
        i += 1;
    }
    assert(s@.take(s@.len() as int) =~= s@);
    let mut j: usize = 0;
    assert(s@.skip(0) =~= s@);
    while j < s.len() && total > k
        invariant
            j <= s@.len(),
            total == utf8_len(s@.skip(j as int)),
            suffix_within(s@, k as nat) == suffix_within(s@.skip(j as int), k as nat),
        decreases s@.len() - j,
    {
        let ghost x = s@.skip(j as int);
        proof {
            crate::text::lemma_utf8_len_concat(seq![x[0]], x.drop_first());
            assert(seq![x[0]] + x.drop_first() =~= x);
            crate::text::lemma_utf8_len_push(Seq::<char>::empty(), x[0]);
            assert(Seq::<char>::empty().push(x[0]) =~= seq![x[0]]);
            assert(x.drop_first() =~= s@.skip(j + 1));
        }
        total = total - crate::text::utf8_width(s[j]);
        j += 1;
    }
    proof {
        if j >= s@.len() {
            assert(s@.skip(j as int).len() == 0);
        }
    }
    crate::text::chars_sub(s, j, s.len())
}

/// The longest suffix of `s` within `k` bytes (`k` at most six).
fn tail_within(s: &Vec<char>, k: usize) -> (r: Vec<char>)
    requires
        k <= 6,
    ensures
        r@ == suffix_within(s@, k as nat),
{
    let e: Vec<char> = Vec::new();
    let t = last_chars(&e, s, 6);
    assert(e@ + s@ =~= s@);
    proof {
        lemma_suffix_within_tail(s@, k as nat);
        lemma_suffix_within_tail(t@, k as nat);
        assert(tail_chars(t@, k as nat) =~= tail_chars(s@, k as nat));
    }
    suffix_within_short(&t, k)
}

/// Whether `v` holds `c`.
fn has_char(v: &Vec<char>, c: char) -> (b: bool)
    ensures
        b == v@.contains(c),
{
    let mut i: usize = 0;
    while i < v.len()
        invariant
            i <= v@.len(),
            forall|j: int| 0 <= j < i ==> v@[j] != c,
        decreases v@.len() - i,
    {
        if v[i] == c {
            return true;
        }
        i += 1;
    }
    false
}

/// `p` followed by the rest of the first candidate that starts with it.
fn splice_exec(cands: &Vec<String>, p: char) -> (r: Vec<char>)
    ensures
        r@ == splice(strings_view(cands@), p),
{
    let ghost cs = strings_view(cands@);
    let mut j: usize = 0;
    assert(cs.skip(0) =~= cs);
    while j < cands.len()
        invariant
            j <= cands@.len(),
            cs == strings_view(cands@),
            first_starting(cs, p) == j + first_starting(cs.skip(j as int), p),
        decreases cands@.len() - j,
    {
        let cv = str_chars(cands[j].as_str());
        let ghost x = cs.skip(j as int);
        assert(x[0] == cands@[j as int]@);
        if cv.len() > 0 && cv[0] == p {
            let mut r: Vec<char> = Vec::new();
            r.push(p);
            let rest = crate::text::chars_sub(&cv, 1, cv.len());
            let mut rest = rest;
            r.append(&mut rest);
            assert(cv@.subrange(1, cv@.len() as int) =~= cv@.drop_first());
            return r;
        }
        assert(x.drop_first() =~= cs.skip(j + 1));
        j += 1;
    }
    assert(cs.skip(j as int).len() == 0);
    let mut r: Vec<char> = Vec::new();
    r.push(p);
    assert(r@ =~= seq![p]);
    r
}

/// What a match whose values are `cands` emits (see `choose_emit`): `prev`
/// is the text before this stage's segment, `written` the text written so
/// far (only its last six characters matter).
pub fn choose_candidate(
    model: &NgramModel,
    mode: NgramMode,
    prev: &Vec<char>,
    written: &Vec<char>,
    cands: &Vec<String>,
) -> (r: Vec<char>)
    requires
        cands@.len() > 0,
    ensures
        r@ == choose_emit(model@, mode, prev@, written@, strings_view(cands@)),
{
    let ghost cs = strings_view(cands@);
    let mut fc: Vec<char> = Vec::new();
    let mut i: usize = 0;
    assert(cs.skip(0) =~= cs);
    while i < cands.len()
        invariant
            i <= cands@.len(),
            cs == strings_view(cands@),
            fc@.len() <= 4,
            firsts_from(fc@, cs.skip(i as int)) == first_chars(cs),
        decreases cands@.len() - i,
    {
        let cv = str_chars(cands[i].as_str());
        let ghost x = cs.skip(i as int);
        assert(x[0] == cands@[i as int]@);
        assert(x.drop_first() =~= cs.skip(i + 1));
        if cv.len() > 0 && !has_char(&fc, cv[0]) && fc.len() < 4 {
            fc.push(cv[0]);
        }
        i += 1;
    }
    assert(cs.skip(cands@.len() as int).len() == 0);
    if cands.len() <= 1 || fc.len() <= 1 {
        return str_chars(cands[0].as_str());
    }
    if prev.len() == 0 && written.len() == 0 {
        return splice_exec(cands, fc[0]);
    }
    let kb: usize = match mode {
        NgramMode::Bigram => 3,
        _ => 6,
    };
    let kc: usize = match mode {
        NgramMode::Bigram => 1,
        _ => 2,
    };
    let t = tail_within(written, kb);
    let ctx = if t.len() > 0 {
        t
    } else {
        let e: Vec<char> = Vec::new();
        let c = last_chars(&e, prev, kc);
        assert(e@ + prev@ =~= prev@);
        c
    };
    let ghost cctx = choice_context(mode, prev@, written@);
    let mut words: Vec<String> = Vec::new();
    let mut j: usize = 0;
    while j < fc.len()
        invariant
            j <= fc@.len(),
            strings_view(words@) == singles(fc@).take(j as int),
        decreases fc@.len() - j,
    {
        let mut one: Vec<char> = Vec::new();
        one.push(fc[j]);
        let w = string_of_chars(&one);
        let ghost before = strings_view(words@);
        words.push(w);
        assert(strings_view(words@) =~= before.push(seq![fc@[j as int]]));
        assert(singles(fc@).take(j + 1) =~= singles(fc@).take(j as int).push(seq![fc@[j as int]]));
        j += 1;
    }
    assert(singles(fc@).take(fc@.len() as int) =~= singles(fc@));
    let ctx_s = string_of_chars(&ctx);
    let pick = if ctx.len() > 0 {
        model.disambiguate(Some(ctx_s.as_str()), words.as_slice())
    } else {
        model.disambiguate(None, words.as_slice())
    };
    match pick {
        Some(p) => {
            let pv = str_chars(p.as_str());
            let ghost b = best_upto(model@, context_word(cctx), singles(fc@), fc@.len());
            proof {
                crate::ngram::lemma_best_upto_bound(model@, context_word(cctx), singles(fc@), fc@.len());
                assert(p@ == seq![fc@[b as int]]);
            }
            splice_exec(cands, pv[0])
        },
        None => {
            assert(false);
            Vec::new()
        },
    }
}

/// One stage with n-gram disambiguation on `seg`: see `ngram_stage_from`.
fn ngram_segment(
    seg: &Vec<char>,
    group: &[Dict],
    model: &NgramModel,
    mode: NgramMode,
    prev: &Vec<char>,
    before: &Vec<char>,
) -> (out: Vec<char>)
    requires
        group_wf(group@),
    ensures
        out@ == ngram_stage_from(
            group_view(group@),
            group_cands_view(group@),
            model@,
            mode,
            prev@,
            before@,
            Seq::empty(),
            seg@,
        ),
{
    let ghost g = group_view(group@);
    let ghost gc = group_cands_view(group@);
    let ghost goal = ngram_stage_from(g, gc, model@, mode, prev@, before@, Seq::empty(), seg@);
    let mut out: Vec<char> = Vec::new();
    let mut pos: usize = 0;
    assert(seg@.skip(0) =~= seg@);
    while pos < seg.len()
        invariant
            group_wf(group@),
            g == group_view(group@),
            gc == group_cands_view(group@),
            pos <= seg@.len(),
            ngram_stage_from(g, gc, model@, mode, prev@, before@, out@, seg@.skip(pos as int)) == goal,
        decreases seg@.len() - pos,
    {
        let ghost rest = seg@.skip(pos as int);
        let c = seg[pos];
        assert(rest[0] == c);
        proof {
            lemma_group_lookup_bound(g, rest);
            crate::dict::lemma_group_cands(group@, rest);
        }
        match group_cands_from(group, seg, pos) {
            Some((n, cands)) => {
                let written = last_chars(before, &out, 6);
                proof {
                    lemma_choose_tail(model@, mode, prev@, before@ + out@, strings_view(cands@));
                }
                let mut e = choose_candidate(model, mode, prev, &written, cands);
                out.append(&mut e);
                pos += n;
                assert(rest.skip(n as int) =~= seg@.skip(pos as int));
            },
            None => {
                out.push(c);
                pos += 1;
                assert(rest.drop_first() =~= seg@.skip(pos as int));
            },
        }
    }
    assert(seg@.skip(pos as int).len() == 0);
    out
}

/// All stages with n-gram disambiguation on `seg`: see `ngram_chain`.
fn ngram_through_chain(
    seg: Vec<char>,
    chain: &Vec<Vec<Dict>>,
    model: &NgramModel,
    mode: NgramMode,
    prev: Vec<char>,
    before: &Vec<char>,
) -> (out: Vec<char>)
    requires
        forall|i: int| 0 <= i < chain@.len() ==> group_wf(#[trigger] chain@[i]@),
    ensures
        out@ == ngram_chain(
            chain@.map_values(|g: Vec<Dict>| group_view(g@)),
            chain@.map_values(|g: Vec<Dict>| group_cands_view(g@)),
            model@,
            mode,
            prev@,
            before@,
            seg@,
        ),
{
    let ghost cv = chain@.map_values(|g: Vec<Dict>| group_view(g@));
    let ghost ccv = chain@.map_values(|g: Vec<Dict>| group_cands_view(g@));
    let ghost goal = ngram_chain(cv, ccv, model@, mode, prev@, before@, seg@);
    let mut cur = seg;
    let mut p = prev;
    let mut i: usize = 0;
    assert(cv.skip(0) =~= cv);
    assert(ccv.skip(0) =~= ccv);
    while i < chain.len()
        invariant
            forall|k: int| 0 <= k < chain@.len() ==> group_wf(#[trigger] chain@[k]@),
            cv == chain@.map_values(|g: Vec<Dict>| group_view(g@)),
            ccv == chain@.map_values(|g: Vec<Dict>| group_cands_view(g@)),
            i <= chain@.len(),
            ngram_chain(cv.skip(i as int), ccv.skip(i as int), model@, mode, p@, before@, cur@) == goal,
        decreases chain@.len() - i,
    {
        let next = ngram_segment(&cur, chain[i].as_slice(), model, mode, &p, before);
        assert(cv.skip(i as int)[0] == group_view(chain@[i as int]@));
        assert(ccv.skip(i as int)[0] == group_cands_view(chain@[i as int]@));
        assert(cv.skip(i as int).drop_first() =~= cv.skip(i + 1));
        assert(ccv.skip(i as int).drop_first() =~= ccv.skip(i + 1));
        p = tail_within(&next, 6);
        cur = next;
        i += 1;
    }
    assert(cv.skip(chain@.len() as int).len() == 0);
    cur
}

/// A configured converter: an optional segmentation group, an ordered
/// chain of conversion stages, and an optional n-gram model.
pub struct Converter {
    cfg: ResolvedConfig,
    ngram: Option<NgramModel>,
    ngram_mode: NgramMode,
}

impl Converter {
    #[verifier::type_invariant]
    closed spec fn inv(&self) -> bool {
        spec_resolved_wf(self.cfg)
    }

    /// The segmentation group's maps, if the config segments its input.
    pub closed spec fn seg_view(&self) -> Option<GroupView> {
        self.cfg.seg_view()
    }

    /// The conversion stages' maps, in order.
    pub closed spec fn chain_view(&self) -> Seq<GroupView> {
        self.cfg.chain_view()
    }

    /// The conversion stages' candidate maps, in order.
    pub closed spec fn chain_cands_view(&self) -> Seq<GroupCands> {
        self.cfg.chain_cands_view()
    }

    /// The n-gram model, if disambiguation is on.
    pub closed spec fn ngram_view(&self) -> Option<Map<Seq<Seq<char>>, u64>> {
        match self.ngram {
            Some(m) => Some(m@),
            None => None,
        }
    }

    /// The n-gram mode.
    pub closed spec fn mode(&self) -> NgramMode {
        self.ngram_mode
    }

    /// Build a converter from a resolved config, with n-gram disambiguation off.
    pub fn from_resolved(cfg: ResolvedConfig) -> (c: Converter)
        requires
            spec_resolved_wf(cfg),
        ensures
            c.seg_view() == cfg.seg_view(),
            c.chain_view() == cfg.chain_view(),
            c.chain_cands_view() == cfg.chain_cands_view(),
            c.ngram_view() is None,
            c.mode() == NgramMode::Off,
    {
        Converter { cfg, ngram: None, ngram_mode: NgramMode::Off }
    }

    /// Enable n-gram disambiguation with the given model and mode.
    pub fn with_ngram(self, model: NgramModel, mode: NgramMode) -> (c: Converter)
        requires
            mode != NgramMode::Off,
        ensures
            c.seg_view() == self.seg_view(),
            c.chain_view() == self.chain_view(),
            c.chain_cands_view() == self.chain_cands_view(),
            c.ngram_view() == Some(model@),
            c.mode() == mode,
    {
        proof {
            use_type_invariant(&self);
        }
        Converter { cfg: self.cfg, ngram: Some(model), ngram_mode: mode }
    }

    /// Convert a piece of text: without a model, each segment goes through
    /// every stage taking the default value of each match; with one, a match
    /// whose values start differently is settled by the model.
    pub fn convert(&self, text: &str) -> (r: String)
        ensures
            match self.ngram_view() {
                None => r@ == spec_convert(self.seg_view(), self.chain_view(), text@),
                Some(t) => r@ == spec_convert_ngram(
                    self.seg_view(),
                    self.chain_view(),
                    self.chain_cands_view(),
                    t,
                    self.mode(),
                    text@,
                ),
            },
    {
        proof {
            use_type_invariant(self);
        }
        let chars = str_chars(text);
        let out = match &self.ngram {
            None => self.convert_plain(&chars),
            Some(model) => self.convert_ngram(&chars, model),
        };
        string_of_chars(&out)
    }

    /// `convert` without a model.
    fn convert_plain(&self, chars: &Vec<char>) -> (out: Vec<char>)
        requires
            spec_resolved_wf(self.cfg),
        ensures
            out@ == spec_convert(self.seg_view(), self.chain_view(), chars@),
    {
        match &self.cfg.segmentation {
            Some(seg_group) => {
                let ghost g = group_view(seg_group@);
                let ghost cv = self.cfg.chain_view();
                let mut it = SegmentIter::new(chars, seg_group.as_slice());
                let mut out: Vec<char> = Vec::new();
                let ghost mut done: Seq<Seq<char>> = Seq::empty();
                let mut finished = false;
                while !finished
                    invariant
                        it.wf(),
                        it.text() == chars@,
                        it.group() == g,
                        spec_resolved_wf(self.cfg),
                        cv == self.cfg.chain_view(),
                        fmm_segments(g, chars@) == done + it.remaining(),
                        out@ == convert_segments(cv, done),
                        finished ==> it.remaining().len() == 0,
                    decreases it.remaining().len() + (if finished { 0int } else { 1int }),
                {
                    let ghost before = it.remaining();
                    match it.next_segment() {
                        Some((a, b)) => {
                            let seg = crate::text::chars_sub(chars, a, b);
                            let mut conv = convert_through_chain(seg, &self.cfg.chain);
                            out.append(&mut conv);
                            proof {
                                let ndone = done.push(before[0]);
                                assert(ndone.drop_last() =~= done);
                                assert(ndone + it.remaining() =~= done + before);
                                done = ndone;
                            }
                        },
                        None => {
                            assert(done + before =~= done);
                            finished = true;
                        },
                    }
                }
                assert(done + it.remaining() =~= done);
                out
            },
            None => {
                let v = crate::text::chars_sub(chars, 0, chars.len());
                assert(chars@.subrange(0, chars@.len() as int) =~= chars@);
                convert_through_chain(v, &self.cfg.chain)
            },
        }
    }

    /// `convert` with the model `model`.
    fn convert_ngram(&self, chars: &Vec<char>, model: &NgramModel) -> (out: Vec<char>)
        requires
            spec_resolved_wf(self.cfg),
        ensures
            out@ == spec_convert_ngram(
                self.seg_view(),
                self.chain_view(),
                self.chain_cands_view(),
                model@,
                self.mode(),
                chars@,
            ),
    {
        let ghost cv = self.cfg.chain_view();
        let ghost ccv = self.chain_cands_view();
        let mode = self.ngram_mode;
        match &self.cfg.segmentation {
            Some(seg_group) => {
                let ghost g = group_view(seg_group@);
                let ghost goal = ngram_segments_from(cv, ccv, model@, mode, Seq::empty(), Seq::empty(), fmm_segments(g, chars@));
                let mut it = SegmentIter::new(chars, seg_group.as_slice());
                let mut out: Vec<char> = Vec::new();
                let mut prev: Vec<char> = Vec::new();
                let mut finished = false;
                while !finished
                    invariant
                        it.wf(),
                        it.text() == chars@,
                        it.group() == g,
                        spec_resolved_wf(self.cfg),
                        cv == self.cfg.chain_view(),
                        ccv == self.chain_cands_view(),
                        mode == self.mode(),
                        ngram_segments_from(cv, ccv, model@, mode, prev@, out@, it.remaining()) == goal,
                        finished ==> it.remaining().len() == 0,
                    decreases it.remaining().len() + (if finished { 0int } else { 1int }),
                {
                    let ghost before = it.remaining();
                    match it.next_segment() {
                        Some((a, b)) => {
                            let seg = crate::text::chars_sub(chars, a, b);
                            let p = prev;
                            let mut conv = ngram_through_chain(seg, &self.cfg.chain, model, mode, p, &out);
                            prev = tail_within(&conv, 6);
                            out.append(&mut conv);
                            assert(before.drop_first() == it.remaining());
                        },
                        None => {
                            finished = true;
                        },
                    }
                }
                out
            },
            None => {
                let v = crate::text::chars_sub(chars, 0, chars.len());
                assert(chars@.subrange(0, chars@.len() as int) =~= chars@);
                let e: Vec<char> = Vec::new();
                let e2: Vec<char> = Vec::new();
                ngram_through_chain(v, &self.cfg.chain, model, mode, e, &e2)
            },
        }
    }
}


/// `x` occurs in `t` as a contiguous run.
pub open spec fn is_factor(x: Seq<char>, t: Seq<char>) -> bool {
    exists|a: int, b: int| 0 <= a <= b <= t.len() && t.subrange(a, b) == x
}

/// No key of `m` occurs anywhere in `t`.
pub open spec fn no_key_occurs(m: Map<Seq<char>, Seq<char>>, t: Seq<char>) -> bool {
    forall|a: int, b: int| 0 <= a < b <= t.len() ==> !m.contains_key(#[trigger] t.subrange(a, b))
}

/// No key of any dictionary of `g` occurs anywhere in `t`.
pub open spec fn group_has_no_key_in(g: GroupView, t: Seq<char>) -> bool {
    forall|i: int| 0 <= i < g.len() ==> no_key_occurs(#[trigger] g[i], t)
}

proof fn lemma_fmm_from_partition(g: GroupView, p: Seq<char>, r: Seq<char>)
    ensures
        fmm_from(g, p, r).flatten() == p + r,
        forall|i: int| 0 <= i < fmm_from(g, p, r).len() ==> (#[trigger] fmm_from(g, p, r)[i]).len() > 0,
        forall|i: int| 0 <= i < fmm_from(g, p, r).len() ==> is_factor(#[trigger] fmm_from(g, p, r)[i], p + r),
    decreases r.len(),
{
    let segs = fmm_from(g, p, r);
    let e = Seq::<char>::empty();
    if r.len() == 0 {
        assert(p + r =~= p);
        if p.len() > 0 {
            seq![p].lemma_flatten_one_element();
            assert(p.subrange(0, p.len() as int) =~= p);
        }
    } else {
        lemma_group_lookup_bound(g, r);
        match group_lookup(g, r) {
            Some((n, _)) => {
                let n = n as int;
                let tail = fmm_from(g, e, r.skip(n));
                lemma_fmm_from_partition(g, e, r.skip(n));
                let head = flush(p) + seq![r.take(n)];
                assert(segs == head + tail);
                vstd::seq_lib::lemma_flatten_concat(head, tail);
                vstd::seq_lib::lemma_flatten_concat(flush(p), seq![r.take(n)]);
                seq![r.take(n)].lemma_flatten_one_element();
                if p.len() > 0 {
                    seq![p].lemma_flatten_one_element();
                }
                assert(flush(p).flatten() =~= p);
                assert(e + r.skip(n) =~= r.skip(n));
                assert(p + r.take(n) + r.skip(n) =~= p + r);
                assert forall|i: int| 0 <= i < segs.len() implies is_factor(#[trigger] segs[i], p + r) && segs[i].len() > 0 by {
                    let t = p + r;
                    if i < head.len() {
                        if i < flush(p).len() {
                            assert(t.subrange(0, p.len() as int) =~= p);
                        } else {
                            assert(t.subrange(p.len() as int, p.len() + n) =~= r.take(n));
                        }
                    } else {
                        let x = segs[i];
                        assert(x == tail[i - head.len()]);
                        assert(is_factor(x, e + r.skip(n)));
                        let (a, b) = choose|a: int, b: int|
                            0 <= a <= b <= (e + r.skip(n)).len() && (e + r.skip(n)).subrange(a, b) == x;
                        assert(t.subrange(p.len() + n + a, p.len() + n + b) =~= (e + r.skip(n)).subrange(a, b));
                    }
                }
            },
            None => {
                lemma_fmm_from_partition(g, p.push(r[0]), r.drop_first());
                assert(p.push(r[0]) + r.drop_first() =~= p + r);
            },
        }
    }
}

/// FMM segmentation partitions its input: the segments, concatenated in
/// order, are the input, and none of them is empty.
pub proof fn lemma_fmm_partition(g: GroupView, text: Seq<char>)
    ensures
        fmm_segments(g, text).flatten() == text,
        forall|i: int| 0 <= i < fmm_segments(g, text).len() ==> (#[trigger] fmm_segments(g, text)[i]).len() > 0,
{
    lemma_fmm_from_partition(g, Seq::empty(), text);
    assert(Seq::<char>::empty() + text =~= text);
}

proof fn lemma_convert_segments_no_stages(segs: Seq<Seq<char>>)
    ensures
        convert_segments(Seq::empty(), segs) == segs.flatten(),
    decreases segs.len(),
{
    segs.lemma_flatten_and_flatten_alt_are_equivalent();
    if segs.len() > 0 {
        lemma_convert_segments_no_stages(segs.drop_last());
        segs.drop_last().lemma_flatten_and_flatten_alt_are_equivalent();
    }
}

/// A config with no conversion stages returns its input unchanged.
pub proof fn lemma_convert_no_stages(seg: Option<GroupView>, text: Seq<char>)
    ensures
        spec_convert(seg, Seq::empty(), text) == text,
{
    match seg {
        Some(g) => {
            lemma_convert_segments_no_stages(fmm_segments(g, text));
            lemma_fmm_partition(g, text);
        },
        None => {},
    }
}

/// Converting the empty text gives the empty text.
pub proof fn lemma_convert_empty(seg: Option<GroupView>, chain: Seq<GroupView>)
    ensures
        spec_convert(seg, chain, Seq::empty()) == Seq::<char>::empty(),
{
    lemma_convert_chain_empty(chain);
    match seg {
        Some(g) => {
            assert(fmm_segments(g, Seq::empty()) =~= Seq::<Seq<char>>::empty());
        },
        None => {},
    }
}

proof fn lemma_convert_chain_empty(chain: Seq<GroupView>)
    ensures
        convert_chain(chain, Seq::empty()) == Seq::<char>::empty(),
    decreases chain.len(),
{
    if chain.len() > 0 {
        lemma_convert_chain_empty(chain.drop_first());
    }
}

/// Where no key of a group occurs, the group matches nothing.
proof fn lemma_no_key_no_match(g: GroupView, t: Seq<char>)
    requires
        group_has_no_key_in(g, t),
    ensures
        group_lookup(g, t) is None,
    decreases g.len(),
{
    if g.len() > 0 {
        crate::dict::lemma_longest_key_len(g[0], t);
        let n = crate::dict::longest_key_len(g[0], t);
        if n > 0 {
            assert(t.subrange(0, n as int) == t.take(n as int));
            assert(no_key_occurs(g[0], t));
        }
        assert forall|i: int| 0 <= i < g.drop_first().len() implies no_key_occurs(#[trigger] g.drop_first()[i], t) by {
            assert(g.drop_first()[i] == g[i + 1]);
        }
        lemma_no_key_no_match(g.drop_first(), t);
    }
}

proof fn lemma_no_key_drop_first(g: GroupView, t: Seq<char>)
    requires
        group_has_no_key_in(g, t),
        t.len() > 0,
    ensures
        group_has_no_key_in(g, t.drop_first()),
{
    assert forall|i: int| 0 <= i < g.len() implies no_key_occurs(#[trigger] g[i], t.drop_first()) by {
        assert(no_key_occurs(g[i], t));
        assert forall|a: int, b: int| 0 <= a < b <= t.drop_first().len() implies !g[i].contains_key(
            #[trigger] t.drop_first().subrange(a, b),
        ) by {
            assert(t.drop_first().subrange(a, b) =~= t.subrange(a + 1, b + 1));
        }
    }
}

proof fn lemma_no_key_factor(g: GroupView, x: Seq<char>, t: Seq<char>)
    requires
        group_has_no_key_in(g, t),
        is_factor(x, t),
    ensures
        group_has_no_key_in(g, x),
{
    let (a0, b0) = choose|a: int, b: int| 0 <= a <= b <= t.len() && t.subrange(a, b) == x;
    assert forall|i: int| 0 <= i < g.len() implies no_key_occurs(#[trigger] g[i], x) by {
        assert(no_key_occurs(g[i], t));
        assert forall|a: int, b: int| 0 <= a < b <= x.len() implies !g[i].contains_key(#[trigger] x.subrange(a, b)) by {
            assert(x.subrange(a, b) =~= t.subrange(a0 + a, a0 + b));
        }
    }
}

proof fn lemma_stage_unchanged(g: GroupView, s: Seq<char>)
    requires
        group_has_no_key_in(g, s),
    ensures
        convert_all(g, s) == s,
    decreases s.len(),
{
    if s.len() > 0 {
        lemma_no_key_no_match(g, s);
        lemma_no_key_drop_first(g, s);
        lemma_stage_unchanged(g, s.drop_first());
        assert(seq![s[0]] + s.drop_first() =~= s);
    }
}

proof fn lemma_chain_unchanged(chain: Seq<GroupView>, s: Seq<char>)
    requires
        forall|i: int| 0 <= i < chain.len() ==> group_has_no_key_in(#[trigger] chain[i], s),
    ensures
        convert_chain(chain, s) == s,
    decreases chain.len(),
{
    if chain.len() > 0 {
        lemma_stage_unchanged(chain[0], s);
        assert forall|i: int| 0 <= i < chain.drop_first().len() implies group_has_no_key_in(
            #[trigger] chain.drop_first()[i],
            s,
        ) by {
            assert(chain.drop_first()[i] == chain[i + 1]);
        }
        lemma_chain_unchanged(chain.drop_first(), s);
    }
}

proof fn lemma_segments_unchanged(chain: Seq<GroupView>, segs: Seq<Seq<char>>, t: Seq<char>)
    requires
        forall|i: int| 0 <= i < chain.len() ==> group_has_no_key_in(#[trigger] chain[i], t),
        forall|j: int| 0 <= j < segs.len() ==> is_factor(#[trigger] segs[j], t),
    ensures
        convert_segments(chain, segs) == segs.flatten_alt(),
    decreases segs.len(),
{
    if segs.len() > 0 {
        let last = segs.last();
        assert(is_factor(segs[segs.len() - 1], t));
        assert forall|i: int| 0 <= i < chain.len() implies group_has_no_key_in(#[trigger] chain[i], last) by {
            lemma_no_key_factor(chain[i], last, t);
        }
        lemma_chain_unchanged(chain, last);
        assert forall|j: int| 0 <= j < segs.drop_last().len() implies is_factor(#[trigger] segs.drop_last()[j], t) by {
            assert(segs.drop_last()[j] == segs[j]);
        }
        lemma_segments_unchanged(chain, segs.drop_last(), t);
    }
}

/// Text in which no key of any conversion stage occurs comes out unchanged:
/// characters that no dictionary knows pass through.
pub proof fn lemma_convert_unchanged_without_keys(
    seg: Option<GroupView>,
    chain: Seq<GroupView>,
    text: Seq<char>,
)
    requires
        forall|i: int| 0 <= i < chain.len() ==> group_has_no_key_in(#[trigger] chain[i], text),
    ensures
        spec_convert(seg, chain, text) == text,
{
    match seg {
        Some(g) => {
            let segs = fmm_segments(g, text);
            lemma_fmm_from_partition(g, Seq::empty(), text);
            assert(Seq::<char>::empty() + text =~= text);
            lemma_segments_unchanged(chain, segs, text);
            segs.lemma_flatten_and_flatten_alt_are_equivalent();
            lemma_fmm_partition(g, text);
        },
        None => {
            lemma_chain_unchanged(chain, text);
        },
    }
}

proof fn lemma_stage_single(
    gd: Seq<Dict>,
    t: Map<Seq<Seq<char>>, u64>,
    mode: NgramMode,
    prev: Seq<char>,
    before: Seq<char>,
    out: Seq<char>,
    rest: Seq<char>,
)
    requires
        group_wf(gd),
        forall|i: int| 0 <= i < gd.len() ==> single_valued(#[trigger] gd[i]),
    ensures
        ngram_stage_from(group_view(gd), group_cands_view(gd), t, mode, prev, before, out, rest) == out
            + convert_all(group_view(gd), rest),
    decreases rest.len(),
{
    let g = group_view(gd);
    let gc = group_cands_view(gd);
    if rest.len() == 0 {
        assert(out + rest =~= out);
    } else {
        crate::dict::lemma_group_cands(gd, rest);
        lemma_group_lookup_bound(g, rest);
        match group_lookup(g, rest) {
            Some((n, v)) => {
                let cs = group_cands(g, gc, rest)->Some_0.1;
                assert(choose_emit(t, mode, prev, before + out, cs) == v);
                lemma_stage_single(gd, t, mode, prev, before, out + v, rest.skip(n as int));
                assert(out + v + convert_all(g, rest.skip(n as int)) =~= out + (v + convert_all(g, rest.skip(n as int))));
            },
            None => {
                lemma_stage_single(gd, t, mode, prev, before, out.push(rest[0]), rest.drop_first());
                assert(out.push(rest[0]) + convert_all(g, rest.drop_first()) =~= out + (seq![rest[0]] + convert_all(
                    g,
                    rest.drop_first(),
                )));
            },
        }
    }
}

/// The views of a chain of groups.
pub open spec fn chain_views(chain: Seq<Vec<Dict>>) -> Seq<GroupView> {
    chain.map_values(|g: Vec<Dict>| group_view(g@))
}

/// The candidate views of a chain of groups.
pub open spec fn chain_cands_views(chain: Seq<Vec<Dict>>) -> Seq<GroupCands> {
    chain.map_values(|g: Vec<Dict>| group_cands_view(g@))
}

/// Every dictionary of every stage is well formed and has one value per key.
pub open spec fn chain_single_valued(chain: Seq<Vec<Dict>>) -> bool {
    forall|i: int, j: int|
        0 <= i < chain.len() && 0 <= j < chain[i]@.len() ==> (#[trigger] chain[i]@[j]).wf() && single_valued(
            chain[i]@[j],
        )
}

proof fn lemma_chain_single(
    chain: Seq<Vec<Dict>>,
    t: Map<Seq<Seq<char>>, u64>,
    mode: NgramMode,
    prev: Seq<char>,
    before: Seq<char>,
    s: Seq<char>,
)
    requires
        chain_single_valued(chain),
    ensures
        ngram_chain(chain_views(chain), chain_cands_views(chain), t, mode, prev, before, s) == convert_chain(
            chain_views(chain),
            s,
        ),
    decreases chain.len(),
{
    if chain.len() > 0 {
        let gd = chain[0]@;
        assert forall|j: int| 0 <= j < gd.len() implies (#[trigger] gd[j]).wf() && single_valued(gd[j]) by {
            assert(chain[0]@[j] == gd[j]);
        }
        lemma_stage_single(gd, t, mode, prev, before, Seq::empty(), s);
        assert(Seq::<char>::empty() + convert_all(group_view(gd), s) =~= convert_all(group_view(gd), s));
        assert(chain_views(chain)[0] == group_view(gd));
        assert(chain_cands_views(chain)[0] == group_cands_view(gd));
        assert(chain_views(chain).drop_first() =~= chain_views(chain.drop_first()));
        assert(chain_cands_views(chain).drop_first() =~= chain_cands_views(chain.drop_first()));
        assert forall|i: int, j: int|
            0 <= i < chain.drop_first().len() && 0 <= j < chain.drop_first()[i]@.len() implies (
            #[trigger] chain.drop_first()[i]@[j]).wf() && single_valued(chain.drop_first()[i]@[j]) by {
            assert(chain.drop_first()[i] == chain[i + 1]);
        }
        let o = convert_all(group_view(gd), s);
        lemma_chain_single(chain.drop_first(), t, mode, suffix_within(o, 6), before, o);
    }
}

proof fn lemma_convert_segments_front(chain: Seq<GroupView>, a: Seq<char>, rest: Seq<Seq<char>>)
    ensures
        convert_segments(chain, seq![a] + rest) == convert_chain(chain, a) + convert_segments(chain, rest),
    decreases rest.len(),
{
    if rest.len() == 0 {
        let one = seq![a] + rest;
        assert(one.drop_last() =~= Seq::<Seq<char>>::empty());
        assert(one.last() == a);
        assert(convert_segments(chain, one.drop_last()) == Seq::<char>::empty());
        assert(convert_segments(chain, one) == convert_segments(chain, one.drop_last()) + convert_chain(chain, a));
        assert(convert_segments(chain, rest) == Seq::<char>::empty());
        assert(Seq::<char>::empty() + convert_chain(chain, a) =~= convert_chain(chain, a) + Seq::<char>::empty());
    } else {
        lemma_convert_segments_front(chain, a, rest.drop_last());
        let all = seq![a] + rest;
        assert(all.drop_last() =~= seq![a] + rest.drop_last());
        assert(all.last() == rest.last());
        assert(convert_segments(chain, all) == convert_segments(chain, all.drop_last()) + convert_chain(chain, all.last()));
        assert(convert_segments(chain, rest) == convert_segments(chain, rest.drop_last()) + convert_chain(chain, rest.last()));
        assert(convert_chain(chain, a) + convert_segments(chain, rest.drop_last()) + convert_chain(chain, rest.last())
            =~= convert_chain(chain, a) + (convert_segments(chain, rest.drop_last()) + convert_chain(chain, rest.last())));
    }
}

proof fn lemma_segments_single(
    chain: Seq<Vec<Dict>>,
    t: Map<Seq<Seq<char>>, u64>,
    mode: NgramMode,
    prev: Seq<char>,
    out: Seq<char>,
    segs: Seq<Seq<char>>,
)
    requires
        chain_single_valued(chain),
    ensures
        ngram_segments_from(chain_views(chain), chain_cands_views(chain), t, mode, prev, out, segs) == out
            + convert_segments(chain_views(chain), segs),
    decreases segs.len(),
{
    let cv = chain_views(chain);
    if segs.len() == 0 {
        assert(out + Seq::<char>::empty() =~= out);
    } else {
        lemma_chain_single(chain, t, mode, prev, out, segs[0]);
        let o = convert_chain(cv, segs[0]);
        lemma_segments_single(chain, t, mode, suffix_within(o, 6), out + o, segs.drop_first());
        lemma_convert_segments_front(cv, segs[0], segs.drop_first());
        assert(seq![segs[0]] + segs.drop_first() =~= segs);
        assert(out + o + convert_segments(cv, segs.drop_first()) =~= out + (o + convert_segments(cv, segs.drop_first())));
    }
}

/// The model only settles keys with several values: where every dictionary
/// of every stage has one value per key, converting with an n-gram model
/// gives what converting without one gives.
pub proof fn lemma_single_valued_ngram_is_plain(
    seg: Option<GroupView>,
    chain: Seq<Vec<Dict>>,
    t: Map<Seq<Seq<char>>, u64>,
    mode: NgramMode,
    text: Seq<char>,
)
    requires
        chain_single_valued(chain),
    ensures
        spec_convert_ngram(seg, chain_views(chain), chain_cands_views(chain), t, mode, text) == spec_convert(
            seg,
            chain_views(chain),
            text,
        ),
{
    match seg {
        Some(g) => {
            lemma_segments_single(chain, t, mode, Seq::empty(), Seq::empty(), fmm_segments(g, text));
            assert(Seq::<char>::empty() + convert_segments(chain_views(chain), fmm_segments(g, text)) =~= convert_segments(
                chain_views(chain),
                fmm_segments(g, text),
            ));
        },
        None => {
            lemma_chain_single(chain, t, mode, Seq::empty(), Seq::empty(), text);
        },
    }
}

} // verus!
