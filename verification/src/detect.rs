//! Script-variant detection.
//!
//! Per-region signature character sets are derived from dictionary texts:
//!
//! | region  | signature source |
//! |---|---|
//! | `cn-s`  | `STCharacters` keys whose first value differs from the key. |
//! | `cn-t`  | `TSCharacters` keys whose first value differs. |
//! | `cn-tw` | `TWVariants` keys. |
//! | `cn-hk` | `HKVariants` keys. |
//! | `jp-n`  | `JPShinjitaiCharacters` keys (shinjitai / new-form). |
//! | `jp-t`  | `JPShinjitaiCharacters` first values (kyūjitai / old-form). |
//!
//! Algorithm:
//!
//! 1. Count CJK Unified Ideographs in the input (U+4E00..U+9FFF).
//! 2. If Hiragana (U+3040..U+309F) or Katakana (U+30A0..U+30FF) is present,
//!    take the JP branch: tally `jp-n` vs `jp-t` hits; winner is the region.
//! 3. Otherwise the Chinese branch: tally `cn-s`, `cn-t`, `cn-tw`, `cn-hk`
//!    hits. A TW/HK hit upgrades a base `cn-t` verdict to `cn-tw`/`cn-hk` only
//!    when the TW/HK signal is strong relative to total traditional hits.
//! 4. Confidence = winner's hits / total × 100, at most 100.

use std::collections::HashSet;
use vstd::prelude::*;
use crate::cli::opt_view;
use crate::engine::Region;
use crate::lines::{dict_entries, entries_view, text_entries};
use crate::text::{
    decimal, lemma_utf8_len_push, lemma_utf8_len_take, push_decimal, push_str_to, str_chars, str_eq, string_from_chars,
    strings_view, utf8_len, utf8_width,
};

verus! {

/// Byte budget of `detect_bytes`.
pub const SAMPLE_BYTES: usize = 4096;

/// Result of detecting one input.
#[derive(Debug, Clone, Copy)]
pub struct Detection {
    pub region: Region,
    /// 0..=100
    pub confidence: u8,
}

/// The code points of the characters of `s`.
pub open spec fn chars_set(s: Seq<char>) -> Set<u32> {
    Set::new(|u: u32| exists|j: int| 0 <= j < s.len() && s[j] as u32 == u)
}

/// The characters of the keys of `es`; with `require_change`, only of the
/// keys whose value differs from the key.
pub open spec fn key_chars(es: Seq<(Seq<char>, Seq<char>)>, require_change: bool) -> Set<u32>
    decreases es.len(),
{
    if es.len() == 0 {
        Set::empty()
    } else {
        let rest = key_chars(es.drop_last(), require_change);
        if require_change && es.last().0 == es.last().1 {
            rest
        } else {
            rest.union(chars_set(es.last().0))
        }
    }
}

/// The characters of the values of `es`.
pub open spec fn value_chars(es: Seq<(Seq<char>, Seq<char>)>) -> Set<u32>
    decreases es.len(),
{
    if es.len() == 0 {
        Set::empty()
    } else {
        value_chars(es.drop_last()).union(chars_set(es.last().1))
    }
}

/// A set of signature characters for a region.
pub struct SignatureSet {
    chars: HashSet<u32>,
}

impl View for SignatureSet {
    type V = Set<u32>;

    closed spec fn view(&self) -> Set<u32> {
        self.chars@
    }
}

/// Add the characters of `s` to `set`.
fn insert_chars(set: &mut HashSet<u32>, s: &Vec<char>)
    ensures
        final(set)@ == old(set)@.union(chars_set(s@)),
{
    broadcast use vstd::std_specs::hash::group_hash_axioms;
    let mut j: usize = 0;
    while j < s.len()
        invariant
            j <= s@.len(),
            set@ == old(set)@.union(chars_set(s@.take(j as int))),
        decreases s@.len() - j,
    {
        set.insert(s[j] as u32);
        proof {
            let a = chars_set(s@.take(j as int));
            let b = chars_set(s@.take(j + 1));
            assert forall|u: u32| b.contains(u) <==> a.insert(s@[j as int] as u32).contains(u) by {
                if b.contains(u) {
                    let k = choose|k: int| 0 <= k < j + 1 && (#[trigger] s@.take(j + 1)[k]) as u32 == u;
                    if k < j {
                        assert(s@.take(j as int)[k] == s@[k]);
                    }
                }
                if a.contains(u) {
                    let k = choose|k: int| 0 <= k < j && (#[trigger] s@.take(j as int)[k]) as u32 == u;
                    assert(s@.take(j + 1)[k] == s@[k]);
                }
                if u == s@[j as int] as u32 {
                    assert(s@.take(j + 1)[j as int] == s@[j as int]);
                }
            }
            assert(b =~= a.insert(s@[j as int] as u32));
        }
        j += 1;
    }
    assert(s@.take(s@.len() as int) =~= s@);
}

impl SignatureSet {
    /// The characters of the keys of a dictionary text; with
    /// `require_change`, only of keys whose first value differs from the key.
    pub fn from_dict_keys(text: &str, require_change: bool) -> (s: SignatureSet)
        ensures
            s@ == key_chars(text_entries(text@), require_change),
    {
        let es = dict_entries(text);
        let ghost ev = entries_view(es@);
        let mut set: HashSet<u32> = HashSet::new();
        let mut i: usize = 0;
        while i < es.len()
            invariant
                i <= es@.len(),
                ev == entries_view(es@),
                ev == text_entries(text@),
                set@ == key_chars(ev.take(i as int), require_change),
            decreases es@.len() - i,
        {
            assert(ev.take(i + 1).drop_last() =~= ev.take(i as int));
            assert(ev.take(i + 1).last() == ev[i as int]);
            if !(require_change && crate::text::chars_eq(&es[i].0, &es[i].1)) {
                insert_chars(&mut set, &es[i].0);
            }
            i += 1;
        }
        assert(ev.take(es@.len() as int) =~= ev);
        SignatureSet { chars: set }
    }

    /// The characters of the first values of a dictionary text.
    pub fn from_dict_values(text: &str) -> (s: SignatureSet)
        ensures
            s@ == value_chars(text_entries(text@)),
    {
        let es = dict_entries(text);
        let ghost ev = entries_view(es@);
        let mut set: HashSet<u32> = HashSet::new();
        let mut i: usize = 0;
        while i < es.len()
            invariant
                i <= es@.len(),
                ev == entries_view(es@),
                ev == text_entries(text@),
                set@ == value_chars(ev.take(i as int)),
            decreases es@.len() - i,
        {
            assert(ev.take(i + 1).drop_last() =~= ev.take(i as int));
            assert(ev.take(i + 1).last() == ev[i as int]);
            insert_chars(&mut set, &es[i].1);
            i += 1;
        }
        assert(ev.take(es@.len() as int) =~= ev);
        SignatureSet { chars: set }
    }

    /// Whether `ch` is a signature character.
    pub fn contains(&self, ch: char) -> (b: bool)
        ensures
            b == self@.contains(ch as u32),
    {
        broadcast use vstd::std_specs::hash::group_hash_axioms;
        self.chars.contains(&(ch as u32))
    }
}

/// The signature sets of all regions.
pub struct Signatures {
    pub cn_s: SignatureSet,
    pub cn_t: SignatureSet,
    pub cn_tw: SignatureSet,
    pub cn_hk: SignatureSet,
    pub jp_n: SignatureSet,
    pub jp_t: SignatureSet,
}

impl Signatures {
    /// Derive the signature sets from the texts of `STCharacters`,
    /// `TSCharacters`, `TWVariants`, `HKVariants` and `JPShinjitaiCharacters`.
    pub fn from_texts(st: &str, ts: &str, tw: &str, hk: &str, jp: &str) -> (s: Signatures)
        ensures
            s.cn_s@ == key_chars(text_entries(st@), true),
            s.cn_t@ == key_chars(text_entries(ts@), true),
            s.cn_tw@ == key_chars(text_entries(tw@), false),
            s.cn_hk@ == key_chars(text_entries(hk@), false),
            s.jp_n@ == key_chars(text_entries(jp@), false),
            s.jp_t@ == value_chars(text_entries(jp@)),
    {
        Signatures {
            cn_s: SignatureSet::from_dict_keys(st, true),
            cn_t: SignatureSet::from_dict_keys(ts, true),
            cn_tw: SignatureSet::from_dict_keys(tw, false),
            cn_hk: SignatureSet::from_dict_keys(hk, false),
            jp_n: SignatureSet::from_dict_keys(jp, false),
            jp_t: SignatureSet::from_dict_values(jp),
        }
    }
}

/// CJK Unified Ideographs (U+4E00..U+9FFF).
pub open spec fn spec_is_cjk(c: char) -> bool {
    0x4E00 <= (c as u32) <= 0x9FFF
}

/// Hiragana (U+3040..U+309F) or Katakana (U+30A0..U+30FF).
pub open spec fn spec_is_kana(c: char) -> bool {
    0x3040 <= (c as u32) <= 0x30FF
}

/// Whether `ch` is a CJK Unified Ideograph.
pub fn is_cjk(ch: char) -> (b: bool)
    ensures
        b == spec_is_cjk(ch),
{
    let u = ch as u32;
    0x4E00 <= u && u <= 0x9FFF
}

/// Whether `ch` is Hiragana or Katakana.
pub fn is_kana(ch: char) -> (b: bool)
    ensures
        b == spec_is_kana(ch),
{
    let u = ch as u32;
    (0x3040 <= u && u <= 0x309F) || (0x30A0 <= u && u <= 0x30FF)
}

/// Number of CJK characters of `s` whose code point is in `set`.
pub open spec fn cjk_hits(s: Seq<char>, set: Set<u32>) -> nat
    decreases s.len(),
{
    if s.len() == 0 {
        0
    } else {
        cjk_hits(s.drop_last(), set) + (if spec_is_cjk(s.last()) && set.contains(s.last() as u32) {
            1nat
        } else {
            0nat
        })
    }
}

/// Number of CJK characters of `s`.
pub open spec fn cjk_count(s: Seq<char>) -> nat
    decreases s.len(),
{
    if s.len() == 0 {
        0
    } else {
        cjk_count(s.drop_last()) + (if spec_is_cjk(s.last()) { 1nat } else { 0nat })
    }
}

/// Number of kana characters of `s`.
pub open spec fn kana_count(s: Seq<char>) -> nat
    decreases s.len(),
{
    if s.len() == 0 {
        0
    } else {
        kana_count(s.drop_last()) + (if spec_is_kana(s.last()) { 1nat } else { 0nat })
    }
}

/// `part` as a percentage of `total`, rounded down and at most 100; 0 when
/// `total` is 0.
pub open spec fn spec_pct(part: nat, total: nat) -> nat {
    if total == 0 {
        0
    } else if part * 100 / total > 100 {
        100
    } else {
        part * 100 / total
    }
}

/// The confidence is the share as a whole percentage, rounded down: for a
/// part of a positive total, `r` percent is at most the share and `r + 1`
/// percent exceeds it.
pub proof fn lemma_pct_rounds_down(part: nat, total: nat)
    requires
        0 < total,
        part <= total,
    ensures
        spec_pct(part, total) <= 100,
        spec_pct(part, total) * total <= part * 100,
        part * 100 < (spec_pct(part, total) + 1) * total,
{
    let q = part * 100 / total;
    assert(q * total <= part * 100 && part * 100 < (q + 1) * total) by (nonlinear_arith)
        requires
            0 < total,
            q == part * 100 / total,
    ;
    assert(q <= 100) by (nonlinear_arith)
        requires
            0 < total,
            part <= total,
            q * total <= part * 100,
    ;
}

/// The region and confidence that the tallies give.
pub open spec fn classify(
    total_cjk: nat,
    kana: nat,
    cn_s: nat,
    cn_t: nat,
    cn_tw: nat,
    cn_hk: nat,
    jp_n: nat,
    jp_t: nat,
) -> Option<(Region, nat)> {
    if kana > 0 {
        if jp_n + jp_t == 0 {
            Some((Region::JpN, 50))
        } else if jp_n >= jp_t {
            Some((Region::JpN, spec_pct(jp_n, jp_n + jp_t)))
        } else {
            Some((Region::JpT, spec_pct(jp_t, jp_n + jp_t)))
        }
    } else if total_cjk == 0 {
        None
    } else if cn_s > cn_t + cn_tw + cn_hk {
        Some((Region::CnS, spec_pct(cn_s, total_cjk)))
    } else if cn_tw >= cn_hk && cn_tw * 2 >= cn_t + cn_tw && cn_tw > 0 {
        Some((Region::CnTw, spec_pct(cn_t + cn_tw, total_cjk)))
    } else if cn_hk > cn_tw && cn_hk * 2 >= cn_t + cn_hk && cn_hk > 0 {
        Some((Region::CnHk, spec_pct(cn_t + cn_hk, total_cjk)))
    } else {
        Some((Region::CnT, spec_pct(cn_t + cn_tw + cn_hk, total_cjk)))
    }
}

/// The detection of `text` under the signature sets.
pub open spec fn spec_detect(sigs: &Signatures, text: Seq<char>) -> Option<(Region, nat)> {
    classify(
        cjk_count(text),
        kana_count(text),
        cjk_hits(text, sigs.cn_s@),
        cjk_hits(text, sigs.cn_t@),
        cjk_hits(text, sigs.cn_tw@),
        cjk_hits(text, sigs.cn_hk@),
        cjk_hits(text, sigs.jp_n@),
        cjk_hits(text, sigs.jp_t@),
    )
}

/// `part` as a percentage of `total`, rounded down and at most 100.
pub fn pct(part: u64, total: u64) -> (r: u8)
    requires
        part <= u64::MAX / 100,
    ensures
        r == spec_pct(part as nat, total as nat),
{
    if total == 0 {
        0
    } else {
        let q = (part * 100) / total;
        if q > 100 {
            100
        } else {
            q as u8
        }
    }
}

proof fn lemma_counts_bounded(s: Seq<char>, set: Set<u32>)
    ensures
        cjk_hits(s, set) <= cjk_count(s),
        cjk_count(s) <= s.len(),
        kana_count(s) <= s.len(),
    decreases s.len(),
{
    if s.len() > 0 {
        lemma_counts_bounded(s.drop_last(), set);
    }
}

/// Detect the script variant of `text` with the given signature sets.
/// Returns `None` when there are no CJK or kana characters.
pub fn detect_text(sigs: &Signatures, text: &str) -> (r: Option<Detection>)
    requires
        text@.len() <= u32::MAX,
    ensures
        match spec_detect(sigs, text@) {
            Some((g, c)) => r matches Some(d) && d.region == g && d.confidence == c,
            None => r is None,
        },
{
    let v = str_chars(text);
    let mut total_cjk: u32 = 0;
    let mut kana: u32 = 0;
    let mut cn_s: u32 = 0;
    let mut cn_t: u32 = 0;
    let mut cn_tw: u32 = 0;
    let mut cn_hk: u32 = 0;
    let mut jp_n: u32 = 0;
    let mut jp_t: u32 = 0;
    let mut i: usize = 0;
    assert(v@.take(0) =~= Seq::<char>::empty());
    while i < v.len()
        invariant
            v@ == text@,
            v@.len() <= u32::MAX,
            i <= v@.len(),
            total_cjk == cjk_count(v@.take(i as int)),
            kana == kana_count(v@.take(i as int)),
            cn_s == cjk_hits(v@.take(i as int), sigs.cn_s@),
            cn_t == cjk_hits(v@.take(i as int), sigs.cn_t@),
            cn_tw == cjk_hits(v@.take(i as int), sigs.cn_tw@),
            cn_hk == cjk_hits(v@.take(i as int), sigs.cn_hk@),
            jp_n == cjk_hits(v@.take(i as int), sigs.jp_n@),
            jp_t == cjk_hits(v@.take(i as int), sigs.jp_t@),
        decreases v@.len() - i,
    {
        let ch = v[i];
        let ghost t = v@.take(i + 1);
        proof {
            assert(t.drop_last() =~= v@.take(i as int));
            assert(t.last() == ch);
            lemma_counts_bounded(t, sigs.cn_s@);
            lemma_counts_bounded(t, sigs.cn_t@);
            lemma_counts_bounded(t, sigs.cn_tw@);
            lemma_counts_bounded(t, sigs.cn_hk@);
            lemma_counts_bounded(t, sigs.jp_n@);
            lemma_counts_bounded(t, sigs.jp_t@);
        }
        if is_cjk(ch) {
            total_cjk += 1;
            if sigs.cn_s.contains(ch) {
                cn_s += 1;
            }
            if sigs.cn_t.contains(ch) {
                cn_t += 1;
            }
            if sigs.cn_tw.contains(ch) {
                cn_tw += 1;
            }
            if sigs.cn_hk.contains(ch) {
                cn_hk += 1;
            }
            if sigs.jp_n.contains(ch) {
                jp_n += 1;
            }
            if sigs.jp_t.contains(ch) {
                jp_t += 1;
            }
        } else if is_kana(ch) {
            kana += 1;
        }
        i += 1;
    }
    assert(v@.take(v@.len() as int) =~= v@);
    proof {
        lemma_counts_bounded(v@, sigs.cn_s@);
        lemma_counts_bounded(v@, sigs.cn_t@);
        lemma_counts_bounded(v@, sigs.cn_tw@);
        lemma_counts_bounded(v@, sigs.cn_hk@);
        lemma_counts_bounded(v@, sigs.jp_n@);
        lemma_counts_bounded(v@, sigs.jp_t@);
    }
    classify_counts(
        total_cjk as u64,
        kana as u64,
        cn_s as u64,
        cn_t as u64,
        cn_tw as u64,
        cn_hk as u64,
        jp_n as u64,
        jp_t as u64,
    )
}

/// The decision table of `classify`, on machine counts.
fn classify_counts(
    total_cjk: u64,
    kana: u64,
    cn_s: u64,
    cn_t: u64,
    cn_tw: u64,
    cn_hk: u64,
    jp_n: u64,
    jp_t: u64,
) -> (r: Option<Detection>)
    requires
        cn_s <= total_cjk,
        cn_t <= total_cjk,
        cn_tw <= total_cjk,
        cn_hk <= total_cjk,
        jp_n <= total_cjk,
        jp_t <= total_cjk,
        total_cjk <= u32::MAX,
        kana <= u32::MAX,
    ensures
        match classify(
            total_cjk as nat,
            kana as nat,
            cn_s as nat,
            cn_t as nat,
            cn_tw as nat,
            cn_hk as nat,
            jp_n as nat,
            jp_t as nat,
        ) {
            Some((g, c)) => r matches Some(d) && d.region == g && d.confidence == c,
            None => r is None,
        },
{
    if kana > 0 {
        let total_jp = jp_n + jp_t;
        if total_jp == 0 {
            return Some(Detection { region: Region::JpN, confidence: 50 });
        }
        if jp_n >= jp_t {
            return Some(Detection { region: Region::JpN, confidence: pct(jp_n, total_jp) });
        }
        return Some(Detection { region: Region::JpT, confidence: pct(jp_t, total_jp) });
    }
    if total_cjk == 0 {
        return None;
    }
    if cn_s > cn_t + cn_tw + cn_hk {
        return Some(Detection { region: Region::CnS, confidence: pct(cn_s, total_cjk) });
    }
    if cn_tw >= cn_hk && cn_tw * 2 >= cn_t + cn_tw && cn_tw > 0 {
        return Some(Detection { region: Region::CnTw, confidence: pct(cn_t + cn_tw, total_cjk) });
    }
    if cn_hk > cn_tw && cn_hk * 2 >= cn_t + cn_hk && cn_hk > 0 {
        return Some(Detection { region: Region::CnHk, confidence: pct(cn_t + cn_hk, total_cjk) });
    }
    Some(Detection { region: Region::CnT, confidence: pct(cn_t + cn_tw + cn_hk, total_cjk) })
}

/// The confidence of a detection is a percentage: never above 100.
pub proof fn lemma_confidence_at_most_100(sigs: &Signatures, text: Seq<char>)
    ensures
        spec_detect(sigs, text) matches Some((g, c)) ==> c <= 100,
{
}

/// Which region each tally pattern is reported as. With kana, the text is
/// Japanese: shinjitai unless kyūjitai signatures outnumber shinjitai ones
/// (confidence 50 when there are none of either). Without kana and with
/// CJK ideographs: mostly simplified signatures give cn-s; otherwise a
/// strong Taiwan signal (at least the Hong Kong one, at least half of the
/// traditional-side hits) gives cn-tw, a strong Hong Kong signal (more than
/// the Taiwan one, at least half) gives cn-hk, and anything else cn-t.
pub proof fn lemma_detect_regions(sigs: &Signatures, text: Seq<char>)
    ensures
        ({
            let total = cjk_count(text);
            let kana = kana_count(text);
            let s = cjk_hits(text, sigs.cn_s@);
            let t = cjk_hits(text, sigs.cn_t@);
            let tw = cjk_hits(text, sigs.cn_tw@);
            let hk = cjk_hits(text, sigs.cn_hk@);
            let n = cjk_hits(text, sigs.jp_n@);
            let jt = cjk_hits(text, sigs.jp_t@);
            let r = spec_detect(sigs, text);
            &&& kana > 0 && n + jt == 0 ==> r == Some((Region::JpN, 50nat))
            &&& kana > 0 && n + jt > 0 && n >= jt ==> r == Some((Region::JpN, spec_pct(n, n + jt)))
            &&& kana > 0 && jt > n ==> r == Some((Region::JpT, spec_pct(jt, n + jt)))
            &&& kana == 0 && total > 0 && s > t + tw + hk ==> r == Some((Region::CnS, spec_pct(s, total)))
            &&& kana == 0 && s <= t + tw + hk && tw > 0 && tw >= hk && 2 * tw >= t + tw ==> r == Some(
                (Region::CnTw, spec_pct(t + tw, total)),
            )
            &&& kana == 0 && s <= t + tw + hk && hk > 0 && hk > tw && 2 * hk >= t + hk ==> r == Some(
                (Region::CnHk, spec_pct(t + hk, total)),
            )
            &&& kana == 0 && total > 0 && s <= t + tw + hk && !(tw > 0 && tw >= hk && 2 * tw >= t + tw) && !(hk
                > 0 && hk > tw && 2 * hk >= t + hk) ==> r == Some((Region::CnT, spec_pct(t + tw + hk, total)))
            &&& r matches Some((g, _)) ==> (kana > 0 <==> (g == Region::JpN || g == Region::JpT))
        }),
{
    lemma_counts_bounded(text, sigs.cn_tw@);
    lemma_counts_bounded(text, sigs.cn_hk@);
}

/// Detection gives no answer exactly when the text has neither CJK
/// ideographs nor kana.
pub proof fn lemma_detect_none_iff(sigs: &Signatures, text: Seq<char>)
    ensures
        spec_detect(sigs, text) is None <==> (cjk_count(text) == 0 && kana_count(text) == 0),
{
}

/// Truncate to a byte-length-bounded sample, keeping whole characters: the
/// longest prefix of `text` whose UTF-8 encoding fits in `limit` bytes.
pub fn sample(text: &str, limit: usize) -> (r: &str)
    requires
        utf8_len(text@) <= usize::MAX,
    ensures
        r@ == text@.take(sample_len(text@, limit as nat) as int),
        r@.len() <= limit,
{
    let v = str_chars(text);
    let mut n: usize = 0;
    let mut bytes: usize = 0;
    assert(v@.take(0) =~= Seq::<char>::empty());
    while n < v.len()
        invariant
            v@ == text@,
            utf8_len(v@) <= usize::MAX,
            n <= v@.len(),
            bytes == utf8_len(v@.take(n as int)),
            bytes <= limit,
            n <= bytes,
            sample_len(v@, limit as nat) == sample_len_from(v@, limit as nat, n as nat),
        decreases v@.len() - n,
    {
        let w = utf8_width(v[n]);
        proof {
            assert(v@.take(n + 1) =~= v@.take(n as int).push(v@[n as int]));
            lemma_utf8_len_push(v@.take(n as int), v@[n as int]);
            lemma_utf8_len_take(v@, n + 1);
            lemma_utf8_len_take(v@, n as int);
        }
        if bytes + w > limit {
            return text.substring_char(0, n);
        }
        bytes = bytes + w;
        n += 1;
    }
    text.substring_char(0, n)
}

/// `std::str::from_utf8`: the string that `data` encodes in UTF-8, or `None`
/// when `data` is not valid UTF-8.
#[verifier::external_body]
fn str_from_utf8(data: &[u8]) -> (r: Option<&str>)
    ensures
        r is Some <==> vstd::utf8::valid_utf8(data@),
        r matches Some(s) ==> utf8_len(s@) == data@.len() && s@ == vstd::utf8::decode_utf8(data@),
{
    std::str::from_utf8(data).ok()
}

/// The detection of the text that `data` encodes.
pub open spec fn spec_detect_bytes(sigs: &Signatures, data: Seq<u8>) -> Option<(Region, nat)> {
    if vstd::utf8::valid_utf8(data) {
        let text = vstd::utf8::decode_utf8(data);
        spec_detect(sigs, text.take(sample_len(text, SAMPLE_BYTES as nat) as int))
    } else {
        None
    }
}

/// Detect on a byte buffer: `None` when it is not valid UTF-8, otherwise the
/// detection of its first `SAMPLE_BYTES` bytes (cut back to whole characters).
pub fn detect_bytes(sigs: &Signatures, data: &[u8]) -> (r: Option<Detection>)
    ensures
        match spec_detect_bytes(sigs, data@) {
            Some((g, c)) => r matches Some(d) && d.region == g && d.confidence == c,
            None => r is None,
        },
{
    let n = data.len();
    assert(n == data@.len());
    match str_from_utf8(data) {
        Some(text) => {
            let s = sample(text, SAMPLE_BYTES);
            detect_text(sigs, s)
        },
        None => None,
    }
}

/// Number of characters of the longest prefix of `s` that fits in `limit` bytes.
pub open spec fn sample_len(s: Seq<char>, limit: nat) -> nat {
    sample_len_from(s, limit, 0)
}

/// `sample_len`, searching upward from `n` characters.
pub open spec fn sample_len_from(s: Seq<char>, limit: nat, n: nat) -> nat
    decreases s.len() - n,
{
    if n >= s.len() {
        n
    } else if utf8_len(s.take(n + 1int)) > limit {
        n
    } else {
        sample_len_from(s, limit, n + 1)
    }
}

proof fn lemma_sample_len_from(s: Seq<char>, limit: nat, n: nat)
    requires
        n <= s.len(),
        utf8_len(s.take(n as int)) <= limit,
    ensures
        n <= sample_len_from(s, limit, n) <= s.len(),
        utf8_len(s.take(sample_len_from(s, limit, n) as int)) <= limit,
        sample_len_from(s, limit, n) < s.len() ==> utf8_len(s.take(sample_len_from(s, limit, n) + 1int)) > limit,
    decreases s.len() - n,
{
    if n < s.len() && utf8_len(s.take(n + 1int)) <= limit {
        lemma_sample_len_from(s, limit, n + 1);
    }
}

/// The sample is the longest prefix that fits the byte budget: it fits, and
/// one more character would not.
pub proof fn lemma_sample_longest(s: Seq<char>, limit: nat)
    ensures
        sample_len(s, limit) <= s.len(),
        utf8_len(s.take(sample_len(s, limit) as int)) <= limit,
        sample_len(s, limit) < s.len() ==> utf8_len(s.take(sample_len(s, limit) + 1int)) > limit,
{
    assert(s.take(0) =~= Seq::<char>::empty());
    assert(utf8_len(Seq::<char>::empty()) == 0) by {
        assert(vstd::utf8::encode_utf8(Seq::<char>::empty()) =~= Seq::<u8>::empty());
    }
    lemma_sample_len_from(s, limit, 0);
}

// ---------------------------------------------------------------------------
// `zhhz detect` command line
// ---------------------------------------------------------------------------

/// The report line for one input: `<region>\t<confidence>\t<path>`, with
/// region `unknown` and confidence 0 when nothing was detected.
pub open spec fn detection_line_spec(det: Option<(Region, nat)>, path: Seq<char>) -> Seq<char> {
    match det {
        Some((g, c)) => crate::engine::region_code(g) + "\t"@ + decimal(c) + "\t"@ + path + "\n"@,
        None => "unknown\t0\t"@ + path + "\n"@,
    }
}

/// The view of a detection.
pub open spec fn detection_view(d: Option<Detection>) -> Option<(Region, nat)> {
    match d {
        Some(x) => Some((x.region, x.confidence as nat)),
        None => None,
    }
}

/// The report line for one input, newline included.
pub fn detection_line(det: Option<Detection>, path: &str) -> (r: String)
    ensures
        r@ == detection_line_spec(detection_view(det), path@),
{
    let mut s = String::new();
    match det {
        Some(d) => {
            push_str_to(&mut s, d.region.code());
            push_str_to(&mut s, "\t");
            push_decimal(&mut s, d.confidence as u64);
            push_str_to(&mut s, "\t");
        },
        None => {
            push_str_to(&mut s, "unknown\t0\t");
        },
    }
    push_str_to(&mut s, path);
    push_str_to(&mut s, "\n");
    s
}

/// Options of `zhhz detect`.
pub struct DetectArgs {
    /// With `--files-from`, paths are NUL-separated.
    pub nul: bool,
    /// Where to read the list of paths from (`-` for stdin).
    pub files_from: Option<String>,
    /// Paths given as arguments.
    pub paths: Vec<String>,
}

/// What `zhhz detect` is asked to do.
pub enum DetectAction {
    Help,
    Version,
    Run(DetectArgs),
}

/// The options of `zhhz detect` as values.
pub ghost struct DetectArgsModel {
    pub nul: bool,
    pub files_from: Option<Seq<char>>,
    pub paths: Seq<Seq<char>>,
}

/// What `zhhz detect` is asked to do, as values.
pub ghost enum DetectActionModel {
    Help,
    Version,
    Run(DetectArgsModel),
}

impl DetectAction {
    pub open spec fn view(&self) -> DetectActionModel {
        match self {
            DetectAction::Help => DetectActionModel::Help,
            DetectAction::Version => DetectActionModel::Version,
            DetectAction::Run(a) => DetectActionModel::Run(
                DetectArgsModel {
                    nul: a.nul,
                    files_from: opt_view(a.files_from),
                    paths: strings_view(a.paths@),
                },
            ),
        }
    }
}

/// The error when `--files-from` ends the argument list.
pub open spec fn files_from_missing_message() -> Seq<char> {
    "zhhz detect: --files-from requires an argument"@
}

/// Read the arguments `args` of `zhhz detect` with the options `st` gathered
/// so far. `-h`/`--help` and `-V`/`--version` win at once; `--files-from`
/// takes the next argument, `--files-from=<path>` its own suffix; anything
/// else is a path.
pub open spec fn detect_args_from(st: DetectArgsModel, args: Seq<Seq<char>>) -> Result<DetectActionModel, Seq<char>>
    decreases args.len(),
{
    if args.len() == 0 {
        Ok(DetectActionModel::Run(st))
    } else {
        let a = args[0];
        if a == "-h"@ || a == "--help"@ {
            Ok(DetectActionModel::Help)
        } else if a == "-V"@ || a == "--version"@ {
            Ok(DetectActionModel::Version)
        } else if a == "-0"@ || a == "--null"@ {
            detect_args_from(DetectArgsModel { nul: true, ..st }, args.drop_first())
        } else if a == "--files-from"@ {
            if args.len() < 2 {
                Err(files_from_missing_message())
            } else {
                detect_args_from(DetectArgsModel { files_from: Some(args[1]), ..st }, args.skip(2))
            }
        } else if "--files-from="@.len() <= a.len() && a.take("--files-from="@.len() as int) == "--files-from="@ {
            detect_args_from(
                DetectArgsModel { files_from: Some(a.skip("--files-from="@.len() as int)), ..st },
                args.drop_first(),
            )
        } else {
            detect_args_from(DetectArgsModel { paths: st.paths.push(a), ..st }, args.drop_first())
        }
    }
}

/// What the arguments of `zhhz detect` ask for.
pub open spec fn spec_detect_args(args: Seq<Seq<char>>) -> Result<DetectActionModel, Seq<char>> {
    detect_args_from(DetectArgsModel { nul: false, files_from: None, paths: Seq::empty() }, args)
}

/// Whether `a` starts with `p`; if so, where the rest of `a` begins.
fn strip_prefix_at(a: &Vec<char>, p: &str) -> (r: Option<usize>)
    ensures
        match r {
            Some(n) => n == p@.len() && n <= a@.len() && a@.take(n as int) == p@,
            None => !(p@.len() <= a@.len() && a@.take(p@.len() as int) == p@),
        },
{
    let pv = str_chars(p);
    if pv.len() > a.len() {
        return None;
    }
    let mut i: usize = 0;
    while i < pv.len()
        invariant
            pv@ == p@,
            pv@.len() <= a@.len(),
            i <= pv@.len(),
            forall|k: int| 0 <= k < i ==> a@[k] == pv@[k],
        decreases pv@.len() - i,
    {
        if a[i] != pv[i] {
            assert(a@.take(pv@.len() as int)[i as int] != pv@[i as int]);
            return None;
        }
        i += 1;
    }
    assert(a@.take(pv@.len() as int) =~= pv@);
    Some(pv.len())
}

/// Parse the arguments of `zhhz detect` (the word `detect` already removed).
pub fn parse_detect_args(args: &Vec<String>) -> (r: Result<DetectAction, String>)
    ensures
        match spec_detect_args(strings_view(args@)) {
            Ok(m) => r matches Ok(a) && a.view() == m,
            Err(e) => r matches Err(x) && x@ == e,
        },
{
    let ghost av = strings_view(args@);
    let mut nul = false;
    let mut files_from: Option<String> = None;
    let mut paths: Vec<String> = Vec::new();
    let mut i: usize = 0;
    assert(av.skip(0) =~= av);
    assert(strings_view(paths@) =~= Seq::<Seq<char>>::empty());
    while i < args.len()
        invariant
            av == strings_view(args@),
            i <= args@.len(),
            spec_detect_args(av) == detect_args_from(
                DetectArgsModel {
                    nul,
                    files_from: opt_view(files_from),
                    paths: strings_view(paths@),
                },
                av.skip(i as int),
            ),
        decreases args@.len() - i,
    {
        let ghost rest = av.skip(i as int);
        let ghost st = DetectArgsModel {
            nul,
            files_from: opt_view(files_from),
            paths: strings_view(paths@),
        };
        assert(rest[0] == args@[i as int]@);
        assert(rest.drop_first() =~= av.skip(i + 1));
        let a = args[i].as_str();
        if str_eq(a, "-h") || str_eq(a, "--help") {
            return Ok(DetectAction::Help);
        } else if str_eq(a, "-V") || str_eq(a, "--version") {
            return Ok(DetectAction::Version);
        } else if str_eq(a, "-0") || str_eq(a, "--null") {
            nul = true;
            i += 1;
        } else if str_eq(a, "--files-from") {
            if i + 1 >= args.len() {
                return Err(files_from_missing());
            }
            assert(rest[1] == args@[i + 1]@);
            assert(rest.skip(2) =~= av.skip(i + 2));
            files_from = Some(args[i + 1].clone());
            i += 2;
        } else {
            let chars = str_chars(a);
            match strip_prefix_at(&chars, "--files-from=") {
                Some(n) => {
                    files_from = Some(string_from_chars(&chars, n, chars.len()));
                    assert(chars@.subrange(n as int, chars@.len() as int) =~= chars@.skip(n as int));
                },
                None => {
                    let ghost before = strings_view(paths@);
                    paths.push(args[i].clone());
                    assert(strings_view(paths@) =~= before.push(args@[i as int]@));
                },
            }
            i += 1;
        }
    }
    Ok(DetectAction::Run(DetectArgs { nul, files_from, paths }))
}

fn files_from_missing() -> (e: String)
    ensures
        e@ == files_from_missing_message(),
{
    "zhhz detect: --files-from requires an argument".to_string()
}

/// The inputs to detect when no `--files-from` is given: the paths, or
/// stdin (`-`) when there are none.
pub fn detect_targets(paths: Vec<String>) -> (r: Vec<String>)
    ensures
        strings_view(r@) == (if paths@.len() == 0 {
            seq!["-"@]
        } else {
            strings_view(paths@)
        }),
{
    if paths.len() == 0 {
        let mut v: Vec<String> = Vec::new();
        v.push("-".to_string());
        assert(strings_view(v@) =~= seq!["-"@]);
        v
    } else {
        paths
    }
}

} // verus!
