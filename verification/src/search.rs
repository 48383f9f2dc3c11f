//! The search pipeline: query classification, candidate generation through
//! the inverted indices, feature extraction, scoring, and deterministic
//! ranking.
//!
//! A query is classified by its Unicode ranges as kanji-bearing, kana-only,
//! or English. Candidates come from the matching index by exact and prefix
//! key lookup; when the indices are absent or yield nothing, a bounded prefix
//! of the whole store is scanned instead, which is what lets near-miss kana
//! queries surface. Each candidate is scored by a fixed linear combination of
//! match features, and the results are ordered by score with a fixed chain of
//! tie-breakers.

use vstd::prelude::*;

use crate::dictionary::{WordEntry, WordEntryView};
use crate::text::{
    chars_vec, clean_chars, clean_token, clauses, eq_chars, lower_of, lowercase, prefix_chars,
    simple_edit_distance, spec_edit_distance, spec_trim, split_semi, split_ws, trim_str,
    ws_tokens,
};
use vstd::string::StrSliceExecFns;

verus! {

/// The three query regimes, decided by the characters of the query.
#[derive(Debug, Clone, Copy, PartialEq, Eq, Structural)]
pub enum QueryType {
    /// The query contains at least one CJK ideograph.
    Kanji,
    /// The query contains kana but no ideograph.
    Kana,
    /// The query contains neither.
    English,
}

/// Whether `c` lies in the basic CJK ideograph block.
pub open spec fn is_kanji_char(c: char) -> bool {
    0x4E00 <= c as u32 && c as u32 <= 0x9FAF
}

/// Whether `c` lies in the hiragana or katakana blocks.
pub open spec fn is_kana_char(c: char) -> bool {
    (0x3040 <= c as u32 && c as u32 <= 0x309F) || (0x30A0 <= c as u32 && c as u32 <= 0x30FF)
}

/// The regime of a query: kanji wins over kana when both occur, and a query
/// with neither is treated as English.
pub open spec fn spec_query_type(q: Seq<char>) -> QueryType {
    if exists|i: int| 0 <= i < q.len() && is_kanji_char(q[i]) {
        QueryType::Kanji
    } else if exists|i: int| 0 <= i < q.len() && is_kana_char(q[i]) {
        QueryType::Kana
    } else {
        QueryType::English
    }
}

/// Classifies a query by examining every character, verified against
/// [`spec_query_type`].
pub fn detect_query_type(query: &str) -> (t: QueryType)
    ensures
        t == spec_query_type(query@),
{
    let c = chars_vec(query);
    let n = c.len();
    let mut has_kanji = false;
    let mut has_kana = false;
    let mut i: usize = 0;
    while i < n
        invariant
            n == c@.len(),
            c@ == query@,
            0 <= i <= n,
            has_kanji == exists|j: int| 0 <= j < i && is_kanji_char(c@[j]),
            has_kana == exists|j: int| 0 <= j < i && is_kana_char(c@[j]),
        decreases n - i,
    {
        let u = c[i] as u32;
        if 0x4E00 <= u && u <= 0x9FAF {
            has_kanji = true;
        }
        if (0x3040 <= u && u <= 0x309F) || (0x30A0 <= u && u <= 0x30FF) {
            has_kana = true;
        }
        i += 1;
    }
    if has_kanji {
        QueryType::Kanji
    } else if has_kana {
        QueryType::Kana
    } else {
        QueryType::English
    }
}

/// The normalized form of a query or gloss: trimmed, then lowercased.
pub open spec fn norm_of(q: Seq<char>) -> Seq<char> {
    lower_of(spec_trim(q))
}

/// Trims and lowercases, verified against [`norm_of`].
pub fn normalize_query(query: &str) -> (r: String)
    ensures
        r@ == norm_of(query@),
{
    lowercase(trim_str(query))
}

/// The match signals computed for one `(query, candidate)` pair. Recomputed
/// on every search; never persisted.
#[derive(Debug, Clone, Copy, PartialEq, Eq, Structural)]
pub struct Features {
    /// Some kanji form equals the normalized query.
    pub exact_form: bool,
    /// Some kana form equals the normalized query.
    pub exact_reading: bool,
    /// Some form starts with the normalized query.
    pub prefix: bool,
    /// The recorded near-miss distance on kana readings, `0` when none.
    pub edit_distance: u8,
    /// The entry is flagged as a common word.
    pub has_common: bool,
    /// The entry has a short written form.
    pub shorter_lemma: bool,
    /// Some English gloss matches the query.
    pub gloss_hit: bool,
    /// The very first gloss clause matches the query.
    pub first_gloss: bool,
    /// The query matches a whole gloss, not a fragment of a compound.
    pub exact_english: bool,
    /// The entry is a simple basic form rather than a compound.
    pub simple_form: bool,
}

impl Default for Features {
    /// No signal set.
    fn default() -> (r: Features)
        ensures
            r == no_features(),
    {
        Features {
            exact_form: false,
            exact_reading: false,
            prefix: false,
            edit_distance: 0,
            has_common: false,
            shorter_lemma: false,
            gloss_hit: false,
            first_gloss: false,
            exact_english: false,
            simple_form: false,
        }
    }
}

/// The feature record with no signal set.
pub open spec fn no_features() -> Features {
    Features {
        exact_form: false,
        exact_reading: false,
        prefix: false,
        edit_distance: 0,
        has_common: false,
        shorter_lemma: false,
        gloss_hit: false,
        first_gloss: false,
        exact_english: false,
        simple_form: false,
    }
}

/// The weight of an exact whole-gloss English match.
pub const WEIGHT_EXACT_ENGLISH: i32 = 250;

/// The weight of a match on the very first gloss clause.
pub const WEIGHT_FIRST_GLOSS: i32 = 200;

/// The weight of an exact kanji-form match.
pub const WEIGHT_EXACT_FORM: i32 = 100;

/// The weight of an exact kana-reading match.
pub const WEIGHT_EXACT_READING: i32 = 95;

/// The weight of the commonness flag.
pub const WEIGHT_HAS_COMMON: i32 = 50;

/// The weight of a prefix match.
pub const WEIGHT_PREFIX: i32 = 30;

/// The weight of a simple basic form.
pub const WEIGHT_SIMPLE_FORM: i32 = 25;

/// The weight of a gloss hit that is not a first-gloss hit.
pub const WEIGHT_GLOSS_HIT: i32 = 10;

/// The weight of a short lemma.
pub const WEIGHT_SHORTER_LEMMA: i32 = 5;

/// The per-unit penalty for a recorded edit distance.
pub const WEIGHT_EDIT_DISTANCE: i32 = 2;

/// The fixed linear combination that reduces a feature record to a score:
/// each set signal adds its weight, except that a gloss hit adds nothing when
/// the first-gloss signal already pays out, and the edit distance subtracts
/// twice its value.
pub open spec fn spec_score(f: Features) -> int {
    (if f.exact_form {
        WEIGHT_EXACT_FORM as int
    } else {
        0
    }) + (if f.exact_reading {
        WEIGHT_EXACT_READING as int
    } else {
        0
    }) + (if f.exact_english {
        WEIGHT_EXACT_ENGLISH as int
    } else {
        0
    }) + (if f.first_gloss {
        WEIGHT_FIRST_GLOSS as int
    } else {
        0
    }) + (if f.has_common {
        WEIGHT_HAS_COMMON as int
    } else {
        0
    }) + (if f.prefix {
        WEIGHT_PREFIX as int
    } else {
        0
    }) + (if f.gloss_hit && !f.first_gloss {
        WEIGHT_GLOSS_HIT as int
    } else {
        0
    }) + (if f.simple_form {
        WEIGHT_SIMPLE_FORM as int
    } else {
        0
    }) + (if f.shorter_lemma {
        WEIGHT_SHORTER_LEMMA as int
    } else {
        0
    }) - (WEIGHT_EDIT_DISTANCE as int) * (f.edit_distance as int)
}

/// Reduces a feature record to its score, verified against [`spec_score`].
#[verifier::rlimit(50)]
pub fn score_features(features: &Features) -> (r: i32)
    requires
        features.edit_distance <= 3,
    ensures
        r as int == spec_score(*features),
{
    let mut score: i32 = 0;
    if features.exact_form {
        score += WEIGHT_EXACT_FORM;
    }
    if features.exact_reading {
        score += WEIGHT_EXACT_READING;
    }
    if features.exact_english {
        score += WEIGHT_EXACT_ENGLISH;
    }
    if features.first_gloss {
        score += WEIGHT_FIRST_GLOSS;
    }
    if features.has_common {
        score += WEIGHT_HAS_COMMON;
    }
    if features.prefix {
        score += WEIGHT_PREFIX;
    }
    if features.gloss_hit && !features.first_gloss {
        score += WEIGHT_GLOSS_HIT;
    }
    if features.simple_form {
        score += WEIGHT_SIMPLE_FORM;
    }
    if features.shorter_lemma {
        score += WEIGHT_SHORTER_LEMMA;
    }
    score -= WEIGHT_EDIT_DISTANCE * (features.edit_distance as i32);
    score
}

/// The position of the first form whose lowercase equals `nq` (or the form
/// count when none does): matching stops at the first exact hit.
pub open spec fn first_eq_idx(forms: Seq<Seq<char>>, nq: Seq<char>) -> int
    decreases forms.len(),
{
    if forms.len() == 0 {
        0
    } else if lower_of(forms[0]) == nq {
        0
    } else {
        1 + first_eq_idx(forms.drop_first(), nq)
    }
}

pub proof fn lemma_first_eq(forms: Seq<Seq<char>>, nq: Seq<char>)
    ensures
        0 <= first_eq_idx(forms, nq) <= forms.len(),
        forall|i: int| 0 <= i < first_eq_idx(forms, nq) ==> lower_of(#[trigger] forms[i]) != nq,
        first_eq_idx(forms, nq) < forms.len() ==> lower_of(forms[first_eq_idx(forms, nq)]) == nq,
    decreases forms.len(),
{
    if forms.len() != 0 && lower_of(forms[0]) != nq {
        lemma_first_eq(forms.drop_first(), nq);
        assert forall|i: int| 0 <= i < first_eq_idx(forms, nq) implies lower_of(
            #[trigger] forms[i],
        ) != nq by {
            if i > 0 {
                assert(forms.drop_first()[i - 1] == forms[i]);
            }
        }
        if first_eq_idx(forms, nq) < forms.len() {
            assert(forms.drop_first()[first_eq_idx(forms, nq) - 1] == forms[first_eq_idx(
                forms,
                nq,
            )]);
        }
    }
}

/// Some form lowercases to exactly `nq`.
pub open spec fn has_exact_form(forms: Seq<Seq<char>>, nq: Seq<char>) -> bool {
    exists|i: int| 0 <= i < forms.len() && lower_of(#[trigger] forms[i]) == nq
}

/// Some form scanned before the first exact hit starts with `nq`.
pub open spec fn has_prefix_form(forms: Seq<Seq<char>>, nq: Seq<char>) -> bool {
    exists|i: int|
        0 <= i < forms.len() && i < first_eq_idx(forms, nq) && nq.is_prefix_of(
            lower_of(#[trigger] forms[i]),
        )
}

/// The near-miss distance recorded while scanning kana forms: the distance of
/// the first form within distance two of `nq`, scanning in order and stopping
/// at an exact hit; zero when no form qualifies first.
pub open spec fn kana_ed(forms: Seq<Seq<char>>, nq: Seq<char>) -> int
    decreases forms.len(),
{
    if forms.len() == 0 {
        0
    } else if lower_of(forms[0]) == nq {
        0
    } else if spec_edit_distance(lower_of(forms[0]), nq) <= 2 {
        spec_edit_distance(lower_of(forms[0]), nq)
    } else {
        kana_ed(forms.drop_first(), nq)
    }
}

pub proof fn lemma_kana_ed_bounds(forms: Seq<Seq<char>>, nq: Seq<char>)
    ensures
        0 <= kana_ed(forms, nq) <= 2,
    decreases forms.len(),
{
    if forms.len() != 0 && lower_of(forms[0]) != nq && spec_edit_distance(
        lower_of(forms[0]),
        nq,
    ) > 2 {
        lemma_kana_ed_bounds(forms.drop_first(), nq);
    } else if forms.len() != 0 && lower_of(forms[0]) != nq {
        crate::text::lemma_edit_distance_nonneg(lower_of(forms[0]), nq);
    }
}

/// The literal `"to "` that marks a verb gloss.
pub open spec fn to_prefix() -> Seq<char> {
    seq!['t', 'o', ' ']
}

/// The literal word `"to"`.
pub open spec fn to_word() -> Seq<char> {
    seq!['t', 'o']
}

/// Whether clause `cm` (already trimmed and lowercased) matches `nq` in one
/// of the four ways that stop the scan of the clause list: the whole clause,
/// the whole clause as `"to "` plus the query, the cleaned first word, or the
/// cleaned second word of a clause whose first word is `"to"`.
pub open spec fn clause_breaks(cm: Seq<char>, nq: Seq<char>) -> bool {
    let words = ws_tokens(cm);
    ||| cm == nq
    ||| cm == to_prefix() + nq
    ||| (words.len() >= 1 && clean_token(words[0]) == nq)
    ||| (words.len() >= 2 && words[0] == to_word() && clean_token(words[1]) == nq)
}

/// Whether the stopping match of clause `cm` counts as an exact English
/// match: a whole-clause match always does; a first-word match does when the
/// clause is that one word; a `"to"` second-word match does when the clause
/// is exactly those two words.
pub open spec fn clause_exact(cm: Seq<char>, nq: Seq<char>) -> bool {
    let words = ws_tokens(cm);
    if cm == nq || cm == to_prefix() + nq {
        true
    } else if words.len() >= 1 && clean_token(words[0]) == nq {
        words.len() == 1
    } else if words.len() >= 2 && words[0] == to_word() && clean_token(words[1]) == nq {
        words.len() == 2
    } else {
        false
    }
}

/// Whether `nq` equals some whole cleaned word of clause `cm`.
pub open spec fn clause_token_hit(cm: Seq<char>, nq: Seq<char>) -> bool {
    exists|i: int|
        0 <= i < ws_tokens(cm).len() && clean_token(#[trigger] ws_tokens(cm)[i]) == nq
}

/// The three English-gloss signals gathered while scanning glosses.
#[derive(Debug, Clone, Copy, PartialEq, Eq, Structural)]
#[verifier::ext_equal]
pub struct GlossSignals {
    /// Some clause matched the query.
    pub hit: bool,
    /// Some matching clause counted as an exact English match.
    pub exact: bool,
    /// The very first clause of the very first gloss matched.
    pub first: bool,
}

/// No gloss signal set.
pub open spec fn no_signals() -> GlossSignals {
    GlossSignals { hit: false, exact: false, first: false }
}

/// Scans the clause list of one gloss in order. A clause that matches in a
/// stopping way ends the scan, granting the first-clause signal only when
/// `eligible` holds and it is the first clause; a whole-word hit is recorded
/// without stopping.
pub open spec fn scan_clauses(ms: Seq<Seq<char>>, nq: Seq<char>, eligible: bool) -> GlossSignals
    decreases ms.len(),
{
    if ms.len() == 0 {
        no_signals()
    } else {
        let cm = spec_trim(ms[0]);
        if clause_breaks(cm, nq) {
            GlossSignals { hit: true, exact: clause_exact(cm, nq), first: eligible }
        } else {
            let rest = scan_clauses(ms.drop_first(), nq, false);
            GlossSignals {
                hit: clause_token_hit(cm, nq) || rest.hit,
                exact: rest.exact,
                first: rest.first,
            }
        }
    }
}

/// Scans the glosses in order, lowercasing each and splitting it on
/// semicolons; the scan of the whole list stops once the first-clause signal
/// is found, and only the very first gloss can grant it.
pub open spec fn scan_glosses(gs: Seq<Seq<char>>, nq: Seq<char>, very_first: bool) -> GlossSignals
    decreases gs.len(),
{
    if gs.len() == 0 {
        no_signals()
    } else {
        let g = scan_clauses(clauses(lower_of(gs[0])), nq, very_first);
        if g.first {
            g
        } else {
            let rest = scan_glosses(gs.drop_first(), nq, false);
            GlossSignals { hit: g.hit || rest.hit, exact: g.exact || rest.exact, first: rest.first }
        }
    }
}

/// Folds the whole-word hits gathered so far into the signals of the
/// remaining scan.
pub open spec fn combine_hit(hit: bool, rest: GlossSignals) -> GlossSignals {
    GlossSignals { hit: hit || rest.hit, exact: rest.exact, first: rest.first }
}

/// Folds the signals gathered from earlier glosses into those of the
/// remaining scan.
pub open spec fn combine_gloss(acc: GlossSignals, rest: GlossSignals) -> GlossSignals {
    GlossSignals { hit: acc.hit || rest.hit, exact: acc.exact || rest.exact, first: rest.first }
}

/// Evaluates one trimmed, lowercased clause against the normalized query:
/// whether it matches in a stopping way, whether that match is exact, and
/// otherwise whether the query equals some whole cleaned word of it.
fn scan_one_clause(cm: &str, nqc: &Vec<char>) -> (r: (bool, bool, bool))
    ensures
        r.0 == clause_breaks(cm@, nqc@),
        r.0 ==> r.1 == clause_exact(cm@, nqc@),
        !r.0 ==> r.2 == clause_token_hit(cm@, nqc@),
{
    let cmc = chars_vec(cm);
    if eq_chars(&cmc, nqc) {
        return (true, true, false);
    }
    let mut ton: Vec<char> = Vec::new();
    ton.push('t');
    ton.push('o');
    ton.push(' ');
    let mut i: usize = 0;
    while i < nqc.len()
        invariant
            0 <= i <= nqc@.len(),
            ton@ =~= to_prefix() + nqc@.subrange(0, i as int),
        decreases nqc@.len() - i,
    {
        ton.push(nqc[i]);
        i += 1;
    }
    assert(ton@ =~= to_prefix() + nqc@);
    if eq_chars(&cmc, &ton) {
        return (true, true, false);
    }
    let words = split_ws(cm);
    let ghost ws = ws_tokens(cm@);
    if words.len() >= 1 {
        assert(words.deep_view()[0] == words@[0]@);
        let w0 = chars_vec(words[0]);
        let cf = clean_chars(&w0);
        if eq_chars(&cf, nqc) {
            return (true, words.len() == 1, false);
        }
    }
    if words.len() >= 2 {
        assert(words.deep_view()[0] == words@[0]@);
        assert(words.deep_view()[1] == words@[1]@);
        let w0 = chars_vec(words[0]);
        let mut tow: Vec<char> = Vec::new();
        tow.push('t');
        tow.push('o');
        assert(tow@ =~= to_word());
        if eq_chars(&w0, &tow) {
            let w1 = chars_vec(words[1]);
            let sw = clean_chars(&w1);
            if eq_chars(&sw, nqc) {
                return (true, words.len() == 2, false);
            }
        }
    }
    assert(!clause_breaks(cm@, nqc@));
    let mut th = false;
    let mut j: usize = 0;
    while j < words.len()
        invariant
            0 <= j <= words@.len(),
            words.deep_view() == ws_tokens(cm@),
            th == exists|k: int|
                0 <= k < j && clean_token(#[trigger] ws_tokens(cm@)[k]) == nqc@,
        decreases words@.len() - j,
    {
        assert(words.deep_view()[j as int] == words@[j as int]@);
        let wc = chars_vec(words[j]);
        let cw = clean_chars(&wc);
        if eq_chars(&cw, nqc) {
            assert(clean_token(ws_tokens(cm@)[j as int]) == nqc@);
            th = true;
        }
        j += 1;
    }
    (false, false, th)
}

/// Scans the clauses of one raw gloss, verified against [`scan_clauses`]
/// over the lowercased gloss.
fn scan_one_gloss(g: &str, nqc: &Vec<char>, eligible: bool) -> (r: GlossSignals)
    ensures
        r == scan_clauses(clauses(lower_of(g@)), nqc@, eligible),
{
    let el = lowercase(g);
    let ms = split_semi(el.as_str());
    let ghost mss = clauses(lower_of(g@));
    proof {
        assert(ms.deep_view() =~~= mss);
    }
    let n = ms.len();
    let mut hit = false;
    let mut ci: usize = 0;
    proof {
        assert(mss.skip(0) =~~= mss);
        assert(combine_hit(false, scan_clauses(mss, nqc@, eligible)) =~= scan_clauses(
            mss,
            nqc@,
            eligible,
        ));
    }
    while ci < n
        invariant
            n == ms@.len(),
            ms.deep_view() =~~= mss,
            mss == clauses(lower_of(g@)),
            0 <= ci <= n,
            scan_clauses(mss, nqc@, eligible) == combine_hit(
                hit,
                scan_clauses(mss.skip(ci as int), nqc@, eligible && ci == 0),
            ),
        decreases n - ci,
    {
        assert(ms.deep_view()[ci as int] == ms@[ci as int]@);
        let cm = trim_str(ms[ci]);
        let (br, ex, th) = scan_one_clause(cm, nqc);
        proof {
            assert(mss.skip(ci as int)[0] == mss[ci as int]);
            assert(mss.skip(ci as int).drop_first() =~~= mss.skip(ci as int + 1));
        }
        if br {
            let out = GlossSignals { hit: true, exact: ex, first: eligible && ci == 0 };
            proof {
                let sub = scan_clauses(mss.skip(ci as int), nqc@, eligible && ci == 0);
                assert(out =~= combine_hit(hit, sub));
            }
            return out;
        }
        hit = hit || th;
        proof {
            let sub = scan_clauses(mss.skip(ci as int), nqc@, eligible && ci == 0);
            let sub2 = scan_clauses(mss.skip(ci as int + 1), nqc@, false);
            assert(sub =~= combine_hit(th, sub2));
            assert(combine_hit(hit, sub2) =~= combine_hit(
                (hit || th),
                scan_clauses(mss.skip(ci as int + 1), nqc@, eligible && ci as int + 1 == 0),
            ));
        }
        ci += 1;
    }
    let out = GlossSignals { hit, exact: false, first: false };
    proof {
        assert(mss.skip(n as int) =~~= Seq::<Seq<char>>::empty());
        assert(out =~= combine_hit(hit, scan_clauses(mss.skip(n as int), nqc@, eligible && n == 0)));
    }
    out
}

/// Some form holds at most `k` characters.
pub open spec fn char_count_le(forms: Seq<Seq<char>>, k: int) -> bool {
    exists|i: int| 0 <= i < forms.len() && (#[trigger] forms[i]).len() <= k
}

/// The i-adjective part-of-speech marker.
pub open spec fn adj_i_tag() -> Seq<char> {
    seq!['a', 'd', 'j', '-', 'i']
}

/// Whether `w` occurs contiguously inside `s`.
pub open spec fn contains_subseq(s: Seq<char>, w: Seq<char>) -> bool {
    exists|k: int|
        0 <= k && k + w.len() <= s.len() && #[trigger] s.subrange(k, k + w.len() as int) == w
}

/// Some part-of-speech tag mentions the i-adjective marker.
pub open spec fn spec_has_adj_i(pos: Seq<Seq<char>>) -> bool {
    exists|i: int| 0 <= i < pos.len() && contains_subseq(#[trigger] pos[i], adj_i_tag())
}

/// Some form ends in the hiragana character that closes an i-adjective.
pub open spec fn spec_ends_i(forms: Seq<Seq<char>>) -> bool {
    exists|i: int|
        0 <= i < forms.len() && (#[trigger] forms[i]).len() > 0 && forms[i].last() == '\u{3044}'
}

/// The entry has a short written form: a kanji form of at most two characters
/// or a kana form of at most three.
pub open spec fn spec_shorter_lemma(e: WordEntryView) -> bool {
    char_count_le(e.kanji, 2) || char_count_le(e.kana, 3)
}

/// The entry is a simple basic form: an i-adjective whose kanji form ends in
/// the closing hiragana, or a short form (kanji of at most two characters or
/// kana of at most four).
pub open spec fn spec_simple_form(e: WordEntryView) -> bool {
    (spec_has_adj_i(e.pos) && spec_ends_i(e.kanji)) || char_count_le(e.kanji, 2) || char_count_le(
        e.kana,
        4,
    )
}

/// The raw match signals of one entry against the normalized query `nq`,
/// before the entry-quality signals are filled in.
pub open spec fn base_features(e: WordEntryView, nq: Seq<char>, qt: QueryType) -> Features {
    match qt {
        QueryType::Kanji => Features {
            exact_form: has_exact_form(e.kanji, nq),
            prefix: has_prefix_form(e.kanji, nq),
            exact_reading: has_exact_form(e.kana, nq),
            ..no_features()
        },
        QueryType::Kana => Features {
            exact_reading: has_exact_form(e.kana, nq),
            prefix: has_prefix_form(e.kana, nq),
            edit_distance: kana_ed(e.kana, nq) as u8,
            ..no_features()
        },
        QueryType::English => {
            let g = scan_glosses(e.english, nq, true);
            Features {
                gloss_hit: g.hit,
                exact_english: g.exact,
                first_gloss: g.first,
                ..no_features()
            }
        },
    }
}

/// Whether the entry shares any signal with the query: entries with none are
/// dropped, never surfaced.
pub open spec fn eval_matched(e: WordEntryView, nq: Seq<char>, qt: QueryType) -> bool {
    let f = base_features(e, nq, qt);
    f.exact_form || f.exact_reading || f.prefix || f.gloss_hit || f.edit_distance != 0
}

/// The full feature record of a matching entry: the raw match signals plus
/// the entry-quality signals.
pub open spec fn eval_features(e: WordEntryView, nq: Seq<char>, qt: QueryType) -> Features {
    Features {
        has_common: e.is_common,
        shorter_lemma: spec_shorter_lemma(e),
        simple_form: spec_simple_form(e),
        ..base_features(e, nq, qt)
    }
}

/// Whether some form holds at most `k` characters.
fn any_short_form(v: &Vec<String>, k: usize) -> (r: bool)
    ensures
        r == char_count_le(v.deep_view(), k as int),
{
    let mut found = false;
    let mut i: usize = 0;
    while i < v.len()
        invariant
            0 <= i <= v@.len(),
            found == exists|j: int| 0 <= j < i && (#[trigger] v.deep_view()[j]).len() <= k,
        decreases v@.len() - i,
    {
        assert(v.deep_view()[i as int] == v@[i as int]@);
        if v[i].as_str().unicode_len() <= k {
            found = true;
            assert((v.deep_view()[i as int]).len() <= k);
        }
        i += 1;
    }
    found
}

/// Whether `w` occurs contiguously inside `s`.
fn contains_sub(s: &Vec<char>, w: &Vec<char>) -> (r: bool)
    ensures
        r == contains_subseq(s@, w@),
{
    if w.len() > s.len() {
        proof {
            if contains_subseq(s@, w@) {
                let k = choose|k: int|
                    0 <= k && k + w@.len() <= s@.len() && #[trigger] s@.subrange(
                        k,
                        k + w@.len() as int,
                    ) == w@;
            }
        }
        return false;
    }
    if w.len() == 0 {
        assert(contains_subseq(s@, w@)) by {
            assert(s@.subrange(0, 0 + w@.len() as int) =~= w@);
        }
        return true;
    }
    let mut k: usize = 0;
    let kmax = s.len() - w.len();
    while k <= kmax
        invariant
            1 <= w@.len() <= s@.len(),
            s@.len() <= usize::MAX,
            kmax == s@.len() - w@.len(),
            0 <= k <= kmax + 1,
            forall|j: int| 0 <= j < k ==> #[trigger] s@.subrange(j, j + w@.len() as int) != w@,
        decreases kmax + 1 - k,
    {
        let mut m: usize = 0;
        while m < w.len() && s[k + m] == w[m]
            invariant
                k + w@.len() <= s@.len(),
                s@.len() <= usize::MAX,
                0 <= m <= w@.len(),
                forall|t: int| 0 <= t < m ==> s@[k + t] == w@[t],
            decreases w@.len() - m,
        {
            m += 1;
        }
        if m == w.len() {
            assert(contains_subseq(s@, w@)) by {
                assert(s@.subrange(k as int, k as int + w@.len() as int) =~= w@);
            }
            return true;
        }
        assert(s@.subrange(k as int, k + w@.len() as int) != w@) by {
            assert(s@.subrange(k as int, k + w@.len() as int)[m as int] == s@[k + m]);
        }
        k += 1;
    }
    proof {
        if contains_subseq(s@, w@) {
            let j = choose|j: int|
                0 <= j && j + w@.len() <= s@.len() && #[trigger] s@.subrange(
                    j,
                    j + w@.len() as int,
                ) == w@;
            assert(j < k);
        }
    }
    false
}

/// Whether some part-of-speech tag mentions the i-adjective marker.
fn has_adj_i_tag(pos: &Vec<String>) -> (r: bool)
    ensures
        r == spec_has_adj_i(pos.deep_view()),
{
    let mut w: Vec<char> = Vec::new();
    w.push('a');
    w.push('d');
    w.push('j');
    w.push('-');
    w.push('i');
    assert(w@ =~= adj_i_tag());
    let mut found = false;
    let mut i: usize = 0;
    while i < pos.len()
        invariant
            w@ == adj_i_tag(),
            0 <= i <= pos@.len(),
            found == exists|j: int|
                0 <= j < i && contains_subseq(#[trigger] pos.deep_view()[j], adj_i_tag()),
        decreases pos@.len() - i,
    {
        assert(pos.deep_view()[i as int] == pos@[i as int]@);
        let sc = chars_vec(pos[i].as_str());
        if contains_sub(&sc, &w) {
            found = true;
            assert(contains_subseq(pos.deep_view()[i as int], adj_i_tag()));
        }
        i += 1;
    }
    found
}

/// Whether some form ends in the closing hiragana of an i-adjective.
fn any_ends_i(forms: &Vec<String>) -> (r: bool)
    ensures
        r == spec_ends_i(forms.deep_view()),
{
    let mut found = false;
    let mut i: usize = 0;
    while i < forms.len()
        invariant
            0 <= i <= forms@.len(),
            found == exists|j: int|
                0 <= j < i && (#[trigger] forms.deep_view()[j]).len() > 0
                    && forms.deep_view()[j].last() == '\u{3044}',
        decreases forms@.len() - i,
    {
        assert(forms.deep_view()[i as int] == forms@[i as int]@);
        let n = forms[i].as_str().unicode_len();
        if n > 0 && forms[i].as_str().get_char(n - 1) == '\u{3044}' {
            found = true;
            assert((forms.deep_view()[i as int]).len() > 0 && forms.deep_view()[i as int].last()
                == '\u{3044}');
        }
        i += 1;
    }
    found
}

/// One scored candidate: the decoded entry, its score, and the feature
/// record the score was derived from.
#[derive(Debug)]
pub struct SearchResult {
    /// The decoded entry.
    pub entry: WordEntry,
    /// The fixed linear combination of the features.
    pub score: i32,
    /// The match signals of this entry against the query.
    pub features: Features,
}

/// The mathematical view of one scored candidate.
#[verifier::ext_equal]
pub struct SearchResultView {
    pub entry: WordEntryView,
    pub score: int,
    pub features: Features,
}

impl View for SearchResult {
    type V = SearchResultView;

    open spec fn view(&self) -> SearchResultView {
        SearchResultView { entry: self.entry@, score: self.score as int, features: self.features }
    }
}

/// Copies a vector of strings, character for character.
fn copy_strings(v: &Vec<String>) -> (r: Vec<String>)
    ensures
        r@ =~= v@,
        r.deep_view() =~~= v.deep_view(),
{
    let mut r: Vec<String> = Vec::new();
    let mut i: usize = 0;
    while i < v.len()
        invariant
            0 <= i <= v@.len(),
            r@ =~= v@.subrange(0, i as int),
        decreases v@.len() - i,
    {
        r.push(v[i].clone());
        i += 1;
    }
    assert(r@ =~= v@);
    r
}

/// Copies one decoded entry; the copy has the same view.
fn copy_entry(e: &WordEntry) -> (r: WordEntry)
    ensures
        r@ == e@,
{
    let r = WordEntry {
        id: e.id.clone(),
        kanji: copy_strings(&e.kanji),
        kana: copy_strings(&e.kana),
        english: copy_strings(&e.english),
        pos: copy_strings(&e.pos),
        is_common: e.is_common,
    };
    assert(r@ =~~= e@);
    r
}

/// Evaluates one entry against the raw query under the given regime:
/// `None` exactly when the entry shares no signal with the query; otherwise
/// the result carries a copy of the entry, the feature record, and its score.
pub fn evaluate_entry(entry: &WordEntry, query: &str, query_type: &QueryType) -> (r: Option<
    SearchResult,
>)
    ensures
        r is Some <==> eval_matched(entry@, norm_of(query@), *query_type),
        r is Some ==> (r->0).entry@ == entry@,
        r is Some ==> (r->0).features == eval_features(entry@, norm_of(query@), *query_type),
        r is Some ==> (r->0).score as int == spec_score(
            eval_features(entry@, norm_of(query@), *query_type),
        ),
{
    let nq = normalize_query(query);
    let nqc = chars_vec(nq.as_str());
    let ghost nqs = norm_of(query@);
    let mut features = Features::default();
    match query_type {
        QueryType::Kanji => {
            let ghost forms = entry@.kanji;
            proof {
                lemma_first_eq(forms, nqs);
            }
            let n = entry.kanji.len();
            let mut ef = false;
            let mut pr = false;
            let mut i: usize = 0;
            while i < n
                invariant
                    n == entry.kanji@.len(),
                    forms == entry@.kanji,
                    forms == entry.kanji.deep_view(),
                    nqc@ == nqs,
                    nq@ == nqs,
                    0 <= i <= n,
                    ef == exists|j: int| 0 <= j < i && lower_of(#[trigger] forms[j]) == nqs,
                    pr == exists|j: int|
                        0 <= j < i && j < first_eq_idx(forms, nqs) && nqs.is_prefix_of(
                            lower_of(#[trigger] forms[j]),
                        ),
                    forall|j: int|
                        0 <= j < first_eq_idx(forms, nqs) ==> lower_of(#[trigger] forms[j]) != nqs,
                    first_eq_idx(forms, nqs) < forms.len() ==> lower_of(
                        forms[first_eq_idx(forms, nqs)],
                    ) == nqs,
                    0 <= first_eq_idx(forms, nqs) <= forms.len(),
                decreases n - i,
            {
                if !ef {
                    assert(entry.kanji.deep_view()[i as int] == entry.kanji@[i as int]@);
                    let kl = lowercase(entry.kanji[i].as_str());
                    let klc = chars_vec(kl.as_str());
                    assert(klc@ == lower_of(forms[i as int]));
                    if eq_chars(&klc, &nqc) {
                        ef = true;
                    } else if prefix_chars(&nqc, &klc) {
                        assert(i < first_eq_idx(forms, nqs)) by {
                            if first_eq_idx(forms, nqs) <= i {
                                if first_eq_idx(forms, nqs) < i {
                                    assert(lower_of(forms[first_eq_idx(forms, nqs)]) == nqs);
                                }
                            }
                        }
                        pr = true;
                    }
                }
                i += 1;
            }
            features.exact_form = ef;
            features.prefix = pr;
            assert(ef == has_exact_form(forms, nqs));
            assert(pr == has_prefix_form(forms, nqs));

            let ghost readings = entry@.kana;
            let rn = entry.kana.len();
            let mut er = false;
            let mut ri: usize = 0;
            while ri < rn
                invariant
                    rn == entry.kana@.len(),
                    readings == entry@.kana,
                    readings == entry.kana.deep_view(),
                    nqc@ == nqs,
                    0 <= ri <= rn,
                    er == exists|j: int| 0 <= j < ri && lower_of(#[trigger] readings[j]) == nqs,
                decreases rn - ri,
            {
                assert(entry.kana.deep_view()[ri as int] == entry.kana@[ri as int]@);
                let kl = lowercase(entry.kana[ri].as_str());
                let klc = chars_vec(kl.as_str());
                if eq_chars(&klc, &nqc) {
                    er = true;
                    assert(lower_of(readings[ri as int]) == nqs);
                }
                ri += 1;
            }
            features.exact_reading = er;
            assert(er == has_exact_form(readings, nqs));
            assert(features =~= base_features(entry@, nqs, *query_type));
        },
        QueryType::Kana => {
            let ghost forms = entry@.kana;
            proof {
                lemma_first_eq(forms, nqs);
                lemma_kana_ed_bounds(forms, nqs);
            }
            let n = entry.kana.len();
            let mut er = false;
            let mut pr = false;
            let mut ed: u8 = 0;
            let mut i: usize = 0;
            proof {
                assert(forms.skip(0) =~~= forms);
            }
            while i < n
                invariant
                    n == entry.kana@.len(),
                    forms == entry@.kana,
                    forms == entry.kana.deep_view(),
                    nqc@ == nqs,
                    nq@ == nqs,
                    0 <= i <= n,
                    0 <= ed <= 2,
                    er == exists|j: int| 0 <= j < i && lower_of(#[trigger] forms[j]) == nqs,
                    pr == exists|j: int|
                        0 <= j < i && j < first_eq_idx(forms, nqs) && nqs.is_prefix_of(
                            lower_of(#[trigger] forms[j]),
                        ),
                    kana_ed(forms, nqs) == (if ed != 0 {
                        ed as int
                    } else if er {
                        0int
                    } else {
                        kana_ed(forms.skip(i as int), nqs)
                    }),
                    forall|j: int|
                        0 <= j < first_eq_idx(forms, nqs) ==> lower_of(#[trigger] forms[j]) != nqs,
                    first_eq_idx(forms, nqs) < forms.len() ==> lower_of(
                        forms[first_eq_idx(forms, nqs)],
                    ) == nqs,
                    0 <= first_eq_idx(forms, nqs) <= forms.len(),
                decreases n - i,
            {
                proof {
                    assert(forms.skip(i as int).drop_first() =~~= forms.skip(i as int + 1));
                    assert(forms.skip(i as int)[0] == forms[i as int]);
                }
                if !er {
                    assert(entry.kana.deep_view()[i as int] == entry.kana@[i as int]@);
                    let kl = lowercase(entry.kana[i].as_str());
                    let klc = chars_vec(kl.as_str());
                    assert(klc@ == lower_of(forms[i as int]));
                    if eq_chars(&klc, &nqc) {
                        er = true;
                    } else {
                        if prefix_chars(&nqc, &klc) {
                            assert(i < first_eq_idx(forms, nqs)) by {
                                if first_eq_idx(forms, nqs) <= i {
                                    if first_eq_idx(forms, nqs) < i {
                                        assert(lower_of(forms[first_eq_idx(forms, nqs)]) == nqs);
                                    }
                                }
                            }
                            pr = true;
                        }
                        let d = simple_edit_distance(kl.as_str(), nq.as_str());
                        proof {
                            crate::text::lemma_edit_distance_zero(klc@, nqs);
                            crate::text::lemma_edit_distance_nonneg(klc@, nqs);
                        }
                        if d <= 2 && ed == 0 {
                            ed = d;
                        }
                    }
                }
                i += 1;
            }
            features.exact_reading = er;
            features.prefix = pr;
            features.edit_distance = ed;
            proof {
                assert(forms.skip(n as int) =~~= Seq::<Seq<char>>::empty());
                assert(er == has_exact_form(forms, nqs));
                assert(pr == has_prefix_form(forms, nqs));
                assert(ed as int == kana_ed(forms, nqs));
            }
            assert(features =~= base_features(entry@, nqs, *query_type));
        },
        QueryType::English => {
            let ghost gs = entry@.english;
            let n = entry.english.len();
            let mut sig = GlossSignals { hit: false, exact: false, first: false };
            let mut gi: usize = 0;
            proof {
                assert(gs.skip(0) =~~= gs);
                assert(combine_gloss(sig, scan_glosses(gs, nqs, true)) =~= scan_glosses(
                    gs,
                    nqs,
                    true,
                ));
            }
            while gi < n
                invariant
                    n == entry.english@.len(),
                    gs == entry@.english,
                    gs == entry.english.deep_view(),
                    nqc@ == nqs,
                    0 <= gi <= n,
                    sig.first ==> scan_glosses(gs, nqs, true) == sig,
                    !sig.first ==> scan_glosses(gs, nqs, true) == combine_gloss(
                        sig,
                        scan_glosses(gs.skip(gi as int), nqs, gi == 0),
                    ),
                decreases n - gi,
            {
                if !sig.first {
                    assert(entry.english.deep_view()[gi as int] == entry.english@[gi as int]@);
                    let g = scan_one_gloss(entry.english[gi].as_str(), &nqc, gi == 0);
                    proof {
                        assert(gs.skip(gi as int).drop_first() =~~= gs.skip(gi as int + 1));
                        assert(gs.skip(gi as int)[0] == gs[gi as int]);
                    }
                    let newsig = GlossSignals {
                        hit: sig.hit || g.hit,
                        exact: sig.exact || g.exact,
                        first: g.first,
                    };
                    proof {
                        let rest = scan_glosses(gs.skip(gi as int), nqs, gi == 0);
                        if g.first {
                            assert(rest =~= g);
                            assert(combine_gloss(sig, rest) =~= newsig);
                        } else {
                            let rest2 = scan_glosses(gs.skip(gi as int + 1), nqs, false);
                            assert(rest =~= combine_gloss(g, rest2));
                            assert(combine_gloss(sig, rest) =~= combine_gloss(newsig, rest2));
                            assert(scan_glosses(gs.skip(gi as int + 1), nqs, gi as int + 1 == 0)
                                == rest2);
                        }
                    }
                    sig = newsig;
                }
                gi += 1;
            }
            proof {
                if !sig.first {
                    assert(gs.skip(n as int) =~~= Seq::<Seq<char>>::empty());
                    assert(scan_glosses(gs.skip(n as int), nqs, n == 0) =~= no_signals());
                    assert(combine_gloss(sig, no_signals()) =~= sig);
                }
                assert(scan_glosses(gs, nqs, true) == sig);
            }
            features.gloss_hit = sig.hit;
            features.exact_english = sig.exact;
            features.first_gloss = sig.first;
            assert(features =~= base_features(entry@, nqs, *query_type));
        },
    }
    assert(features == base_features(entry@, nqs, *query_type));
    if !(features.exact_form || features.exact_reading || features.prefix || features.gloss_hit
        || features.edit_distance != 0) {
        return None;
    }
    features.has_common = entry.is_common;
    features.shorter_lemma = any_short_form(&entry.kanji, 2) || any_short_form(&entry.kana, 3);
    features.simple_form = (has_adj_i_tag(&entry.pos) && any_ends_i(&entry.kanji)) || any_short_form(
        &entry.kanji,
        2,
    ) || any_short_form(&entry.kana, 4);
    assert(features =~= eval_features(entry@, nqs, *query_type));
    proof {
        if features.edit_distance != 0 {
            lemma_kana_ed_bounds(entry@.kana, nqs);
        }
    }
    let score = score_features(&features);
    Some(SearchResult { entry: copy_entry(entry), score, features })
}

} // verus!
