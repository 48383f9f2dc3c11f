//! The engine: one dictionary store plus its optional search indices, with
//! the public search entry point.
//!
//! The indices are built at most once and published together; until then a
//! search behaves as if they were empty and falls back to a bounded scan of
//! the store. After publication the engine is read-only: concurrent searches
//! are independent.

use vstd::prelude::*;

use crate::dictionary::{Dictionary, WordEntry, WordEntryView};
use crate::index::{
    gloss_key_ids, has_gloss_key, has_kana_key, has_kanji_key, key_ids, key_match,
    lemma_key_ids_elems, SearchIndices,
};
use crate::search::{
    detect_query_type, eval_features, eval_matched, evaluate_entry, norm_of, normalize_query,
    spec_query_type, spec_score, QueryType, SearchResult, SearchResultView,
};
use crate::text::{byte_len, chars_vec, spec_trim, trim_str};
use vstd::utf8::encode_utf8;

verus! {

/// At most the first thousand entries of a candidate list: the bound on a
/// candidate set before scoring.
pub open spec fn cap1000(s: Seq<usize>) -> Seq<usize> {
    if s.len() > 1000 {
        s.take(1000)
    } else {
        s
    }
}

/// Whether some gloss key of `e` has `kk` as a strict prefix.
pub open spec fn gloss_pref_haskey(e: WordEntryView, kk: Seq<char>) -> bool {
    exists|k: Seq<char>| #![auto] key_match(k, kk, true) && has_gloss_key(e, k)
}

/// Whether some kanji form of `e` has `kk` as a prefix.
pub open spec fn kanji_pref_haskey(e: WordEntryView, kk: Seq<char>) -> bool {
    exists|k: Seq<char>| #![auto] key_match(k, kk, false) && has_kanji_key(e, k)
}

/// Whether some kana form of `e` has `kk` as a prefix.
pub open spec fn kana_pref_haskey(e: WordEntryView, kk: Seq<char>) -> bool {
    exists|k: Seq<char>| #![auto] key_match(k, kk, false) && has_kana_key(e, k)
}

/// The candidate ids the indices yield for the normalized query `nq` under
/// regime `qt`, ascending and capped at one thousand; empty when the indices
/// have not been built. English queries try the exact gloss key first and
/// fall back to strict-prefix keys only when it yields nothing; Japanese
/// queries take every entry with a form the query is a prefix of.
pub open spec fn spec_indexed_candidates(
    es: Seq<WordEntryView>,
    has_idx: bool,
    nq: Seq<char>,
    qt: QueryType,
) -> Seq<usize> {
    if !has_idx {
        Seq::empty()
    } else {
        match qt {
            QueryType::English => {
                let exact = gloss_key_ids(es, es.len() as int, nq);
                if exact.len() > 0 {
                    cap1000(exact)
                } else {
                    cap1000(
                        key_ids(
                            es,
                            es.len() as int,
                            nq,
                            |e: WordEntryView, kk: Seq<char>| gloss_pref_haskey(e, kk),
                        ),
                    )
                }
            },
            QueryType::Kanji => cap1000(
                key_ids(
                    es,
                    es.len() as int,
                    nq,
                    |e: WordEntryView, kk: Seq<char>| kanji_pref_haskey(e, kk),
                ),
            ),
            QueryType::Kana => cap1000(
                key_ids(
                    es,
                    es.len() as int,
                    nq,
                    |e: WordEntryView, kk: Seq<char>| kana_pref_haskey(e, kk),
                ),
            ),
        }
    }
}

/// A vector of `n` cleared marks.
fn vec_false(n: usize) -> (r: Vec<bool>)
    ensures
        r@.len() == n,
        forall|i: int| 0 <= i < n ==> !r@[i],
{
    let mut r: Vec<bool> = Vec::new();
    let mut i: usize = 0;
    while i < n
        invariant
            0 <= i <= n,
            r@.len() == i,
            forall|j: int| 0 <= j < i ==> !r@[j],
        decreases n - i,
    {
        r.push(false);
        i += 1;
    }
    r
}

/// Collects the marked ids in ascending order, stopping at one thousand.
fn collect_marked(
    marks: &Vec<bool>,
    Ghost(es): Ghost<Seq<WordEntryView>>,
    Ghost(nq): Ghost<Seq<char>>,
    Ghost(haskey): Ghost<spec_fn(WordEntryView, Seq<char>) -> bool>,
) -> (r: Vec<usize>)
    requires
        marks@.len() == es.len(),
        es.len() <= usize::MAX,
        forall|i: int| 0 <= i < es.len() ==> marks@[i] == haskey(es[i], nq),
    ensures
        r@ == cap1000(key_ids(es, es.len() as int, nq, haskey)),
{
    let n = marks.len();
    let mut r: Vec<usize> = Vec::new();
    let mut i: usize = 0;
    proof {
        assert(Seq::new(0nat, |x: int| x as usize) =~= Seq::<usize>::empty());
        reveal(Seq::filter);
        assert(r@ =~= cap1000(key_ids(es, 0, nq, haskey)));
    }
    while i < n
        invariant
            n == marks@.len(),
            marks@.len() == es.len(),
            es.len() <= usize::MAX,
            forall|j: int| 0 <= j < es.len() ==> marks@[j] == haskey(es[j], nq),
            0 <= i <= n,
            r@ == cap1000(key_ids(es, i as int, nq, haskey)),
            r@.len() <= 1000,
        decreases n - i,
    {
        proof {
            lemma_key_ids_elems(es, i as int, nq, haskey);
            crate::index::lemma_key_ids_step(es, i as int, nq, haskey);
        }
        let ghost prev = key_ids(es, i as int, nq, haskey);
        let ghost next = key_ids(es, i as int + 1, nq, haskey);
        if marks[i] {
            if r.len() < 1000 {
                r.push(i);
                proof {
                    assert(next == prev.push(i as usize));
                    assert(prev.len() <= 1000);
                    if prev.len() == 1000 {
                        assert(r@.len() == 1001int);
                    }
                    assert(r@ =~= cap1000(next));
                }
            } else {
                proof {
                    assert(next == prev.push(i as usize));
                    assert(prev.len() > 1000 || prev.len() == 1000);
                    assert(cap1000(next) =~= cap1000(prev));
                }
            }
        } else {
            proof {
                assert(next == prev);
            }
        }
        i += 1;
    }
    r
}

/// The dictionary store together with its search indices: the indices are
/// absent until [`Engine::build_search_indices`] publishes them, and always
/// describe exactly the store they were built from.
pub struct Engine {
    dict: Dictionary,
    indices: Option<SearchIndices>,
}

impl View for Engine {
    type V = Seq<WordEntryView>;

    /// An engine is, to its callers, the sequence of decoded entries of its
    /// store.
    closed spec fn view(&self) -> Seq<WordEntryView> {
        self.dict@
    }
}

impl Engine {
    #[verifier::type_invariant]
    spec fn inv(self) -> bool {
        self.indices is Some ==> self.indices->0.matches(self.dict@)
    }

    /// Whether the indices have been built.
    pub closed spec fn has_indices(&self) -> bool {
        self.indices is Some
    }

    /// Wraps a validated dictionary; no indices are built yet, so searches
    /// fall back to the bounded store scan.
    pub fn new(dict: Dictionary) -> (r: Engine)
        ensures
            r@ == dict@,
            !r.has_indices(),
    {
        Engine { dict, indices: None }
    }

    /// How many entries the store holds.
    pub fn word_count(&self) -> (n: usize)
        ensures
            n == self@.len(),
    {
        self.dict.word_count()
    }

    /// Decodes entry `index` afresh; see [`Dictionary::get_word_entry`].
    pub fn get_word_entry(&self, index: usize) -> (r: WordEntry)
        requires
            index < self@.len(),
        ensures
            r@ == self@[index as int],
    {
        self.dict.get_word_entry(index)
    }

    /// Builds the three inverted indices over the store and publishes them
    /// together: a search never observes a partially built index set. The
    /// store itself is unchanged, and afterwards every search consults the
    /// indices. The three indices are built one after the other; since
    /// construction is a function of the store alone
    /// ([`crate::index::lemma_build_deterministic`]), building them in any
    /// other arrangement would publish the same contents.
    pub fn build_search_indices(&mut self)
        ensures
            final(self)@ == old(self)@,
            final(self).has_indices(),
    {
        let ind = SearchIndices::build(&self.dict);
        self.indices = Some(ind);
    }

    /// The bounded candidate set the indices yield for a query: exact and
    /// prefix key matches, ascending and deduplicated, at most one thousand;
    /// empty while the indices are unbuilt or when no key matches.
    pub fn find_indexed_entries(&self, query: &str, query_type: &QueryType) -> (r: Vec<usize>)
        ensures
            r@ == spec_indexed_candidates(self@, self.has_indices(), norm_of(query@), *query_type),
            r@.len() <= 1000,
            forall|j: int| 0 <= j < r@.len() ==> (#[trigger] r@[j]) < self@.len(),
    {
        proof {
            use_type_invariant(self);
        }
        let ghost es = self.dict@;
        match &self.indices {
            None => {
                let r: Vec<usize> = Vec::new();
                r
            },
            Some(ind) => {
                let nq = normalize_query(query);
                let nqc = chars_vec(nq.as_str());
                let wc = self.dict.word_count();
                let r: Vec<usize> = match query_type {
                    QueryType::English => {
                        let mut ids = ind.exact_gloss_ids(&nqc, Ghost(es));
                        if ids.len() > 0 {
                            let ghost full = gloss_key_ids(es, es.len() as int, nqc@);
                            ids.truncate(1000);
                            proof {
                                if full.len() > 1000 {
                                    assert(ids@ =~= cap1000(full));
                                } else {
                                    assert(ids@ =~= cap1000(full));
                                }
                            }
                            ids
                        } else {
                            let marks = vec_false(wc);
                            let marks = ind.mark_gloss_prefix(&nqc, marks, Ghost(es));
                            collect_marked(
                                &marks,
                                Ghost(es),
                                Ghost(nqc@),
                                Ghost(|e: WordEntryView, kk: Seq<char>| gloss_pref_haskey(e, kk)),
                            )
                        }
                    },
                    QueryType::Kanji => {
                        let marks = vec_false(wc);
                        let marks = ind.mark_kanji_prefix(&nqc, marks, Ghost(es));
                        collect_marked(
                            &marks,
                            Ghost(es),
                            Ghost(nqc@),
                            Ghost(|e: WordEntryView, kk: Seq<char>| kanji_pref_haskey(e, kk)),
                        )
                    },
                    QueryType::Kana => {
                        let marks = vec_false(wc);
                        let marks = ind.mark_kana_prefix(&nqc, marks, Ghost(es));
                        collect_marked(
                            &marks,
                            Ghost(es),
                            Ghost(nqc@),
                            Ghost(|e: WordEntryView, kk: Seq<char>| kana_pref_haskey(e, kk)),
                        )
                    },
                };
                proof {
                    let full = spec_indexed_candidates(es, true, nqc@, *query_type);
                    match *query_type {
                        QueryType::English => {
                            lemma_key_ids_elems(
                                es,
                                es.len() as int,
                                nqc@,
                                |e: WordEntryView, kk: Seq<char>| has_gloss_key(e, kk),
                            );
                            lemma_key_ids_elems(
                                es,
                                es.len() as int,
                                nqc@,
                                |e: WordEntryView, kk: Seq<char>| gloss_pref_haskey(e, kk),
                            );
                        },
                        QueryType::Kanji => {
                            lemma_key_ids_elems(
                                es,
                                es.len() as int,
                                nqc@,
                                |e: WordEntryView, kk: Seq<char>| kanji_pref_haskey(e, kk),
                            );
                        },
                        QueryType::Kana => {
                            lemma_key_ids_elems(
                                es,
                                es.len() as int,
                                nqc@,
                                |e: WordEntryView, kk: Seq<char>| kana_pref_haskey(e, kk),
                            );
                        },
                    }
                }
                r
            },
        }
    }
}

/// The least byte length among the given forms (one hundred for an empty
/// list, mirroring the ranker's sentinel).
pub open spec fn min_ne(fs: Seq<Seq<char>>) -> int
    decreases fs.len(),
{
    if fs.len() == 0 {
        100
    } else if fs.len() == 1 {
        byte_len(fs[0])
    } else {
        let rest = min_ne(fs.drop_first());
        if byte_len(fs[0]) <= rest {
            byte_len(fs[0])
        } else {
            rest
        }
    }
}

/// The ranker's length measure of an entry: the least byte length over all
/// its kanji and kana forms, or one hundred when it has none.
pub open spec fn min_form_len(e: WordEntryView) -> int {
    min_ne(e.kanji + e.kana)
}

/// The ranker's lexicographic key of an entry: its first kanji form, else
/// its first kana form, else the empty string.
pub open spec fn sort_key(e: WordEntryView) -> Seq<char> {
    if e.kanji.len() > 0 {
        e.kanji[0]
    } else if e.kana.len() > 0 {
        e.kana[0]
    } else {
        Seq::empty()
    }
}

/// Strict lexicographic byte order.
pub open spec fn lex_lt(a: Seq<u8>, b: Seq<u8>) -> bool
    decreases a.len(),
{
    if b.len() == 0 {
        false
    } else if a.len() == 0 {
        true
    } else if a[0] < b[0] {
        true
    } else if a[0] > b[0] {
        false
    } else {
        lex_lt(a.drop_first(), b.drop_first())
    }
}

/// Whether `a` ranks strictly after `b`: lower score first, then the less
/// common entry, then the longer shortest form, then the lexicographically
/// larger key.
pub open spec fn rank_after(a: SearchResultView, b: SearchResultView) -> bool {
    if a.score != b.score {
        a.score < b.score
    } else if a.entry.is_common != b.entry.is_common {
        b.entry.is_common
    } else if min_form_len(a.entry) != min_form_len(b.entry) {
        min_form_len(a.entry) > min_form_len(b.entry)
    } else {
        lex_lt(encode_utf8(sort_key(b.entry)), encode_utf8(sort_key(a.entry)))
    }
}

/// Inserts `x` into the ranked list `t` after every element it does not rank
/// before, keeping insertion order among rank-equal elements (a stable sort's
/// placement).
pub open spec fn insert_ranked(t: Seq<SearchResultView>, x: SearchResultView) -> Seq<
    SearchResultView,
>
    decreases t.len(),
{
    if t.len() > 0 && rank_after(t.last(), x) {
        insert_ranked(t.drop_last(), x).push(t.last())
    } else {
        t.push(x)
    }
}

/// The stable ranking of `s`: each element inserted in order.
pub open spec fn rank_sorted(s: Seq<SearchResultView>) -> Seq<SearchResultView>
    decreases s.len(),
{
    if s.len() == 0 {
        Seq::empty()
    } else {
        insert_ranked(rank_sorted(s.drop_last()), s.last())
    }
}

/// The views of a result list.
pub open spec fn result_views(s: Seq<SearchResult>) -> Seq<SearchResultView> {
    s.map_values(|r: SearchResult| r@)
}

/// The views of an entry list.
pub open spec fn entry_views(s: Seq<WordEntry>) -> Seq<WordEntryView> {
    s.map_values(|e: WordEntry| e@)
}

/// The scored view of a matching entry.
pub open spec fn scored_view(e: WordEntryView, nq: Seq<char>, qt: QueryType) -> SearchResultView {
    SearchResultView {
        entry: e,
        score: spec_score(eval_features(e, nq, qt)),
        features: eval_features(e, nq, qt),
    }
}

/// The scored results of evaluating the candidate ids in order, keeping the
/// candidates that match.
pub open spec fn scored_of(
    es: Seq<WordEntryView>,
    cands: Seq<usize>,
    nq: Seq<char>,
    qt: QueryType,
) -> Seq<SearchResultView>
    decreases cands.len(),
{
    if cands.len() == 0 {
        Seq::empty()
    } else {
        let rest = scored_of(es, cands.drop_first(), nq, qt);
        if eval_matched(es[cands[0] as int], nq, qt) {
            seq![scored_view(es[cands[0] as int], nq, qt)] + rest
        } else {
            rest
        }
    }
}

/// The scored results of the bounded fallback scan: entries `i` up to `end`
/// in storage order, stopping after `room` matches.
pub open spec fn fallback_scored(
    es: Seq<WordEntryView>,
    nq: Seq<char>,
    qt: QueryType,
    i: int,
    end: int,
    room: int,
) -> Seq<SearchResultView>
    decreases end - i,
{
    if i >= end || room <= 0 {
        Seq::empty()
    } else if eval_matched(es[i], nq, qt) {
        seq![scored_view(es[i], nq, qt)] + fallback_scored(es, nq, qt, i + 1, end, room - 1)
    } else {
        fallback_scored(es, nq, qt, i + 1, end, room)
    }
}

/// The scan bound of the fallback path: the first five thousand entries.
pub open spec fn fallback_end(es: Seq<WordEntryView>) -> int {
    if es.len() <= 5000 {
        es.len() as int
    } else {
        5000
    }
}

/// The ranked scored results of a search: the indexed candidates when there
/// are any, else the bounded fallback scan, stably ordered by rank.
pub open spec fn spec_search_results(
    es: Seq<WordEntryView>,
    has_idx: bool,
    q: Seq<char>,
) -> Seq<SearchResultView> {
    let qt = spec_query_type(q);
    let nq = norm_of(q);
    let cands = spec_indexed_candidates(es, has_idx, nq, qt);
    let scored = if cands.len() > 0 {
        scored_of(es, cands, nq, qt)
    } else {
        fallback_scored(es, nq, qt, 0, fallback_end(es), 200)
    };
    rank_sorted(scored)
}

/// The entries a search returns: an empty sequence for a whitespace-only
/// query, else the top fifty ranked results.
pub open spec fn spec_search(es: Seq<WordEntryView>, has_idx: bool, q: Seq<char>) -> Seq<
    WordEntryView,
> {
    if crate::text::spec_trim(q).len() == 0 {
        Seq::empty()
    } else {
        let ranked = spec_search_results(es, has_idx, q);
        let kept = if ranked.len() > 50 {
            ranked.take(50)
        } else {
            ranked
        };
        kept.map_values(|r: SearchResultView| r.entry)
    }
}

proof fn lemma_min_ne_snoc(fs: Seq<Seq<char>>, x: Seq<char>)
    requires
        fs.len() > 0,
    ensures
        min_ne(fs.push(x)) == (if byte_len(x) <= min_ne(fs) {
            byte_len(x)
        } else {
            min_ne(fs)
        }),
    decreases fs.len(),
{
    let p = fs.push(x);
    assert(p[0] == fs[0]);
    if fs.len() == 1 {
        assert(p.drop_first() =~= seq![x]);
        assert(min_ne(seq![x]) == byte_len(x));
    } else {
        assert(p.drop_first() =~= fs.drop_first().push(x));
        lemma_min_ne_snoc(fs.drop_first(), x);
    }
}

/// The least byte length over the kanji and kana forms of an entry, with the
/// ranker's sentinel of one hundred when it has none.
fn min_form_len_exec(e: &WordEntry) -> (r: usize)
    ensures
        r as int == min_form_len(e@),
{
    let ghost combined = e@.kanji + e@.kana;
    let kl = e.kanji.len();
    let nl = e.kana.len();
    if kl == 0 && nl == 0 {
        assert(combined =~= Seq::<Seq<char>>::empty());
        return 100;
    }
    let mut cur: usize;
    let mut j: usize;
    if kl > 0 {
        assert(e.kanji.deep_view()[0] == e.kanji@[0]@);
        assert(combined[0] == e.kanji.deep_view()[0]);
        cur = e.kanji[0].as_str().len();
        proof {
            assert(combined.take(1) =~= seq![combined[0]]);
            assert(min_ne(combined.take(1)) == byte_len(combined[0]));
        }
        let mut i: usize = 1;
        while i < kl
            invariant
                kl == e.kanji@.len(),
                nl == e.kana@.len(),
                combined == e@.kanji + e@.kana,
                combined == e.kanji.deep_view() + e.kana.deep_view(),
                1 <= i <= kl,
                cur as int == min_ne(combined.take(i as int)),
            decreases kl - i,
        {
            assert(e.kanji.deep_view()[i as int] == e.kanji@[i as int]@);
            assert(combined[i as int] == e.kanji.deep_view()[i as int]);
            let flen = e.kanji[i].as_str().len();
            proof {
                assert(combined.take(i as int + 1) =~= combined.take(i as int).push(
                    combined[i as int],
                ));
                lemma_min_ne_snoc(combined.take(i as int), combined[i as int]);
            }
            if flen < cur {
                cur = flen;
            }
            i += 1;
        }
        j = 0;
    } else {
        assert(e.kana.deep_view()[0] == e.kana@[0]@);
        assert(combined[0] == e.kana.deep_view()[0]);
        cur = e.kana[0].as_str().len();
        proof {
            assert(combined.take(1) =~= seq![combined[0]]);
            assert(min_ne(combined.take(1)) == byte_len(combined[0]));
        }
        j = 1;
    }
    while j < nl
        invariant
            kl == e.kanji@.len(),
            nl == e.kana@.len(),
            combined == e@.kanji + e@.kana,
            combined == e.kanji.deep_view() + e.kana.deep_view(),
            combined.len() == kl + nl,
            0 <= j <= nl,
            kl + j >= 1,
            cur as int == min_ne(combined.take(kl as int + j)),
        decreases nl - j,
    {
        assert(e.kana.deep_view()[j as int] == e.kana@[j as int]@);
        assert(combined[kl as int + j] == e.kana.deep_view()[j as int]);
        let flen = e.kana[j].as_str().len();
        proof {
            assert(combined.take(kl as int + j + 1) =~= combined.take(kl as int + j).push(
                combined[kl as int + j],
            ));
            lemma_min_ne_snoc(combined.take(kl as int + j), combined[kl as int + j]);
        }
        if flen < cur {
            cur = flen;
        }
        j += 1;
    }
    proof {
        assert(combined.take(kl as int + nl) =~= combined);
    }
    cur
}

/// Strict lexicographic byte-order test of two strings.
fn lex_less(a: &str, b: &str) -> (r: bool)
    ensures
        r == lex_lt(encode_utf8(a@), encode_utf8(b@)),
{
    let ab = a.as_bytes();
    let bb = b.as_bytes();
    let ghost a0 = ab@;
    let ghost b0 = bb@;
    let an = ab.len();
    let bn = bb.len();
    let mut i: usize = 0;
    proof {
        assert(a0.skip(0) =~= a0);
        assert(b0.skip(0) =~= b0);
    }
    while i < an && i < bn
        invariant
            an == a0.len(),
            bn == b0.len(),
            a0 == encode_utf8(a@),
            b0 == encode_utf8(b@),
            ab@ == a0,
            bb@ == b0,
            0 <= i <= an,
            i <= bn,
            lex_lt(a0, b0) == lex_lt(a0.skip(i as int), b0.skip(i as int)),
        decreases an - i,
    {
        proof {
            assert(a0.skip(i as int)[0] == a0[i as int]);
            assert(b0.skip(i as int)[0] == b0[i as int]);
            assert(a0.skip(i as int).drop_first() =~= a0.skip(i as int + 1));
            assert(b0.skip(i as int).drop_first() =~= b0.skip(i as int + 1));
        }
        let x = ab[i];
        let y = bb[i];
        if x < y {
            return true;
        }
        if x > y {
            return false;
        }
        i += 1;
    }
    proof {
        if i == an {
            assert(a0.skip(an as int) =~= Seq::<u8>::empty());
        } else {
            assert(b0.skip(i as int) =~= Seq::<u8>::empty());
            assert(a0.skip(i as int).len() > 0);
        }
    }
    an < bn
}

/// Whether `a` ranks strictly after `b`, verified against [`rank_after`].
fn ranks_after(a: &SearchResult, b: &SearchResult) -> (r: bool)
    ensures
        r == rank_after(a@, b@),
{
    if a.score != b.score {
        return a.score < b.score;
    }
    if a.entry.is_common != b.entry.is_common {
        return b.entry.is_common;
    }
    let la = min_form_len_exec(&a.entry);
    let lb = min_form_len_exec(&b.entry);
    if la != lb {
        return la > lb;
    }
    let ka = first_form(&a.entry);
    let kb = first_form(&b.entry);
    lex_less(kb, ka)
}

/// The first kanji form, else the first kana form, else the empty string.
fn first_form(e: &WordEntry) -> (r: &str)
    ensures
        r@ == sort_key(e@),
{
    if e.kanji.len() > 0 {
        assert(e.kanji.deep_view()[0] == e.kanji@[0]@);
        e.kanji[0].as_str()
    } else if e.kana.len() > 0 {
        assert(e.kana.deep_view()[0] == e.kana@[0]@);
        e.kana[0].as_str()
    } else {
        let empty = "";
        proof {
            reveal_strlit("");
            assert(empty@ =~= sort_key(e@));
        }
        empty
    }
}

/// Places `x` at its rank in the already ranked `out`, after rank-equal
/// elements.
proof fn lemma_insert_ranked_at(t: Seq<SearchResultView>, x: SearchResultView, pos: int)
    requires
        0 <= pos <= t.len(),
        forall|j: int| pos <= j < t.len() ==> rank_after(#[trigger] t[j], x),
        pos > 0 ==> !rank_after(t[pos - 1], x),
    ensures
        insert_ranked(t, x) == t.take(pos) + seq![x] + t.skip(pos),
    decreases t.len(),
{
    if pos == t.len() {
        assert(insert_ranked(t, x) == t.push(x));
        assert(t.push(x) =~= t.take(pos) + seq![x] + t.skip(pos));
    } else {
        assert(rank_after(t.last(), x));
        lemma_insert_ranked_at(t.drop_last(), x, pos);
        assert(t.drop_last().take(pos) =~= t.take(pos));
        assert(insert_ranked(t, x) =~= t.take(pos) + seq![x] + t.skip(pos)) by {
            assert(insert_ranked(t, x) == insert_ranked(t.drop_last(), x).push(t.last()));
            assert(t.drop_last().skip(pos).push(t.last()) =~= t.skip(pos));
        }
    }
}

/// Inserts one result into a ranked list, scanning from the back so that
/// rank-equal results keep their insertion order.
fn insert_result(out: &mut Vec<SearchResult>, x: SearchResult)
    ensures
        result_views(final(out)@) == insert_ranked(result_views(old(out)@), x@),
{
    let ghost t = result_views(out@);
    let n = out.len();
    let mut pos: usize = n;
    while pos > 0 && ranks_after(&out[pos - 1], &x)
        invariant
            n == out@.len(),
            out@ == old(out)@,
            t == result_views(out@),
            0 <= pos <= n,
            forall|j: int| pos <= j < n ==> rank_after(#[trigger] t[j], x@),
        decreases pos,
    {
        assert(result_views(out@)[pos - 1] == out@[pos - 1]@);
        pos -= 1;
    }
    proof {
        assert(pos > 0 ==> !rank_after(t[pos - 1], x@)) by {
            if pos > 0 {
                assert(result_views(out@)[pos - 1] == out@[pos - 1]@);
            }
        }
        lemma_insert_ranked_at(t, x@, pos as int);
    }
    out.insert(pos, x);
    proof {
        assert(result_views(out@) =~= t.take(pos as int) + seq![x@] + t.skip(pos as int));
    }
}

/// Orders scored results by rank, stably: the ranked list is the unique
/// stable ordering of the input.
fn rank_results(input: Vec<SearchResult>) -> (r: Vec<SearchResult>)
    ensures
        result_views(r@) == rank_sorted(result_views(input@)),
{
    let ghost s0 = result_views(input@);
    let mut input = input;
    let mut rev: Vec<SearchResult> = Vec::new();
    while input.len() > 0
        invariant
            result_views(input@) == s0.take(input@.len() as int),
            rev@.len() + input@.len() == s0.len(),
            forall|j: int|
                0 <= j < rev@.len() ==> result_views(rev@)[j] == s0[s0.len() - 1 - j],
        decreases input@.len(),
    {
        let ghost pre_rev = rev@;
        let ghost pre_in = input@;
        let x = input.pop().unwrap();
        rev.push(x);
        proof {
            assert(result_views(pre_in)[pre_in.len() - 1] == pre_in[pre_in.len() - 1]@);
            assert(x@ == s0[input@.len() as int]);
            assert(result_views(input@) =~= s0.take(input@.len() as int)) by {
                assert(result_views(pre_in).drop_last() =~= result_views(input@));
                assert(s0.take(pre_in.len() as int).drop_last() =~= s0.take(
                    pre_in.len() - 1,
                ));
            }
            assert forall|j: int| 0 <= j < rev@.len() implies result_views(rev@)[j] == s0[s0.len()
                - 1 - j] by {
                assert(result_views(rev@)[j] == rev@[j]@);
                if j < pre_rev.len() {
                    assert(rev@[j] == pre_rev[j]);
                    assert(result_views(pre_rev)[j] == pre_rev[j]@);
                }
            }
        }
    }
    let mut out: Vec<SearchResult> = Vec::new();
    while rev.len() > 0
        invariant
            rev@.len() <= s0.len(),
            forall|j: int|
                0 <= j < rev@.len() ==> result_views(rev@)[j] == s0[s0.len() - 1 - j],
            result_views(out@) == rank_sorted(s0.take(s0.len() - rev@.len())),
        decreases rev@.len(),
    {
        let ghost pre_rev = rev@;
        let ghost done = s0.len() - rev@.len();
        let x = rev.pop().unwrap();
        proof {
            assert(result_views(pre_rev)[pre_rev.len() - 1] == pre_rev[pre_rev.len() - 1]@);
            assert(x@ == s0[done]);
            assert forall|j: int| 0 <= j < rev@.len() implies result_views(rev@)[j] == s0[s0.len()
                - 1 - j] by {
                assert(rev@[j] == pre_rev[j]);
                assert(result_views(pre_rev)[j] == pre_rev[j]@);
                assert(result_views(rev@)[j] == rev@[j]@);
            }
        }
        let ghost before = result_views(out@);
        insert_result(&mut out, x);
        proof {
            assert(s0.take(done + 1).drop_last() =~= s0.take(done));
            assert(s0.take(done + 1).last() == s0[done]);
            assert(rank_sorted(s0.take(done + 1)) == insert_ranked(
                rank_sorted(s0.take(done)),
                s0[done],
            ));
        }
    }
    proof {
        assert(s0.take(s0.len() as int) =~= s0);
    }
    out
}

impl Engine {
    /// The single search entry point: classifies the query, gathers the
    /// bounded candidate set (or falls back to the bounded store scan when it
    /// is empty), scores every candidate, ranks deterministically, and
    /// returns at most fifty entries. A whitespace-only query returns no
    /// entries without touching the store.
    pub fn search_dictionary(&self, query: &str) -> (r: Vec<WordEntry>)
        ensures
            entry_views(r@) == spec_search(self@, self.has_indices(), query@),
            r@.len() <= 50,
            spec_trim(query@).len() == 0 ==> r@.len() == 0,
    {
        let trimmed = trim_str(query);
        if trimmed.is_empty() {
            let r: Vec<WordEntry> = Vec::new();
            proof {
                assert(entry_views(r@) =~= spec_search(self@, self.has_indices(), query@));
            }
            return r;
        }
        let ghost es = self@;
        let ghost nq = norm_of(query@);
        let query_type = detect_query_type(query);
        let ghost qt = spec_query_type(query@);
        let cands = self.find_indexed_entries(query, &query_type);

        let mut results: Vec<SearchResult> = Vec::new();
        if cands.len() > 0 {
            let n = cands.len();
            let mut t: usize = 0;
            proof {
                assert(cands@.skip(0) =~= cands@);
            }
            while t < n
                invariant
                    n == cands@.len(),
                    0 <= t <= n,
                    es == self@,
                    nq == norm_of(query@),
                    qt == query_type,
                    forall|j: int| 0 <= j < cands@.len() ==> (#[trigger] cands@[j]) < es.len(),
                    scored_of(es, cands@, nq, qt) == result_views(results@) + scored_of(
                        es,
                        cands@.skip(t as int),
                        nq,
                        qt,
                    ),
                decreases n - t,
            {
                let ghost pre = result_views(results@);
                proof {
                    assert(cands@.skip(t as int)[0] == cands@[t as int]);
                    assert(cands@.skip(t as int).drop_first() =~= cands@.skip(t as int + 1));
                }
                let idx = cands[t];
                let entry = self.get_word_entry(idx);
                match evaluate_entry(&entry, query, &query_type) {
                    Some(sr) => {
                        results.push(sr);
                        proof {
                            assert(result_views(results@) =~= pre + seq![
                                scored_view(es[idx as int], nq, qt),
                            ]);
                        }
                    },
                    None => {},
                }
                t += 1;
            }
            proof {
                assert(cands@.skip(n as int) =~= Seq::<usize>::empty());
                assert(result_views(results@) + Seq::<SearchResultView>::empty()
                    =~= result_views(results@));
            }
        } else {
            let wc = self.word_count();
            let end: usize = if wc < 5000 {
                wc
            } else {
                5000
            };
            let mut t: usize = 0;
            while t < end && results.len() < 200
                invariant
                    end as int == fallback_end(es),
                    end <= es.len(),
                    0 <= t <= end,
                    es == self@,
                    nq == norm_of(query@),
                    qt == query_type,
                    results@.len() <= 200,
                    fallback_scored(es, nq, qt, 0, end as int, 200) == result_views(results@)
                        + fallback_scored(
                        es,
                        nq,
                        qt,
                        t as int,
                        end as int,
                        200 - results@.len(),
                    ),
                decreases end - t,
            {
                let ghost pre = result_views(results@);
                let entry = self.get_word_entry(t);
                match evaluate_entry(&entry, query, &query_type) {
                    Some(sr) => {
                        results.push(sr);
                        proof {
                            assert(result_views(results@) =~= pre + seq![
                                scored_view(es[t as int], nq, qt),
                            ]);
                            assert(seq![scored_view(es[t as int], nq, qt)] + fallback_scored(
                                es,
                                nq,
                                qt,
                                t as int + 1,
                                end as int,
                                200 - results@.len(),
                            ) =~= fallback_scored(es, nq, qt, t as int, end as int, 201 - results@.len()));
                            assert((pre + seq![scored_view(es[t as int], nq, qt)])
                                + fallback_scored(
                                es,
                                nq,
                                qt,
                                t as int + 1,
                                end as int,
                                200 - results@.len(),
                            ) =~= pre + (seq![scored_view(es[t as int], nq, qt)]
                                + fallback_scored(
                                es,
                                nq,
                                qt,
                                t as int + 1,
                                end as int,
                                200 - results@.len(),
                            )));
                        }
                    },
                    None => {},
                }
                t += 1;
            }
            proof {
                if t == end {
                    assert(fallback_scored(es, nq, qt, end as int, end as int, 200 - results@.len())
                        =~= Seq::<SearchResultView>::empty());
                } else {
                    assert(results@.len() == 200);
                    assert(fallback_scored(es, nq, qt, t as int, end as int, 0)
                        =~= Seq::<SearchResultView>::empty());
                }
                assert(result_views(results@) + Seq::<SearchResultView>::empty()
                    =~= result_views(results@));
            }
        }
        let ghost scored = result_views(results@);
        assert(scored == (if spec_indexed_candidates(es, self.has_indices(), nq, qt).len() > 0 {
            scored_of(es, spec_indexed_candidates(es, self.has_indices(), nq, qt), nq, qt)
        } else {
            fallback_scored(es, nq, qt, 0, fallback_end(es), 200)
        }));

        let mut ranked = rank_results(results);
        let ghost rs = rank_sorted(scored);
        assert(result_views(ranked@) == rs);

        let mut out: Vec<WordEntry> = Vec::new();
        while ranked.len() > 0 && out.len() < 50
            invariant
                out@.len() + ranked@.len() == rs.len(),
                out@.len() <= 50,
                forall|j: int|
                    0 <= j < ranked@.len() ==> (#[trigger] ranked@[j])@ == rs[out@.len() + j],
                forall|j: int| 0 <= j < out@.len() ==> (#[trigger] out@[j])@ == rs[j].entry,
            decreases ranked@.len(),
        {
            let ghost pre_out = out@;
            let ghost pre_ranked = ranked@;
            let sr = ranked.remove(0);
            out.push(sr.entry);
            proof {
                let k = pre_out.len() as int;
                assert(sr@ == rs[k + 0]);
                assert forall|j: int| 0 <= j < ranked@.len() implies (#[trigger] ranked@[j])@
                    == rs[out@.len() + j] by {
                    assert(ranked@[j] == pre_ranked[j + 1]);
                    assert(pre_ranked[j + 1]@ == rs[k + (j + 1)]);
                }
                assert forall|j: int| 0 <= j < out@.len() implies (#[trigger] out@[j])@
                    == rs[j].entry by {
                    if j < k {
                        assert(out@[j] == pre_out[j]);
                    } else {
                        assert(out@[j] == sr.entry);
                        assert(sr.entry@ == sr@.entry);
                    }
                }
            }
        }
        proof {
            let kept = if rs.len() > 50 {
                rs.take(50)
            } else {
                rs
            };
            assert(out@.len() == kept.len()) by {
                if ranked@.len() == 0 {
                    assert(out@.len() == rs.len());
                    if rs.len() > 50 {
                        assert(false);
                    }
                } else {
                    assert(out@.len() == 50);
                    assert(rs.len() >= 50);
                }
            }
            assert(entry_views(out@) =~= kept.map_values(|r: SearchResultView| r.entry)) by {
                assert forall|j: int| 0 <= j < out@.len() implies entry_views(out@)[j]
                    == kept.map_values(|r: SearchResultView| r.entry)[j] by {
                    assert(entry_views(out@)[j] == out@[j]@);
                    if rs.len() > 50 {
                        assert(kept[j] == rs[j]);
                    }
                }
            }
            assert(entry_views(out@) =~= spec_search(self@, self.has_indices(), query@));
        }
        out
    }
}

proof fn lemma_lex_asym(a: Seq<u8>, b: Seq<u8>)
    ensures
        lex_lt(a, b) ==> !lex_lt(b, a),
    decreases a.len(),
{
    if a.len() > 0 && b.len() > 0 && a[0] == b[0] {
        lemma_lex_asym(a.drop_first(), b.drop_first());
    }
}

proof fn lemma_lex_conn(a: Seq<u8>, b: Seq<u8>)
    ensures
        !lex_lt(a, b) && !lex_lt(b, a) ==> a == b,
    decreases a.len(),
{
    if a.len() > 0 && b.len() > 0 && a[0] == b[0] {
        lemma_lex_conn(a.drop_first(), b.drop_first());
        if !lex_lt(a, b) && !lex_lt(b, a) {
            assert(a =~= seq![a[0]] + a.drop_first());
            assert(b =~= seq![b[0]] + b.drop_first());
        }
    }
}

proof fn lemma_lex_trans(a: Seq<u8>, b: Seq<u8>, c: Seq<u8>)
    ensures
        lex_lt(a, b) && lex_lt(b, c) ==> lex_lt(a, c),
    decreases a.len(),
{
    if a.len() > 0 && b.len() > 0 && c.len() > 0 {
        lemma_lex_trans(a.drop_first(), b.drop_first(), c.drop_first());
    }
}

/// The rank order is asymmetric: no two results each rank after the other.
proof fn lemma_rank_after_asym(a: SearchResultView, b: SearchResultView)
    ensures
        rank_after(a, b) ==> !rank_after(b, a),
{
    lemma_lex_asym(encode_utf8(sort_key(b.entry)), encode_utf8(sort_key(a.entry)));
    lemma_lex_asym(encode_utf8(sort_key(a.entry)), encode_utf8(sort_key(b.entry)));
}

/// "Ranks no later than" is transitive.
proof fn lemma_rank_le_trans(a: SearchResultView, b: SearchResultView, c: SearchResultView)
    requires
        !rank_after(a, b),
        !rank_after(b, c),
    ensures
        !rank_after(a, c),
{
    let ea = encode_utf8(sort_key(a.entry));
    let eb = encode_utf8(sort_key(b.entry));
    let ec = encode_utf8(sort_key(c.entry));
    lemma_lex_asym(ea, eb);
    lemma_lex_asym(eb, ec);
    lemma_lex_asym(ea, ec);
    lemma_lex_asym(eb, ea);
    lemma_lex_asym(ec, eb);
    lemma_lex_asym(ec, ea);
    lemma_lex_conn(ea, eb);
    lemma_lex_conn(eb, ec);
    lemma_lex_conn(ea, ec);
    lemma_lex_trans(ec, eb, ea);
    lemma_lex_trans(ea, eb, ec);
}

/// Every earlier element of a ranked list ranks no later than every later
/// one.
pub open spec fn ranked_ordered(s: Seq<SearchResultView>) -> bool {
    forall|i: int, j: int| 0 <= i < j < s.len() ==> !rank_after(#[trigger] s[i], #[trigger] s[j])
}

/// The insertion point of `x` in `t`: after every element that does not rank
/// after `x`.
pub open spec fn ins_pos(t: Seq<SearchResultView>, x: SearchResultView) -> int
    decreases t.len(),
{
    if t.len() > 0 && rank_after(t.last(), x) {
        ins_pos(t.drop_last(), x)
    } else {
        t.len() as int
    }
}

proof fn lemma_insert_ranked_shape(t: Seq<SearchResultView>, x: SearchResultView)
    ensures
        0 <= ins_pos(t, x) <= t.len(),
        insert_ranked(t, x) == t.take(ins_pos(t, x)) + seq![x] + t.skip(ins_pos(t, x)),
        forall|j: int| ins_pos(t, x) <= j < t.len() ==> rank_after(#[trigger] t[j], x),
        ins_pos(t, x) > 0 ==> !rank_after(t[ins_pos(t, x) - 1], x),
    decreases t.len(),
{
    let p = ins_pos(t, x);
    if t.len() > 0 && rank_after(t.last(), x) {
        lemma_insert_ranked_shape(t.drop_last(), x);
        assert(t.drop_last().take(p) =~= t.take(p));
        assert(insert_ranked(t, x) =~= t.take(p) + seq![x] + t.skip(p)) by {
            assert(insert_ranked(t, x) == insert_ranked(t.drop_last(), x).push(t.last()));
            assert(t.drop_last().skip(p).push(t.last()) =~= t.skip(p));
        }
        assert forall|j: int| p <= j < t.len() implies rank_after(#[trigger] t[j], x) by {
            if j < t.len() - 1 {
                assert(t.drop_last()[j] == t[j]);
            }
        }
        if p > 0 {
            assert(t.drop_last()[p - 1] == t[p - 1]);
        }
    } else {
        assert(insert_ranked(t, x) == t.push(x));
        assert(t.push(x) =~= t.take(p) + seq![x] + t.skip(p));
    }
}

proof fn lemma_insert_ranked_ordered(t: Seq<SearchResultView>, x: SearchResultView)
    requires
        ranked_ordered(t),
    ensures
        ranked_ordered(insert_ranked(t, x)),
{
    lemma_insert_ranked_shape(t, x);
    let p = ins_pos(t, x);
    let r = insert_ranked(t, x);
    assert forall|i: int, j: int| 0 <= i < j < r.len() implies !rank_after(
        #[trigger] r[i],
        #[trigger] r[j],
    ) by {
        let oi: int = if i < p {
            i
        } else {
            i - 1
        };
        let oj: int = if j < p {
            j
        } else {
            j - 1
        };
        if i < p {
            assert(r[i] == t[i]);
        } else if i == p {
            assert(r[i] == x);
        } else {
            assert(r[i] == t[i - 1]);
        }
        if j < p {
            assert(r[j] == t[j]);
        } else if j == p {
            assert(r[j] == x);
        } else {
            assert(r[j] == t[j - 1]);
        }
        if i == p {
            // r[i] is x; r[j] is t[j-1] with j-1 >= p
            assert(rank_after(t[j - 1], x));
            lemma_rank_after_asym(t[j - 1], x);
        } else if j == p {
            // r[j] is x; r[i] is t[i] with i < p
            if p > 0 {
                if i < p - 1 {
                    assert(!rank_after(t[i], t[p - 1]));
                    lemma_rank_le_trans(t[i], t[p - 1], x);
                }
            }
        } else {
            assert(!rank_after(t[oi], t[oj]));
        }
    }
}

proof fn lemma_rank_sorted_ordered(s: Seq<SearchResultView>)
    ensures
        ranked_ordered(rank_sorted(s)),
        rank_sorted(s).len() == s.len(),
    decreases s.len(),
{
    if s.len() > 0 {
        lemma_rank_sorted_ordered(s.drop_last());
        lemma_insert_ranked_ordered(rank_sorted(s.drop_last()), s.last());
        lemma_insert_ranked_shape(rank_sorted(s.drop_last()), s.last());
    }
}

/// Tie-break determinism: in the ranked results of any search, whenever two
/// results carry the same score and the later one is a common word, the
/// earlier one is a common word too — a common entry is never outranked by a
/// less common entry of equal score, whatever the storage order was.
pub proof fn lemma_tiebreak_common_first(
    es: Seq<WordEntryView>,
    has_idx: bool,
    q: Seq<char>,
    i: int,
    j: int,
)
    requires
        0 <= i < j < spec_search_results(es, has_idx, q).len(),
        spec_search_results(es, has_idx, q)[i].score == spec_search_results(
            es,
            has_idx,
            q,
        )[j].score,
        spec_search_results(es, has_idx, q)[j].entry.is_common,
    ensures
        spec_search_results(es, has_idx, q)[i].entry.is_common,
{
    let qt = spec_query_type(q);
    let nq = norm_of(q);
    let cands = spec_indexed_candidates(es, has_idx, nq, qt);
    let scored = if cands.len() > 0 {
        scored_of(es, cands, nq, qt)
    } else {
        fallback_scored(es, nq, qt, 0, fallback_end(es), 200)
    };
    lemma_rank_sorted_ordered(scored);
    let rs = spec_search_results(es, has_idx, q);
    assert(!rank_after(rs[i], rs[j]));
}

/// Every earlier result of a search's ranked list ranks no later than every
/// later one: the full ordering law behind the tie-break chain.
pub proof fn lemma_search_results_ordered(es: Seq<WordEntryView>, has_idx: bool, q: Seq<char>)
    ensures
        ranked_ordered(spec_search_results(es, has_idx, q)),
{
    let qt = spec_query_type(q);
    let nq = norm_of(q);
    let cands = spec_indexed_candidates(es, has_idx, nq, qt);
    let scored = if cands.len() > 0 {
        scored_of(es, cands, nq, qt)
    } else {
        fallback_scored(es, nq, qt, 0, fallback_end(es), 200)
    };
    lemma_rank_sorted_ordered(scored);
}

} // verus!