//! The three inverted indices: normalized gloss key, kanji form, and kana
//! form, each mapping a key to the ascending, duplicate-free list of entry
//! ids that carry it.
//!
//! An index is an association list of buckets searched linearly: candidate
//! generation has to walk every key anyway for prefix matching, so no hashing
//! is needed, and the building pass visits entries in ascending id order so
//! each bucket's id list is sorted as it grows. Built once, read many times,
//! never mutated afterwards.

use vstd::prelude::*;

use crate::dictionary::Dictionary;
use crate::dictionary::WordEntry;
use crate::dictionary::WordEntryView;
use crate::search::norm_of;
use crate::text::{
    byte_len, chars_vec, clauses, eq_chars, prefix_chars, spec_trim, split_semi, split_ws,
    str_eq, trim_str, ws_tokens,
};
use vstd::pervasive::VecAdditionalExecFns;

verus! {

/// One key of an index together with the entry ids that carry it.
pub struct Bucket {
    key: String,
    ids: Vec<usize>,
}

/// The mathematical view of one bucket.
pub struct BucketView {
    pub key: Seq<char>,
    pub ids: Seq<usize>,
}

impl View for Bucket {
    type V = BucketView;

    closed spec fn view(&self) -> BucketView {
        BucketView { key: self.key@, ids: self.ids@ }
    }
}

/// The views of a bucket list.
pub open spec fn views(bs: Seq<Bucket>) -> Seq<BucketView> {
    bs.map_values(|b: Bucket| b@)
}

/// The position of the first bucket keyed `k`, or the bucket count.
pub open spec fn bidx(bs: Seq<BucketView>, k: Seq<char>) -> int
    decreases bs.len(),
{
    if bs.len() == 0 {
        0
    } else if bs[0].key == k {
        0
    } else {
        1 + bidx(bs.drop_first(), k)
    }
}

pub proof fn lemma_bidx(bs: Seq<BucketView>, k: Seq<char>)
    ensures
        0 <= bidx(bs, k) <= bs.len(),
        forall|j: int| 0 <= j < bidx(bs, k) ==> (#[trigger] bs[j]).key != k,
        bidx(bs, k) < bs.len() ==> bs[bidx(bs, k)].key == k,
    decreases bs.len(),
{
    if bs.len() != 0 && bs[0].key != k {
        lemma_bidx(bs.drop_first(), k);
        assert forall|j: int| 0 <= j < bidx(bs, k) implies (#[trigger] bs[j]).key != k by {
            if j > 0 {
                assert(bs.drop_first()[j - 1] == bs[j]);
            }
        }
        if bidx(bs, k) < bs.len() {
            assert(bs.drop_first()[bidx(bs, k) - 1] == bs[bidx(bs, k)]);
        }
    }
}

/// The ids stored under key `k`: those of its bucket, or none when no bucket
/// carries the key.
pub open spec fn index_ids(bs: Seq<BucketView>, k: Seq<char>) -> Seq<usize> {
    if bidx(bs, k) < bs.len() {
        bs[bidx(bs, k)].ids
    } else {
        Seq::empty()
    }
}

/// The keys of the buckets are pairwise distinct, so each key names one
/// bucket.
pub open spec fn distinct_keys(bs: Seq<BucketView>) -> bool {
    forall|i: int, j: int|
        0 <= i < j < bs.len() ==> (#[trigger] bs[i]).key != (#[trigger] bs[j]).key
}

/// The position of a key is insensitive to the buckets' id lists.
proof fn lemma_bidx_same_keys(a: Seq<BucketView>, b: Seq<BucketView>, k: Seq<char>)
    requires
        a.len() == b.len(),
        forall|j: int| 0 <= j < a.len() ==> (#[trigger] a[j]).key == (#[trigger] b[j]).key,
    ensures
        bidx(a, k) == bidx(b, k),
    decreases a.len(),
{
    if a.len() != 0 {
        if a[0].key != k {
            assert(b[0].key != k);
            lemma_bidx_same_keys(a.drop_first(), b.drop_first(), k);
        }
    }
}

/// Appending a bucket does not move any earlier key, and positions a fresh
/// key at the end.
proof fn lemma_bidx_push(bs: Seq<BucketView>, b: BucketView, k: Seq<char>)
    ensures
        bidx(bs, k) < bs.len() ==> bidx(bs.push(b), k) == bidx(bs, k),
        bidx(bs, k) == bs.len() && b.key == k ==> bidx(bs.push(b), k) == bs.len(),
        bidx(bs, k) == bs.len() && b.key != k ==> bidx(bs.push(b), k) == bs.len() + 1,
    decreases bs.len(),
{
    lemma_bidx(bs, k);
    if bs.len() == 0 {
        assert(bs.push(b)[0] == b);
        if b.key != k {
            assert(bs.push(b).drop_first() =~= Seq::<BucketView>::empty());
            assert(bidx(Seq::<BucketView>::empty(), k) == 0);
        }
    } else {
        assert(bs.push(b)[0] == bs[0]);
        if bs[0].key != k {
            assert(bs.push(b).drop_first() =~= bs.drop_first().push(b));
            lemma_bidx_push(bs.drop_first(), b, k);
        }
    }
}

/// Adds `id` under `key`, appending a new bucket for a fresh key and
/// skipping the push when the entry was already recorded for this id (the
/// bucket's last id equals `id`). Every other key's ids are untouched.
fn insert_id(buckets: &mut Vec<Bucket>, key: &str, id: usize)
    requires
        distinct_keys(views(old(buckets)@)),
    ensures
        distinct_keys(views(final(buckets)@)),
        forall|k: Seq<char>|
            k != key@ ==> #[trigger] index_ids(views(final(buckets)@), k) == index_ids(
                views(old(buckets)@),
                k,
            ),
        ({
            let prev = index_ids(views(old(buckets)@), key@);
            index_ids(views(final(buckets)@), key@) == (if prev.len() > 0 && prev.last() == id {
                prev
            } else {
                prev.push(id)
            })
        }),
{
    let ghost old_views = views(buckets@);
    proof {
        lemma_bidx(old_views, key@);
    }
    let n = buckets.len();
    let mut i: usize = 0;
    while i < n
        invariant
            n == buckets@.len(),
            views(buckets@) == old_views,
            distinct_keys(old_views),
            0 <= i <= bidx(old_views, key@) <= n,
            forall|j: int| 0 <= j < bidx(old_views, key@) ==> (#[trigger] old_views[j]).key != key@,
            bidx(old_views, key@) < n ==> old_views[bidx(old_views, key@)].key == key@,
            buckets@ == old(buckets)@,
        decreases n - i,
    {
        assert(views(buckets@)[i as int] == buckets@[i as int]@);
        if str_eq(buckets[i].key.as_str(), key) {
            assert(i == bidx(old_views, key@)) by {
                if i < bidx(old_views, key@) {
                    assert(old_views[i as int].key != key@);
                }
            }
            // The key already has a bucket: extend its id list unless the
            // last recorded id is already this one.
            let last = buckets[i].ids.len();
            let push_needed = if last == 0 {
                true
            } else {
                buckets[i].ids[last - 1] != id
            };
            if push_needed {
                let ghost pre = buckets@;
                let mut b = buckets.remove(i);
                b.ids.push(id);
                buckets.insert(i, b);
                proof {
                    let new_views = views(buckets@);
                    assert(new_views.len() == old_views.len());
                    assert forall|j: int| 0 <= j < new_views.len() implies (#[trigger] new_views[j]).key
                        == old_views[j].key by {
                        assert(new_views[j] == buckets@[j]@);
                        assert(old_views[j] == old(buckets)@[j]@);
                        if j != i {
                            assert(buckets@[j] == old(buckets)@[j]);
                        }
                    }
                    lemma_bidx_same_keys(new_views, old_views, key@);
                    assert forall|k: Seq<char>| k != key@ implies #[trigger] index_ids(
                        views(buckets@),
                        k,
                    ) == index_ids(old_views, k) by {
                        lemma_bidx_same_keys(new_views, old_views, k);
                        lemma_bidx(old_views, k);
                        if bidx(old_views, k) < old_views.len() {
                            assert(bidx(old_views, k) != i);
                            assert(buckets@[bidx(old_views, k)] == old(buckets)@[bidx(
                                old_views,
                                k,
                            )]);
                        }
                    }
                    assert(index_ids(new_views, key@) =~= index_ids(old_views, key@).push(id));
                    assert forall|a: int, b2: int|
                        0 <= a < b2 < new_views.len() implies (#[trigger] new_views[a]).key != (
                    #[trigger] new_views[b2]).key by {
                        assert(old_views[a].key != old_views[b2].key);
                    }
                }
            } else {
                proof {
                    assert(index_ids(old_views, key@).len() > 0);
                    assert(index_ids(old_views, key@).last() == id);
                }
            }
            return ;
        }
        assert(i < bidx(old_views, key@)) by {
            if i == bidx(old_views, key@) {
                assert(old_views[i as int].key == key@);
            }
        }
        i += 1;
    }
    // No bucket yet: append one.
    assert(bidx(old_views, key@) == n);
    let mut ids: Vec<usize> = Vec::new();
    ids.push(id);
    let b = Bucket { key: key.to_owned(), ids };
    buckets.push(b);
    proof {
        let new_views = views(buckets@);
        assert(new_views =~= old_views.push(b@));
        assert forall|k: Seq<char>| k != key@ implies #[trigger] index_ids(views(buckets@), k)
            == index_ids(old_views, k) by {
            lemma_bidx_push(old_views, b@, k);
            lemma_bidx(old_views, k);
            if bidx(old_views, k) < old_views.len() {
                assert(new_views[bidx(old_views, k)] == old_views[bidx(old_views, k)]);
            }
        }
        lemma_bidx_push(old_views, b@, key@);
        assert(index_ids(new_views, key@) =~= index_ids(old_views, key@).push(id));
        assert forall|x: int, y: int|
            0 <= x < y < new_views.len() implies (#[trigger] new_views[x]).key != (
        #[trigger] new_views[y]).key by {
            if y < old_views.len() {
                assert(old_views[x].key != old_views[y].key);
            } else {
                assert(new_views[y].key == key@);
                assert(old_views[x].key != key@);
            }
        }
    }
}

/// Whether `k` occurs in `ks`.
pub open spec fn key_present(ks: Seq<Seq<char>>, k: Seq<char>) -> bool {
    exists|t: int| 0 <= t < ks.len() && #[trigger] ks[t] == k
}

/// The ascending list of entry ids below `n` whose entry carries key `k`
/// under the key relation `haskey`.
pub open spec fn key_ids(
    es: Seq<WordEntryView>,
    n: int,
    k: Seq<char>,
    haskey: spec_fn(WordEntryView, Seq<char>) -> bool,
) -> Seq<usize> {
    Seq::new(n as nat, |i: int| i as usize).filter(|x: usize| haskey(es[x as int], k))
}

proof fn lemma_filter_push(s: Seq<usize>, pred: spec_fn(usize) -> bool, x: usize)
    ensures
        pred(x) ==> s.push(x).filter(pred) == s.filter(pred).push(x),
        !pred(x) ==> s.push(x).filter(pred) == s.filter(pred),
{
    reveal(Seq::filter);
    assert(s.push(x).drop_last() =~= s);
    assert(s.push(x).last() == x);
}

/// Extending the id range by one appends the new id to exactly the keys the
/// new entry carries.
pub proof fn lemma_key_ids_step(
    es: Seq<WordEntryView>,
    n: int,
    k: Seq<char>,
    haskey: spec_fn(WordEntryView, Seq<char>) -> bool,
)
    requires
        0 <= n,
        n < usize::MAX,
    ensures
        haskey(es[n], k) ==> key_ids(es, n + 1, k, haskey) == key_ids(es, n, k, haskey).push(
            n as usize,
        ),
        !haskey(es[n], k) ==> key_ids(es, n + 1, k, haskey) == key_ids(es, n, k, haskey),
{
    let ids_n = Seq::new(n as nat, |i: int| i as usize);
    let ids_n1 = Seq::new((n + 1) as nat, |i: int| i as usize);
    assert(ids_n1 =~= ids_n.push(n as usize));
    lemma_filter_push(ids_n, |x: usize| haskey(es[x as int], k), n as usize);
}

/// Every id below `n` is in the list exactly when its entry carries the key.
pub proof fn lemma_key_ids_elems(
    es: Seq<WordEntryView>,
    n: int,
    k: Seq<char>,
    haskey: spec_fn(WordEntryView, Seq<char>) -> bool,
)
    requires
        0 <= n,
        n <= usize::MAX,
    ensures
        forall|j: int|
            0 <= j < key_ids(es, n, k, haskey).len() ==> (#[trigger] key_ids(es, n, k, haskey)[j])
                < n && haskey(es[key_ids(es, n, k, haskey)[j] as int], k),
        forall|x: usize| x < n && haskey(es[x as int], k) ==> key_ids(es, n, k, haskey).contains(x),
        forall|j1: int, j2: int|
            0 <= j1 < j2 < key_ids(es, n, k, haskey).len() ==> (#[trigger] key_ids(
                es,
                n,
                k,
                haskey,
            )[j1]) < (#[trigger] key_ids(es, n, k, haskey)[j2]),
    decreases n,
{
    if n == 0 {
        assert(Seq::new(0nat, |i: int| i as usize) =~= Seq::<usize>::empty());
        reveal(Seq::filter);
    } else {
        lemma_key_ids_elems(es, n - 1, k, haskey);
        lemma_key_ids_step(es, n - 1, k, haskey);
        let prev = key_ids(es, n - 1, k, haskey);
        let cur = key_ids(es, n, k, haskey);
        if haskey(es[n - 1], k) {
            assert(cur =~= prev.push((n - 1) as usize));
            assert forall|x: usize| x < n && haskey(es[x as int], k) implies cur.contains(x) by {
                if x < n - 1 {
                    assert(prev.contains(x));
                    let j = choose|j: int| 0 <= j < prev.len() && prev[j] == x;
                    assert(cur[j] == x);
                } else {
                    assert(cur[cur.len() - 1] == x);
                }
            }
        } else {
            assert forall|x: usize| x < n && haskey(es[x as int], k) implies cur.contains(x) by {
                assert(x < n - 1 || x as int == n - 1);
                assert(prev.contains(x));
                let j = choose|j: int| 0 <= j < prev.len() && prev[j] == x;
                assert(cur[j] == x);
            }
        }
    }
}

/// Records every key of `keys` for entry `id`: the id list of each such key
/// grows by `id` exactly once, and every other key's list is untouched.
fn add_entry_keys(
    buckets: &mut Vec<Bucket>,
    keys: &Vec<String>,
    id: usize,
    Ghost(base): Ghost<spec_fn(Seq<char>) -> Seq<usize>>,
)
    requires
        distinct_keys(views(old(buckets)@)),
        forall|k: Seq<char>| #[trigger] index_ids(views(old(buckets)@), k) == base(k),
        forall|k: Seq<char>, j: int| 0 <= j < base(k).len() ==> (#[trigger] base(k)[j]) < id,
    ensures
        distinct_keys(views(final(buckets)@)),
        forall|k: Seq<char>|
            #[trigger] index_ids(views(final(buckets)@), k) == (if key_present(
                keys.deep_view(),
                k,
            ) {
                base(k).push(id)
            } else {
                base(k)
            }),
{
    let n = keys.len();
    let mut t: usize = 0;
    while t < n
        invariant
            n == keys@.len(),
            0 <= t <= n,
            distinct_keys(views(buckets@)),
            forall|k: Seq<char>, j: int| 0 <= j < base(k).len() ==> (#[trigger] base(k)[j]) < id,
            forall|k: Seq<char>|
                #[trigger] index_ids(views(buckets@), k) == (if key_present(
                    keys.deep_view().take(t as int),
                    k,
                ) {
                    base(k).push(id)
                } else {
                    base(k)
                }),
        decreases n - t,
    {
        let ghost pre = views(buckets@);
        assert(keys.deep_view()[t as int] == keys@[t as int]@);
        insert_id(buckets, keys[t].as_str(), id);
        proof {
            let k0 = keys@[t as int]@;
            let now = views(buckets@);
            assert forall|k: Seq<char>| true implies #[trigger] index_ids(now, k) == (
            if key_present(keys.deep_view().take(t as int + 1), k) {
                base(k).push(id)
            } else {
                base(k)
            }) by {
                if k == k0 {
                    assert(keys.deep_view().take(t as int + 1)[t as int] == k);
                    assert(key_present(keys.deep_view().take(t as int + 1), k));
                    if key_present(keys.deep_view().take(t as int), k) {
                        assert(index_ids(pre, k) == base(k).push(id));
                        assert(index_ids(pre, k).len() > 0 && index_ids(pre, k).last() == id);
                        assert(index_ids(now, k) == index_ids(pre, k));
                    } else {
                        assert(index_ids(pre, k) == base(k));
                        if base(k).len() > 0 {
                            assert(base(k)[base(k).len() - 1] < id);
                            assert(index_ids(pre, k).last() != id);
                        }
                        assert(index_ids(now, k) == base(k).push(id));
                    }
                } else {
                    assert(index_ids(now, k) == index_ids(pre, k));
                    if key_present(keys.deep_view().take(t as int + 1), k) {
                        let w = choose|w: int|
                            0 <= w < t + 1 && #[trigger] keys.deep_view().take(t as int + 1)[w]
                                == k;
                        assert(keys.deep_view().take(t as int)[w] == k);
                        assert(key_present(keys.deep_view().take(t as int), k));
                    } else {
                        if key_present(keys.deep_view().take(t as int), k) {
                            let w = choose|w: int|
                                0 <= w < t && #[trigger] keys.deep_view().take(t as int)[w] == k;
                            assert(keys.deep_view().take(t as int + 1)[w] == k);
                        }
                    }
                }
            }
        }
        t += 1;
    }
    proof {
        assert(keys.deep_view().take(n as int) =~~= keys.deep_view());
    }
}

/// Whether `k` is one of the keys under which the index builder registers a
/// gloss whose normalized (trimmed, lowercased) text is `n`: the whole
/// normalized gloss; every whitespace token longer than one byte; every
/// semicolon clause trimmed of whitespace, when non-empty; and the first
/// token of each such clause, again longer than one byte.
pub open spec fn gloss_key_in(n: Seq<char>, k: Seq<char>) -> bool {
    ||| k == n
    ||| (exists|i: int|
        0 <= i < ws_tokens(n).len() && #[trigger] ws_tokens(n)[i] == k && byte_len(k) > 1)
    ||| (exists|i: int|
        0 <= i < clauses(n).len() && #[trigger] spec_trim(clauses(n)[i]) == k && k.len() > 0)
    ||| (exists|i: int|
        {
            let c = #[trigger] spec_trim(clauses(n)[i]);
            0 <= i < clauses(n).len() && c.len() > 0 && ws_tokens(c).len() >= 1 && ws_tokens(c)[0]
                == k && byte_len(k) > 1
        })
}

/// Whether `k` is a gloss-index key of entry `e`.
pub open spec fn has_gloss_key(e: WordEntryView, k: Seq<char>) -> bool {
    exists|gi: int|
        0 <= gi < e.english.len() && gloss_key_in(norm_of(#[trigger] e.english[gi]), k)
}

/// Whether `k` is a kanji-index key of entry `e`: a literal kanji form.
pub open spec fn has_kanji_key(e: WordEntryView, k: Seq<char>) -> bool {
    e.kanji.contains(k)
}

/// Whether `k` is a kana-index key of entry `e`: a literal kana form.
pub open spec fn has_kana_key(e: WordEntryView, k: Seq<char>) -> bool {
    e.kana.contains(k)
}

/// Appends the gloss-index keys of one raw gloss to `keys`.
fn push_gloss_keys(keys: &mut Vec<String>, g: &str)
    ensures
        forall|k: Seq<char>|
            key_present(final(keys).deep_view(), k) == (key_present(old(keys).deep_view(), k)
                || gloss_key_in(norm_of(g@), k)),
{
    let norm = crate::search::normalize_query(g);
    let ghost nn = norm_of(g@);
    let ghost orig = keys.deep_view();
    keys.push(norm.clone());
    proof {
        assert(keys.deep_view() =~~= orig.push(nn));
        assert(keys.deep_view()[orig.len() as int] == nn);
        assert forall|k: Seq<char>| #[trigger] key_present(keys.deep_view(), k) implies (
        key_present(orig, k) || gloss_key_in(nn, k)) by {
            let w = choose|w: int|
                0 <= w < keys.deep_view().len() && #[trigger] keys.deep_view()[w] == k;
            if w < orig.len() {
                assert(orig[w] == k);
            }
        }
        assert forall|k: Seq<char>| key_present(orig, k) implies #[trigger] key_present(
            keys.deep_view(),
            k,
        ) by {
            let w = choose|w: int| 0 <= w < orig.len() && #[trigger] orig[w] == k;
            assert(keys.deep_view()[w] == k);
        }
    }
    let toks = split_ws(norm.as_str());
    let tn = toks.len();
    let mut ti: usize = 0;
    while ti < tn
        invariant
            tn == toks@.len(),
            toks.deep_view() =~~= ws_tokens(nn),
            0 <= ti <= tn,
            forall|k: Seq<char>|
                #[trigger] key_present(keys.deep_view(), k) ==> key_present(orig, k)
                    || gloss_key_in(nn, k),
            key_present(keys.deep_view(), nn),
            forall|k: Seq<char>| key_present(orig, k) ==> key_present(keys.deep_view(), k),
            forall|j: int|
                0 <= j < ti && byte_len(ws_tokens(nn)[j]) > 1 ==> key_present(
                    keys.deep_view(),
                    #[trigger] ws_tokens(nn)[j],
                ),
        decreases tn - ti,
    {
        assert(toks.deep_view()[ti as int] == toks@[ti as int]@);
        let ghost pre = keys.deep_view();
        if toks[ti].len() > 1 {
            keys.push(toks[ti].to_owned());
            proof {
                assert(keys.deep_view() =~~= pre.push(ws_tokens(nn)[ti as int]));
                assert(keys.deep_view()[pre.len() as int] == ws_tokens(nn)[ti as int]);
                assert forall|k: Seq<char>| #[trigger] key_present(keys.deep_view(), k) implies (
                key_present(pre, k) || k == ws_tokens(nn)[ti as int]) by {
                    let w = choose|w: int|
                        0 <= w < keys.deep_view().len() && #[trigger] keys.deep_view()[w] == k;
                    if w < pre.len() {
                        assert(pre[w] == k);
                    }
                }
                assert forall|k: Seq<char>| key_present(pre, k) implies #[trigger] key_present(
                    keys.deep_view(),
                    k,
                ) by {
                    let w = choose|w: int| 0 <= w < pre.len() && #[trigger] pre[w] == k;
                    assert(keys.deep_view()[w] == k);
                }
            }
        }
        ti += 1;
    }
    let cls = split_semi(norm.as_str());
    let cn = cls.len();
    let mut ci: usize = 0;
    while ci < cn
        invariant
            cn == cls@.len(),
            cls.deep_view() =~~= clauses(nn),
            0 <= ci <= cn,
            forall|k: Seq<char>|
                #[trigger] key_present(keys.deep_view(), k) ==> key_present(orig, k)
                    || gloss_key_in(nn, k),
            key_present(keys.deep_view(), nn),
            forall|k: Seq<char>| key_present(orig, k) ==> key_present(keys.deep_view(), k),
            forall|j: int|
                0 <= j < ws_tokens(nn).len() && byte_len(ws_tokens(nn)[j]) > 1 ==> key_present(
                    keys.deep_view(),
                    #[trigger] ws_tokens(nn)[j],
                ),
            forall|j: int|
                0 <= j < ci && spec_trim(clauses(nn)[j]).len() > 0 ==> key_present(
                    keys.deep_view(),
                    #[trigger] spec_trim(clauses(nn)[j]),
                ),
            forall|j: int|
                0 <= j < ci && (#[trigger] spec_trim(clauses(nn)[j])).len() > 0 && ws_tokens(
                    spec_trim(clauses(nn)[j]),
                ).len() >= 1 && byte_len(ws_tokens(spec_trim(clauses(nn)[j]))[0]) > 1
                    ==> key_present(keys.deep_view(), ws_tokens(spec_trim(clauses(nn)[j]))[0]),
        decreases cn - ci,
    {
        assert(cls.deep_view()[ci as int] == cls@[ci as int]@);
        let tc = trim_str(cls[ci]);
        if !tc.is_empty() {
            let ghost pre = keys.deep_view();
            keys.push(tc.to_owned());
            proof {
                assert(keys.deep_view() =~~= pre.push(spec_trim(clauses(nn)[ci as int])));
                assert(keys.deep_view()[pre.len() as int] == spec_trim(clauses(nn)[ci as int]));
                assert forall|k: Seq<char>| #[trigger] key_present(keys.deep_view(), k) implies (
                key_present(pre, k) || k == spec_trim(clauses(nn)[ci as int])) by {
                    let w = choose|w: int|
                        0 <= w < keys.deep_view().len() && #[trigger] keys.deep_view()[w] == k;
                    if w < pre.len() {
                        assert(pre[w] == k);
                    }
                }
                assert forall|k: Seq<char>| key_present(pre, k) implies #[trigger] key_present(
                    keys.deep_view(),
                    k,
                ) by {
                    let w = choose|w: int| 0 <= w < pre.len() && #[trigger] pre[w] == k;
                    assert(keys.deep_view()[w] == k);
                }
            }
            let ws2 = split_ws(tc);
            if ws2.len() >= 1 {
                assert(ws2.deep_view()[0] == ws2@[0]@);
                if ws2[0].len() > 1 {
                    let ghost pre2 = keys.deep_view();
                    keys.push(ws2[0].to_owned());
                    proof {
                        let tok0 = ws_tokens(spec_trim(clauses(nn)[ci as int]))[0];
                        assert(keys.deep_view() =~~= pre2.push(tok0));
                        assert(keys.deep_view()[pre2.len() as int] == tok0);
                        assert forall|k: Seq<char>| #[trigger] key_present(keys.deep_view(), k)
                            implies (key_present(pre2, k) || k == tok0) by {
                            let w = choose|w: int|
                                0 <= w < keys.deep_view().len() && #[trigger] keys.deep_view()[w]
                                    == k;
                            if w < pre2.len() {
                                assert(pre2[w] == k);
                            }
                        }
                        assert forall|k: Seq<char>| key_present(pre2, k) implies #[trigger] key_present(
                            keys.deep_view(),
                            k,
                        ) by {
                            let w = choose|w: int| 0 <= w < pre2.len() && #[trigger] pre2[w] == k;
                            assert(keys.deep_view()[w] == k);
                        }
                    }
                }
            }
        }
        ci += 1;
    }
    proof {
        assert forall|k: Seq<char>| (key_present(orig, k) || gloss_key_in(nn, k)) implies
            #[trigger] key_present(keys.deep_view(), k) by {
            if !key_present(orig, k) {
                assert(gloss_key_in(nn, k));
            }
        }
    }
}

/// The gloss-index keys of one entry: a key is present exactly when some
/// gloss of the entry yields it.
fn entry_keys(entry: &WordEntry) -> (r: Vec<String>)
    ensures
        forall|k: Seq<char>| #[trigger] key_present(r.deep_view(), k) == has_gloss_key(entry@, k),
{
    let mut keys: Vec<String> = Vec::new();
    let n = entry.english.len();
    let mut gi: usize = 0;
    proof {
        assert(keys.deep_view() =~~= Seq::<Seq<char>>::empty());
    }
    while gi < n
        invariant
            n == entry.english@.len(),
            0 <= gi <= n,
            forall|k: Seq<char>|
                #[trigger] key_present(keys.deep_view(), k) == (exists|gj: int|
                    0 <= gj < gi && gloss_key_in(norm_of(entry@.english[gj]), k)),
        decreases n - gi,
    {
        assert(entry.english.deep_view()[gi as int] == entry.english@[gi as int]@);
        let ghost pre = keys.deep_view();
        push_gloss_keys(&mut keys, entry.english[gi].as_str());
        proof {
            assert forall|k: Seq<char>| #[trigger] key_present(keys.deep_view(), k) == (exists|
                gj: int,
            |
                0 <= gj < gi + 1 && gloss_key_in(norm_of(entry@.english[gj]), k)) by {
                if key_present(keys.deep_view(), k) {
                    if key_present(pre, k) {
                        let gj = choose|gj: int|
                            0 <= gj < gi && gloss_key_in(norm_of(entry@.english[gj]), k);
                        assert(gloss_key_in(norm_of(entry@.english[gj]), k));
                    } else {
                        assert(gloss_key_in(norm_of(entry@.english[gi as int]), k));
                    }
                } else {
                    if exists|gj: int|
                        0 <= gj < gi + 1 && gloss_key_in(norm_of(entry@.english[gj]), k) {
                        let gj = choose|gj: int|
                            0 <= gj < gi + 1 && gloss_key_in(norm_of(entry@.english[gj]), k);
                        if gj < gi {
                            assert(key_present(pre, k));
                        }
                        assert(false);
                    }
                }
            }
        }
        gi += 1;
    }
    keys
}

/// The gloss-index contents over the first `n` entries.
pub open spec fn gloss_key_ids(es: Seq<WordEntryView>, n: int, k: Seq<char>) -> Seq<usize> {
    key_ids(es, n, k, |e: WordEntryView, kk: Seq<char>| has_gloss_key(e, kk))
}

/// The kanji-index contents over the first `n` entries.
pub open spec fn kanji_key_ids(es: Seq<WordEntryView>, n: int, k: Seq<char>) -> Seq<usize> {
    key_ids(es, n, k, |e: WordEntryView, kk: Seq<char>| has_kanji_key(e, kk))
}

/// The kana-index contents over the first `n` entries.
pub open spec fn kana_key_ids(es: Seq<WordEntryView>, n: int, k: Seq<char>) -> Seq<usize> {
    key_ids(es, n, k, |e: WordEntryView, kk: Seq<char>| has_kana_key(e, kk))
}

/// The literal forms of one category as an owned key list.
fn form_keys(forms: &Vec<String>) -> (r: Vec<String>)
    ensures
        forall|k: Seq<char>| #[trigger] key_present(r.deep_view(), k) == forms.deep_view().contains(
            k,
        ),
{
    let mut keys: Vec<String> = Vec::new();
    let n = forms.len();
    let mut i: usize = 0;
    while i < n
        invariant
            n == forms@.len(),
            0 <= i <= n,
            keys.deep_view() =~~= forms.deep_view().take(i as int),
        decreases n - i,
    {
        assert(forms.deep_view()[i as int] == forms@[i as int]@);
        let ghost pre = keys.deep_view();
        keys.push(forms[i].clone());
        proof {
            assert(keys.deep_view() =~~= pre.push(forms.deep_view()[i as int]));
        }
        i += 1;
    }
    proof {
        assert(keys.deep_view() =~~= forms.deep_view());
        assert forall|k: Seq<char>| #[trigger] key_present(keys.deep_view(), k)
            == forms.deep_view().contains(k) by {
            if key_present(keys.deep_view(), k) {
                let w = choose|w: int|
                    0 <= w < keys.deep_view().len() && #[trigger] keys.deep_view()[w] == k;
                assert(forms.deep_view()[w] == k);
            }
            if forms.deep_view().contains(k) {
                let w = choose|w: int|
                    0 <= w < forms.deep_view().len() && forms.deep_view()[w] == k;
                assert(keys.deep_view()[w] == k);
            }
        }
    }
    keys
}

/// Builds one inverted index over the whole store, with the per-entry key
/// extractor chosen by `kind` (`0` gloss, `1` kanji, `2` kana).
fn build_one_index(d: &Dictionary, kind: u8) -> (r: Vec<Bucket>)
    requires
        kind == 0 || kind == 1 || kind == 2,
    ensures
        distinct_keys(views(r@)),
        kind == 0 ==> forall|k: Seq<char>| #[trigger] index_ids(views(r@), k) == gloss_key_ids(
            d@,
            d@.len() as int,
            k,
        ),
        kind == 1 ==> forall|k: Seq<char>| #[trigger] index_ids(views(r@), k) == kanji_key_ids(
            d@,
            d@.len() as int,
            k,
        ),
        kind == 2 ==> forall|k: Seq<char>| #[trigger] index_ids(views(r@), k) == kana_key_ids(
            d@,
            d@.len() as int,
            k,
        ),
{
    let ghost haskey: spec_fn(WordEntryView, Seq<char>) -> bool = if kind == 0 {
        |e: WordEntryView, kk: Seq<char>| has_gloss_key(e, kk)
    } else if kind == 1 {
        |e: WordEntryView, kk: Seq<char>| has_kanji_key(e, kk)
    } else {
        |e: WordEntryView, kk: Seq<char>| has_kana_key(e, kk)
    };
    let n = d.word_count();
    let mut buckets: Vec<Bucket> = Vec::new();
    let mut i: usize = 0;
    proof {
        assert forall|k: Seq<char>| #[trigger] index_ids(views(buckets@), k) == key_ids(
            d@,
            0,
            k,
            haskey,
        ) by {
            assert(views(buckets@) =~= Seq::<BucketView>::empty());
            assert(Seq::new(0nat, |x: int| x as usize) =~= Seq::<usize>::empty());
            reveal(Seq::filter);
        }
    }
    while i < n
        invariant
            n == d@.len(),
            n <= usize::MAX,
            0 <= i <= n,
            kind == 0 || kind == 1 || kind == 2,
            haskey == (if kind == 0 {
                |e: WordEntryView, kk: Seq<char>| has_gloss_key(e, kk)
            } else if kind == 1 {
                |e: WordEntryView, kk: Seq<char>| has_kanji_key(e, kk)
            } else {
                |e: WordEntryView, kk: Seq<char>| has_kana_key(e, kk)
            }),
            distinct_keys(views(buckets@)),
            forall|k: Seq<char>|
                #[trigger] index_ids(views(buckets@), k) == key_ids(d@, i as int, k, haskey),
        decreases n - i,
    {
        let entry = d.get_word_entry(i);
        let keys = if kind == 0 {
            entry_keys(&entry)
        } else if kind == 1 {
            form_keys(&entry.kanji)
        } else {
            form_keys(&entry.kana)
        };
        proof {
            assert forall|k: Seq<char>| #[trigger] key_present(keys.deep_view(), k) == haskey(
                d@[i as int],
                k,
            ) by {
                assert(entry@ == d@[i as int]);
            }
            lemma_key_ids_elems(d@, i as int, Seq::<char>::empty(), haskey);
            assert forall|k: Seq<char>, j: int|
                0 <= j < key_ids(d@, i as int, k, haskey).len() implies (#[trigger] key_ids(
                d@,
                i as int,
                k,
                haskey,
            )[j]) < i by {
                lemma_key_ids_elems(d@, i as int, k, haskey);
            }
        }
        add_entry_keys(&mut buckets, &keys, i, Ghost(|k: Seq<char>| key_ids(d@, i as int, k, haskey)));
        proof {
            assert forall|k: Seq<char>| #[trigger] index_ids(views(buckets@), k) == key_ids(
                d@,
                i as int + 1,
                k,
                haskey,
            ) by {
                lemma_key_ids_step(d@, i as int, k, haskey);
            }
        }
        i += 1;
    }
    buckets
}

/// The three inverted indices, built once over a dictionary and immutable
/// afterwards.
pub struct SearchIndices {
    gloss: Vec<Bucket>,
    kanji: Vec<Bucket>,
    kana: Vec<Bucket>,
}

impl SearchIndices {
    /// The indices describe the entry sequence `es`: each index maps every
    /// key to the ascending list of ids of the entries that carry it.
    pub closed spec fn matches(self, es: Seq<WordEntryView>) -> bool {
        &&& distinct_keys(views(self.gloss@))
        &&& distinct_keys(views(self.kanji@))
        &&& distinct_keys(views(self.kana@))
        &&& forall|k: Seq<char>|
            #[trigger] index_ids(views(self.gloss@), k) == gloss_key_ids(es, es.len() as int, k)
        &&& forall|k: Seq<char>|
            #[trigger] index_ids(views(self.kanji@), k) == kanji_key_ids(es, es.len() as int, k)
        &&& forall|k: Seq<char>|
            #[trigger] index_ids(views(self.kana@), k) == kana_key_ids(es, es.len() as int, k)
    }

    /// The id list the gloss index stores under `k`.
    pub closed spec fn gloss_ids(self, k: Seq<char>) -> Seq<usize> {
        index_ids(views(self.gloss@), k)
    }

    /// The id list the kanji index stores under `k`.
    pub closed spec fn kanji_ids(self, k: Seq<char>) -> Seq<usize> {
        index_ids(views(self.kanji@), k)
    }

    /// The id list the kana index stores under `k`.
    pub closed spec fn kana_ids(self, k: Seq<char>) -> Seq<usize> {
        index_ids(views(self.kana@), k)
    }

    /// Builds all three indices by one scan each over the store.
    pub fn build(d: &Dictionary) -> (r: SearchIndices)
        ensures
            r.matches(d@),
    {
        let gloss = build_one_index(d, 0);
        let kanji = build_one_index(d, 1);
        let kana = build_one_index(d, 2);
        SearchIndices { gloss, kanji, kana }
    }

    /// The ids stored in the gloss index under exactly the key `nq`.
    pub fn exact_gloss_ids(&self, nq: &Vec<char>, Ghost(es): Ghost<Seq<WordEntryView>>) -> (r:
        Vec<usize>)
        requires
            self.matches(es),
        ensures
            r@ == gloss_key_ids(es, es.len() as int, nq@),
    {
        let ghost bs = views(self.gloss@);
        proof {
            lemma_bidx(bs, nq@);
        }
        let n = self.gloss.len();
        let mut i: usize = 0;
        while i < n
            invariant
                n == self.gloss@.len(),
                bs == views(self.gloss@),
                index_ids(bs, nq@) == gloss_key_ids(es, es.len() as int, nq@),
                0 <= i <= bidx(bs, nq@) <= n,
                forall|j: int| 0 <= j < bidx(bs, nq@) ==> (#[trigger] bs[j]).key != nq@,
                bidx(bs, nq@) < n ==> bs[bidx(bs, nq@)].key == nq@,
            decreases n - i,
        {
            assert(views(self.gloss@)[i as int] == self.gloss@[i as int]@);
            let bk = chars_vec(self.gloss[i].key.as_str());
            if eq_chars(&bk, nq) {
                assert(i == bidx(bs, nq@)) by {
                    if i < bidx(bs, nq@) {
                        assert(bs[i as int].key != nq@);
                    }
                }
                let mut out: Vec<usize> = Vec::new();
                let m = self.gloss[i].ids.len();
                let mut t: usize = 0;
                while t < m
                    invariant
                        m == self.gloss@[i as int].ids@.len(),
                        i < self.gloss@.len(),
                        0 <= t <= m,
                        out@ =~= self.gloss@[i as int].ids@.subrange(0, t as int),
                    decreases m - t,
                {
                    out.push(self.gloss[i].ids[t]);
                    t += 1;
                }
                assert(out@ =~= index_ids(bs, nq@));
                return out;
            }
            assert(i < bidx(bs, nq@)) by {
                if i == bidx(bs, nq@) {
                    assert(bs[i as int].key == nq@);
                }
            }
            i += 1;
        }
        let out: Vec<usize> = Vec::new();
        assert(out@ =~= index_ids(bs, nq@));
        out
    }
}

/// Whether an index key matches the normalized query as a prefix key;
/// `strict` excludes the key equal to the query.
pub open spec fn key_match(k: Seq<char>, nq: Seq<char>, strict: bool) -> bool {
    nq.is_prefix_of(k) && (!strict || k != nq)
}

/// In a duplicate-free bucket list, every bucket is the one its key names.
proof fn lemma_bidx_of(bs: Seq<BucketView>, j: int)
    requires
        distinct_keys(bs),
        0 <= j < bs.len(),
    ensures
        bidx(bs, bs[j].key) == j,
        index_ids(bs, bs[j].key) == bs[j].ids,
{
    lemma_bidx(bs, bs[j].key);
    let b = bidx(bs, bs[j].key);
    if b < j {
        assert(bs[b].key != bs[j].key);
    }
    if b > j {
        assert(bs[j].key != bs[j].key);
    }
}

/// Marks, in `marks`, every id stored under some key that matches `nq`.
fn mark_matching(buckets: &Vec<Bucket>, nq: &Vec<char>, strict: bool, marks0: Vec<bool>) -> (r:
    Vec<bool>)
    requires
        distinct_keys(views(buckets@)),
    ensures
        r@.len() == marks0@.len(),
        forall|i: int|
            0 <= i < r@.len() ==> r@[i] == (marks0@[i] || exists|k: Seq<char>|
                #![auto]
                key_match(k, nq@, strict) && index_ids(views(buckets@), k).contains(i as usize)),
{
    let mut marks = marks0;
    let ghost bs = views(buckets@);
    let ghost m0 = marks@;
    let n = buckets.len();
    proof {
        assert(marks.len() <= usize::MAX);
    }
    let mut bi: usize = 0;
    while bi < n
        invariant
            n == buckets@.len(),
            bs == views(buckets@),
            distinct_keys(bs),
            0 <= bi <= n,
            marks@.len() == m0.len(),
            marks@.len() <= usize::MAX,
            // monotone: nothing is ever cleared
            forall|i: int| 0 <= i < m0.len() && m0[i] ==> #[trigger] marks@[i],
            // sound: every new mark comes from a matching bucket already seen
            forall|i: int|
                0 <= i < marks@.len() && #[trigger] marks@[i] && !m0[i] ==> exists|j: int|
                    #![auto]
                    0 <= j < bi && key_match(bs[j].key, nq@, strict) && bs[j].ids.contains(
                        i as usize,
                    ),
            // complete: every id of every matching bucket already seen is marked
            forall|j: int, u: int|
                0 <= j < bi && key_match(#[trigger] bs[j].key, nq@, strict) && 0 <= u
                    < bs[j].ids.len() && (#[trigger] bs[j].ids[u] as int) < marks@.len()
                    ==> marks@[bs[j].ids[u] as int],
        decreases n - bi,
    {
        assert(views(buckets@)[bi as int] == buckets@[bi as int]@);
        let bk = chars_vec(buckets[bi].key.as_str());
        let is_match = if strict {
            prefix_chars(nq, &bk) && !eq_chars(&bk, nq)
        } else {
            prefix_chars(nq, &bk)
        };
        let ghost at_start = marks@;
        if is_match {
            assert(key_match(bs[bi as int].key, nq@, strict));
            let m = buckets[bi].ids.len();
            let mut t: usize = 0;
            while t < m
                invariant
                    m == buckets@[bi as int].ids@.len(),
                    bi < buckets@.len(),
                    bs == views(buckets@),
                    0 <= t <= m,
                    marks@.len() == at_start.len(),
                    marks@.len() <= usize::MAX,
                    forall|i: int| 0 <= i < at_start.len() && at_start[i] ==> #[trigger] marks@[i],
                    forall|i: int|
                        0 <= i < marks@.len() && #[trigger] marks@[i] && !at_start[i] ==> exists|
                            u: int,
                        |
                            #![auto]
                            0 <= u < t && bs[bi as int].ids[u] as int == i,
                    forall|u: int|
                        0 <= u < t && (#[trigger] bs[bi as int].ids[u] as int) < marks@.len()
                            ==> marks@[bs[bi as int].ids[u] as int],
                decreases m - t,
            {
                let id = buckets[bi].ids[t];
                assert(bs[bi as int].ids[t as int] == id);
                let ghost prev = marks@;
                if id < marks.len() {
                    marks.set(id, true);
                }
                proof {
                    assert forall|i: int|
                        0 <= i < marks@.len() && #[trigger] marks@[i] && !at_start[i] implies exists|
                        u: int,
                    |
                        #![auto]
                        0 <= u < t + 1 && bs[bi as int].ids[u] as int == i by {
                        if ((id as int) < prev.len()) && (i == id as int) {
                            assert(0 <= t < t + 1 && bs[bi as int].ids[t as int] as int == i);
                        } else {
                            assert(marks@[i] == prev[i]);
                            let u = choose|u: int|
                                #![auto]
                                0 <= u < t && bs[bi as int].ids[u] as int == i;
                            assert(0 <= u < t + 1 && bs[bi as int].ids[u] as int == i);
                        }
                    }
                }
                t += 1;
            }
            proof {
                assert forall|j: int, u: int|
                    0 <= j < bi + 1 && key_match(#[trigger] bs[j].key, nq@, strict) && 0 <= u
                        < bs[j].ids.len() && (#[trigger] bs[j].ids[u] as int) < marks@.len()
                        implies marks@[bs[j].ids[u] as int] by {
                    if j < bi {
                        assert(at_start[bs[j].ids[u] as int]);
                    }
                }
                assert forall|i: int|
                    0 <= i < marks@.len() && #[trigger] marks@[i] && !m0[i] implies exists|j: int|
                    #![auto]
                    0 <= j < bi + 1 && key_match(bs[j].key, nq@, strict) && bs[j].ids.contains(
                        i as usize,
                    ) by {
                    if at_start[i] {
                        let j = choose|j: int|
                            #![auto]
                            0 <= j < bi && key_match(bs[j].key, nq@, strict) && bs[j].ids.contains(
                                i as usize,
                            );
                        assert(0 <= j < bi + 1 && key_match(bs[j].key, nq@, strict)
                            && bs[j].ids.contains(i as usize));
                    } else {
                        let u = choose|u: int|
                            #![auto]
                            0 <= u < m && bs[bi as int].ids[u] as int == i;
                        assert(bs[bi as int].ids[u] == i as usize);
                        assert(bs[bi as int].ids.contains(i as usize));
                        assert(0 <= bi < bi + 1 && key_match(bs[bi as int].key, nq@, strict)
                            && bs[bi as int].ids.contains(i as usize));
                    }
                }
            }
        } else {
            proof {
                assert(!key_match(bs[bi as int].key, nq@, strict));
                assert forall|i: int|
                    0 <= i < marks@.len() && #[trigger] marks@[i] && !m0[i] implies exists|j: int|
                    #![auto]
                    0 <= j < bi + 1 && key_match(bs[j].key, nq@, strict) && bs[j].ids.contains(
                        i as usize,
                    ) by {
                    let j = choose|j: int|
                        #![auto]
                        0 <= j < bi && key_match(bs[j].key, nq@, strict) && bs[j].ids.contains(
                            i as usize,
                        );
                    assert(0 <= j < bi + 1 && key_match(bs[j].key, nq@, strict)
                        && bs[j].ids.contains(i as usize));
                }
                assert forall|j: int, u: int|
                    0 <= j < bi + 1 && key_match(#[trigger] bs[j].key, nq@, strict) && 0 <= u
                        < bs[j].ids.len() && (#[trigger] bs[j].ids[u] as int) < marks@.len()
                        implies marks@[bs[j].ids[u] as int] by {
                    assert(j != bi);
                }
            }
        }
        bi += 1;
    }
    proof {
        assert forall|i: int| 0 <= i < marks@.len() implies marks@[i] == (m0[i] || exists|
            k: Seq<char>,
        |
            #![auto]
            key_match(k, nq@, strict) && index_ids(bs, k).contains(i as usize)) by {
            if marks@[i] {
                if !m0[i] {
                    let j = choose|j: int|
                        #![auto]
                        0 <= j < n && key_match(bs[j].key, nq@, strict) && bs[j].ids.contains(
                            i as usize,
                        );
                    lemma_bidx_of(bs, j);
                    assert(key_match(bs[j].key, nq@, strict) && index_ids(bs, bs[j].key).contains(
                        i as usize,
                    ));
                }
            } else {
                assert(!m0[i]);
                if exists|k: Seq<char>|
                    #![auto]
                    key_match(k, nq@, strict) && index_ids(bs, k).contains(i as usize) {
                    let k = choose|k: Seq<char>|
                        #![auto]
                        key_match(k, nq@, strict) && index_ids(bs, k).contains(i as usize);
                    lemma_bidx(bs, k);
                    let j = bidx(bs, k);
                    assert(bs[j].key == k);
                    let u = choose|u: int| 0 <= u < bs[j].ids.len() && bs[j].ids[u] == i as usize;
                    assert((bs[j].ids[u] as int) < marks@.len());
                    assert(marks@[bs[j].ids[u] as int]);
                    assert(false);
                }
            }
        }
    }
    marks
}

impl SearchIndices {
    /// Marks the ids under every gloss key of which `nq` is a strict prefix.
    pub fn mark_gloss_prefix(
        &self,
        nq: &Vec<char>,
        marks0: Vec<bool>,
        Ghost(es): Ghost<Seq<WordEntryView>>,
    ) -> (r: Vec<bool>)
        requires
            self.matches(es),
            es.len() <= usize::MAX,
            marks0@.len() == es.len(),
            forall|i: int| 0 <= i < marks0@.len() ==> !marks0@[i],
        ensures
            r@.len() == es.len(),
            forall|i: int|
                0 <= i < es.len() ==> r@[i] == exists|k: Seq<char>|
                    #![auto]
                    key_match(k, nq@, true) && has_gloss_key(es[i], k),
    {
        let marks = mark_matching(&self.gloss, nq, true, marks0);
        proof {
            let n = es.len() as int;
            assert forall|i: int| 0 <= i < es.len() implies marks@[i] == exists|k: Seq<char>|
                #![auto]
                key_match(k, nq@, true) && has_gloss_key(es[i], k) by {
                if marks@[i] {
                    let k = choose|k: Seq<char>|
                        #![auto]
                        key_match(k, nq@, true) && index_ids(views(self.gloss@), k).contains(
                            i as usize,
                        );
                    lemma_key_ids_elems(
                        es,
                        n,
                        k,
                        |e: WordEntryView, kk: Seq<char>| has_gloss_key(e, kk),
                    );
                    let w = choose|w: int|
                        0 <= w < gloss_key_ids(es, n, k).len() && gloss_key_ids(es, n, k)[w]
                            == i as usize;
                    assert(has_gloss_key(es[i], k));
                } else {
                    if exists|k: Seq<char>|
                        #![auto]
                        key_match(k, nq@, true) && has_gloss_key(es[i], k) {
                        let k = choose|k: Seq<char>|
                            #![auto]
                            key_match(k, nq@, true) && has_gloss_key(es[i], k);
                        lemma_key_ids_elems(
                            es,
                            n,
                            k,
                            |e: WordEntryView, kk: Seq<char>| has_gloss_key(e, kk),
                        );
                        assert(gloss_key_ids(es, n, k).contains(i as usize));
                        assert(false);
                    }
                }
            }
        }
        marks
    }

    /// Marks the ids under every kanji form of which `nq` is a prefix.
    pub fn mark_kanji_prefix(
        &self,
        nq: &Vec<char>,
        marks0: Vec<bool>,
        Ghost(es): Ghost<Seq<WordEntryView>>,
    ) -> (r: Vec<bool>)
        requires
            self.matches(es),
            es.len() <= usize::MAX,
            marks0@.len() == es.len(),
            forall|i: int| 0 <= i < marks0@.len() ==> !marks0@[i],
        ensures
            r@.len() == es.len(),
            forall|i: int|
                0 <= i < es.len() ==> r@[i] == exists|k: Seq<char>|
                    #![auto]
                    key_match(k, nq@, false) && has_kanji_key(es[i], k),
    {
        let marks = mark_matching(&self.kanji, nq, false, marks0);
        proof {
            let n = es.len() as int;
            assert forall|i: int| 0 <= i < es.len() implies marks@[i] == exists|k: Seq<char>|
                #![auto]
                key_match(k, nq@, false) && has_kanji_key(es[i], k) by {
                if marks@[i] {
                    let k = choose|k: Seq<char>|
                        #![auto]
                        key_match(k, nq@, false) && index_ids(views(self.kanji@), k).contains(
                            i as usize,
                        );
                    lemma_key_ids_elems(
                        es,
                        n,
                        k,
                        |e: WordEntryView, kk: Seq<char>| has_kanji_key(e, kk),
                    );
                    let w = choose|w: int|
                        0 <= w < kanji_key_ids(es, n, k).len() && kanji_key_ids(es, n, k)[w]
                            == i as usize;
                    assert(has_kanji_key(es[i], k));
                } else {
                    if exists|k: Seq<char>|
                        #![auto]
                        key_match(k, nq@, false) && has_kanji_key(es[i], k) {
                        let k = choose|k: Seq<char>|
                            #![auto]
                            key_match(k, nq@, false) && has_kanji_key(es[i], k);
                        lemma_key_ids_elems(
                            es,
                            n,
                            k,
                            |e: WordEntryView, kk: Seq<char>| has_kanji_key(e, kk),
                        );
                        assert(kanji_key_ids(es, n, k).contains(i as usize));
                        assert(false);
                    }
                }
            }
        }
        marks
    }

    /// Marks the ids under every kana form of which `nq` is a prefix.
    pub fn mark_kana_prefix(
        &self,
        nq: &Vec<char>,
        marks0: Vec<bool>,
        Ghost(es): Ghost<Seq<WordEntryView>>,
    ) -> (r: Vec<bool>)
        requires
            self.matches(es),
            es.len() <= usize::MAX,
            marks0@.len() == es.len(),
            forall|i: int| 0 <= i < marks0@.len() ==> !marks0@[i],
        ensures
            r@.len() == es.len(),
            forall|i: int|
                0 <= i < es.len() ==> r@[i] == exists|k: Seq<char>|
                    #![auto]
                    key_match(k, nq@, false) && has_kana_key(es[i], k),
    {
        let marks = mark_matching(&self.kana, nq, false, marks0);
        proof {
            let n = es.len() as int;
            assert forall|i: int| 0 <= i < es.len() implies marks@[i] == exists|k: Seq<char>|
                #![auto]
                key_match(k, nq@, false) && has_kana_key(es[i], k) by {
                if marks@[i] {
                    let k = choose|k: Seq<char>|
                        #![auto]
                        key_match(k, nq@, false) && index_ids(views(self.kana@), k).contains(
                            i as usize,
                        );
                    lemma_key_ids_elems(
                        es,
                        n,
                        k,
                        |e: WordEntryView, kk: Seq<char>| has_kana_key(e, kk),
                    );
                    let w = choose|w: int|
                        0 <= w < kana_key_ids(es, n, k).len() && kana_key_ids(es, n, k)[w]
                            == i as usize;
                    assert(has_kana_key(es[i], k));
                } else {
                    if exists|k: Seq<char>|
                        #![auto]
                        key_match(k, nq@, false) && has_kana_key(es[i], k) {
                        let k = choose|k: Seq<char>|
                            #![auto]
                            key_match(k, nq@, false) && has_kana_key(es[i], k);
                        lemma_key_ids_elems(
                            es,
                            n,
                            k,
                            |e: WordEntryView, kk: Seq<char>| has_kana_key(e, kk),
                        );
                        assert(kana_key_ids(es, n, k).contains(i as usize));
                        assert(false);
                    }
                }
            }
        }
        marks
    }
}

/// Index construction is idempotent: any two index sets built over the same
/// entry sequence store the same id list under every key of every index, and
/// that list is the ascending, duplicate-free list of the ids of the entries
/// that carry the key.
pub proof fn lemma_build_deterministic(a: SearchIndices, b: SearchIndices, es: Seq<WordEntryView>)
    requires
        a.matches(es),
        b.matches(es),
    ensures
        forall|k: Seq<char>| #[trigger] a.gloss_ids(k) == b.gloss_ids(k),
        forall|k: Seq<char>| #[trigger] a.kanji_ids(k) == b.kanji_ids(k),
        forall|k: Seq<char>| #[trigger] a.kana_ids(k) == b.kana_ids(k),
        forall|k: Seq<char>| #[trigger] a.gloss_ids(k) == gloss_key_ids(es, es.len() as int, k),
        forall|k: Seq<char>| #[trigger] a.kanji_ids(k) == kanji_key_ids(es, es.len() as int, k),
        forall|k: Seq<char>| #[trigger] a.kana_ids(k) == kana_key_ids(es, es.len() as int, k),
{
}

} // verus!
