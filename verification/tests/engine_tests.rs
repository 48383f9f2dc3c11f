use japandict_core::dictionary::{Dictionary, WordEntry};
use japandict_core::engine::Engine;
use japandict_core::search::{
    detect_query_type, evaluate_entry, normalize_query, score_features, Features, QueryType,
};
use japandict_core::text::simple_edit_distance;

/// One fixture word: id, kanji forms, kana forms, glosses, part-of-speech
/// tags, and the commonness flag.
struct Word {
    id: String,
    kanji: Vec<String>,
    kana: Vec<String>,
    english: Vec<String>,
    pos: Vec<String>,
    common: bool,
}

fn word(id: &str, kanji: &[&str], kana: &[&str], english: &[&str], pos: &[&str], common: bool) -> Word {
    Word {
        id: id.to_owned(),
        kanji: kanji.iter().map(|s| s.to_string()).collect(),
        kana: kana.iter().map(|s| s.to_string()).collect(),
        english: english.iter().map(|s| s.to_string()).collect(),
        pos: pos.iter().map(|s| s.to_string()).collect(),
        common,
    }
}

/// Packs fixture words into the binary blob layout and validates it.
fn pack(words: &[Word]) -> Dictionary {
    let tk: usize = words.iter().map(|w| w.kanji.len()).sum();
    let tn: usize = words.iter().map(|w| w.kana.len()).sum();
    let te: usize = words.iter().map(|w| w.english.len()).sum();
    let tp: usize = words.iter().map(|w| w.pos.len()).sum();
    let ti: usize = words.len();

    let mut strings: Vec<u8> = Vec::new();
    let mut string_offsets: Vec<u32> = Vec::new();
    let mut push_str = |pool: &mut Vec<u8>, offs: &mut Vec<u32>, s: &str| {
        offs.push(pool.len() as u32);
        pool.extend_from_slice(s.as_bytes());
        pool.push(0);
    };
    for w in words {
        for s in &w.kanji {
            push_str(&mut strings, &mut string_offsets, s);
        }
    }
    for w in words {
        for s in &w.kana {
            push_str(&mut strings, &mut string_offsets, s);
        }
    }
    for w in words {
        for s in &w.english {
            push_str(&mut strings, &mut string_offsets, s);
        }
    }
    for w in words {
        for s in &w.pos {
            push_str(&mut strings, &mut string_offsets, s);
        }
    }
    for w in words {
        push_str(&mut strings, &mut string_offsets, &w.id);
    }

    let mut entries: Vec<u8> = Vec::new();
    let mut entry_offsets: Vec<u32> = Vec::new();
    let mut kanji_at: usize = 0;
    let mut kana_at: usize = 0;
    let mut eng_at: usize = 0;
    let mut pos_at: usize = 0;
    for (i, w) in words.iter().enumerate() {
        entry_offsets.push(entries.len() as u32);
        entries.extend_from_slice(&(i as u32).to_le_bytes());
        entries.push(w.kanji.len() as u8);
        entries.push(w.kana.len() as u8);
        entries.push(w.english.len() as u8);
        entries.push(w.pos.len() as u8);
        entries.push(if w.common { 1 } else { 0 });
        for _ in &w.kanji {
            entries.extend_from_slice(&(kanji_at as u32).to_le_bytes());
            kanji_at += 1;
        }
        for _ in &w.kana {
            entries.extend_from_slice(&((tk + kana_at) as u32).to_le_bytes());
            kana_at += 1;
        }
        for _ in &w.english {
            entries.extend_from_slice(&((tk + tn + eng_at) as u32).to_le_bytes());
            eng_at += 1;
        }
        for _ in &w.pos {
            entries.extend_from_slice(&((tk + tn + te + pos_at) as u32).to_le_bytes());
            pos_at += 1;
        }
    }

    Dictionary::new(strings, string_offsets, entries, entry_offsets, tk, tn, te, tp, ti)
        .expect("the fixture blob is well formed")
}

fn engine_for(words: &[Word]) -> Engine {
    let mut e = Engine::new(pack(words));
    e.build_search_indices();
    e
}

fn strs(v: &[String]) -> Vec<&str> {
    v.iter().map(|s| s.as_str()).collect()
}

#[test]
fn decode_round_trips_the_fixture() {
    let words = vec![
        word("w1", &["犬"], &["いぬ"], &["dog"], &["n"], true),
        word("w2", &[], &["ねこ"], &["cat; feline"], &["n"], false),
    ];
    let words = &words[..];
    let d = pack(words);
    assert_eq!(d.word_count(), 2);
    let e0 = d.get_word_entry(0);
    assert_eq!(e0.id, "w1");
    assert_eq!(strs(&e0.kanji), vec!["犬"]);
    assert_eq!(strs(&e0.kana), vec!["いぬ"]);
    assert_eq!(strs(&e0.english), vec!["dog"]);
    assert_eq!(strs(&e0.pos), vec!["n"]);
    assert!(e0.is_common);
    let e1 = d.get_word_entry(1);
    assert_eq!(e1.id, "w2");
    assert!(e1.kanji.is_empty());
    assert_eq!(strs(&e1.english), vec!["cat; feline"]);
    assert!(!e1.is_common);
}

#[test]
fn decoded_strings_are_never_empty() {
    let words = vec![
        word("w1", &["犬", "犬公"], &["いぬ"], &["dog", "hound; mutt"], &["n", "adj-i"], true),
        word("w2", &[], &["ねこ"], &["cat"], &[], false),
    ];
    let words = &words[..];
    let d = pack(words);
    for i in 0..d.word_count() {
        let e = d.get_word_entry(i);
        assert!(!e.id.is_empty());
        for s in e.kanji.iter().chain(&e.kana).chain(&e.english).chain(&e.pos) {
            assert!(!s.is_empty());
        }
    }
}

#[test]
fn validator_rejects_out_of_range_offsets() {
    // A string offset pointing past the pool.
    let r = Dictionary::new(vec![b'a', 0], vec![9], Vec::new(), Vec::new(), 1, 0, 0, 0, 0);
    assert!(r.is_none());
    // Counts that do not sum to the slot count.
    let r = Dictionary::new(vec![b'a', 0], vec![0], Vec::new(), Vec::new(), 1, 1, 0, 0, 0);
    assert!(r.is_none());
    // An empty string slot.
    let r = Dictionary::new(vec![0], vec![0], Vec::new(), Vec::new(), 1, 0, 0, 0, 0);
    assert!(r.is_none());
    // Invalid UTF-8 in the pool.
    let r = Dictionary::new(vec![0xFF, 0], vec![0], Vec::new(), Vec::new(), 1, 0, 0, 0, 0);
    assert!(r.is_none());
    // A truncated entry record.
    let r = Dictionary::new(vec![b'a', 0], vec![0], vec![0, 0, 0, 0], vec![0], 0, 0, 0, 0, 1);
    assert!(r.is_none());
}

#[test]
fn validator_accepts_the_empty_dictionary() {
    let d = Dictionary::new(Vec::new(), Vec::new(), Vec::new(), Vec::new(), 0, 0, 0, 0, 0)
        .expect("an empty blob is well formed");
    assert_eq!(d.word_count(), 0);
}

#[test]
fn normalize_trims_and_lowercases() {
    assert_eq!(normalize_query("  HeLLo World "), "hello world");
    assert_eq!(normalize_query("犬"), "犬");
    assert_eq!(normalize_query("   "), "");
}

#[test]
fn classifier_picks_the_regime() {
    assert_eq!(detect_query_type("犬"), QueryType::Kanji);
    assert_eq!(detect_query_type("いぬ"), QueryType::Kana);
    assert_eq!(detect_query_type("イヌ"), QueryType::Kana);
    assert_eq!(detect_query_type("dog"), QueryType::English);
    assert_eq!(detect_query_type(""), QueryType::English);
    // Kanji wins over kana in a mixed query.
    assert_eq!(detect_query_type("食べる"), QueryType::Kanji);
}

#[test]
fn edit_distance_counts_positions() {
    assert_eq!(simple_edit_distance("abc", "abc"), 0);
    assert_eq!(simple_edit_distance("abc", "abd"), 1);
    assert_eq!(simple_edit_distance("abc", "abcde"), 2);
    // Byte lengths differing by more than two: the cap.
    assert_eq!(simple_edit_distance("a", "abcd"), 3);
    assert_eq!(simple_edit_distance("abc", "xyz"), 3);
    assert_eq!(simple_edit_distance("えと", "えこ"), 1);
    // Symmetric.
    assert_eq!(simple_edit_distance("abcde", "abc"), 2);
}

#[test]
fn scoring_follows_the_weight_table() {
    let mut f = Features::default();
    assert_eq!(score_features(&f), 0);
    f.exact_english = true;
    f.first_gloss = true;
    f.gloss_hit = true;
    assert_eq!(score_features(&f), 450);
    f.first_gloss = false;
    // A gloss hit only pays when it is not a first-gloss hit.
    assert_eq!(score_features(&f), 260);
    let g = Features { exact_form: true, has_common: true, edit_distance: 2, ..Features::default() };
    assert_eq!(score_features(&g), 100 + 50 - 4);
}

#[test]
fn empty_and_whitespace_queries_return_nothing() {
    let e = engine_for(&[word("w1", &["犬"], &["いぬ"], &["dog"], &["n"], true)]);
    assert!(e.search_dictionary("").is_empty());
    assert!(e.search_dictionary("   ").is_empty());
    assert!(e.search_dictionary(" \u{3000} ").is_empty());
}

#[test]
fn exact_kanji_outranks_a_compound() {
    let words = vec![
        word("w-dog", &["犬"], &["いぬ"], &["dog"], &["n"], true),
        word("w-kennel", &["犬小屋"], &["いぬごや"], &["kennel; doghouse"], &["n"], false),
    ];
    let e = engine_for(&words);
    let r = e.search_dictionary("犬");
    assert_eq!(r.len(), 2);
    assert!(strs(&r[0].kanji).contains(&"犬"));
    assert_eq!(r[0].id, "w-dog");
    assert_eq!(r[1].id, "w-kennel");
}

#[test]
fn exact_english_gloss_outranks_a_compound_gloss() {
    let words = vec![
        word("w-tag", &["犬札"], &["いぬふだ"], &["dog tag"], &["n"], false),
        word("w-dog", &["犬"], &["いぬ"], &["dog"], &["n"], false),
    ];
    let e = engine_for(&words);
    let r = e.search_dictionary("dog");
    assert_eq!(r.len(), 2);
    assert_eq!(strs(&r[0].english), vec!["dog"]);
    assert_eq!(r[0].id, "w-dog");
    // The top result's features include the exact-English signal.
    let top = e.get_word_entry(1);
    let sr = evaluate_entry(&top, "dog", &QueryType::English).expect("the entry matches");
    assert!(sr.features.exact_english);
    assert!(sr.features.first_gloss);
    // The compound gloss matches only through its first word.
    let other = e.get_word_entry(0);
    let so = evaluate_entry(&other, "dog", &QueryType::English).expect("the entry matches");
    assert!(!so.features.exact_english);
    assert!(so.features.first_gloss);
    assert!(sr.score > so.score);
}

#[test]
fn near_miss_kana_surfaces_through_the_fallback() {
    let words = vec![word("w-eto", &[], &["えと"], &["zodiac sign"], &["n"], false)];
    let e = engine_for(&words);
    // No kana key starts with the query, so the indexed path yields nothing.
    assert!(e.find_indexed_entries("えこ", &QueryType::Kana).is_empty());
    // The fallback scan still surfaces the one-edit near miss.
    let r = e.search_dictionary("えこ");
    assert_eq!(r.len(), 1);
    assert_eq!(r[0].id, "w-eto");
    let entry = e.get_word_entry(0);
    let sr = evaluate_entry(&entry, "えこ", &QueryType::Kana).expect("a near miss matches");
    assert_eq!(sr.features.edit_distance, 1);
    assert!(sr.features.edit_distance <= 2);
}

#[test]
fn verbs_match_through_the_to_prefix() {
    let words = vec![word("w-run", &["走る"], &["はしる"], &["to run"], &["v5r"], false)];
    let e = engine_for(&words);
    let entry = e.get_word_entry(0);
    let sr = evaluate_entry(&entry, "run", &QueryType::English).expect("the verb gloss matches");
    assert!(sr.features.exact_english);
    assert!(sr.features.first_gloss);
}

#[test]
fn common_word_wins_a_score_tie_whatever_the_storage_order() {
    // Both entries score 150 for the query: the common one earns an exact
    // form match (100) plus the commonness bonus (50); the other earns an
    // exact reading (95), a prefix match (30), and the simple-form bonus (25).
    let a = || word("w-common", &["犬小屋敷場"], &["いぬごやしきば"], &["dog mansion"], &["n"], true);
    let b = || {
        word("w-plain", &["犬小屋敷場所"], &["いぬやご", "犬小屋敷場"], &["dog site"], &["n"], false)
    };
    for words in [vec![a(), b()], vec![b(), a()]] {
        let e = engine_for(&words);
        let r = e.search_dictionary("犬小屋敷場");
        assert_eq!(r.len(), 2);
        assert_eq!(r[0].id, "w-common");
        assert!(r[0].is_common);
        assert!(!r[1].is_common);
    }
}

#[test]
fn results_are_capped_at_fifty() {
    let mut words: Vec<Word> = Vec::new();
    for i in 0..60 {
        words.push(word(&format!("w{i}"), &[], &["いぬ"], &["dog"], &[], false));
    }
    let e = engine_for(&words);
    let r = e.search_dictionary("dog");
    assert_eq!(r.len(), 50);
    let c = e.find_indexed_entries("dog", &QueryType::English);
    assert!(c.len() <= 1000);
    assert_eq!(c.len(), 60);
}

#[test]
fn building_indices_twice_gives_identical_results() {
    let words = vec![
        word("w1", &["犬"], &["いぬ"], &["dog"], &["n"], true),
        word("w2", &["犬小屋"], &["いぬごや"], &["kennel"], &["n"], false),
        word("w3", &[], &["ねこ"], &["cat; feline"], &["n"], true),
    ];
    let e1 = engine_for(&words);
    let e2 = engine_for(&words);
    for q in ["犬", "いぬ", "cat", "feline", "dog", "k", "ね"] {
        let ids1: Vec<String> = e1.search_dictionary(q).into_iter().map(|w| w.id).collect();
        let ids2: Vec<String> = e2.search_dictionary(q).into_iter().map(|w| w.id).collect();
        assert_eq!(ids1, ids2);
        assert_eq!(
            e1.find_indexed_entries(q, &detect_query_type(q)),
            e2.find_indexed_entries(q, &detect_query_type(q))
        );
    }
}

#[test]
fn index_lookup_covers_gloss_tokens_and_clauses() {
    let words = vec![word("w1", &[], &["ねこ"], &["cat; domestic feline"], &["n"], false)];
    let e = engine_for(&words);
    // Whole normalized gloss, clause, token, and clause-first-word keys.
    for q in ["cat; domestic feline", "cat", "domestic feline", "domestic", "feline"] {
        let c = e.find_indexed_entries(q, &QueryType::English);
        assert_eq!(c, vec![0], "query {q:?} should hit the gloss index");
    }
}

#[test]
fn unbuilt_indices_fall_back_to_the_store_scan() {
    let words = vec![word("w1", &["犬"], &["いぬ"], &["dog"], &["n"], true)];
    let e = Engine::new(pack(&words));
    assert!(e.find_indexed_entries("犬", &QueryType::Kanji).is_empty());
    let r = e.search_dictionary("犬");
    assert_eq!(r.len(), 1);
    assert_eq!(r[0].id, "w1");
}

#[test]
fn verb_gloss_matches_through_its_second_word() {
    // The clause is "to run quickly": the query matches the word after
    // "to", which is a gloss hit and a first-clause hit but not exact.
    let words = vec![word("w-run", &["走る"], &["はしる"], &["to run quickly"], &["v5r"], false)];
    let e = engine_for(&words);
    let entry = e.get_word_entry(0);
    let sr = evaluate_entry(&entry, "run", &QueryType::English).expect("the verb gloss matches");
    assert!(sr.features.gloss_hit);
    assert!(sr.features.first_gloss);
    assert!(!sr.features.exact_english);
}

#[test]
fn whole_word_token_matches_without_first_gloss() {
    // "dog" appears as a later word of the clause: a gloss hit only.
    let words = vec![word("w-w", &[], &["わんわん"], &["large shaggy dog"], &["n"], false)];
    let e = engine_for(&words);
    let entry = e.get_word_entry(0);
    let sr = evaluate_entry(&entry, "dog", &QueryType::English).expect("the token matches");
    assert!(sr.features.gloss_hit);
    assert!(!sr.features.first_gloss);
    assert!(!sr.features.exact_english);
    // Punctuation around the token does not block the match.
    let words2 = vec![word("w-p", &[], &["わんわん"], &["a shaggy (dog)."], &["n"], false)];
    let e2 = engine_for(&words2);
    let entry2 = e2.get_word_entry(0);
    let sr2 = evaluate_entry(&entry2, "dog", &QueryType::English).expect("the token matches");
    assert!(sr2.features.gloss_hit);
}

#[test]
fn i_adjectives_count_as_simple_forms() {
    let words = vec![word("w-adj", &["高い"], &["たかいたかい"], &["high; tall"], &["adj-i"], false)];
    let e = engine_for(&words);
    let entry = e.get_word_entry(0);
    let sr = evaluate_entry(&entry, "高い", &QueryType::Kanji).expect("the form matches");
    assert!(sr.features.exact_form);
    // The kanji form ends in the i-adjective hiragana and carries the tag.
    assert!(sr.features.simple_form);
    assert!(sr.features.shorter_lemma);
}

#[test]
fn indexed_candidates_come_back_ascending() {
    let words = vec![
        word("w0", &[], &["いぬ"], &["dog"], &[], false),
        word("w1", &[], &["ねこ"], &["cat"], &[], false),
        word("w2", &[], &["こいぬ"], &["puppy dog"], &[], false),
        word("w3", &[], &["おおかみ"], &["wolf; wild dog"], &[], false),
    ];
    let e = engine_for(&words);
    let c = e.find_indexed_entries("dog", &QueryType::English);
    assert_eq!(c, vec![0, 2, 3]);
}

#[test]
fn entries_with_no_signal_are_dropped() {
    let words = vec![word("w1", &["犬"], &["いぬ"], &["dog"], &["n"], true)];
    let e = engine_for(&words);
    let entry = e.get_word_entry(0);
    assert!(evaluate_entry(&entry, "zebra", &QueryType::English).is_none());
    assert!(evaluate_entry(&entry, "猫", &QueryType::Kanji).is_none());
    // A well-formed query with no match returns an empty sequence, not an
    // error, after both the indexed and fallback paths are exhausted.
    assert!(e.search_dictionary("zebra").is_empty());
    assert!(e.search_dictionary("猫").is_empty());
}

#[test]
fn word_entry_debug_is_usable() {
    let words = vec![word("w1", &["犬"], &["いぬ"], &["dog"], &["n"], true)];
    let d = pack(&words);
    let e: WordEntry = d.get_word_entry(0);
    let s = format!("{e:?}");
    assert!(s.contains("w1"));
}
