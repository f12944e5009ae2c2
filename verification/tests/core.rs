use wordfreq::freq::FrequencyTable;
use wordfreq::rank::{fmt_u64, rank, rank_entries, report, sort_entries, word_le};
use wordfreq::stop::StopWordSet;
use wordfreq::text::{fold_string, split_raw, tokenize};
use wordfreq::top_words;

fn words(ws: &[&str]) -> Vec<String> {
    ws.iter().map(|w| w.to_string()).collect()
}

fn pairs(ps: &[(&str, u64)]) -> Vec<(String, u64)> {
    ps.iter().map(|(w, c)| (w.to_string(), *c)).collect()
}

#[test]
fn tokenize_splits_on_non_letters() {
    assert_eq!(tokenize("ab1cd ef-gh"), words(&["ab", "cd", "ef", "gh"]));
}

#[test]
fn tokenize_folds_case() {
    assert_eq!(tokenize("The CAT Sat"), words(&["the", "cat", "sat"]));
}

#[test]
fn tokenize_drops_short_runs() {
    assert_eq!(tokenize("a I ab x yz"), words(&["ab", "yz"]));
}

#[test]
fn tokenize_empty() {
    assert_eq!(tokenize(""), words(&[]));
}

#[test]
fn fold_string_folds_only_letters() {
    assert_eq!(fold_string("AbC-12z"), "abc-12z".to_string());
}

#[test]
fn split_raw_keeps_every_field() {
    assert_eq!(split_raw("ab--cd"), words(&["ab", "", "cd"]));
    assert_eq!(split_raw(""), words(&[""]));
}

#[test]
fn stop_words_membership() {
    let stops = StopWordSet::from_text("the,on");
    assert!(stops.contains(&"the".to_string()));
    assert!(stops.contains(&"on".to_string()));
    assert!(!stops.contains(&"cat".to_string()));
}

#[test]
fn stop_words_empty_fields_are_kept() {
    let stops = StopWordSet::from_text("a,,b");
    assert!(stops.contains(&"".to_string()));
    assert!(stops.contains(&"a".to_string()));
    assert!(!stops.contains(&"c".to_string()));
}

#[test]
fn counting_in_first_occurrence_order() {
    let stops = StopWordSet::new();
    let toks = words(&["cat", "dog", "cat", "cat", "emu"]);
    let t = FrequencyTable::count_tokens(&toks, &stops);
    assert_eq!(t.into_entries(), pairs(&[("cat", 3), ("dog", 1), ("emu", 1)]));
}

#[test]
fn counting_skips_stop_words() {
    let stops = StopWordSet::from_text("the,on");
    let toks = words(&["the", "cat", "on", "cat"]);
    let t = FrequencyTable::count_tokens(&toks, &stops);
    assert_eq!(t.into_entries(), pairs(&[("cat", 2)]));
}

#[test]
fn merging_sums_per_key() {
    // partial tables from two halves of one stream merge to the
    // single-threaded counts of the whole stream
    let stops = StopWordSet::new();
    let whole = words(&["a" , "bb", "a", "bb", "bb", "cc"]);
    let first = words(&["a", "bb", "a"]);
    let second = words(&["bb", "bb", "cc"]);
    let mut t1 = FrequencyTable::count_tokens(&first, &stops);
    let t2 = FrequencyTable::count_tokens(&second, &stops);
    t1.merge_from(&t2);
    let direct = FrequencyTable::count_tokens(&whole, &stops);
    let mut merged = t1.into_entries();
    let mut single = direct.into_entries();
    sort_entries(&mut merged);
    sort_entries(&mut single);
    assert_eq!(merged, single);
}

#[test]
fn ranking_orders_by_count_then_word() {
    let stops = StopWordSet::new();
    let toks = words(&["bb", "aa", "bb", "aa", "cc"]);
    let t = FrequencyTable::count_tokens(&toks, &stops);
    assert_eq!(rank(t), pairs(&[("aa", 2), ("bb", 2), ("cc", 1)]));
}

#[test]
fn ranking_truncates_to_25() {
    let mut entries: Vec<(String, u64)> = Vec::new();
    for i in 0..30u64 {
        entries.push((format!("w{:02}", i), 100 - i));
    }
    let ranked = rank_entries(entries);
    assert_eq!(ranked.len(), 25);
    assert_eq!(ranked[0], ("w00".to_string(), 100));
    assert_eq!(ranked[24], ("w24".to_string(), 76));
}

#[test]
fn word_order_is_lexicographic() {
    let a = "apple".to_string();
    let b = "banana".to_string();
    let ab = "ab".to_string();
    let abc = "abc".to_string();
    assert!(word_le(&a, &b));
    assert!(!word_le(&b, &a));
    assert!(word_le(&ab, &abc));
    assert!(word_le(&a, &a));
}

#[test]
fn decimal_rendering() {
    assert_eq!(fmt_u64(0), "0".to_string());
    assert_eq!(fmt_u64(7), "7".to_string());
    assert_eq!(fmt_u64(1234567890), "1234567890".to_string());
}

#[test]
fn report_lines_format() {
    let entries = pairs(&[("cat", 2), ("mat", 1)]);
    assert_eq!(report(&entries), "cat - 2\nmat - 1\n".to_string());
}

#[test]
fn top_words_scenario() {
    // the canonical example: counts cat=2, sat=1, mat=1, ran=1; cat
    // first, the tie broken by ascending word order
    let out = top_words("the cat sat on the mat the cat ran", "the,on");
    assert_eq!(out, pairs(&[("cat", 2), ("mat", 1), ("ran", 1), ("sat", 1)]));
}

#[test]
fn top_words_empty_text() {
    let out = top_words("", "the,on");
    assert_eq!(out, pairs(&[]));
}

#[test]
fn top_words_all_stopped() {
    let out = top_words("the the the", "the");
    assert_eq!(out, pairs(&[]));
}

#[test]
fn rerun_is_bit_identical() {
    let text = "One fish two fish red fish blue fish";
    let stops = "one,two";
    let first = top_words(text, stops);
    let second = top_words(text, stops);
    assert_eq!(first, second);
    assert_eq!(report(&first), report(&second));
}
