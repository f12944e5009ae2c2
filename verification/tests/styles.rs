use wordfreq::actors::run_pipeline;
use wordfreq::dataspace::{run_dataspace, FreqSpace, WordSpace};
use wordfreq::defensive::{extract_words, get_freq, remove_stop_words, sort_freq};
use wordfreq::events::{run_events, Event, EventKind, EventManager, HandlerId};
use wordfreq::letterbox::run_letterbox;
use wordfreq::mapreduce::{count_words, map_reduce, partition, regroup, split_words};
use wordfreq::pipeline::{count, filter, get_words, lower, sort, truncate_25, Pipe, Value};
use wordfreq::quarantine::{filter_chars, normalize, scan, top25_freq, Func, TheOne, Unwrap};
use wordfreq::stop::StopWordSet;
use wordfreq::streams::{all_words, count_and_sort, non_stop_words};
use wordfreq::text::tokenize;

const TEXT: &str = "the cat sat on the mat the cat ran";
const STOPS: &str = "the,on";

fn words(ws: &[&str]) -> Vec<String> {
    ws.iter().map(|w| w.to_string()).collect()
}

fn pairs(ps: &[(&str, u64)]) -> Vec<(String, u64)> {
    ps.iter().map(|(w, c)| (w.to_string(), *c)).collect()
}

fn expected() -> Vec<(String, u64)> {
    pairs(&[("cat", 2), ("mat", 1), ("ran", 1), ("sat", 1)])
}

#[test]
fn actors_emit_exactly_one_report() {
    let reports = run_pipeline(TEXT, STOPS);
    assert_eq!(reports.len(), 1);
    assert_eq!(reports[0], expected());
}

#[test]
fn letterbox_run() {
    assert_eq!(run_letterbox(TEXT, STOPS), expected());
}

#[test]
fn dataspace_run_with_several_workers() {
    assert_eq!(run_dataspace(TEXT, STOPS, 1), expected());
    assert_eq!(run_dataspace(TEXT, STOPS, 5), expected());
}

#[test]
fn dataspace_word_space_is_fifo() {
    let mut space = WordSpace::new();
    assert_eq!(space.len(), 0);
    space.push("one".to_string());
    space.push("two".to_string());
    assert_eq!(space.pop(), Some("one".to_string()));
    assert_eq!(space.pop(), Some("two".to_string()));
    assert_eq!(space.pop(), None);
}

#[test]
fn dataspace_freq_space_holds_tables() {
    let mut fs = FreqSpace::new();
    assert_eq!(fs.len(), 0);
    let stops = StopWordSet::new();
    let t = wordfreq::freq::FrequencyTable::count_tokens(&words(&["aa"]), &stops);
    fs.push(t);
    assert_eq!(fs.len(), 1);
    let back = fs.pop().unwrap();
    assert_eq!(back.into_entries(), pairs(&[("aa", 1)]));
    assert_eq!(fs.len(), 0);
}

#[test]
fn mapreduce_run() {
    let text = "the cat sat\non the mat\nthe cat ran\n";
    assert_eq!(map_reduce(text, STOPS, 1), expected());
    assert_eq!(map_reduce(text, STOPS, 2), expected());
    assert_eq!(map_reduce(text, STOPS, 100), expected());
}

#[test]
fn partition_cuts_on_line_breaks() {
    let chunks = partition("l one\nl two\nl three\n", 2);
    assert_eq!(chunks, words(&["l one\nl two\n", "l three\n"]));
    let rejoined: String = chunks.concat();
    assert_eq!(rejoined, "l one\nl two\nl three\n".to_string());
}

#[test]
fn partition_recovers_every_token() {
    // concatenating the token streams of the chunks, in chunk order,
    // equals tokenizing the whole text directly
    let text = "alpha beta\ngamma delta\nepsilon\nzeta eta theta\n";
    for size in 1..5usize {
        let chunks = partition(text, size);
        let mut recovered: Vec<String> = Vec::new();
        for c in &chunks {
            recovered.extend(tokenize(c));
        }
        assert_eq!(recovered, tokenize(text));
    }
}

#[test]
fn mapper_emits_one_pair_per_kept_token() {
    let stops = StopWordSet::from_text(STOPS);
    let got = split_words("the cat sat on the cat", &stops);
    assert_eq!(got, pairs(&[("cat", 1), ("sat", 1), ("cat", 1)]));
}

#[test]
fn regroup_collects_by_word() {
    let groups = vec![
        pairs(&[("aa", 1), ("bb", 1)]),
        pairs(&[("aa", 1), ("cc", 1), ("aa", 1)]),
    ];
    let grouped = regroup(groups);
    let reduced: Vec<(String, u64)> = grouped.into_iter().map(count_words).collect();
    assert_eq!(reduced, pairs(&[("aa", 3), ("bb", 1), ("cc", 1)]));
}

#[test]
fn events_run_reports_once_and_counts_z() {
    let (report, zcount) = run_events("zebra cat zebra dog fizz", "dog");
    assert_eq!(report, pairs(&[("zebra", 2), ("cat", 1), ("fizz", 1)]));
    assert_eq!(zcount, 3);
}

#[test]
fn events_manager_routes_in_subscription_order() {
    let mut manager = EventManager::new();
    manager.subscribe(EventKind::Word, HandlerId::StopWordsFilter);
    manager.subscribe(EventKind::Print, HandlerId::WordCounter);
    manager.subscribe(EventKind::Word, HandlerId::WordCounter);
    let got = manager.publish(&Event::Word("cat".to_string()));
    assert!(got == vec![HandlerId::StopWordsFilter, HandlerId::WordCounter]);
    let none = manager.publish(&Event::Start);
    assert!(none.is_empty());
}

#[test]
fn event_kinds() {
    assert!(Event::Start.kind() == EventKind::Start);
    assert!(Event::Word("x".to_string()).kind() == EventKind::Word);
    assert!(
        Event::Run { text: "a".to_string(), stop_text: "b".to_string() }.kind() == EventKind::Run
    );
}

#[test]
fn pipeline_stages_compose() {
    let lines = words(&["the cat sat", "on the mat", "the cat ran"]);
    let stops = StopWordSet::from_text(STOPS);
    let ws = get_words(&lines);
    let ws = lower(ws);
    let ws = filter(ws, &stops);
    let counted = count(ws);
    let sorted = sort(counted);
    let top = truncate_25(sorted);
    assert_eq!(top, expected());
}

#[test]
fn pipe_and_value_wrap_and_apply() {
    let v = Value::v(20).value();
    assert_eq!(v, 20);
    let doubled = Pipe::f(|x: u32| x * 2).call(21);
    assert_eq!(doubled, 42);
}

#[test]
fn theone_bind_chains() {
    let r = wordfreq::theone::TheOne::new(3)
        .bind(|x: i32| x + 4)
        .bind(|x: i32| x * 6);
    assert_eq!(r.value, 42);
}

#[test]
fn quarantine_bind_forces_deferred_computations() {
    let r = TheOne::new(20)
        .bind(|x: i32| Func::new(move || x + 1))
        .bind(|x: i32| x * 2);
    assert_eq!(r.value, 42);
}

#[test]
fn quarantine_unwrap_of_plain_value() {
    assert_eq!(5i64.my_unwrap(), 5i64);
}

#[test]
fn quarantine_stages() {
    let s = filter_chars("The cat, the mat!".to_string());
    assert_eq!(s, "The cat  the mat ".to_string());
    let s = normalize(s);
    assert_eq!(s, "the cat  the mat ".to_string());
    let ws = scan(s);
    assert_eq!(ws, words(&["the", "cat", "", "the", "mat", ""]));
}

#[test]
fn quarantine_whole_chain() {
    let stops = StopWordSet::from_text(STOPS);
    let ws = scan(normalize(filter_chars(TEXT.to_string())));
    let ws = wordfreq::quarantine::remove_stop_words(ws, &stops);
    let freq = wordfreq::quarantine::frequencies(ws);
    let sorted = wordfreq::quarantine::sort(freq);
    let rendered = top25_freq(sorted);
    assert_eq!(rendered, "cat - 2\nmat - 1\nran - 1\nsat - 1\n".to_string());
}

#[test]
fn streams_stages() {
    let lines = words(&["the cat sat", "on the mat", "the cat ran"]);
    let stops = StopWordSet::from_text(STOPS);
    assert_eq!(
        all_words(&lines),
        words(&["the", "cat", "sat", "on", "the", "mat", "the", "cat", "ran"])
    );
    assert_eq!(
        non_stop_words(&lines, &stops),
        words(&["cat", "sat", "mat", "cat", "ran"])
    );
    assert_eq!(count_and_sort(&lines, &stops), expected());
}

#[test]
fn defensive_stages() {
    let lines = words(&["The cat sat", "on the MAT", "the cat ran"]);
    let stops = StopWordSet::from_text(STOPS);
    let ws = extract_words(&lines);
    let ws = remove_stop_words(ws, &stops);
    let freq = get_freq(ws);
    let mut sorted = sort_freq(freq);
    sorted.truncate(25);
    assert_eq!(sorted, expected());
}

#[test]
fn pipeline_whole_chain() {
    let lines = words(&["the cat sat", "on the mat", "the cat ran"]);
    assert_eq!(
        wordfreq::pipeline::word_frequencies(&lines, STOPS),
        expected()
    );
}

#[test]
fn quarantine_rendered_report() {
    let rendered = wordfreq::quarantine::word_frequency_report(TEXT, STOPS);
    assert_eq!(rendered, "cat - 2\nmat - 1\nran - 1\nsat - 1\n".to_string());
}
