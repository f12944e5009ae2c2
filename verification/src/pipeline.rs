//! The function-pipeline style: the problem decomposed into functions
//! from inputs to outputs, solved as a chain of applications. `Value` and
//! `Pipe` wrap a value and a function so that a chain reads as data
//! flowing through stages; the stages themselves are the usual ones:
//! split, fold case, filter, count, sort, truncate.

use vstd::prelude::*;
use crate::dataspace::{kept_words, long_non_stop};
use crate::freq::{
    count_in, entry_views, lemma_filter_singleton, occurrences, table_wf, FrequencyTable,
};
use crate::rank::{entry_order, sort_entries};
use crate::stop::StopWordSet;
use crate::text::{folded, raw_fields, split_raw, word_views};

verus! {

/// Wraps a function so that it can stand as a pipeline stage.
pub struct Pipe<F> {
    pub inner: F,
}

impl<F> Pipe<F> {
    pub fn f(f: F) -> (r: Pipe<F>)
        ensures
            r.inner == f,
    {
        Pipe { inner: f }
    }

    /// Applies the wrapped function.
    pub fn call<Input, Output>(self, input: Input) -> (out: Output) where F: FnOnce(Input) -> Output
        requires
            self.inner.requires((input,)),
        ensures
            self.inner.ensures((input,), out),
    {
        let Pipe { inner } = self;
        inner(input)
    }
}

/// Wraps a value flowing through the pipeline.
pub struct Value<V> {
    pub inner: V,
}

impl<V> Value<V> {
    pub fn v(v: V) -> (r: Value<V>)
        ensures
            r.inner == v,
    {
        Value { inner: v }
    }

    pub fn value(self) -> (r: V)
        ensures
            r == self.inner,
    {
        self.inner
    }
}

/// The raw fields of a sequence of lines, in order.
pub open spec fn raw_of_lines(ls: Seq<Seq<char>>) -> Seq<Seq<char>>
    decreases ls.len(),
{
    if ls.len() == 0 {
        Seq::empty()
    } else {
        raw_fields(ls.first()) + raw_of_lines(ls.drop_first())
    }
}

pub proof fn lemma_raw_of_lines_push(ls: Seq<Seq<char>>, x: Seq<char>)
    ensures
        raw_of_lines(ls.push(x)) == raw_of_lines(ls) + raw_fields(x),
    decreases ls.len(),
{
    if ls.len() == 0 {
        assert(ls.push(x).drop_first() =~= Seq::<Seq<char>>::empty());
        assert(ls.push(x).first() == x);
        assert(raw_of_lines(Seq::<Seq<char>>::empty()) =~= Seq::<Seq<char>>::empty());
        assert(raw_fields(x) + Seq::<Seq<char>>::empty() =~= raw_fields(x));
        assert(raw_of_lines(ls) + raw_fields(x) =~= raw_fields(x));
    } else {
        assert(ls.push(x).drop_first() =~= ls.drop_first().push(x));
        assert(ls.push(x).first() == ls.first());
        lemma_raw_of_lines_push(ls.drop_first(), x);
        assert(raw_fields(ls.first()) + (raw_of_lines(ls.drop_first()) + raw_fields(x)) =~= (
        raw_fields(ls.first()) + raw_of_lines(ls.drop_first())) + raw_fields(x));
    }
}

/// Every word case-folded.
pub open spec fn folded_all(ws: Seq<Seq<char>>) -> Seq<Seq<char>> {
    ws.map_values(|w: Seq<char>| folded(w))
}

/// Splits every line on non-word characters, keeping every field.
pub fn get_words(lines: &Vec<String>) -> (out: Vec<String>)
    ensures
        word_views(out@) == raw_of_lines(word_views(lines@)),
{
    let ghost lv = word_views(lines@);
    let mut out: Vec<String> = Vec::new();
    let n = lines.len();
    let mut i: usize = 0;
    proof {
        assert(lv.take(0) =~= Seq::<Seq<char>>::empty());
        assert(word_views(out@) =~= raw_of_lines(lv.take(0)));
    }
    while i < n
        invariant
            i <= n,
            n == lines@.len(),
            lv == word_views(lines@),
            word_views(out@) == raw_of_lines(lv.take(i as int)),
        decreases n - i,
    {
        let mut ws = split_raw(lines[i].as_str());
        let ghost wsv = word_views(ws@);
        let ghost before = out@;
        out.append(&mut ws);
        proof {
            assert(word_views(out@) =~= word_views(before) + wsv);
            assert(lv.take(i as int + 1) =~= lv.take(i as int).push(lv[i as int]));
            lemma_raw_of_lines_push(lv.take(i as int), lv[i as int]);
            assert(lv[i as int] == lines@[i as int]@);
        }
        i = i + 1;
    }
    proof {
        assert(lv.take(n as int) =~= lv);
    }
    out
}

/// Case-folds every word.
pub fn lower(words: Vec<String>) -> (out: Vec<String>)
    ensures
        word_views(out@) == folded_all(word_views(words@)),
{
    let ghost wv = word_views(words@);
    let mut out: Vec<String> = Vec::new();
    let n = words.len();
    let mut i: usize = 0;
    proof {
        assert(word_views(out@) =~= folded_all(wv.take(0)));
    }
    while i < n
        invariant
            i <= n,
            n == words@.len(),
            wv == word_views(words@),
            word_views(out@) == folded_all(wv.take(i as int)),
        decreases n - i,
    {
        let w = crate::text::fold_string(words[i].as_str());
        let ghost before = out@;
        out.push(w);
        proof {
            assert(word_views(out@) =~= word_views(before).push(folded(wv[i as int])));
            assert(wv.take(i as int + 1) =~= wv.take(i as int).push(wv[i as int]));
            assert(folded_all(wv.take(i as int + 1)) =~= folded_all(wv.take(i as int)).push(
                folded(wv[i as int]),
            ));
        }
        i = i + 1;
    }
    proof {
        assert(wv.take(n as int) =~= wv);
    }
    out
}

/// Filters out one-character words and stop words.
pub fn filter(words: Vec<String>, stops: &StopWordSet) -> (out: Vec<String>)
    ensures
        word_views(out@) == kept_words(word_views(words@), stops@),
{
    let ghost wv = word_views(words@);
    let mut out: Vec<String> = Vec::new();
    let n = words.len();
    let mut i: usize = 0;
    proof {
        reveal(Seq::filter);
        assert(wv.take(0) =~= Seq::<Seq<char>>::empty());
        assert(word_views(out@) =~= kept_words(wv.take(0), stops@));
    }
    while i < n
        invariant
            i <= n,
            n == words@.len(),
            wv == word_views(words@),
            word_views(out@) == kept_words(wv.take(i as int), stops@),
        decreases n - i,
    {
        let w = words[i].clone();
        proof {
            assert(wv[i as int] == w@);
            assert(wv.take(i as int + 1) =~= wv.take(i as int) + seq![w@]);
            Seq::filter_distributes_over_add(wv.take(i as int), seq![w@], long_non_stop(stops@));
            lemma_filter_singleton(w@, long_non_stop(stops@));
        }
        let long_enough = w.as_str().unicode_len() > 1;
        let is_stop = stops.contains(&w);
        if long_enough && !is_stop {
            let ghost before = out@;
            out.push(w);
            proof {
                assert(word_views(out@) =~= word_views(before).push(wv[i as int]));
                assert(kept_words(wv.take(i as int + 1), stops@) =~= kept_words(
                    wv.take(i as int),
                    stops@,
                ).push(wv[i as int]));
            }
        } else {
            proof {
                assert(kept_words(wv.take(i as int + 1), stops@) =~= kept_words(
                    wv.take(i as int),
                    stops@,
                ));
            }
        }
        i = i + 1;
    }
    proof {
        assert(wv.take(n as int) =~= wv);
    }
    out
}

/// Counts the words: one entry per distinct word, with its number of
/// occurrences.
pub fn count(words: Vec<String>) -> (out: Vec<(String, u64)>)
    ensures
        table_wf(entry_views(out@)),
        forall|w: Seq<char>|
            count_in(entry_views(out@), w) == occurrences(word_views(words@), w),
{
    let none = StopWordSet::new();
    let table = FrequencyTable::count_tokens(&words, &none);
    proof {
        crate::freq::lemma_without_stop_words_empty(word_views(words@));
        assert(none@ =~= Set::<Seq<char>>::empty());
        assert forall|w: Seq<char>|
            #[trigger] count_in(table@, w) == occurrences(word_views(words@), w) by {
            assert(table.count(w) == occurrences(
                crate::freq::without_stop_words(word_views(words@), none@),
                w,
            ));
        }
    }
    let out = table.into_entries();
    out
}

/// Sorts the entries into the ranking order.
pub fn sort(items: Vec<(String, u64)>) -> (out: Vec<(String, u64)>)
    ensures
        entry_views(out@) == entry_views(items@).sort_by(entry_order()),
{
    let mut v = items;
    sort_entries(&mut v);
    v
}

/// Keeps at most the first 25 entries.
pub fn truncate_25(items: Vec<(String, u64)>) -> (out: Vec<(String, u64)>)
    ensures
        entry_views(out@) == (if items@.len() <= 25 {
            entry_views(items@)
        } else {
            entry_views(items@).take(25)
        }),
{
    let mut v = items;
    if v.len() > 25 {
        let ghost before = entry_views(v@);
        v.truncate(25);
        proof {
            assert(entry_views(v@) =~= before.take(25));
        }
    }
    v
}

/// The predicate keeping the words long enough to be tokens.
pub open spec fn is_long() -> spec_fn(Seq<char>) -> bool {
    |t: Seq<char>| t.len() > 1
}

/// Only the words long enough to be tokens.
pub open spec fn long_only(ws: Seq<Seq<char>>) -> Seq<Seq<char>> {
    ws.filter(is_long())
}

/// Filtering twice is filtering once by the conjunction.
pub proof fn lemma_filter_then_filter<A>(
    s: Seq<A>,
    p: spec_fn(A) -> bool,
    q: spec_fn(A) -> bool,
    pq: spec_fn(A) -> bool,
)
    requires
        forall|x: A| #[trigger] pq(x) == (p(x) && q(x)),
    ensures
        s.filter(p).filter(q) == s.filter(pq),
    decreases s.len(),
{
    reveal(Seq::filter);
    if s.len() > 0 {
        lemma_filter_then_filter(s.drop_last(), p, q, pq);
        let sub = s.drop_last().filter(p);
        if p(s.last()) {
            assert(s.filter(p) == sub.push(s.last()));
            assert(sub.push(s.last()).drop_last() =~= sub);
            assert(sub.push(s.last()).last() == s.last());
        }
    }
}

/// Splitting into raw fields, case-folding every field, and keeping only
/// the fields long enough recovers exactly the token stream: the empty
/// and one-character fields are the discarded short runs, the rest are
/// the case-folded maximal runs.
pub proof fn lemma_stage_split(s: Seq<char>, cur: Seq<char>)
    ensures
        long_only(folded_all(crate::text::raw_fields_from(s, cur))) == crate::text::tokens_from(
            s,
            folded(cur),
        ),
    decreases s.len(),
{
    reveal(Seq::filter);
    let raw = crate::text::raw_fields_from(s, cur);
    if s.len() == 0 {
        assert(raw =~= seq![cur]);
        assert(folded_all(raw) =~= seq![folded(cur)]);
        crate::freq::lemma_filter_singleton(folded(cur), is_long());
        assert(folded(cur).len() == cur.len());
        assert(long_only(folded_all(raw)) =~= crate::text::emit_run(folded(cur)));
    } else if crate::text::is_word_char(s[0]) {
        lemma_stage_split(s.drop_first(), cur.push(s[0]));
        assert(folded(cur.push(s[0])) =~= folded(cur).push(crate::text::lower_char(s[0])));
    } else {
        lemma_stage_split(s.drop_first(), Seq::empty());
        let rest = crate::text::raw_fields_from(s.drop_first(), Seq::empty());
        assert(raw =~= seq![cur] + rest);
        assert(folded_all(raw) =~= seq![folded(cur)] + folded_all(rest));
        Seq::filter_distributes_over_add(seq![folded(cur)], folded_all(rest), is_long());
        crate::freq::lemma_filter_singleton(folded(cur), is_long());
        assert(folded(cur).len() == cur.len());
        assert(folded(Seq::<char>::empty()) =~= Seq::<char>::empty());
        assert(long_only(seq![folded(cur)]) =~= crate::text::emit_run(folded(cur)));
    }
}

/// The same, line by line: the pipeline's split and fold over a sequence
/// of lines yields, after the length filter, the token streams of the
/// lines in order.
pub proof fn lemma_stage_split_lines(ls: Seq<Seq<char>>)
    ensures
        long_only(folded_all(raw_of_lines(ls))) == crate::text::chunked_tokens(ls),
    decreases ls.len(),
{
    reveal(Seq::filter);
    if ls.len() == 0 {
        assert(raw_of_lines(ls) =~= Seq::<Seq<char>>::empty());
        assert(folded_all(raw_of_lines(ls)) =~= Seq::<Seq<char>>::empty());
        assert(long_only(Seq::<Seq<char>>::empty()) =~= Seq::<Seq<char>>::empty());
    } else {
        lemma_stage_split_lines(ls.drop_first());
        lemma_stage_split(ls.first(), Seq::empty());
        assert(folded(Seq::<char>::empty()) =~= Seq::<char>::empty());
        assert(folded_all(raw_of_lines(ls)) =~= folded_all(crate::text::raw_fields(ls.first()))
            + folded_all(raw_of_lines(ls.drop_first())));
        Seq::filter_distributes_over_add(
            folded_all(crate::text::raw_fields(ls.first())),
            folded_all(raw_of_lines(ls.drop_first())),
            is_long(),
        );
    }
}

/// The whole pipeline over the lines of a text: split, fold, filter,
/// count, sort, truncate — and what comes out is the one ranked
/// word-frequency table of the lines' tokens.
pub fn word_frequencies(lines: &Vec<String>, stop_text: &str) -> (out: Vec<(String, u64)>)
    ensures
        crate::top::ranked_output(
            entry_views(out@),
            crate::text::chunked_tokens(word_views(lines@)),
            crate::stop::stop_set(stop_text@),
        ),
{
    let ghost toks = crate::text::chunked_tokens(word_views(lines@));
    let ghost stops_spec = crate::stop::stop_set(stop_text@);
    let stops = crate::stop::StopWordSet::from_text(stop_text);
    let ws = get_words(lines);
    let ws = lower(ws);
    let ws = filter(ws, &stops);
    proof {
        lemma_stage_split_lines(word_views(lines@));
        lemma_filter_then_filter(
            folded_all(raw_of_lines(word_views(lines@))),
            is_long(),
            crate::freq::not_stop_word(stops_spec),
            crate::dataspace::long_non_stop(stops_spec),
        );
        assert(word_views(ws@) == crate::freq::without_stop_words(toks, stops_spec));
    }
    let counted = count(ws);
    let ghost table = entry_views(counted@);
    let sorted = sort(counted);
    let out = truncate_25(sorted);
    proof {
        assert(crate::top::counts_stream(table, toks, stops_spec));
        assert(entry_views(out@) == crate::rank::rank_spec(table)) by {
            assert(entry_views(sorted@) == table.sort_by(entry_order()));
        }
    }
    out
}

} // verus!
