//! The whole computation in one call: tokenize a text, drop the stop
//! words, count, rank. Every concurrency substrate of this crate computes
//! the same ranked result, and the lemmas here say that the result is
//! determined by the inputs alone.

use vstd::prelude::*;
use vstd::relations::sorted_by;
use crate::freq::{
    count_in, entry_views, lemma_filter_subset, lemma_occurrence_member, occurrences, table_keys,
    table_wf, without_stop_words, FrequencyTable,
};
use crate::rank::{
    entry_order, lemma_rank_spec_wf, lemma_ranking_deterministic, rank, rank_spec,
};
use crate::stop::{stop_set, StopWordSet};
use crate::text::{lemma_tokens_long, tokenize, tokens};

verus! {

/// The non-stop token stream of a text, against the text of a stop-word
/// file.
pub open spec fn filtered_tokens(text: Seq<char>, stop_text: Seq<char>) -> Seq<Seq<char>> {
    without_stop_words(tokens(text), stop_set(stop_text))
}

/// Whether `t` records exactly the frequencies of the non-stop words of
/// the token stream `ts`.
pub open spec fn counts_stream(
    t: Seq<(Seq<char>, nat)>,
    ts: Seq<Seq<char>>,
    stops: Set<Seq<char>>,
) -> bool {
    &&& table_wf(t)
    &&& forall|w: Seq<char>| count_in(t, w) == occurrences(without_stop_words(ts, stops), w)
}

/// Whether `out` is the ranked result of counting the stream `ts` against
/// the stop words `stops`.
pub open spec fn ranked_output(
    out: Seq<(Seq<char>, nat)>,
    ts: Seq<Seq<char>>,
    stops: Set<Seq<char>>,
) -> bool {
    exists|t: Seq<(Seq<char>, nat)>| #[trigger] counts_stream(t, ts, stops) && out == rank_spec(t)
}

/// Re-running on an unchanged token stream and unchanged stop words gives
/// the identical ranked result: there is only one.
pub proof fn lemma_ranked_output_unique(
    o1: Seq<(Seq<char>, nat)>,
    o2: Seq<(Seq<char>, nat)>,
    ts: Seq<Seq<char>>,
    stops: Set<Seq<char>>,
)
    requires
        ranked_output(o1, ts, stops),
        ranked_output(o2, ts, stops),
    ensures
        o1 == o2,
{
    let t1 = choose|t: Seq<(Seq<char>, nat)>| #[trigger] counts_stream(t, ts, stops) && o1
        == rank_spec(t);
    let t2 = choose|t: Seq<(Seq<char>, nat)>| #[trigger] counts_stream(t, ts, stops) && o2
        == rank_spec(t);
    lemma_ranking_deterministic(t1, t2);
}

/// Computes the ranked word frequencies of `text`: at most 25 entries,
/// ordered by count descending with ties broken by ascending word order,
/// holding no stop word and no one-letter word, each entry carrying the
/// exact number of occurrences of its word.
pub fn top_words(text: &str, stop_text: &str) -> (out: Vec<(String, u64)>)
    ensures
        ranked_output(entry_views(out@), tokens(text@), stop_set(stop_text@)),
        out@.len() <= 25,
        sorted_by(entry_views(out@), entry_order()),
        table_keys(entry_views(out@)).no_duplicates(),
        forall|i: int|
            0 <= i < out@.len() ==> {
                let e = #[trigger] entry_views(out@)[i];
                &&& e.1 == occurrences(filtered_tokens(text@, stop_text@), e.0)
                &&& e.1 >= 1
                &&& !stop_set(stop_text@).contains(e.0)
                &&& e.0.len() > 1
            },
{
    let toks = tokenize(text);
    let stops = StopWordSet::from_text(stop_text);
    let table = FrequencyTable::count_tokens(&toks, &stops);
    let ghost t = table@;
    proof {
        assert forall|w: Seq<char>|
            count_in(t, w) == occurrences(
                without_stop_words(tokens(text@), stop_set(stop_text@)),
                w,
            ) by {
            assert(table.count(w) == occurrences(
                without_stop_words(crate::text::word_views(toks@), stops@),
                w,
            ));
            assert(crate::text::word_views(toks@) == tokens(text@));
            assert(stops@ == stop_set(stop_text@));
        }
        assert(table_wf(t));
    }
    let out = rank(table);
    proof {
        assert(counts_stream(t, tokens(text@), stop_set(stop_text@)));
        lemma_rank_spec_wf(t);
        let ov = entry_views(out@);
        assert forall|i: int| 0 <= i < out@.len() implies {
            let e = #[trigger] entry_views(out@)[i];
            &&& e.1 == occurrences(filtered_tokens(text@, stop_text@), e.0)
            &&& e.1 >= 1
            &&& !stop_set(stop_text@).contains(e.0)
            &&& e.0.len() > 1
        } by {
            let e = ov[i];
            assert(count_in(t, e.0) == e.1 && e.1 >= 1);
            lemma_occurrence_member(filtered_tokens(text@, stop_text@), e.0);
            lemma_filter_subset(
                tokens(text@),
                |x: Seq<char>| !stop_set(stop_text@).contains(x),
                e.0,
            );
            lemma_tokens_long(text@, Seq::empty());
            let k = choose|k: int| 0 <= k < tokens(text@).len() && tokens(text@)[k] == e.0;
            assert(tokens(text@)[k].len() > 1);
        }
    }
    out
}

} // verus!
