//! The data-stream style: the words flow to each stage as a stream rather
//! than a whole; each function is a transformer from one stream to
//! another. Reading the lines lazily from a file is the surrounding
//! program's affair; the transformations themselves are here.

use vstd::prelude::*;
use crate::dataspace::kept_words;
use crate::freq::{count_in, entry_views, occurrences, table_wf};
use crate::pipeline::{folded_all, raw_of_lines};
use crate::rank::entry_order;
use crate::stop::StopWordSet;
use crate::text::word_views;

verus! {

/// The word stream of a sequence of lines: every field, case-folded.
pub open spec fn line_words(ls: Seq<Seq<char>>) -> Seq<Seq<char>> {
    folded_all(raw_of_lines(ls))
}

/// Whether `out` is the full frequency table of the stream `ws`, sorted
/// into the ranking order.
pub open spec fn counted_and_sorted(out: Seq<(Seq<char>, nat)>, ws: Seq<Seq<char>>) -> bool {
    exists|t: Seq<(Seq<char>, nat)>|
        {
            &&& #[trigger] table_wf(t)
            &&& forall|w: Seq<char>| count_in(t, w) == occurrences(ws, w)
            &&& out == t.sort_by(entry_order())
        }
}

/// The stream of all words of the lines, split and case-folded.
pub fn all_words(lines: &Vec<String>) -> (out: Vec<String>)
    ensures
        word_views(out@) == line_words(word_views(lines@)),
{
    let ws = crate::pipeline::get_words(lines);
    crate::pipeline::lower(ws)
}

/// The stream with one-character words and stop words dropped.
pub fn non_stop_words(lines: &Vec<String>, stops: &StopWordSet) -> (out: Vec<String>)
    ensures
        word_views(out@) == kept_words(line_words(word_views(lines@)), stops@),
{
    let ws = all_words(lines);
    crate::pipeline::filter(ws, stops)
}

/// Counts the kept words and sorts the entries by count descending, ties
/// by ascending word order.
pub fn count_and_sort(lines: &Vec<String>, stops: &StopWordSet) -> (out: Vec<(String, u64)>)
    ensures
        counted_and_sorted(
            entry_views(out@),
            kept_words(line_words(word_views(lines@)), stops@),
        ),
{
    let ws = non_stop_words(lines, stops);
    let counted = crate::pipeline::count(ws);
    let ghost t = entry_views(counted@);
    let out = crate::pipeline::sort(counted);
    proof {
        assert(table_wf(t) && forall|w: Seq<char>|
            count_in(t, w) == occurrences(
                kept_words(line_words(word_views(lines@)), stops@),
                w,
            ));
    }
    out
}

} // verus!
