//! The defensive style: every procedure checks its inputs and yields
//! something sensible on every path. Reading a file that may be missing
//! or holds invalid lines is the surrounding program's affair; here each
//! stage is total over the values it is handed, so nothing is left to
//! check but the contract.

use vstd::prelude::*;
use crate::dataspace::kept_words;
use crate::freq::{count_in, entry_views, occurrences, table_wf};
use crate::pipeline::{folded_all, raw_of_lines};
use crate::rank::entry_order;
use crate::stop::StopWordSet;
use crate::text::word_views;

verus! {

/// Splits every line on non-word characters and case-folds every field.
pub fn extract_words(lines: &Vec<String>) -> (out: Vec<String>)
    ensures
        word_views(out@) == folded_all(raw_of_lines(word_views(lines@))),
{
    let ws = crate::pipeline::get_words(lines);
    crate::pipeline::lower(ws)
}

/// Filters out one-character words and stop words.
pub fn remove_stop_words(words: Vec<String>, stops: &StopWordSet) -> (out: Vec<String>)
    ensures
        word_views(out@) == kept_words(word_views(words@), stops@),
{
    crate::pipeline::filter(words, stops)
}

/// Counts the words: one entry per distinct word.
pub fn get_freq(words: Vec<String>) -> (out: Vec<(String, u64)>)
    ensures
        table_wf(entry_views(out@)),
        forall|w: Seq<char>|
            count_in(entry_views(out@), w) == occurrences(word_views(words@), w),
{
    crate::pipeline::count(words)
}

/// Sorts the entries into the ranking order.
pub fn sort_freq(entries: Vec<(String, u64)>) -> (out: Vec<(String, u64)>)
    ensures
        entry_views(out@) == entry_views(entries@).sort_by(entry_order()),
{
    crate::pipeline::sort(entries)
}

} // verus!
