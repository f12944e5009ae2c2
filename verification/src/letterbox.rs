//! The letterbox style: each capsule of data exposes one single
//! procedure, the ability to receive and dispatch a message; a dispatch
//! may in turn send messages to other capsules. Here the controller owns
//! the three managers and drives the whole computation through their
//! dispatch procedures alone.

use vstd::prelude::*;
use crate::freq::{
    count_in, entry_views, lemma_filter_singleton, not_stop_word, occurrences, table_wf,
    without_stop_words, FrequencyTable,
};
use crate::rank::{rank_spec, ranked_take, sort_entries, MAX_RANKED};
use crate::stop::{stop_set, StopWordSet};
use crate::text::{tokenize, tokens, word_views};
use crate::top::{counts_stream, ranked_output};

verus! {

/// A command for the data storage manager.
pub enum DataCmd {
    /// Store the tokens of this text.
    Init(String),
    /// Hand the stored words out.
    Words,
}

/// A command for the stop-word manager.
pub enum StopCmd {
    /// Load the stop words from this text.
    Init(String),
    /// Is this word a stop word?
    IsStopWord(String),
}

/// A command for the word-frequency manager.
pub enum FreqCmd {
    /// Count one occurrence of this word.
    Incr(String),
    /// Hand out the top entries, at most this many.
    Top(usize),
}

/// A command for the controller.
pub enum AppCmd {
    /// The input file's text and the stop-word file's text.
    Init(String, String),
    /// Count and rank; the ranked entries are the reply.
    Run,
}

/// Stores and splits the words of the input text.
pub struct DataStorageManager {
    words: Vec<String>,
}

impl DataStorageManager {
    /// The stored tokens.
    pub closed spec fn view(&self) -> Seq<Seq<char>> {
        word_views(self.words@)
    }

    pub fn new() -> (r: DataStorageManager)
        ensures
            r@ =~= Seq::<Seq<char>>::empty(),
    {
        let r = DataStorageManager { words: Vec::new() };
        proof {
            assert(r@ =~= Seq::<Seq<char>>::empty());
        }
        r
    }

    /// A copy of the stored words, in order.
    pub fn words(&self) -> (out: Vec<String>)
        ensures
            word_views(out@) == self@,
    {
        let mut out: Vec<String> = Vec::new();
        let n = self.words.len();
        let mut i: usize = 0;
        proof {
            assert(word_views(out@) =~= self@.take(0));
        }
        while i < n
            invariant
                i <= n,
                n == self.words@.len(),
                word_views(out@) == self@.take(i as int),
            decreases n - i,
        {
            let w = self.words[i].clone();
            let ghost before = out@;
            out.push(w);
            proof {
                assert(word_views(out@) =~= word_views(before).push(self@[i as int]));
                assert(self@.take(i as int + 1) =~= self@.take(i as int).push(self@[i as int]));
            }
            i = i + 1;
        }
        proof {
            assert(self@.take(n as int) =~= self@);
        }
        out
    }

    /// Receives one command: `init` tokenizes and stores, `words` replies
    /// with the stored words.
    pub fn dispatch(&mut self, msg: DataCmd) -> (out: Vec<String>)
        ensures
            match msg {
                DataCmd::Init(text) => final(self)@ == tokens(text@) && out@ =~= Seq::<
                    String,
                >::empty(),
                DataCmd::Words => final(self)@ == old(self)@ && word_views(out@) == old(self)@,
            },
    {
        match msg {
            DataCmd::Init(text) => {
                self.words = tokenize(text.as_str());
                Vec::new()
            },
            DataCmd::Words => self.words(),
        }
    }
}

/// Holds the stop-word set and answers membership queries.
pub struct StopWordsManager {
    stop_words: StopWordSet,
}

impl StopWordsManager {
    /// The stop words held.
    pub closed spec fn view(&self) -> Set<Seq<char>> {
        self.stop_words@
    }

    pub fn new() -> (r: StopWordsManager)
        ensures
            r@ =~= Set::<Seq<char>>::empty(),
    {
        let r = StopWordsManager { stop_words: StopWordSet::new() };
        proof {
            assert(r@ =~= Set::<Seq<char>>::empty());
        }
        r
    }

    /// Receives one command: `init` loads the set and replies true,
    /// `is_stop_word` replies whether the word is in the set.
    pub fn dispatch(&mut self, msg: StopCmd) -> (r: bool)
        ensures
            match msg {
                StopCmd::Init(stop_text) => final(self)@ == stop_set(stop_text@) && r,
                StopCmd::IsStopWord(w) => final(self)@ == old(self)@ && r == old(self)@.contains(
                    w@,
                ),
            },
    {
        match msg {
            StopCmd::Init(stop_text) => {
                self.stop_words = StopWordSet::from_text(stop_text.as_str());
                true
            },
            StopCmd::IsStopWord(w) => self.stop_words.contains(&w),
        }
    }
}

/// Counts word occurrences and hands out the top entries.
pub struct WordFrequencyManager {
    counter: FrequencyTable,
}

impl WordFrequencyManager {
    /// The frequency table held.
    pub closed spec fn view(&self) -> Seq<(Seq<char>, nat)> {
        self.counter@
    }

    pub open spec fn wf(&self) -> bool {
        table_wf(self@)
    }

    /// The count recorded for `w`.
    pub open spec fn count(&self, w: Seq<char>) -> nat {
        count_in(self@, w)
    }

    pub fn new() -> (r: WordFrequencyManager)
        ensures
            r.wf(),
            forall|w: Seq<char>| r.count(w) == 0,
            r@ =~= Seq::<(Seq<char>, nat)>::empty(),
    {
        WordFrequencyManager { counter: FrequencyTable::new() }
    }

    /// Receives one command: `incr` counts one occurrence and replies
    /// nothing, `top` replies with at most that many entries, ranked.
    pub fn dispatch(&mut self, msg: FreqCmd) -> (out: Vec<(String, u64)>)
        requires
            old(self).wf(),
            msg matches FreqCmd::Incr(w) ==> old(self).count(w@) < u64::MAX,
        ensures
            final(self).wf(),
            match msg {
                FreqCmd::Incr(w) => out@ =~= Seq::<(String, u64)>::empty() && forall|v: Seq<char>|
                    final(self).count(v) == old(self).count(v) + (if v == w@ {
                        1nat
                    } else {
                        0nat
                    }),
                FreqCmd::Top(k) => final(self)@ == old(self)@ && entry_views(out@) == ranked_take(
                    old(self)@,
                    k as int,
                ),
            },
    {
        match msg {
            FreqCmd::Incr(w) => {
                let ghost t0 = self.counter@;
                let ghost wv = w@;
                self.counter.bump(w, 1);
                proof {
                    assert forall|v: Seq<char>|
                        #[trigger] count_in(self@, v) == count_in(t0, v) + (if v == wv {
                            1nat
                        } else {
                            0nat
                        }) by {
                        assert(self.counter.count(v) == count_in(t0, v) + (if v == wv {
                            1nat
                        } else {
                            0nat
                        }));
                    }
                }
                Vec::new()
            },
            FreqCmd::Top(k) => {
                let mut entries = self.counter.to_entries();
                sort_entries(&mut entries);
                if entries.len() > k {
                    let ghost before = entry_views(entries@);
                    entries.truncate(k);
                    proof {
                        assert(entry_views(entries@) =~= before.take(k as int));
                    }
                }
                entries
            },
        }
    }
}

/// The controller: owns the three managers and drives them by messages
/// alone.
pub struct WordFrequencyController {
    data: Option<DataStorageManager>,
    stop_words: Option<StopWordsManager>,
    counter: Option<WordFrequencyManager>,
}

impl WordFrequencyController {
    /// The tokens the data manager holds; empty before `init`.
    pub closed spec fn data_tokens(&self) -> Seq<Seq<char>> {
        match self.data {
            Option::Some(d) => d@,
            Option::None => Seq::empty(),
        }
    }

    /// The stop words held; empty before `init`.
    pub closed spec fn stops(&self) -> Set<Seq<char>> {
        match self.stop_words {
            Option::Some(s) => s@,
            Option::None => Set::empty(),
        }
    }

    /// The counter's table; empty before `init`.
    pub closed spec fn counter_table(&self) -> Seq<(Seq<char>, nat)> {
        match self.counter {
            Option::Some(c) => c@,
            Option::None => Seq::empty(),
        }
    }

    /// The count the counter records for `w`.
    pub open spec fn counts(&self, w: Seq<char>) -> nat {
        count_in(self.counter_table(), w)
    }

    /// Whether `init` has run: every manager in place, the counter well
    /// formed.
    pub closed spec fn ready(&self) -> bool {
        &&& self.data is Some
        &&& self.stop_words is Some
        &&& self.counter is Some
        &&& table_wf(self.counter_table())
    }

    pub fn new() -> (r: WordFrequencyController)
        ensures
            !r.ready(),
            r.data_tokens() =~= Seq::<Seq<char>>::empty(),
    {
        WordFrequencyController { data: None, stop_words: None, counter: None }
    }

    /// Receives one command. `init` builds and initializes the three
    /// managers. `run` fetches the stored words, filters each through the
    /// stop-word manager, counts the kept ones, and replies with the top
    /// 25 entries.
    pub fn dispatch(&mut self, msg: AppCmd) -> (out: Vec<(String, u64)>)
        requires
            msg is Run ==> old(self).ready() && forall|w: Seq<char>|
                old(self).counts(w) + old(self).data_tokens().len() <= u64::MAX,
        ensures
            match msg {
                AppCmd::Init(text, stop_text) => {
                    &&& final(self).ready()
                    &&& final(self).data_tokens() == tokens(text@)
                    &&& final(self).stops() == stop_set(stop_text@)
                    &&& forall|w: Seq<char>| final(self).counts(w) == 0
                    &&& final(self).data_tokens().len() <= usize::MAX
                    &&& out@ =~= Seq::<(String, u64)>::empty()
                },
                AppCmd::Run => {
                    &&& final(self).ready()
                    &&& final(self).data_tokens() == old(self).data_tokens()
                    &&& final(self).stops() == old(self).stops()
                    &&& forall|w: Seq<char>|
                        final(self).counts(w) == old(self).counts(w) + occurrences(
                            without_stop_words(old(self).data_tokens(), old(self).stops()),
                            w,
                        )
                    &&& entry_views(out@) == ranked_take(
                        final(self).counter_table(),
                        MAX_RANKED as int,
                    )
                },
            },
    {
        match msg {
            AppCmd::Init(text, stop_text) => {
                let mut data = DataStorageManager::new();
                let _none = data.dispatch(DataCmd::Init(text));
                let mut stop_words = StopWordsManager::new();
                let _ok = stop_words.dispatch(StopCmd::Init(stop_text));
                let counter = WordFrequencyManager::new();
                let words_len = data.words().len();
                self.data = Some(data);
                self.stop_words = Some(stop_words);
                self.counter = Some(counter);
                proof {
                    assert(self.counter_table() == counter@);
                    assert forall|w: Seq<char>| #[trigger] count_in(self.counter_table(), w)
                        == 0 by {
                        assert(counter.count(w) == 0);
                    }
                }
                Vec::new()
            },
            AppCmd::Run => {
                let ghost toks = old(self).data_tokens();
                let ghost stops0 = old(self).stops();
                let ghost c0 = old(self).counter_table();
                let data = self.data.take().unwrap();
                let words = data.words();
                self.data = Some(data);
                let mut sw = self.stop_words.take().unwrap();
                let mut counter = self.counter.take().unwrap();
                let n = words.len();
                let mut i: usize = 0;
                proof {
                    assert(word_views(words@) == toks);
                    assert(toks.take(0) =~= Seq::<Seq<char>>::empty());
                    reveal(Seq::filter);
                    assert(without_stop_words(toks.take(0), stops0) =~= Seq::<
                        Seq<char>,
                    >::empty());
                    assert forall|w: Seq<char>| count_in(c0, w) + toks.len() <= u64::MAX by {
                        assert(old(self).counts(w) + old(self).data_tokens().len()
                            <= u64::MAX);
                    }
                    assert forall|v: Seq<char>|
                        #[trigger] counter.count(v) == count_in(c0, v) + occurrences(
                            without_stop_words(toks.take(0), stops0),
                            v,
                        ) by {
                        assert(counter@ == c0);
                        assert(without_stop_words(toks.take(0), stops0).filter(
                            crate::freq::matches_word(v),
                        ) =~= Seq::<Seq<char>>::empty());
                    }
                }
                while i < n
                    invariant
                        i <= n,
                        n == words@.len(),
                        word_views(words@) == toks,
                        sw@ == stops0,
                        counter.wf(),
                        forall|w: Seq<char>| count_in(c0, w) + toks.len() <= u64::MAX,
                        forall|v: Seq<char>|
                            #[trigger] counter.count(v) == count_in(c0, v) + occurrences(
                                without_stop_words(toks.take(i as int), stops0),
                                v,
                            ),
                    decreases n - i,
                {
                    let w = words[i].clone();
                    proof {
                        assert(toks[i as int] == w@);
                        assert(toks.take(i as int + 1) =~= toks.take(i as int) + seq![w@]);
                        Seq::filter_distributes_over_add(
                            toks.take(i as int),
                            seq![w@],
                            not_stop_word(stops0),
                        );
                        lemma_filter_singleton(w@, not_stop_word(stops0));
                    }
                    let is_stop = sw.dispatch(StopCmd::IsStopWord(w));
                    if !is_stop {
                        let w2 = words[i].clone();
                        proof {
                            broadcast use Seq::lemma_filter_len;

                            assert(occurrences(
                                without_stop_words(toks.take(i as int), stops0),
                                w2@,
                            ) <= without_stop_words(toks.take(i as int), stops0).len());
                            assert(without_stop_words(toks.take(i as int), stops0).len()
                                <= toks.take(i as int).len());
                            assert(counter.count(w2@) < u64::MAX);
                        }
                        let ghost cb = counter@;
                        proof {
                            assert forall|v: Seq<char>|
                                #[trigger] count_in(cb, v) == count_in(c0, v) + occurrences(
                                    without_stop_words(toks.take(i as int), stops0),
                                    v,
                                ) by {
                                assert(counter.count(v) == count_in(c0, v) + occurrences(
                                    without_stop_words(toks.take(i as int), stops0),
                                    v,
                                ));
                            }
                        }
                        let none2 = counter.dispatch(FreqCmd::Incr(w2));
                        proof {
                            assert(without_stop_words(toks.take(i as int + 1), stops0)
                                =~= without_stop_words(toks.take(i as int), stops0).push(w@));
                            assert forall|v: Seq<char>|
                                #[trigger] counter.count(v) == count_in(c0, v) + occurrences(
                                    without_stop_words(toks.take(i as int + 1), stops0),
                                    v,
                                ) by {
                                crate::freq::lemma_occurrences_split(
                                    without_stop_words(toks.take(i as int), stops0),
                                    seq![w@],
                                    v,
                                );
                                lemma_filter_singleton(w@, crate::freq::matches_word(v));
                                assert(without_stop_words(toks.take(i as int), stops0) + seq![
                                    w@,
                                ] =~= without_stop_words(toks.take(i as int + 1), stops0));
                                assert(count_in(cb, v) == count_in(c0, v) + occurrences(
                                    without_stop_words(toks.take(i as int), stops0),
                                    v,
                                ));
                            }
                        }
                    } else {
                        proof {
                            assert(without_stop_words(toks.take(i as int + 1), stops0)
                                =~= without_stop_words(toks.take(i as int), stops0));
                        }
                    }
                    i = i + 1;
                }
                proof {
                    assert(toks.take(n as int) =~= toks);
                }
                let ghost cend = counter@;
                proof {
                    assert forall|v: Seq<char>|
                        #[trigger] count_in(cend, v) == count_in(c0, v) + occurrences(
                            without_stop_words(toks, stops0),
                            v,
                        ) by {
                        assert(counter.count(v) == count_in(c0, v) + occurrences(
                            without_stop_words(toks.take(n as int), stops0),
                            v,
                        ));
                    }
                }
                let out = counter.dispatch(FreqCmd::Top(MAX_RANKED));
                self.stop_words = Some(sw);
                self.counter = Some(counter);
                proof {
                    assert(self.counter_table() == counter@);
                    assert(counter@ == cend);
                    assert(self.data_tokens() == toks);
                    assert(self.stops() == stops0);
                }
                out
            },
        }
    }
}

/// The whole letterbox run: `init` then `run`, the reply being the one
/// ranked word-frequency table of the text.
pub fn run_letterbox(text: &str, stop_text: &str) -> (out: Vec<(String, u64)>)
    ensures
        ranked_output(entry_views(out@), tokens(text@), stop_set(stop_text@)),
{
    let mut controller = WordFrequencyController::new();
    let _none = controller.dispatch(AppCmd::Init(text.to_owned(), stop_text.to_owned()));
    let out = controller.dispatch(AppCmd::Run);
    proof {
        let table = controller.counter_table();
        assert(counts_stream(table, tokens(text@), stop_set(stop_text@))) by {
            assert forall|w: Seq<char>|
                count_in(table, w) == occurrences(
                    without_stop_words(tokens(text@), stop_set(stop_text@)),
                    w,
                ) by {
                assert(controller.counts(w) == 0 + occurrences(
                    without_stop_words(tokens(text@), stop_set(stop_text@)),
                    w,
                ));
            }
        }
        assert(entry_views(out@) == rank_spec(table));
    }
    out
}

} // verus!
