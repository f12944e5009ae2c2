//! The actor pipeline: four independent units — controller, data store,
//! stop-word manager, frequency manager — each owning private state and
//! reacting to the messages in its mailbox, one at a time. Here each
//! actor's reaction is a pure step from state and message to new state and
//! outbound messages; running the actors on threads with real mailboxes is
//! left to the surrounding program, which only performs the sends.
//!
//! Message flow: `init` -> controller -> data, stop; `run` -> controller
//! -> data; data sends each stored token as `filter` to stop, then
//! `finish`; stop forwards kept words as `word` to the counter, `finish`
//! as `top`; `end` travels down the whole chain and is the counter's sole
//! terminal transition.

use vstd::prelude::*;
use crate::freq::{entry_views, FrequencyTable};
use crate::rank::{rank_spec, sort_entries, MAX_RANKED};
use crate::stop::{stop_set, StopWordSet};
use crate::text::{tokenize, tokens, word_views};
use crate::top::{counts_stream, ranked_output};

verus! {

/// A message to the controller.
pub enum CtrlMsg {
    /// The text of the input file and of the stop-word file.
    Init(String, String),
    Run,
    End,
}

/// A message to the data store.
pub enum DataMsg {
    /// The text of the input file.
    Init(String),
    Run,
    End,
}

/// A message to the stop-word manager.
pub enum StopMsg {
    /// The text of the stop-word file.
    Init(String),
    /// A token to classify.
    Filter(String),
    Finish,
    End,
}

/// A message to the frequency manager.
pub enum CounterMsg {
    /// A non-stop word to count.
    Word(String),
    /// Produce the ranked report.
    Top,
    End,
}

/// Pure orchestration: holds no business state and only forwards.
pub struct WordFrequencyController {}

impl WordFrequencyController {
    pub fn new() -> (r: WordFrequencyController) {
        WordFrequencyController {}
    }

    /// Reacts to one message: `init` hands the input text to the data
    /// store and the stop-word text to the stop-word manager; `run` and
    /// `end` go to the data store alone.
    pub fn dispatch(&self, msg: CtrlMsg) -> (out: (Vec<DataMsg>, Vec<StopMsg>))
        ensures
            match msg {
                CtrlMsg::Init(text, stop_text) => out.0@ =~= seq![DataMsg::Init(text)]
                    && out.1@ =~= seq![StopMsg::Init(stop_text)],
                CtrlMsg::Run => out.0@ =~= seq![DataMsg::Run] && out.1@ =~= Seq::<
                    StopMsg,
                >::empty(),
                CtrlMsg::End => out.0@ =~= seq![DataMsg::End] && out.1@ =~= Seq::<
                    StopMsg,
                >::empty(),
            },
    {
        match msg {
            CtrlMsg::Init(text, stop_text) => {
                let mut to_data: Vec<DataMsg> = Vec::new();
                to_data.push(DataMsg::Init(text));
                let mut to_stop: Vec<StopMsg> = Vec::new();
                to_stop.push(StopMsg::Init(stop_text));
                (to_data, to_stop)
            },
            CtrlMsg::Run => {
                let mut to_data: Vec<DataMsg> = Vec::new();
                to_data.push(DataMsg::Run);
                (to_data, Vec::new())
            },
            CtrlMsg::End => {
                let mut to_data: Vec<DataMsg> = Vec::new();
                to_data.push(DataMsg::End);
                (to_data, Vec::new())
            },
        }
    }
}

/// Stores the token list of the input text.
pub struct DataStorageManager {
    words: Vec<String>,
}

impl DataStorageManager {
    /// The stored tokens.
    pub closed spec fn view(&self) -> Seq<Seq<char>> {
        word_views(self.words@)
    }

    pub fn new() -> (r: DataStorageManager)
        ensures
            r@ =~= Seq::<Seq<char>>::empty(),
    {
        let r = DataStorageManager { words: Vec::new() };
        proof {
            assert(r@ =~= Seq::<Seq<char>>::empty());
        }
        r
    }

    /// Reacts to one message: `init` tokenizes the text and stores the
    /// tokens; `run` sends every stored token to the stop-word manager as
    /// a `filter` message followed by `finish`, emptying the store; `end`
    /// forwards `end`.
    pub fn dispatch(&mut self, msg: DataMsg) -> (out: Vec<StopMsg>)
        ensures
            match msg {
                DataMsg::Init(text) => final(self)@ == tokens(text@) && out@ =~= Seq::<
                    StopMsg,
                >::empty(),
                DataMsg::Run => {
                    &&& final(self)@ =~= Seq::<Seq<char>>::empty()
                    &&& out@.len() == old(self)@.len() + 1
                    &&& forall|i: int|
                        0 <= i < old(self)@.len() ==> ((#[trigger] out@[i]) matches StopMsg::Filter(
                            w,
                        ) && w@ == old(self)@[i])
                    &&& out@.last() == StopMsg::Finish
                },
                DataMsg::End => final(self)@ == old(self)@ && out@ =~= seq![StopMsg::End],
            },
    {
        match msg {
            DataMsg::Init(text) => {
                self.words = tokenize(text.as_str());
                Vec::new()
            },
            DataMsg::Run => {
                let mut out: Vec<StopMsg> = Vec::new();
                let n = self.words.len();
                let mut i: usize = 0;
                while i < n
                    invariant
                        i <= n,
                        n == self.words@.len(),
                        out@.len() == i,
                        forall|j: int|
                            0 <= j < i ==> ((#[trigger] out@[j]) matches StopMsg::Filter(w) && w@
                                == word_views(self.words@)[j]),
                    decreases n - i,
                {
                    let w = self.words[i].clone();
                    out.push(StopMsg::Filter(w));
                    i = i + 1;
                }
                out.push(StopMsg::Finish);
                self.words.clear();
                proof {
                    assert(self@ =~= Seq::<Seq<char>>::empty());
                }
                out
            },
            DataMsg::End => {
                let mut out: Vec<StopMsg> = Vec::new();
                out.push(StopMsg::End);
                out
            },
        }
    }
}

/// Holds the stop-word set and classifies tokens.
pub struct StopWordsManager {
    stop_words: StopWordSet,
}

impl StopWordsManager {
    /// The stop words held.
    pub closed spec fn view(&self) -> Set<Seq<char>> {
        self.stop_words@
    }

    pub fn new() -> (r: StopWordsManager)
        ensures
            r@ =~= Set::<Seq<char>>::empty(),
    {
        let r = StopWordsManager { stop_words: StopWordSet::new() };
        proof {
            assert(r@ =~= Set::<Seq<char>>::empty());
        }
        r
    }

    /// Reacts to one message: `init` loads the stop-word set; `filter`
    /// forwards the word to the counter exactly when it is not a stop
    /// word; `finish` asks the counter for the report; `end` forwards
    /// `end`.
    pub fn dispatch(&mut self, msg: StopMsg) -> (out: Vec<CounterMsg>)
        ensures
            match msg {
                StopMsg::Init(stop_text) => final(self)@ == stop_set(stop_text@) && out@ =~= Seq::<
                    CounterMsg,
                >::empty(),
                StopMsg::Filter(word) => final(self)@ == old(self)@ && out@ =~= (
                if old(self)@.contains(word@) {
                    Seq::<CounterMsg>::empty()
                } else {
                    seq![CounterMsg::Word(word)]
                }),
                StopMsg::Finish => final(self)@ == old(self)@ && out@ =~= seq![CounterMsg::Top],
                StopMsg::End => final(self)@ == old(self)@ && out@ =~= seq![CounterMsg::End],
            },
    {
        match msg {
            StopMsg::Init(stop_text) => {
                self.stop_words = StopWordSet::from_text(stop_text.as_str());
                Vec::new()
            },
            StopMsg::Filter(word) => {
                let mut out: Vec<CounterMsg> = Vec::new();
                if !self.stop_words.contains(&word) {
                    out.push(CounterMsg::Word(word));
                }
                out
            },
            StopMsg::Finish => {
                let mut out: Vec<CounterMsg> = Vec::new();
                out.push(CounterMsg::Top);
                out
            },
            StopMsg::End => {
                let mut out: Vec<CounterMsg> = Vec::new();
                out.push(CounterMsg::End);
                out
            },
        }
    }
}

/// Counts words and, on request, produces the ranked report.
pub struct WordFrequencyManager {
    counter: FrequencyTable,
}

impl WordFrequencyManager {
    /// The frequency table held.
    pub closed spec fn view(&self) -> Seq<(Seq<char>, nat)> {
        self.counter@
    }

    pub open spec fn wf(&self) -> bool {
        crate::freq::table_wf(self@)
    }

    /// The count this manager records for `w`.
    pub open spec fn count(&self, w: Seq<char>) -> nat {
        crate::freq::count_in(self@, w)
    }

    pub fn new() -> (r: WordFrequencyManager)
        ensures
            r.wf(),
            forall|w: Seq<char>| r.count(w) == 0,
            r@ =~= Seq::<(Seq<char>, nat)>::empty(),
    {
        let r = WordFrequencyManager { counter: FrequencyTable::new() };
        r
    }

    /// Reacts to one message: `word` counts one occurrence; `top` emits
    /// the ranked report of the counts so far, leaving them in place;
    /// `end` is the terminal transition and does nothing further.
    pub fn dispatch(&mut self, msg: CounterMsg) -> (report: Option<Vec<(String, u64)>>)
        requires
            old(self).wf(),
            msg matches CounterMsg::Word(w) ==> old(self).count(w@) < u64::MAX,
        ensures
            final(self).wf(),
            match msg {
                CounterMsg::Word(w) => report is None && forall|v: Seq<char>|
                    final(self).count(v) == old(self).count(v) + (if v == w@ {
                        1nat
                    } else {
                        0nat
                    }),
                CounterMsg::Top => final(self)@ == old(self)@ && (report matches Some(r)
                    && entry_views(r@) == rank_spec(old(self)@)),
                CounterMsg::End => final(self)@ == old(self)@ && report is None,
            },
    {
        match msg {
            CounterMsg::Word(w) => {
                let ghost t0 = self.counter@;
                let ghost wv = w@;
                self.counter.bump(w, 1);
                proof {
                    assert forall|v: Seq<char>|
                        #[trigger] crate::freq::count_in(self@, v) == crate::freq::count_in(
                            t0,
                            v,
                        ) + (if v == wv {
                            1nat
                        } else {
                            0nat
                        }) by {
                        assert(self.counter.count(v) == crate::freq::count_in(t0, v) + (if v
                            == wv {
                            1nat
                        } else {
                            0nat
                        }));
                    }
                }
                None
            },
            CounterMsg::Top => {
                let mut entries = self.counter.to_entries();
                sort_entries(&mut entries);
                if entries.len() > MAX_RANKED {
                    let ghost before = entry_views(entries@);
                    entries.truncate(MAX_RANKED);
                    proof {
                        assert(entry_views(entries@) =~= before.take(MAX_RANKED as int));
                    }
                }
                Some(entries)
            },
            CounterMsg::End => None,
        }
    }
}

/// Runs the whole actor pipeline for one `init` -> `run` -> `end`
/// sequence, delivering every mailbox's messages in order, and returns
/// the reports that the frequency manager emitted: exactly one, the
/// ranked word frequencies of `text`. The terminal `end` is the last
/// message in the counter's mailbox, so nothing is left unprocessed.
pub fn run_pipeline(text: &str, stop_text: &str) -> (reports: Vec<Vec<(String, u64)>>)
    ensures
        reports@.len() == 1,
        ranked_output(entry_views(reports@[0]@), tokens(text@), stop_set(stop_text@)),
{
    let ghost toks = tokens(text@);
    let ghost stops = stop_set(stop_text@);
    let controller = WordFrequencyController::new();
    let mut data = DataStorageManager::new();
    let mut stop = StopWordsManager::new();
    let mut counter = WordFrequencyManager::new();
    let mut reports: Vec<Vec<(String, u64)>> = Vec::new();

    // `init`: the controller hands the texts down; data tokenizes, the
    // stop-word manager loads its set
    let (mut d1, mut s1) = controller.dispatch(
        CtrlMsg::Init(text.to_owned(), stop_text.to_owned()),
    );
    let m_init_data = d1.remove(0);
    let _none1 = data.dispatch(m_init_data);
    let m_init_stop = s1.remove(0);
    let _none2 = stop.dispatch(m_init_stop);
    proof {
        assert(data@ == toks);
        assert(stop@ == stops);
    }

    // `run`: data sends every token to the stop-word manager, then a
    // `finish` sentinel
    let (mut d2, _s2) = controller.dispatch(CtrlMsg::Run);
    let m_run = d2.remove(0);
    let mut filters = data.dispatch(m_run);
    let ghost total = filters@;
    proof {
        assert(total.len() == toks.len() + 1);
        assert(forall|i: int|
            0 <= i < toks.len() ==> ((#[trigger] total[i]) matches StopMsg::Filter(w) && w@
                == toks[i]));
        assert(total.last() == StopMsg::Finish);
    }

    // the stop-word manager drains its mailbox in order
    let ghost kept = crate::freq::without_stop_words(toks, stops);
    let mut words: Vec<CounterMsg> = Vec::new();
    proof {
        assert(crate::freq::without_stop_words(toks.take(0), stops) =~= Seq::<Seq<char>>::empty())
            by {
            assert(toks.take(0) =~= Seq::<Seq<char>>::empty());
            reveal(Seq::filter);
        }
    }
    while filters.len() > 0
        invariant
            stop@ == stops,
            toks == tokens(text@),
            kept == crate::freq::without_stop_words(toks, stops),
            total.len() == toks.len() + 1,
            forall|i: int|
                0 <= i < toks.len() ==> ((#[trigger] total[i]) matches StopMsg::Filter(w) && w@
                    == toks[i]),
            total.last() == StopMsg::Finish,
            filters@.len() <= total.len(),
            filters@ == total.skip(total.len() - filters@.len()),
            ({
                let p = total.len() - filters@.len();
                if p <= toks.len() {
                    let kp = crate::freq::without_stop_words(toks.take(p), stops);
                    words@.len() == kp.len() && forall|j: int|
                        0 <= j < kp.len() ==> ((#[trigger] words@[j]) matches CounterMsg::Word(w)
                            && w@ == kp[j])
                } else {
                    words@.len() == kept.len() + 1 && words@.last() == CounterMsg::Top && forall|
                        j: int,
                    |
                        0 <= j < kept.len() ==> ((#[trigger] words@[j]) matches CounterMsg::Word(w)
                            && w@ == kept[j])
                }
            }),
        decreases filters@.len(),
    {
        let ghost p = total.len() - filters@.len();
        let m = filters.remove(0);
        proof {
            assert(m == total[p]);
            assert(filters@ =~= total.skip(p + 1));
        }
        let mut out = stop.dispatch(m);
        proof {
            if p < toks.len() {
                let kp = crate::freq::without_stop_words(toks.take(p), stops);
                let kp1 = crate::freq::without_stop_words(toks.take(p + 1), stops);
                assert(toks.take(p + 1) =~= toks.take(p) + seq![toks[p]]);
                Seq::filter_distributes_over_add(
                    toks.take(p),
                    seq![toks[p]],
                    crate::freq::not_stop_word(stops),
                );
                crate::freq::lemma_filter_singleton(
                    toks[p],
                    crate::freq::not_stop_word(stops),
                );
                if stops.contains(toks[p]) {
                    assert(kp1 =~= kp);
                } else {
                    assert(kp1 =~= kp.push(toks[p]));
                }
            } else {
                assert(total[p] == StopMsg::Finish);
            }
        }
        let ghost wbefore = words@;
        words.append(&mut out);
        proof {
            if p < toks.len() {
                let kp = crate::freq::without_stop_words(toks.take(p), stops);
                let kp1 = crate::freq::without_stop_words(toks.take(p + 1), stops);
                assert forall|j: int|
                    0 <= j < kp1.len() implies ((#[trigger] words@[j]) matches CounterMsg::Word(w)
                    && w@ == kp1[j]) by {
                    if j < kp.len() {
                        assert(words@[j] == wbefore[j]);
                    }
                }
            } else {
                assert(words@ =~= wbefore.push(CounterMsg::Top));
                if p == toks.len() {
                    assert(toks.take(p) =~= toks);
                }
            }
        }
    }
    proof {
        assert(total.len() - filters@.len() == total.len());
        assert(words@.len() == kept.len() + 1);
    }

    // `end` travels down the chain and closes every mailbox
    let (mut d3, _s3) = controller.dispatch(CtrlMsg::End);
    let m_end_data = d3.remove(0);
    let mut e1 = data.dispatch(m_end_data);
    let m_end_stop = e1.remove(0);
    let mut e2 = stop.dispatch(m_end_stop);
    let m_end_counter = e2.remove(0);
    words.push(m_end_counter);

    // the counter drains its mailbox: the kept words, then `top`, then
    // the terminal `end` — the last message there is
    let qn = words.len();
    let ghost cq = words@;
    proof {
        assert(cq.len() == qn);
        assert(cq.len() == kept.len() + 2);
        assert(cq.last() == CounterMsg::End);
        assert(cq[kept.len() as int] == CounterMsg::Top);
        assert(cq.len() <= usize::MAX);
        assert(kept.take(0) =~= Seq::<Seq<char>>::empty());
        reveal(Seq::filter);
        assert forall|v: Seq<char>|
            #[trigger] counter.count(v) == crate::freq::occurrences(kept.take(0), v) by {
            assert(Seq::<Seq<char>>::empty().filter(crate::freq::matches_word(v)) =~= Seq::<
                Seq<char>,
            >::empty());
        }
    }
    let ghost mut t_report: Seq<(Seq<char>, nat)> = Seq::empty();
    while words.len() > 0
        invariant
            counter.wf(),
            kept == crate::freq::without_stop_words(toks, stops),
            cq.len() == kept.len() + 2,
            forall|j: int|
                0 <= j < kept.len() ==> ((#[trigger] cq[j]) matches CounterMsg::Word(w) && w@
                    == kept[j]),
            cq[kept.len() as int] == CounterMsg::Top,
            cq.last() == CounterMsg::End,
            words@.len() <= cq.len(),
            cq.len() <= usize::MAX,
            words@ == cq.skip(cq.len() - words@.len()),
            ({
                let p = cq.len() - words@.len();
                &&& forall|v: Seq<char>|
                    #[trigger] counter.count(v) == crate::freq::occurrences(
                        kept.take(if p <= kept.len() {
                            p
                        } else {
                            kept.len() as int
                        }),
                        v,
                    )
                &&& (p <= kept.len() ==> reports@.len() == 0)
                &&& (p > kept.len() ==> reports@.len() == 1 && entry_views(reports@[0]@)
                    == rank_spec(t_report) && counts_stream(t_report, toks, stops))
            }),
        decreases words@.len(),
    {
        let ghost p = cq.len() - words@.len();
        let m = words.remove(0);
        let ghost c0 = counter@;
        proof {
            assert(m == cq[p]);
            assert(words@ =~= cq.skip(p + 1));
            let gtake: int = if p <= kept.len() {
                p
            } else {
                kept.len() as int
            };
            // carry the counts over into a snapshot of the table
            assert forall|v: Seq<char>|
                #[trigger] crate::freq::count_in(c0, v) == crate::freq::occurrences(
                    kept.take(gtake),
                    v,
                ) by {
                assert(counter.count(v) == crate::freq::occurrences(kept.take(gtake), v));
            }
            if p < kept.len() {
                // the next word's count so far is below the limit
                let kp = kept.take(p);
                assert(cq[p] matches CounterMsg::Word(w) && w@ == kept[p]);
                broadcast use Seq::lemma_filter_len;

                assert(crate::freq::count_in(c0, kept[p]) == crate::freq::occurrences(
                    kp,
                    kept[p],
                ));
                assert(crate::freq::occurrences(kp, kept[p]) <= kp.len());
                assert(counter.count(kept[p]) == crate::freq::count_in(c0, kept[p]));
                assert(counter.count(kept[p]) < u64::MAX);
            }
        }
        let r = counter.dispatch(m);
        proof {
            if p < kept.len() {
                assert(r is None);
                let kp = kept.take(p);
                let kp1 = kept.take(p + 1);
                assert(kp1 =~= kp + seq![kept[p]]);
                assert forall|v: Seq<char>|
                    #[trigger] counter.count(v) == crate::freq::occurrences(kp1, v) by {
                    assert(crate::freq::count_in(c0, v) == crate::freq::occurrences(kp, v));
                    crate::freq::lemma_occurrences_split(kp, seq![kept[p]], v);
                    crate::freq::lemma_filter_singleton(
                        kept[p],
                        crate::freq::matches_word(v),
                    );
                }
            } else if p == kept.len() {
                assert(cq[p] == CounterMsg::Top);
                assert(kept.take(p) =~= kept);
                t_report = c0;
                assert(counter@ == c0);
                assert forall|v: Seq<char>|
                    crate::freq::count_in(t_report, v) == crate::freq::occurrences(
                        crate::freq::without_stop_words(toks, stops),
                        v,
                    ) by {
                    assert(crate::freq::count_in(c0, v) == crate::freq::occurrences(
                        kept.take(p),
                        v,
                    ));
                }
                assert(counts_stream(t_report, toks, stops));
                assert forall|v: Seq<char>|
                    #[trigger] counter.count(v) == crate::freq::occurrences(
                        kept.take(kept.len() as int),
                        v,
                    ) by {
                    assert(crate::freq::count_in(c0, v) == crate::freq::occurrences(
                        kept.take(p),
                        v,
                    ));
                }
            } else {
                assert(cq[p] == CounterMsg::End);
                assert(r is None);
                assert(counter@ == c0);
                assert forall|v: Seq<char>|
                    #[trigger] counter.count(v) == crate::freq::occurrences(
                        kept.take(kept.len() as int),
                        v,
                    ) by {
                    assert(crate::freq::count_in(c0, v) == crate::freq::occurrences(
                        kept.take(kept.len() as int),
                        v,
                    ));
                }
            }
        }
        if let Some(rep) = r {
            reports.push(rep);
        }
    }
    proof {
        assert(reports@.len() == 1);
        assert(counts_stream(t_report, toks, stops) && entry_views(reports@[0]@) == rank_spec(
            t_report,
        ));
        assert(ranked_output(entry_views(reports@[0]@), toks, stops));
    }
    reports
}

} // verus!
