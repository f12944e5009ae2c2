//! The bulletin-board style: entities never call each other directly;
//! they subscribe to event kinds on a manager and publish events to it.
//! Here the manager keeps the subscription list and answers, for an
//! event, who receives it and in what order; each entity's `handle`
//! reacts to one event and returns the events it publishes in turn. The
//! driver delivers every event to its subscribers in subscription order.

use vstd::prelude::*;
use crate::freq::{
    count_in, entry_views, lemma_filter_singleton, not_stop_word, occurrences, table_wf,
    without_stop_words, FrequencyTable,
};
use crate::rank::{rank_spec, sort_entries, MAX_RANKED};
use crate::stop::{stop_set, StopWordSet};
use crate::text::{tokenize, tokens, word_views};
use crate::top::{counts_stream, ranked_output};

verus! {

/// The kinds of events on the board.
#[derive(Clone, Copy, PartialEq, Eq, Structural)]
pub enum EventKind {
    Run,
    Load,
    Start,
    Word,
    ValidWord,
    Eof,
    Print,
}

/// An event, with its payload. An event concerning a file carries the
/// file's text, not a path: reading is the surrounding program's affair.
pub enum Event {
    /// Run the whole computation on these texts.
    Run { text: String, stop_text: String },
    /// Load the input and the stop words.
    Load { text: String, stop_text: String },
    /// Start feeding the stored words.
    Start,
    /// A token to classify.
    Word(String),
    /// A token that passed the stop-word filter.
    ValidWord(String),
    /// All words have been fed.
    Eof,
    /// Produce the reports.
    Print,
}

impl Event {
    /// The kind of this event.
    pub open spec fn kind_spec(&self) -> EventKind {
        match self {
            Event::Run { .. } => EventKind::Run,
            Event::Load { .. } => EventKind::Load,
            Event::Start => EventKind::Start,
            Event::Word(_) => EventKind::Word,
            Event::ValidWord(_) => EventKind::ValidWord,
            Event::Eof => EventKind::Eof,
            Event::Print => EventKind::Print,
        }
    }

    pub fn kind(&self) -> (k: EventKind)
        ensures
            k == self.kind_spec(),
    {
        match self {
            Event::Run { .. } => EventKind::Run,
            Event::Load { .. } => EventKind::Load,
            Event::Start => EventKind::Start,
            Event::Word(_) => EventKind::Word,
            Event::ValidWord(_) => EventKind::ValidWord,
            Event::Eof => EventKind::Eof,
            Event::Print => EventKind::Print,
        }
    }

    /// An equal event: the payloads are copied.
    pub fn duplicate(&self) -> (r: Event)
        ensures
            r == *self,
    {
        match self {
            Event::Run { text, stop_text } => Event::Run {
                text: text.clone(),
                stop_text: stop_text.clone(),
            },
            Event::Load { text, stop_text } => Event::Load {
                text: text.clone(),
                stop_text: stop_text.clone(),
            },
            Event::Start => Event::Start,
            Event::Word(w) => Event::Word(w.clone()),
            Event::ValidWord(w) => Event::ValidWord(w.clone()),
            Event::Eof => Event::Eof,
            Event::Print => Event::Print,
        }
    }
}

/// The handlers that can stand on the board.
#[derive(Clone, Copy, PartialEq, Eq, Structural)]
pub enum HandlerId {
    Application,
    DataStorage,
    StopWordsFilter,
    WordCounter,
    ZWordHolic,
}

/// The subscribers registered for kind `k`, in subscription order.
pub open spec fn subscribers(hs: Seq<(EventKind, HandlerId)>, k: EventKind) -> Seq<HandlerId>
    decreases hs.len(),
{
    if hs.len() == 0 {
        Seq::empty()
    } else {
        (if hs[0].0 == k {
            seq![hs[0].1]
        } else {
            Seq::empty()
        }) + subscribers(hs.drop_first(), k)
    }
}

pub proof fn lemma_subscribers_concat(
    a: Seq<(EventKind, HandlerId)>,
    b: Seq<(EventKind, HandlerId)>,
    k: EventKind,
)
    ensures
        subscribers(a + b, k) == subscribers(a, k) + subscribers(b, k),
    decreases a.len(),
{
    if a.len() == 0 {
        assert(a + b =~= b);
        assert(subscribers(a, k) + subscribers(b, k) =~= subscribers(b, k));
    } else {
        assert((a + b).drop_first() =~= a.drop_first() + b);
        lemma_subscribers_concat(a.drop_first(), b, k);
        assert((if a[0].0 == k {
            seq![a[0].1]
        } else {
            Seq::<HandlerId>::empty()
        }) + (subscribers(a.drop_first(), k) + subscribers(b, k)) =~= ((if a[0].0 == k {
            seq![a[0].1]
        } else {
            Seq::<HandlerId>::empty()
        }) + subscribers(a.drop_first(), k)) + subscribers(b, k));
    }
}

/// The bulletin board: keeps who wants what, and distributes.
pub struct EventManager {
    handlers: Vec<(EventKind, HandlerId)>,
}

impl EventManager {
    /// The subscription list, in order.
    pub closed spec fn view(&self) -> Seq<(EventKind, HandlerId)> {
        self.handlers@
    }

    pub fn new() -> (r: EventManager)
        ensures
            r@ =~= Seq::<(EventKind, HandlerId)>::empty(),
    {
        EventManager { handlers: Vec::new() }
    }

    /// Registers a handler for a kind of event.
    pub fn subscribe(&mut self, event_kind: EventKind, handler: HandlerId)
        ensures
            final(self)@ == old(self)@.push((event_kind, handler)),
    {
        self.handlers.push((event_kind, handler));
    }

    /// Who receives `event`, in subscription order.
    pub fn publish(&self, event: &Event) -> (out: Vec<HandlerId>)
        ensures
            out@ == subscribers(self@, event.kind_spec()),
    {
        let k = event.kind();
        let mut out: Vec<HandlerId> = Vec::new();
        let n = self.handlers.len();
        let mut i: usize = 0;
        proof {
            assert(self@.take(0) =~= Seq::<(EventKind, HandlerId)>::empty());
            assert(out@ =~= subscribers(self@.take(0), k));
        }
        while i < n
            invariant
                i <= n,
                n == self@.len(),
                k == event.kind_spec(),
                out@ == subscribers(self@.take(i as int), k),
            decreases n - i,
        {
            proof {
                assert(self@.take(i as int + 1) =~= self@.take(i as int) + seq![
                    self@[i as int],
                ]);
                lemma_subscribers_concat(self@.take(i as int), seq![self@[i as int]], k);
                assert(seq![self@[i as int]].drop_first() =~= Seq::<(
                    EventKind,
                    HandlerId,
                )>::empty());
                assert(subscribers(Seq::<(EventKind, HandlerId)>::empty(), k) =~= Seq::<
                    HandlerId,
                >::empty());
                assert((if self@[i as int].0 == k {
                    seq![self@[i as int].1]
                } else {
                    Seq::<HandlerId>::empty()
                }) + Seq::<HandlerId>::empty() =~= (if self@[i as int].0 == k {
                    seq![self@[i as int].1]
                } else {
                    Seq::<HandlerId>::empty()
                }));
                assert(subscribers(seq![self@[i as int]], k) =~= (if self@[i as int].0 == k {
                    seq![self@[i as int].1]
                } else {
                    Seq::<HandlerId>::empty()
                }));
            }
            if self.handlers[i].0 == k {
                out.push(self.handlers[i].1);
                proof {
                    assert(out@ =~= subscribers(self@.take(i as int), k).push(
                        self@[i as int].1,
                    ));
                    assert(subscribers(self@.take(i as int), k) + seq![self@[i as int].1]
                        =~= out@);
                }
            } else {
                proof {
                    assert(subscribers(self@.take(i as int), k) + Seq::<HandlerId>::empty()
                        =~= subscribers(self@.take(i as int), k));
                }
            }
            i = i + 1;
        }
        proof {
            assert(self@.take(n as int) =~= self@);
        }
        out
    }
}

/// Pure orchestration: on `run` it asks for the load and the start, on
/// end-of-feed it asks for the reports.
pub struct Application {}

impl Application {
    pub fn new(manager: &mut EventManager) -> (r: Application)
        ensures
            final(manager)@ == old(manager)@.push((EventKind::Run, HandlerId::Application)).push(
                (EventKind::Eof, HandlerId::Application),
            ),
    {
        manager.subscribe(EventKind::Run, HandlerId::Application);
        manager.subscribe(EventKind::Eof, HandlerId::Application);
        Application {}
    }

    /// Reacts to one event and returns what it publishes in turn.
    pub fn handle(&self, event: Event) -> (out: Vec<Event>)
        requires
            event.kind_spec() == EventKind::Run || event.kind_spec() == EventKind::Eof,
        ensures
            match event {
                Event::Run { text, stop_text } => out@ =~= seq![
                    Event::Load { text, stop_text },
                    Event::Start,
                ],
                Event::Eof => out@ =~= seq![Event::Print],
                _ => false,
            },
    {
        let mut out: Vec<Event> = Vec::new();
        match event {
            Event::Run { text, stop_text } => {
                out.push(Event::Load { text, stop_text });
                out.push(Event::Start);
            },
            _ => {
                out.push(Event::Print);
            },
        }
        out
    }
}

/// Stores the tokens and, on `start`, publishes each as a `word` event.
pub struct DataStorage {
    words: Vec<String>,
}

impl DataStorage {
    /// The stored tokens.
    pub closed spec fn view(&self) -> Seq<Seq<char>> {
        word_views(self.words@)
    }

    pub fn new(manager: &mut EventManager) -> (r: DataStorage)
        ensures
            final(manager)@ == old(manager)@.push((EventKind::Load, HandlerId::DataStorage)).push(
                (EventKind::Start, HandlerId::DataStorage),
            ),
            r@ =~= Seq::<Seq<char>>::empty(),
    {
        manager.subscribe(EventKind::Load, HandlerId::DataStorage);
        manager.subscribe(EventKind::Start, HandlerId::DataStorage);
        let r = DataStorage { words: Vec::new() };
        proof {
            assert(r@ =~= Seq::<Seq<char>>::empty());
        }
        r
    }

    /// Reacts to one event: `load` tokenizes and stores, `start` publishes
    /// one `word` event per stored token and then end-of-feed.
    pub fn handle(&mut self, event: Event) -> (out: Vec<Event>)
        requires
            event.kind_spec() == EventKind::Load || event.kind_spec() == EventKind::Start,
        ensures
            match event {
                Event::Load { text, stop_text } => final(self)@ == tokens(text@) && out@ =~= Seq::<
                    Event,
                >::empty(),
                Event::Start => {
                    &&& final(self)@ == old(self)@
                    &&& out@.len() == old(self)@.len() + 1
                    &&& forall|i: int|
                        0 <= i < old(self)@.len() ==> ((#[trigger] out@[i]) matches Event::Word(w)
                            && w@ == old(self)@[i])
                    &&& out@.last() == Event::Eof
                },
                _ => false,
            },
    {
        match event {
            Event::Load { text, stop_text } => {
                self.words = tokenize(text.as_str());
                Vec::new()
            },
            _ => {
                let mut out: Vec<Event> = Vec::new();
                let n = self.words.len();
                let mut i: usize = 0;
                while i < n
                    invariant
                        i <= n,
                        n == self.words@.len(),
                        out@.len() == i,
                        forall|j: int|
                            0 <= j < i ==> ((#[trigger] out@[j]) matches Event::Word(w) && w@
                                == word_views(self.words@)[j]),
                    decreases n - i,
                {
                    let w = self.words[i].clone();
                    out.push(Event::Word(w));
                    i = i + 1;
                }
                out.push(Event::Eof);
                out
            },
        }
    }
}

/// Holds the stop-word set and forwards only the words outside it.
pub struct StopWordsFilter {
    stop_words: StopWordSet,
}

impl StopWordsFilter {
    /// The stop words held.
    pub closed spec fn view(&self) -> Set<Seq<char>> {
        self.stop_words@
    }

    pub fn new(manager: &mut EventManager) -> (r: StopWordsFilter)
        ensures
            final(manager)@ == old(manager)@.push(
                (EventKind::Load, HandlerId::StopWordsFilter),
            ).push((EventKind::Word, HandlerId::StopWordsFilter)),
            r@ =~= Set::<Seq<char>>::empty(),
    {
        manager.subscribe(EventKind::Load, HandlerId::StopWordsFilter);
        manager.subscribe(EventKind::Word, HandlerId::StopWordsFilter);
        let r = StopWordsFilter { stop_words: StopWordSet::new() };
        proof {
            assert(r@ =~= Set::<Seq<char>>::empty());
        }
        r
    }

    /// Reacts to one event: `load` fills the set, a `word` is forwarded as
    /// `valid word` exactly when it is not a stop word.
    pub fn handle(&mut self, event: Event) -> (out: Vec<Event>)
        requires
            event.kind_spec() == EventKind::Load || event.kind_spec() == EventKind::Word,
        ensures
            match event {
                Event::Load { text, stop_text } => final(self)@ == stop_set(stop_text@) && out@
                    =~= Seq::<Event>::empty(),
                Event::Word(w) => final(self)@ == old(self)@ && out@ =~= (if old(self)@.contains(
                    w@,
                ) {
                    Seq::<Event>::empty()
                } else {
                    seq![Event::ValidWord(w)]
                }),
                _ => false,
            },
    {
        match event {
            Event::Load { text, stop_text } => {
                self.stop_words = StopWordSet::from_text(stop_text.as_str());
                Vec::new()
            },
            Event::Word(w) => {
                let mut out: Vec<Event> = Vec::new();
                if !self.stop_words.contains(&w) {
                    out.push(Event::ValidWord(w));
                }
                out
            },
            _ => Vec::new(),
        }
    }
}

/// Counts the valid words and, on `print`, keeps the ranked result.
pub struct WordCounter {
    counter: FrequencyTable,
    ranking: Option<Vec<(String, u64)>>,
}

impl WordCounter {
    /// The frequency table held.
    pub closed spec fn view(&self) -> Seq<(Seq<char>, nat)> {
        self.counter@
    }

    pub open spec fn wf(&self) -> bool {
        table_wf(self@)
    }

    pub open spec fn count(&self, w: Seq<char>) -> nat {
        count_in(self@, w)
    }

    /// The ranked result the counter produced on `print`, if any yet.
    pub closed spec fn ranking_spec(&self) -> Option<Seq<(Seq<char>, nat)>> {
        match self.ranking {
            Option::Some(r) => Option::Some(entry_views(r@)),
            Option::None => Option::None,
        }
    }

    /// Gives up the produced ranking.
    pub fn take_ranking(&mut self) -> (r: Option<Vec<(String, u64)>>)
        ensures
            match r {
                Option::Some(v) => old(self).ranking_spec() == Option::Some(entry_views(v@)),
                Option::None => old(self).ranking_spec() is None,
            },
            final(self)@ == old(self)@,
            final(self).ranking_spec() is None,
    {
        self.ranking.take()
    }

    pub fn new(manager: &mut EventManager) -> (r: WordCounter)
        ensures
            final(manager)@ == old(manager)@.push(
                (EventKind::ValidWord, HandlerId::WordCounter),
            ).push((EventKind::Print, HandlerId::WordCounter)),
            r.wf(),
            forall|w: Seq<char>| r.count(w) == 0,
            r@ =~= Seq::<(Seq<char>, nat)>::empty(),
            r.ranking_spec() is None,
    {
        manager.subscribe(EventKind::ValidWord, HandlerId::WordCounter);
        manager.subscribe(EventKind::Print, HandlerId::WordCounter);
        WordCounter { counter: FrequencyTable::new(), ranking: None }
    }

    /// Reacts to one event: a `valid word` is counted; `print` ranks the
    /// counts and keeps the result.
    pub fn handle(&mut self, event: Event) -> (out: Vec<Event>)
        requires
            old(self).wf(),
            event.kind_spec() == EventKind::ValidWord || event.kind_spec() == EventKind::Print,
            event matches Event::ValidWord(w) ==> old(self).count(w@) < u64::MAX,
        ensures
            final(self).wf(),
            out@ =~= Seq::<Event>::empty(),
            match event {
                Event::ValidWord(w) => final(self).ranking_spec() == old(self).ranking_spec()
                    && forall|v: Seq<char>|
                    final(self).count(v) == old(self).count(v) + (if v == w@ {
                        1nat
                    } else {
                        0nat
                    }),
                Event::Print => final(self)@ == old(self)@ && final(self).ranking_spec()
                    == Option::Some(rank_spec(old(self)@)),
                _ => false,
            },
    {
        match event {
            Event::ValidWord(w) => {
                let ghost t0 = self.counter@;
                let ghost wv = w@;
                self.counter.bump(w, 1);
                proof {
                    assert forall|v: Seq<char>|
                        #[trigger] count_in(self@, v) == count_in(t0, v) + (if v == wv {
                            1nat
                        } else {
                            0nat
                        }) by {
                        assert(self.counter.count(v) == count_in(t0, v) + (if v == wv {
                            1nat
                        } else {
                            0nat
                        }));
                    }
                }
                Vec::new()
            },
            _ => {
                let mut entries = self.counter.to_entries();
                sort_entries(&mut entries);
                if entries.len() > MAX_RANKED {
                    let ghost before = entry_views(entries@);
                    entries.truncate(MAX_RANKED);
                    proof {
                        assert(entry_views(entries@) =~= before.take(MAX_RANKED as int));
                    }
                }
                self.ranking = Some(entries);
                Vec::new()
            },
        }
    }
}

/// Whether a word holds the letter z.
pub open spec fn has_z(w: Seq<char>) -> bool {
    w.contains('z')
}

/// The predicate form, for filtering.
pub open spec fn has_z_pred() -> spec_fn(Seq<char>) -> bool {
    |w: Seq<char>| has_z(w)
}

/// Counts how many valid words hold the letter z, and announces the count
/// on `print`.
pub struct ZWordHolic {
    zwords_count: u64,
    announced: Option<u64>,
}

impl ZWordHolic {
    /// How many z-words have been seen.
    pub closed spec fn view(&self) -> nat {
        self.zwords_count as nat
    }

    /// The announced count, if `print` has come.
    pub closed spec fn announced_spec(&self) -> Option<nat> {
        match self.announced {
            Option::Some(c) => Option::Some(c as nat),
            Option::None => Option::None,
        }
    }

    /// The announced count.
    pub fn announced(&self) -> (r: Option<u64>)
        ensures
            match r {
                Option::Some(c) => self.announced_spec() == Option::Some(c as nat),
                Option::None => self.announced_spec() is None,
            },
    {
        match self.announced {
            Option::Some(c) => Option::Some(c),
            Option::None => Option::None,
        }
    }

    pub fn new(manager: &mut EventManager) -> (r: ZWordHolic)
        ensures
            final(manager)@ == old(manager)@.push(
                (EventKind::ValidWord, HandlerId::ZWordHolic),
            ).push((EventKind::Print, HandlerId::ZWordHolic)),
            r@ == 0,
            r.announced_spec() is None,
    {
        manager.subscribe(EventKind::ValidWord, HandlerId::ZWordHolic);
        manager.subscribe(EventKind::Print, HandlerId::ZWordHolic);
        ZWordHolic { zwords_count: 0, announced: None }
    }

    /// Reacts to one event: a `valid word` holding a z is counted;
    /// `print` announces the count.
    pub fn handle(&mut self, event: Event) -> (out: Vec<Event>)
        requires
            event.kind_spec() == EventKind::ValidWord || event.kind_spec() == EventKind::Print,
            old(self)@ < u64::MAX,
        ensures
            out@ =~= Seq::<Event>::empty(),
            match event {
                Event::ValidWord(w) => final(self).announced_spec() == old(self).announced_spec()
                    && final(self)@ == old(self)@ + (if has_z(w@) {
                    1nat
                } else {
                    0nat
                }),
                Event::Print => final(self)@ == old(self)@ && final(self).announced_spec()
                    == Option::Some(old(self)@),
                _ => false,
            },
    {
        match event {
            Event::ValidWord(w) => {
                let mut found = false;
                let n = w.as_str().unicode_len();
                let mut i: usize = 0;
                while i < n
                    invariant
                        i <= n,
                        n == w@.len(),
                        found == exists|k: int| 0 <= k < i && w@[k] == 'z',
                    decreases n - i,
                {
                    let c = w.as_str().get_char(i);
                    if c == 'z' {
                        found = true;
                    }
                    i = i + 1;
                }
                proof {
                    if found {
                        assert(has_z(w@)) by {
                            let k = choose|k: int| 0 <= k < n && w@[k] == 'z';
                            assert(w@[k] == 'z');
                        }
                    } else {
                        assert(!has_z(w@)) by {
                            if has_z(w@) {
                                let k = choose|k: int| 0 <= k < w@.len() && w@[k] == 'z';
                                assert(false);
                            }
                        }
                    }
                }
                if found {
                    self.zwords_count = self.zwords_count + 1;
                }
                Vec::new()
            },
            _ => {
                self.announced = Some(self.zwords_count);
                Vec::new()
            },
        }
    }
}

/// Runs the board for one `run` event: wires the five entities exactly
/// as subscriptions record, delivers every published event to its
/// subscribers in subscription order, and returns the ranked report
/// together with the announced count of z-words.
pub fn run_events(text: &str, stop_text: &str) -> (r: (Vec<(String, u64)>, u64))
    ensures
        ranked_output(entry_views(r.0@), tokens(text@), stop_set(stop_text@)),
        r.1 as nat == without_stop_words(tokens(text@), stop_set(stop_text@)).filter(
            has_z_pred(),
        ).len(),
{
    let ghost toks = tokens(text@);
    let ghost stops_spec = stop_set(stop_text@);
    let mut manager = EventManager::new();
    let mut storage = DataStorage::new(&mut manager);
    let app = Application::new(&mut manager);
    let mut filter = StopWordsFilter::new(&mut manager);
    let mut counter = WordCounter::new(&mut manager);
    let mut zholic = ZWordHolic::new(&mut manager);

    // `run` reaches the application, which publishes `load` and `start`
    let run_ev = Event::Run { text: text.to_owned(), stop_text: stop_text.to_owned() };
    let mut cascade = app.handle(run_ev);
    let load_ev = cascade.remove(0);
    let start_ev = cascade.remove(0);
    // `load` reaches the storage and then the filter
    let load_ev2 = load_ev.duplicate();
    let _none1 = storage.handle(load_ev);
    let _none2 = filter.handle(load_ev2);
    proof {
        assert(storage@ == toks);
        assert(filter@ == stops_spec);
    }

    // `start` reaches the storage, which publishes one `word` per token
    let mut word_evs = storage.handle(start_ev);
    let wn = word_evs.len();
    let ghost we = word_evs@;
    let ghost kept = without_stop_words(toks, stops_spec);
    proof {
        assert(we.len() == wn);
        assert(we.len() == toks.len() + 1);
        assert(toks.take(0) =~= Seq::<Seq<char>>::empty());
        reveal(Seq::filter);
        assert(without_stop_words(toks.take(0), stops_spec) =~= Seq::<Seq<char>>::empty());
        assert(without_stop_words(toks.take(0), stops_spec).filter(has_z_pred()) =~= Seq::<
            Seq<char>,
        >::empty());
        assert forall|v: Seq<char>|
            #[trigger] counter.count(v) == occurrences(
                without_stop_words(toks.take(0), stops_spec),
                v,
            ) by {
            assert(without_stop_words(toks.take(0), stops_spec).filter(
                crate::freq::matches_word(v),
            ) =~= Seq::<Seq<char>>::empty());
        }
    }
    while word_evs.len() > 1
        invariant
            1 <= word_evs@.len() <= we.len(),
            we.len() == toks.len() + 1,
            we.len() <= usize::MAX,
            forall|j: int|
                0 <= j < toks.len() ==> ((#[trigger] we[j]) matches Event::Word(w) && w@
                    == toks[j]),
            we.last() == Event::Eof,
            word_evs@ == we.skip(we.len() - word_evs@.len()),
            filter@ == stops_spec,
            counter.wf(),
            counter.ranking_spec() is None,
            zholic.announced_spec() is None,
            kept == without_stop_words(toks, stops_spec),
            ({
                let p = we.len() - word_evs@.len();
                &&& forall|v: Seq<char>|
                    #[trigger] counter.count(v) == occurrences(
                        without_stop_words(toks.take(p), stops_spec),
                        v,
                    )
                &&& zholic@ == without_stop_words(toks.take(p), stops_spec).filter(
                    has_z_pred(),
                ).len()
                &&& zholic@ <= p
            }),
        decreases word_evs@.len(),
    {
        let ghost p = we.len() - word_evs@.len();
        let m = word_evs.remove(0);
        proof {
            assert(m == we[p]);
            assert(word_evs@ =~= we.skip(p + 1));
            assert(m matches Event::Word(w) && w@ == toks[p]);
            assert(toks.take(p + 1) =~= toks.take(p) + seq![toks[p]]);
            Seq::filter_distributes_over_add(
                toks.take(p),
                seq![toks[p]],
                not_stop_word(stops_spec),
            );
            lemma_filter_singleton(toks[p], not_stop_word(stops_spec));
        }
        let mut outs = filter.handle(m);
        if outs.len() > 0 {
            let ghost w = toks[p];
            let ghost kp = without_stop_words(toks.take(p), stops_spec);
            let ghost kp1 = without_stop_words(toks.take(p + 1), stops_spec);
            proof {
                assert(kp1 =~= kp.push(w));
                broadcast use Seq::lemma_filter_len;

                assert(occurrences(kp, w) <= kp.len());
                assert(counter.count(w) == occurrences(kp, w));
                assert(counter.count(w) < u64::MAX);
                assert(zholic@ < u64::MAX);
            }
            let v1 = outs.remove(0);
            let v2 = v1.duplicate();
            let ghost c0 = counter@;
            proof {
                assert forall|v: Seq<char>|
                    #[trigger] count_in(c0, v) == occurrences(kp, v) by {
                    assert(counter.count(v) == occurrences(kp, v));
                }
            }
            let _none3 = counter.handle(v1);
            let _none4 = zholic.handle(v2);
            proof {
                assert forall|v: Seq<char>|
                    #[trigger] counter.count(v) == occurrences(kp1, v) by {
                    crate::freq::lemma_occurrences_split(kp, seq![w], v);
                    lemma_filter_singleton(w, crate::freq::matches_word(v));
                    assert(kp + seq![w] =~= kp1);
                }
                Seq::filter_distributes_over_add(kp, seq![w], has_z_pred());
                lemma_filter_singleton(w, has_z_pred());
                assert(kp1.filter(has_z_pred()).len() == kp.filter(has_z_pred()).len() + (
                if has_z(w) {
                    1int
                } else {
                    0int
                }));
            }
        } else {
            proof {
                assert(without_stop_words(toks.take(p + 1), stops_spec) =~= without_stop_words(
                    toks.take(p),
                    stops_spec,
                ));
            }
        }
    }
    proof {
        assert(we.len() - word_evs@.len() == toks.len());
        assert(toks.take(toks.len() as int) =~= toks);
    }

    // end-of-feed reaches the application, which publishes `print`;
    // `print` reaches the counter and then the z-word holic
    let eof_ev = word_evs.remove(0);
    let mut print_evs = app.handle(eof_ev);
    let print_ev = print_evs.remove(0);
    let print_ev2 = print_ev.duplicate();
    let ghost cend = counter@;
    proof {
        assert forall|v: Seq<char>|
            #[trigger] count_in(cend, v) == occurrences(kept, v) by {
            assert(counter.count(v) == occurrences(
                without_stop_words(toks.take(toks.len() as int), stops_spec),
                v,
            ));
        }
        assert(zholic@ < u64::MAX) by {
            broadcast use Seq::lemma_filter_len;
        }
    }
    let _none5 = counter.handle(print_ev);
    let _none6 = zholic.handle(print_ev2);

    let ranking = counter.take_ranking();
    let announced = zholic.announced();
    let report = match ranking {
        Some(v) => v,
        None => {
            proof {
                assert(false);
            }
            Vec::new()
        },
    };
    let zcount = match announced {
        Some(c) => c,
        None => {
            proof {
                assert(false);
            }
            0
        },
    };
    proof {
        assert(counts_stream(cend, toks, stops_spec));
        assert(entry_views(report@) == rank_spec(cend));
    }
    (report, zcount)
}

} // verus!
