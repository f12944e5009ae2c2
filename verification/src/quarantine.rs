//! The quarantine style: core functions have no side effects; anything
//! impure is wrapped in a deferred computation (`Func`) that the chain
//! only forces at its edge, through `Unwrap`. The pure stages — blank the
//! separators, fold case, scan, filter, count, rank, render — live here
//! with exact contracts; performing the deferred reads is the surrounding
//! program's affair.

use core::marker::PhantomData;
use vstd::prelude::*;
use crate::dataspace::kept_words;
use crate::freq::{
    count_in, entry_views, occurrences, without_stop_words, FrequencyTable,
};
use crate::rank::{entry_order, report_lines, sort_entries};
use crate::stop::StopWordSet;
use crate::text::{folded, fold_string, is_word_char, word_views};

verus! {

/// What forcing a deferred computation yields.
pub trait Unwrap<O>: Sized {
    /// When the computation may be forced.
    spec fn req(&self) -> bool;

    /// What holds of the forced result.
    spec fn post(&self, r: O) -> bool;

    /// Forces the computation.
    fn my_unwrap(self) -> (r: O)
        requires
            self.req(),
        ensures
            self.post(r),
    ;
}

/// A plain value is already forced.
impl<O> Unwrap<O> for O {
    open spec fn req(&self) -> bool {
        true
    }

    open spec fn post(&self, r: O) -> bool {
        r == *self
    }

    fn my_unwrap(self) -> (r: O) {
        self
    }
}

/// A deferred computation: a function waiting to be forced.
pub struct Func<O, F> {
    pub f: F,
    pub marker: PhantomData<O>,
}

impl<O, F: FnOnce() -> O> Func<O, F> {
    pub fn new(f: F) -> (r: Func<O, F>)
        ensures
            r.f == f,
    {
        Func { f, marker: PhantomData }
    }
}

impl<O, F: FnOnce() -> O> Unwrap<O> for Func<O, F> {
    open spec fn req(&self) -> bool {
        self.f.requires(())
    }

    open spec fn post(&self, r: O) -> bool {
        self.f.ensures((), r)
    }

    fn my_unwrap(self) -> (r: O) {
        let Func { f, marker } = self;
        f()
    }
}

/// A value threaded through a chain of binds, each of which may yield a
/// deferred computation that `bind` forces at once.
pub struct TheOne<T> {
    pub value: T,
}

impl<T> TheOne<T> {
    pub fn new(value: T) -> (r: TheOne<T>)
        ensures
            r.value == value,
    {
        TheOne { value }
    }

    /// Applies `f`, forces the result if it is deferred, and wraps it.
    pub fn bind<O, R: Unwrap<O>, F: FnOnce(T) -> R>(self, f: F) -> (r: TheOne<O>)
        requires
            f.requires((self.value,)),
            forall|x: R| f.ensures((self.value,), x) ==> #[trigger] x.req(),
        ensures
            exists|x: R| #[trigger] f.ensures((self.value,), x) && x.post(r.value),
    {
        let TheOne { value } = self;
        let mid = f(value);
        let out = mid.my_unwrap();
        TheOne { value: out }
    }
}

/// Every separator blanked out: a word character stays, anything else
/// becomes a space.
pub open spec fn blank_char(c: char) -> char {
    if is_word_char(c) {
        c
    } else {
        ' '
    }
}

pub open spec fn blanked(s: Seq<char>) -> Seq<char> {
    s.map_values(|c: char| blank_char(c))
}

/// The fields of a text split on spaces, every field kept.
pub open spec fn space_fields_from(s: Seq<char>, cur: Seq<char>) -> Seq<Seq<char>>
    decreases s.len(),
{
    if s.len() == 0 {
        seq![cur]
    } else if s[0] == ' ' {
        seq![cur] + space_fields_from(s.drop_first(), Seq::empty())
    } else {
        space_fields_from(s.drop_first(), cur.push(s[0]))
    }
}

pub open spec fn space_fields(s: Seq<char>) -> Seq<Seq<char>> {
    space_fields_from(s, Seq::empty())
}

/// Replaces every non-word character with a space.
pub fn filter_chars(s: String) -> (r: String)
    ensures
        r@ == blanked(s@),
{
    let n = s.as_str().unicode_len();
    let mut r = String::new();
    let mut i: usize = 0;
    proof {
        assert(r@ =~= blanked(s@.take(0)));
    }
    while i < n
        invariant
            i <= n,
            n == s@.len(),
            r@ == blanked(s@.take(i as int)),
        decreases n - i,
    {
        let c = s.as_str().get_char(i);
        let kept = if crate::text::word_char(c) {
            c
        } else {
            ' '
        };
        crate::text::push_char(&mut r, kept);
        proof {
            assert(s@.take(i as int + 1) =~= s@.take(i as int).push(s@[i as int]));
            assert(blanked(s@.take(i as int + 1)) =~= blanked(s@.take(i as int)).push(
                blank_char(s@[i as int]),
            ));
        }
        i = i + 1;
    }
    proof {
        assert(s@.take(n as int) =~= s@);
    }
    r
}

/// Case-folds the whole text.
pub fn normalize(s: String) -> (r: String)
    ensures
        r@ == folded(s@),
{
    fold_string(s.as_str())
}

/// Splits the text on spaces, keeping every field.
pub fn scan(s: String) -> (out: Vec<String>)
    ensures
        word_views(out@) == space_fields(s@),
{
    let n = s.as_str().unicode_len();
    let mut out: Vec<String> = Vec::new();
    let mut cur = String::new();
    let mut i: usize = 0;
    proof {
        assert(s@.skip(0) =~= s@);
        assert(word_views(out@) + space_fields_from(s@, cur@) =~= space_fields_from(s@, cur@));
    }
    while i < n
        invariant
            i <= n,
            n == s@.len(),
            space_fields(s@) == word_views(out@) + space_fields_from(s@.skip(i as int), cur@),
        decreases n - i,
    {
        let c = s.as_str().get_char(i);
        proof {
            assert(s@.skip(i as int)[0] == s@[i as int]);
            assert(s@.skip(i as int).drop_first() =~= s@.skip(i as int + 1));
        }
        if c == ' ' {
            let ghost old_out = out@;
            let ghost old_cur = cur@;
            out.push(cur);
            cur = String::new();
            proof {
                assert(word_views(out@) =~= word_views(old_out).push(old_cur));
                assert(word_views(old_out) + (seq![old_cur] + space_fields_from(
                    s@.skip(i as int + 1),
                    Seq::empty(),
                )) =~= word_views(out@) + space_fields_from(
                    s@.skip(i as int + 1),
                    Seq::empty(),
                ));
            }
        } else {
            crate::text::push_char(&mut cur, c);
        }
        i = i + 1;
    }
    proof {
        assert(s@.skip(n as int) =~= Seq::<char>::empty());
    }
    let ghost old_out = out@;
    let ghost old_cur = cur@;
    out.push(cur);
    proof {
        assert(word_views(out@) =~= word_views(old_out).push(old_cur));
        assert(word_views(old_out) + seq![old_cur] =~= word_views(out@));
    }
    out
}

/// Filters out one-character words and stop words.
pub fn remove_stop_words(words: Vec<String>, stops: &StopWordSet) -> (out: Vec<String>)
    ensures
        word_views(out@) == kept_words(word_views(words@), stops@),
{
    crate::pipeline::filter(words, stops)
}

/// Counts the words into a frequency table.
pub fn frequencies(words: Vec<String>) -> (t: FrequencyTable)
    ensures
        t.wf(),
        forall|w: Seq<char>| t.count(w) == occurrences(word_views(words@), w),
{
    let none = StopWordSet::new();
    let t = FrequencyTable::count_tokens(&words, &none);
    proof {
        crate::freq::lemma_without_stop_words_empty(word_views(words@));
        assert(none@ =~= Set::<Seq<char>>::empty());
        assert forall|w: Seq<char>|
            #[trigger] count_in(t@, w) == occurrences(word_views(words@), w) by {
            assert(t.count(w) == occurrences(without_stop_words(word_views(words@), none@), w));
        }
    }
    t
}

/// Sorts the table's entries into the ranking order.
pub fn sort(freq: FrequencyTable) -> (out: Vec<(String, u64)>)
    ensures
        entry_views(out@) == freq@.sort_by(entry_order()),
{
    let mut v = freq.into_entries();
    sort_entries(&mut v);
    v
}

/// Renders at most the first 25 entries, one `<word> - <count>` line
/// each.
pub fn top25_freq(entries: Vec<(String, u64)>) -> (r: String)
    ensures
        r@ == report_lines(
            (if entries@.len() <= 25 {
                entry_views(entries@)
            } else {
                entry_views(entries@).take(25)
            }),
        ),
{
    let mut v = entries;
    if v.len() > 25 {
        let ghost before = entry_views(v@);
        v.truncate(25);
        proof {
            assert(entry_views(v@) =~= before.take(25));
        }
    }
    crate::rank::report(&v)
}

/// Blanking the separators, folding case, splitting on spaces, and
/// keeping only the fields long enough recovers exactly the token
/// stream: the blanks stand where the separators stood, so the fields
/// are the case-folded maximal runs.
pub proof fn lemma_quarantine_split(s: Seq<char>, cur: Seq<char>)
    ensures
        crate::pipeline::long_only(space_fields_from(folded(blanked(s)), cur))
            == crate::text::tokens_from(s, cur),
    decreases s.len(),
{
    reveal(Seq::filter);
    let t = folded(blanked(s));
    if s.len() == 0 {
        assert(t =~= Seq::<char>::empty());
        assert(space_fields_from(t, cur) =~= seq![cur]);
        crate::freq::lemma_filter_singleton(cur, crate::pipeline::is_long());
        assert(crate::pipeline::long_only(seq![cur]) =~= crate::text::emit_run(cur));
    } else {
        assert(t.len() == s.len());
        assert(t[0] == crate::text::lower_char(blank_char(s[0])));
        assert(t.drop_first() =~= folded(blanked(s.drop_first()))) by {
            assert(blanked(s).drop_first() =~= blanked(s.drop_first()));
        }
        if crate::text::is_word_char(s[0]) {
            assert(blank_char(s[0]) == s[0]);
            assert(crate::text::is_word_char(crate::text::lower_char(s[0])));
            assert(crate::text::lower_char(s[0]) != ' ') by {
                assert(' ' as u32 == 32);
            }
            lemma_quarantine_split(
                s.drop_first(),
                cur.push(crate::text::lower_char(s[0])),
            );
        } else {
            assert(blank_char(s[0]) == ' ');
            assert(crate::text::lower_char(' ') == ' ');
            lemma_quarantine_split(s.drop_first(), Seq::empty());
            let rest = space_fields_from(t.drop_first(), Seq::empty());
            assert(space_fields_from(t, cur) =~= seq![cur] + rest);
            Seq::filter_distributes_over_add(seq![cur], rest, crate::pipeline::is_long());
            crate::freq::lemma_filter_singleton(cur, crate::pipeline::is_long());
            assert(crate::pipeline::long_only(seq![cur]) =~= crate::text::emit_run(cur));
        }
    }
}

/// The whole quarantine chain, pure end to end: blank, fold, scan,
/// filter, count, sort, render — the rendered report is that of the one
/// ranked word-frequency table of the text's tokens.
pub fn word_frequency_report(text: &str, stop_text: &str) -> (r: String)
    ensures
        exists|t: Seq<(Seq<char>, nat)>|
            {
                &&& #[trigger] crate::top::counts_stream(
                    t,
                    crate::text::tokens(text@),
                    crate::stop::stop_set(stop_text@),
                )
                &&& r@ == report_lines(crate::rank::rank_spec(t))
            },
{
    let ghost toks = crate::text::tokens(text@);
    let ghost stops_spec = crate::stop::stop_set(stop_text@);
    let stops = StopWordSet::from_text(stop_text);
    let ws = scan(normalize(filter_chars(text.to_owned())));
    let ws = remove_stop_words(ws, &stops);
    proof {
        lemma_quarantine_split(text@, Seq::empty());
        crate::pipeline::lemma_filter_then_filter(
            space_fields(folded(blanked(text@))),
            crate::pipeline::is_long(),
            crate::freq::not_stop_word(stops_spec),
            crate::dataspace::long_non_stop(stops_spec),
        );
        assert(word_views(ws@) == without_stop_words(toks, stops_spec));
    }
    let freq = frequencies(ws);
    let ghost table = freq@;
    proof {
        assert forall|w: Seq<char>|
            #[trigger] count_in(table, w) == occurrences(
                without_stop_words(toks, stops_spec),
                w,
            ) by {
            assert(freq.count(w) == occurrences(word_views(ws@), w));
        }
        assert(crate::top::counts_stream(table, toks, stops_spec));
    }
    let ranked = sort(freq);
    top25_freq(ranked)
}

} // verus!
