//! Frequency tables: a mapping from word to occurrence count, keys unique,
//! counts positive. Merging two tables sums their counts per key, so that
//! partial tables built over pieces of a token stream merge to the counts
//! of the whole stream.

use vstd::prelude::*;
use vstd::seq_lib::*;
use crate::stop::StopWordSet;
use crate::text::word_views;

verus! {

/// The predicate holding of the word `w` alone.
pub open spec fn matches_word(w: Seq<char>) -> spec_fn(Seq<char>) -> bool {
    |t: Seq<char>| t == w
}

/// The predicate holding of the words outside `stops`.
pub open spec fn not_stop_word(stops: Set<Seq<char>>) -> spec_fn(Seq<char>) -> bool {
    |t: Seq<char>| !stops.contains(t)
}

/// Number of occurrences of the word `w` in the token stream `ts`.
pub open spec fn occurrences(ts: Seq<Seq<char>>, w: Seq<char>) -> nat {
    ts.filter(matches_word(w)).len()
}

/// The token stream `ts` with every stop word removed.
pub open spec fn without_stop_words(ts: Seq<Seq<char>>, stops: Set<Seq<char>>) -> Seq<Seq<char>> {
    ts.filter(not_stop_word(stops))
}

/// The total count that the entries of `t` give the word `w`.
pub open spec fn count_in(t: Seq<(Seq<char>, nat)>, w: Seq<char>) -> nat
    decreases t.len(),
{
    if t.len() == 0 {
        0
    } else if t[0].0 == w {
        t[0].1 + count_in(t.drop_first(), w)
    } else {
        count_in(t.drop_first(), w)
    }
}

/// The views of a sequence of (word, count) entries.
pub open spec fn entry_views(es: Seq<(String, u64)>) -> Seq<(Seq<char>, nat)> {
    es.map_values(|e: (String, u64)| (e.0@, e.1 as nat))
}

/// The keys of a table, in entry order.
pub open spec fn table_keys(t: Seq<(Seq<char>, nat)>) -> Seq<Seq<char>> {
    t.map_values(|e: (Seq<char>, nat)| e.0)
}

/// A table is well formed when its keys are distinct and every count is
/// at least one.
pub open spec fn table_wf(t: Seq<(Seq<char>, nat)>) -> bool {
    &&& table_keys(t).no_duplicates()
    &&& forall|i: int| 0 <= i < t.len() ==> (#[trigger] t[i]).1 >= 1
}

/// What one entry contributes to a count.
pub proof fn lemma_count_in_singleton(e: (Seq<char>, nat), w: Seq<char>)
    ensures
        count_in(seq![e], w) == (if e.0 == w {
            e.1
        } else {
            0
        }),
{
    assert(seq![e].drop_first() =~= Seq::<(Seq<char>, nat)>::empty());
    assert(count_in(seq![e].drop_first(), w) == 0);
}

/// What filtering keeps of a single element.
pub proof fn lemma_filter_singleton<A>(x: A, p: spec_fn(A) -> bool)
    ensures
        seq![x].filter(p) == (if p(x) {
            seq![x]
        } else {
            Seq::<A>::empty()
        }),
{
    reveal(Seq::filter);
    assert(seq![x].drop_last() =~= Seq::<A>::empty());
    assert(Seq::<A>::empty().filter(p) =~= Seq::<A>::empty());
    assert(seq![x].last() == x);
    if p(x) {
        assert(seq![x].filter(p) =~= Seq::<A>::empty().push(x));
        assert(Seq::<A>::empty().push(x) =~= seq![x]);
    }
}

/// Whatever filtering keeps was already there, and satisfies the
/// predicate.
pub proof fn lemma_filter_subset<A>(s: Seq<A>, p: spec_fn(A) -> bool, x: A)
    requires
        s.filter(p).contains(x),
    ensures
        s.contains(x),
        p(x),
    decreases s.len(),
{
    reveal(Seq::filter);
    if s.len() > 0 {
        if s.drop_last().filter(p).contains(x) {
            lemma_filter_subset(s.drop_last(), p, x);
            let i = choose|i: int| 0 <= i < s.drop_last().len() && s.drop_last()[i] == x;
            assert(s[i] == x);
        } else {
            assert(x == s.last() && p(s.last()));
            assert(s[s.len() - 1] == x);
        }
    }
}

/// With no stop words at all, filtering keeps everything.
pub proof fn lemma_without_stop_words_empty(ts: Seq<Seq<char>>)
    ensures
        without_stop_words(ts, Set::empty()) == ts,
    decreases ts.len(),
{
    reveal(Seq::filter);
    if ts.len() > 0 {
        lemma_without_stop_words_empty(ts.drop_last());
        assert(ts.drop_last().push(ts.last()) =~= ts);
    }
}

/// A word that occurs in a stream is a member of it.
pub proof fn lemma_occurrence_member(ts: Seq<Seq<char>>, w: Seq<char>)
    requires
        occurrences(ts, w) >= 1,
    ensures
        ts.contains(w),
{
    let eqw = matches_word(w);
    let kept = ts.filter(eqw);
    assert(kept.len() >= 1);
    assert(kept.contains(kept[0]));
    broadcast use Seq::lemma_filter_pred;

    assert(eqw(kept[0]));
    lemma_filter_subset(ts, eqw, kept[0]);
}

/// Counts add over a split of the entry sequence.
pub proof fn lemma_count_in_concat(a: Seq<(Seq<char>, nat)>, b: Seq<(Seq<char>, nat)>, w: Seq<char>)
    ensures
        count_in(a + b, w) == count_in(a, w) + count_in(b, w),
    decreases a.len(),
{
    if a.len() == 0 {
        assert(a + b =~= b);
    } else {
        assert((a + b).drop_first() =~= a.drop_first() + b);
        lemma_count_in_concat(a.drop_first(), b, w);
    }
}

/// A word under none of the keys has count zero.
pub proof fn lemma_count_in_absent(t: Seq<(Seq<char>, nat)>, w: Seq<char>)
    requires
        forall|j: int| 0 <= j < t.len() ==> (#[trigger] t[j]).0 != w,
    ensures
        count_in(t, w) == 0,
    decreases t.len(),
{
    if t.len() > 0 {
        lemma_count_in_absent(t.drop_first(), w);
    }
}

/// An entry's own count is no more than the total its key is given.
pub proof fn lemma_count_in_at(t: Seq<(Seq<char>, nat)>, i: int)
    requires
        0 <= i < t.len(),
    ensures
        t[i].1 <= count_in(t, t[i].0),
    decreases t.len(),
{
    if i > 0 {
        lemma_count_in_at(t.drop_first(), i - 1);
    }
}

/// With distinct keys, an entry's count is exactly the total of its key.
pub proof fn lemma_count_in_unique(t: Seq<(Seq<char>, nat)>, i: int)
    requires
        table_keys(t).no_duplicates(),
        0 <= i < t.len(),
    ensures
        count_in(t, t[i].0) == t[i].1,
    decreases t.len(),
{
    if i == 0 {
        assert forall|j: int|
            0 <= j < t.drop_first().len() implies (#[trigger] t.drop_first()[j]).0 != t[0].0 by {
            assert(t.drop_first()[j] == t[j + 1]);
            assert(table_keys(t)[j + 1] == t[j + 1].0);
            assert(table_keys(t)[0] == t[0].0);
        }
        lemma_count_in_absent(t.drop_first(), t[0].0);
    } else {
        assert(table_keys(t.drop_first()) =~= table_keys(t).drop_first());
        lemma_count_in_unique(t.drop_first(), i - 1);
        assert(t[0].0 == table_keys(t)[0] && t[i].0 == table_keys(t)[i]);
    }
}

/// Replacing the count of one entry changes only its key's total.
proof fn lemma_count_in_update(t: Seq<(Seq<char>, nat)>, i: int, c: nat, w: Seq<char>)
    requires
        0 <= i < t.len(),
    ensures
        t[i].0 == w ==> count_in(t.update(i, (t[i].0, c)), w) + t[i].1 == count_in(t, w) + c,
        t[i].0 != w ==> count_in(t.update(i, (t[i].0, c)), w) == count_in(t, w),
    decreases t.len(),
{
    let u = t.update(i, (t[i].0, c));
    if i == 0 {
        assert(u.drop_first() =~= t.drop_first());
    } else {
        assert(u.drop_first() =~= t.drop_first().update(i - 1, (t[i].0, c)));
        lemma_count_in_update(t.drop_first(), i - 1, c, w);
    }
}

/// In a well-formed table a key is present exactly when its count is
/// positive.
pub proof fn lemma_key_iff_count(t: Seq<(Seq<char>, nat)>, w: Seq<char>)
    requires
        table_wf(t),
    ensures
        table_keys(t).contains(w) <==> count_in(t, w) >= 1,
{
    if table_keys(t).contains(w) {
        let i = choose|i: int| 0 <= i < t.len() && table_keys(t)[i] == w;
        assert(t[i].0 == w);
        lemma_count_in_at(t, i);
    } else {
        assert(forall|j: int| 0 <= j < t.len() ==> (#[trigger] t[j]).0 != w) by {
            assert(forall|j: int|
                0 <= j < t.len() ==> (#[trigger] t[j]).0 == table_keys(t)[j]);
        }
        lemma_count_in_absent(t, w);
    }
}

/// The per-word total over a sequence of partial token streams, each
/// filtered by the same stop-word set.
pub open spec fn partitioned_count(
    parts: Seq<Seq<Seq<char>>>,
    stops: Set<Seq<char>>,
    w: Seq<char>,
) -> nat
    decreases parts.len(),
{
    if parts.len() == 0 {
        0
    } else {
        occurrences(without_stop_words(parts.first(), stops), w) + partitioned_count(
            parts.drop_first(),
            stops,
            w,
        )
    }
}

/// Occurrence counts add over a split of the token stream.
pub proof fn lemma_occurrences_split(a: Seq<Seq<char>>, b: Seq<Seq<char>>, w: Seq<char>)
    ensures
        occurrences(a + b, w) == occurrences(a, w) + occurrences(b, w),
{
    Seq::filter_distributes_over_add(a, b, matches_word(w));
}

/// Removing stop words commutes with splitting the token stream.
pub proof fn lemma_without_stop_words_split(
    a: Seq<Seq<char>>,
    b: Seq<Seq<char>>,
    stops: Set<Seq<char>>,
)
    ensures
        without_stop_words(a + b, stops) == without_stop_words(a, stops) + without_stop_words(
            b,
            stops,
        ),
{
    Seq::filter_distributes_over_add(a, b, not_stop_word(stops));
}

/// Counting each piece of a partitioned token stream and summing the
/// counts gives the same per-word total as counting the whole stream at
/// once — whatever the number of pieces and wherever the cuts fall.
pub proof fn lemma_partitioned_counting(
    parts: Seq<Seq<Seq<char>>>,
    stops: Set<Seq<char>>,
    w: Seq<char>,
)
    ensures
        partitioned_count(parts, stops, w) == occurrences(
            without_stop_words(parts.flatten(), stops),
            w,
        ),
    decreases parts.len(),
{
    if parts.len() == 0 {
        assert(parts.flatten() =~= Seq::<Seq<char>>::empty());
        assert(without_stop_words(Seq::<Seq<char>>::empty(), stops) =~= Seq::<
            Seq<char>,
        >::empty());
        reveal(Seq::filter);
    } else {
        lemma_partitioned_counting(parts.drop_first(), stops, w);
        assert(parts.flatten() == parts.first() + parts.drop_first().flatten());
        lemma_without_stop_words_split(parts.first(), parts.drop_first().flatten(), stops);
        lemma_occurrences_split(
            without_stop_words(parts.first(), stops),
            without_stop_words(parts.drop_first().flatten(), stops),
            w,
        );
    }
}

/// A mapping from word to occurrence count: keys unique, counts positive,
/// mutated only by counting and merging.
pub struct FrequencyTable {
    entries: Vec<(String, u64)>,
}

impl FrequencyTable {
    /// The entries held, as (word, count) pairs in insertion order.
    pub closed spec fn view(&self) -> Seq<(Seq<char>, nat)> {
        entry_views(self.entries@)
    }

    /// The count recorded for `w`; zero when `w` has no entry.
    pub open spec fn count(&self, w: Seq<char>) -> nat {
        count_in(self@, w)
    }

    /// Well-formedness: distinct keys, positive counts. Established by the
    /// constructor and preserved by every method.
    pub open spec fn wf(&self) -> bool {
        table_wf(self@)
    }

    /// An empty table.
    pub fn new() -> (r: FrequencyTable)
        ensures
            r.wf(),
            r@ =~= Seq::<(Seq<char>, nat)>::empty(),
            forall|w: Seq<char>| r.count(w) == 0,
    {
        let r = FrequencyTable { entries: Vec::new() };
        proof {
            assert(r@ =~= Seq::<(Seq<char>, nat)>::empty());
            assert(table_keys(r@) =~= Seq::<Seq<char>>::empty());
        }
        r
    }

    /// The index of the entry of `w`, if there is one.
    fn find(&self, w: &String) -> (r: Option<usize>)
        ensures
            match r {
                Some(i) => i < self.entries@.len() && self.entries@[i as int].0@ == w@,
                None => forall|j: int|
                    0 <= j < self.entries@.len() ==> (#[trigger] self.entries@[j]).0@ != w@,
            },
    {
        let n = self.entries.len();
        let mut i: usize = 0;
        while i < n
            invariant
                i <= n,
                n == self.entries@.len(),
                forall|j: int| 0 <= j < i ==> (#[trigger] self.entries@[j]).0@ != w@,
            decreases n - i,
        {
            if self.entries[i].0.eq(w) {
                return Some(i);
            }
            i = i + 1;
        }
        None
    }

    /// Records `times` further occurrences of `word`.
    pub fn bump(&mut self, word: String, times: u64)
        requires
            old(self).wf(),
            times >= 1,
            old(self).count(word@) + times <= u64::MAX,
        ensures
            final(self).wf(),
            forall|w: Seq<char>|
                final(self).count(w) == old(self).count(w) + (if w == word@ {
                    times as nat
                } else {
                    0
                }),
    {
        let ghost t0 = self@;
        match self.find(&word) {
            Some(i) => {
                proof {
                    lemma_count_in_at(t0, i as int);
                }
                let c = self.entries[i].1;
                self.entries[i].1 = c + times;
                proof {
                    assert(self@ =~= t0.update(i as int, (t0[i as int].0, (c + times) as nat)));
                    assert(table_keys(self@) =~= table_keys(t0));
                    assert forall|w: Seq<char>|
                        count_in(self@, w) == count_in(t0, w) + (if w == word@ {
                            times as nat
                        } else {
                            0nat
                        }) by {
                        lemma_count_in_update(t0, i as int, (c + times) as nat, w);
                    }
                }
            },
            None => {
                proof {
                    lemma_count_in_absent(t0, word@);
                }
                let ghost wv = word@;
                self.entries.push((word, times));
                proof {
                    assert(self@ =~= t0 + seq![(wv, times as nat)]);
                    assert(table_keys(self@) =~= table_keys(t0).push(wv));
                    assert forall|w: Seq<char>|
                        count_in(self@, w) == count_in(t0, w) + (if w == wv {
                            times as nat
                        } else {
                            0nat
                        }) by {
                        lemma_count_in_concat(t0, seq![(wv, times as nat)], w);
                        lemma_count_in_singleton((wv, times as nat), w);
                    }
                    assert forall|j: int| 0 <= j < t0.len() implies table_keys(t0)[j] != wv by {
                        assert(t0[j].0 == table_keys(t0)[j]);
                    }
                }
            },
        }
    }

    /// Adds every count of `other` onto this table.
    pub fn merge_from(&mut self, other: &FrequencyTable)
        requires
            old(self).wf(),
            other.wf(),
            forall|w: Seq<char>| old(self).count(w) + other.count(w) <= u64::MAX,
        ensures
            final(self).wf(),
            forall|w: Seq<char>|
                final(self).count(w) == old(self).count(w) + other.count(w),
    {
        let ghost start = *old(self);
        let n = other.entries.len();
        let mut j: usize = 0;
        while j < n
            invariant
                j <= n,
                n == other.entries@.len(),
                other.wf(),
                self.wf(),
                forall|w: Seq<char>|
                    self.count(w) == start.count(w) + count_in(other@.take(j as int), w),
                forall|w: Seq<char>| start.count(w) + other.count(w) <= u64::MAX,
            decreases n - j,
        {
            let word = other.entries[j].0.clone();
            let times = other.entries[j].1;
            proof {
                assert(other@[j as int] == (word@, times as nat));
                assert(other@.take(j as int + 1) =~= other@.take(j as int) + seq![
                    other@[j as int],
                ]);
                lemma_count_in_concat(other@.take(j as int), seq![other@[j as int]], word@);
                lemma_count_in_singleton(other@[j as int], word@);
                // the processed prefix plus this entry never exceeds the
                // whole of other's count for this key
                assert(other@ =~= other@.take(j as int + 1) + other@.skip(j as int + 1));
                lemma_count_in_concat(
                    other@.take(j as int + 1),
                    other@.skip(j as int + 1),
                    word@,
                );
            }
            self.bump(word, times);
            proof {
                assert forall|w: Seq<char>|
                    self.count(w) == start.count(w) + count_in(
                        other@.take(j as int + 1),
                        w,
                    ) by {
                    lemma_count_in_concat(other@.take(j as int), seq![other@[j as int]], w);
                    lemma_count_in_singleton(other@[j as int], w);
                    assert(other@.take(j as int + 1) =~= other@.take(j as int) + seq![
                        other@[j as int],
                    ]);
                }
            }
            j = j + 1;
        }
        proof {
            assert(other@.take(n as int) =~= other@);
        }
    }

    /// A copy of the entries, as (word, count) pairs in insertion order.
    pub fn to_entries(&self) -> (v: Vec<(String, u64)>)
        ensures
            entry_views(v@) == self@,
    {
        let mut v: Vec<(String, u64)> = Vec::new();
        let n = self.entries.len();
        let mut i: usize = 0;
        proof {
            assert(entry_views(v@) =~= self@.take(0));
        }
        while i < n
            invariant
                i <= n,
                n == self.entries@.len(),
                entry_views(v@) == self@.take(i as int),
            decreases n - i,
        {
            let w = self.entries[i].0.clone();
            let c = self.entries[i].1;
            let ghost before = v@;
            v.push((w, c));
            proof {
                assert(entry_views(v@) =~= entry_views(before).push((w@, c as nat)));
                assert(self@[i as int] == (w@, c as nat));
                assert(self@.take(i as int + 1) =~= self@.take(i as int).push(self@[i as int]));
            }
            i = i + 1;
        }
        proof {
            assert(self@.take(n as int) =~= self@);
        }
        v
    }

    /// Gives up the entries, as (word, count) pairs in insertion order.
    pub fn into_entries(self) -> (v: Vec<(String, u64)>)
        ensures
            entry_views(v@) == self@,
    {
        self.entries
    }

    /// Counts a token stream, leaving out the stop words: the table records,
    /// for every word, how often it occurs among the non-stop tokens.
    pub fn count_tokens(tokens: &Vec<String>, stops: &StopWordSet) -> (t: FrequencyTable)
        ensures
            t.wf(),
            forall|w: Seq<char>|
                t.count(w) == occurrences(
                    without_stop_words(word_views(tokens@), stops@),
                    w,
                ),
            forall|w: Seq<char>| t.count(w) <= tokens@.len(),
    {
        let mut t = FrequencyTable::new();
        let n = tokens.len();
        let mut i: usize = 0;
        let ghost all = word_views(tokens@);
        proof {
            assert(all.take(0) =~= Seq::<Seq<char>>::empty());
            assert(without_stop_words(all.take(0), stops@) =~= Seq::<Seq<char>>::empty());
        }
        while i < n
            invariant
                i <= n,
                n == tokens@.len(),
                all == word_views(tokens@),
                t.wf(),
                forall|w: Seq<char>|
                    t.count(w) == occurrences(
                        without_stop_words(all.take(i as int), stops@),
                        w,
                    ),
                forall|w: Seq<char>| t.count(w) <= i,
            decreases n - i,
        {
            let word = tokens[i].clone();
            let ghost pred = not_stop_word(stops@);
            proof {
                assert(all[i as int] == word@);
                assert(all.take(i as int + 1) =~= all.take(i as int) + seq![word@]);
                Seq::filter_distributes_over_add(all.take(i as int), seq![word@], pred);
                lemma_filter_singleton(word@, pred);
            }
            let is_stop = stops.contains(&word);
            if !is_stop {
                proof {
                    assert forall|w: Seq<char>|
                        occurrences(
                            without_stop_words(all.take(i as int + 1), stops@),
                            w,
                        ) == occurrences(without_stop_words(all.take(i as int), stops@), w)
                            + (if w == word@ {
                            1nat
                        } else {
                            0nat
                        }) by {
                        let eqw = matches_word(w);
                        Seq::filter_distributes_over_add(
                            without_stop_words(all.take(i as int), stops@),
                            seq![word@],
                            eqw,
                        );
                        lemma_filter_singleton(word@, eqw);
                        assert(without_stop_words(all.take(i as int + 1), stops@)
                            =~= without_stop_words(all.take(i as int), stops@) + seq![word@]);
                        if w == word@ {
                            assert(seq![word@].filter(eqw) =~= seq![word@]);
                        } else {
                            assert(seq![word@].filter(eqw) =~= Seq::<Seq<char>>::empty());
                            assert(without_stop_words(all.take(i as int), stops@).filter(eqw)
                                + Seq::<Seq<char>>::empty() =~= without_stop_words(
                                all.take(i as int),
                                stops@,
                            ).filter(eqw));
                        }
                    }
                }
                t.bump(word, 1);
            } else {
                proof {
                    assert(without_stop_words(all.take(i as int + 1), stops@)
                        =~= without_stop_words(all.take(i as int), stops@));
                }
            }
            i = i + 1;
        }
        proof {
            assert(all.take(n as int) =~= all);
        }
        t
    }
}

} // verus!
