//! The dataspace pipeline: two shared first-in-first-out spaces — one of
//! tokens awaiting classification, one of partial frequency tables
//! awaiting merge — and a pool of workers. Each worker pops tokens until
//! the word space is observed empty, filters them, accumulates a private
//! table, and pushes it into the frequency space; the driver then merges
//! all partial tables by per-key summation. Locking the spaces, and
//! running the workers on real threads, is the surrounding program's
//! business: production into the word space completes before any worker
//! starts, which is what makes "stop when empty" a sound termination
//! rule.

use vstd::prelude::*;
use crate::freq::{
    entry_views, lemma_filter_singleton, occurrences, without_stop_words, FrequencyTable,
};
use crate::rank::rank;
use crate::stop::{stop_set, StopWordSet};
use crate::text::{lemma_tokens_long, tokenize, tokens, word_views};
use crate::top::{counts_stream, ranked_output};

verus! {

/// The predicate a worker applies: long enough, and not a stop word.
pub open spec fn long_non_stop(stops: Set<Seq<char>>) -> spec_fn(Seq<char>) -> bool {
    |t: Seq<char>| t.len() > 1 && !stops.contains(t)
}

/// What a worker keeps of a token stream.
pub open spec fn kept_words(ts: Seq<Seq<char>>, stops: Set<Seq<char>>) -> Seq<Seq<char>> {
    ts.filter(long_non_stop(stops))
}

/// Two predicates that agree on every element filter alike.
pub proof fn lemma_filter_agree<A>(s: Seq<A>, p: spec_fn(A) -> bool, q: spec_fn(A) -> bool)
    requires
        forall|i: int| 0 <= i < s.len() ==> p(#[trigger] s[i]) == q(s[i]),
    ensures
        s.filter(p) == s.filter(q),
    decreases s.len(),
{
    reveal(Seq::filter);
    if s.len() > 0 {
        lemma_filter_agree(s.drop_last(), p, q);
    }
}

/// The shared space of tokens awaiting classification: a first-in
/// first-out queue.
pub struct WordSpace {
    items: Vec<String>,
}

impl WordSpace {
    /// The queued tokens, front first.
    pub closed spec fn view(&self) -> Seq<Seq<char>> {
        word_views(self.items@)
    }

    pub fn new() -> (r: WordSpace)
        ensures
            r@ =~= Seq::<Seq<char>>::empty(),
    {
        let r = WordSpace { items: Vec::new() };
        proof {
            assert(r@ =~= Seq::<Seq<char>>::empty());
        }
        r
    }

    pub fn len(&self) -> (n: usize)
        ensures
            n == self@.len(),
    {
        self.items.len()
    }

    /// Enqueues a token at the back.
    pub fn push(&mut self, w: String)
        ensures
            final(self)@ == old(self)@.push(w@),
    {
        self.items.push(w);
        proof {
            assert(self@ =~= old(self)@.push(w@));
        }
    }

    /// Pops the front token; `None` exactly when the space is empty.
    pub fn pop(&mut self) -> (r: Option<String>)
        ensures
            old(self)@.len() == 0 ==> r is None && final(self)@ == old(self)@,
            old(self)@.len() > 0 ==> (r matches Some(w) && w@ == old(self)@[0]) && final(self)@
                == old(self)@.drop_first(),
    {
        if self.items.len() == 0 {
            None
        } else {
            let w = self.items.remove(0);
            proof {
                assert(self@ =~= old(self)@.drop_first());
            }
            Some(w)
        }
    }
}

/// The shared space of partial frequency tables awaiting merge.
pub struct FreqSpace {
    items: Vec<FrequencyTable>,
}

impl FreqSpace {
    /// The queued tables, front first.
    pub closed spec fn view(&self) -> Seq<Seq<(Seq<char>, nat)>> {
        self.items@.map_values(|t: FrequencyTable| t@)
    }

    pub fn new() -> (r: FreqSpace)
        ensures
            r@ =~= Seq::<Seq<(Seq<char>, nat)>>::empty(),
    {
        let r = FreqSpace { items: Vec::new() };
        proof {
            assert(r@ =~= Seq::<Seq<(Seq<char>, nat)>>::empty());
        }
        r
    }

    pub fn len(&self) -> (n: usize)
        ensures
            n == self@.len(),
    {
        self.items.len()
    }

    /// Enqueues a partial table at the back.
    pub fn push(&mut self, t: FrequencyTable)
        ensures
            final(self)@ == old(self)@.push(t@),
    {
        self.items.push(t);
        proof {
            assert(self@ =~= old(self)@.push(self.items@.last()@));
        }
    }

    /// Pops the front table; `None` exactly when the space is empty.
    pub fn pop(&mut self) -> (r: Option<FrequencyTable>)
        ensures
            old(self)@.len() == 0 ==> r is None && final(self)@ == old(self)@,
            old(self)@.len() > 0 ==> (r matches Some(t) && t@ == old(self)@[0]) && final(self)@
                == old(self)@.drop_first(),
    {
        if self.items.len() == 0 {
            None
        } else {
            let t = self.items.remove(0);
            proof {
                assert(self@ =~= old(self)@.drop_first());
            }
            Some(t)
        }
    }
}

/// One worker's run: pops tokens until the word space is observed empty,
/// keeps those that pass the length and stop-word filters, and counts
/// them in a private table.
pub fn process_words(space: &mut WordSpace, stops: &StopWordSet) -> (table: FrequencyTable)
    ensures
        final(space)@ =~= Seq::<Seq<char>>::empty(),
        table.wf(),
        forall|w: Seq<char>|
            table.count(w) == occurrences(kept_words(old(space)@, stops@), w),
        forall|w: Seq<char>| table.count(w) <= old(space)@.len(),
{
    let ghost all = space@;
    let start_len = space.len();
    let mut table = FrequencyTable::new();
    proof {
        assert(all.len() == start_len);
        reveal(Seq::filter);
        assert(all.take(0) =~= Seq::<Seq<char>>::empty());
        assert(kept_words(all.take(0), stops@) =~= Seq::<Seq<char>>::empty());
    }
    while space.len() > 0
        invariant
            space@.len() <= all.len(),
            all.len() == start_len,
            space@ == all.skip(all.len() - space@.len()),
            table.wf(),
            forall|w: Seq<char>|
                table.count(w) == occurrences(
                    kept_words(all.take(all.len() - space@.len()), stops@),
                    w,
                ),
            forall|w: Seq<char>| table.count(w) <= all.len() - space@.len(),
        decreases space@.len(),
    {
        let ghost i = all.len() - space@.len();
        let r = space.pop();
        if let Some(w) = r {
            proof {
                assert(w@ == all[i]);
                assert(space@ =~= all.skip(i + 1));
                assert(all.take(i + 1) =~= all.take(i) + seq![all[i]]);
                Seq::filter_distributes_over_add(
                    all.take(i),
                    seq![all[i]],
                    long_non_stop(stops@),
                );
                lemma_filter_singleton(all[i], long_non_stop(stops@));
            }
            let long_enough = w.as_str().unicode_len() > 1;
            let is_stop = stops.contains(&w);
            if long_enough && !is_stop {
                proof {
                    assert(kept_words(all.take(i + 1), stops@) =~= kept_words(
                        all.take(i),
                        stops@,
                    ).push(w@));
                    assert forall|v: Seq<char>|
                        occurrences(kept_words(all.take(i + 1), stops@), v) == occurrences(
                            kept_words(all.take(i), stops@),
                            v,
                        ) + (if v == w@ {
                            1nat
                        } else {
                            0nat
                        }) by {
                        crate::freq::lemma_occurrences_split(
                            kept_words(all.take(i), stops@),
                            seq![w@],
                            v,
                        );
                        lemma_filter_singleton(w@, crate::freq::matches_word(v));
                        assert(kept_words(all.take(i), stops@) + seq![w@] =~= kept_words(
                            all.take(i + 1),
                            stops@,
                        ));
                    }
                }
                proof {
                    assert(table.count(w@) <= i);
                    assert(i < all.len());
                }
                table.bump(w, 1);
            } else {
                proof {
                    assert(kept_words(all.take(i + 1), stops@) =~= kept_words(
                        all.take(i),
                        stops@,
                    ));
                }
            }
        }
    }
    proof {
        assert(all.take(all.len() as int) =~= all);
    }
    table
}

/// The whole dataspace run with `workers` workers taking turns on the
/// shared spaces: fill the word space with every token up front, let each
/// worker drain and count, merge the partial tables per key, and rank.
pub fn run_dataspace(text: &str, stop_text: &str, workers: usize) -> (out: Vec<(String, u64)>)
    requires
        workers >= 1,
    ensures
        ranked_output(entry_views(out@), tokens(text@), stop_set(stop_text@)),
{
    let ghost toks = tokens(text@);
    let ghost stops_spec = stop_set(stop_text@);
    let stops = StopWordSet::from_text(stop_text);
    let words = tokenize(text);

    // production completes before any worker starts
    let mut word_space = WordSpace::new();
    let n = words.len();
    let mut i: usize = 0;
    while i < n
        invariant
            i <= n,
            n == words@.len(),
            word_views(words@) == toks,
            word_space@ == toks.take(i as int),
        decreases n - i,
    {
        let w = words[i].clone();
        proof {
            assert(toks.take(i as int + 1) =~= toks.take(i as int).push(toks[i as int]));
            assert(toks[i as int] == w@);
        }
        word_space.push(w);
        i = i + 1;
    }
    proof {
        assert(toks.take(n as int) =~= toks);
    }

    // the workers take their turns; each pushes its partial table
    let mut freq_space = FreqSpace::new();
    let ghost kept = kept_words(toks, stops_spec);
    let mut k: usize = 0;
    while k < workers
        invariant
            k <= workers,
            stops@ == stops_spec,
            kept == kept_words(toks, stops_spec),
            k == 0 ==> word_space@ == toks,
            k > 0 ==> word_space@ =~= Seq::<Seq<char>>::empty(),
            freq_space@.len() == k,
            forall|j: int, w: Seq<char>|
                0 <= j < k ==> #[trigger] crate::freq::count_in(freq_space@[j], w)
                    == (if j == 0 {
                    occurrences(kept, w)
                } else {
                    0nat
                }),
            forall|j: int|
                0 <= j < k ==> crate::freq::table_wf(#[trigger] freq_space@[j]),
            forall|j: int, w: Seq<char>|
                0 <= j < k ==> #[trigger] crate::freq::count_in(freq_space@[j], w) <= toks.len(),
        decreases workers - k,
    {
        let ghost before_space = word_space@;
        let table = process_words(&mut word_space, &stops);
        proof {
            if k > 0 {
                assert(before_space =~= Seq::<Seq<char>>::empty());
                assert(kept_words(before_space, stops_spec) =~= Seq::<Seq<char>>::empty())
                    by {
                    reveal(Seq::filter);
                }
                assert forall|w: Seq<char>|
                    occurrences(kept_words(before_space, stops_spec), w) == 0 by {
                    reveal(Seq::filter);
                    assert(kept_words(before_space, stops_spec).filter(
                        crate::freq::matches_word(w),
                    ) =~= Seq::<Seq<char>>::empty());
                }
            }
        }
        let ghost fs0 = freq_space@;
        freq_space.push(table);
        proof {
            assert forall|j: int, w: Seq<char>|
                0 <= j < k + 1 implies #[trigger] crate::freq::count_in(freq_space@[j], w) == (
            if j == 0 {
                occurrences(kept, w)
            } else {
                0nat
            }) by {
                if j < k {
                    assert(freq_space@[j] == fs0[j]);
                    assert(crate::freq::count_in(fs0[j], w) == (if j == 0 {
                        occurrences(kept, w)
                    } else {
                        0nat
                    }));
                } else {
                    assert(freq_space@[j] == table@);
                    assert(table.count(w) == crate::freq::count_in(table@, w));
                    if k == 0 {
                        assert(before_space == toks);
                        assert(table.count(w) == occurrences(kept, w));
                    } else {
                        assert(table.count(w) == 0);
                    }
                }
            }
            assert forall|j: int|
                0 <= j < k + 1 implies crate::freq::table_wf(#[trigger] freq_space@[j]) by {
                if j < k {
                    assert(freq_space@[j] == fs0[j]);
                    assert(crate::freq::table_wf(fs0[j]));
                } else {
                    assert(freq_space@[j] == table@);
                    assert(table.wf());
                }
            }
            assert forall|j: int, w: Seq<char>|
                0 <= j < k + 1 implies #[trigger] crate::freq::count_in(freq_space@[j], w)
                <= toks.len() by {
                if j < k {
                    assert(freq_space@[j] == fs0[j]);
                    assert(crate::freq::count_in(fs0[j], w) <= toks.len());
                } else {
                    assert(freq_space@[j] == table@);
                    assert(table.count(w) == crate::freq::count_in(table@, w));
                    assert(table.count(w) <= before_space.len());
                    assert(before_space.len() <= toks.len());
                }
            }
        }
        k = k + 1;
    }

    // drain the frequency space and merge per key
    let mut total = FrequencyTable::new();
    let ghost tables = freq_space@;
    let mut merged: usize = 0;
    proof {
        assert(toks.len() <= usize::MAX) by {
            assert(toks == word_views(words@));
            assert(n == words@.len());
        }
        assert forall|w: Seq<char>| occurrences(kept, w) <= toks.len() by {
            broadcast use Seq::lemma_filter_len;

            assert(kept.filter(crate::freq::matches_word(w)).len() <= kept.len());
            assert(kept.len() <= toks.len());
        }
    }
    while freq_space.len() > 0
        invariant
            freq_space@.len() + merged == tables.len(),
            freq_space@ == tables.skip(merged as int),
            tables.len() == workers,
            kept == kept_words(toks, stops_spec),
            forall|j: int, w: Seq<char>|
                0 <= j < tables.len() ==> #[trigger] crate::freq::count_in(tables[j], w)
                    == (if j == 0 {
                    occurrences(kept, w)
                } else {
                    0nat
                }),
            forall|j: int| 0 <= j < tables.len() ==> crate::freq::table_wf(#[trigger] tables[j]),
            total.wf(),
            forall|w: Seq<char>|
                total.count(w) == (if merged == 0 {
                    0nat
                } else {
                    occurrences(kept, w)
                }),
            forall|w: Seq<char>| occurrences(kept, w) <= toks.len(),
            toks.len() <= usize::MAX,
        decreases freq_space@.len(),
    {
        let ghost total0 = total@;
        let r = freq_space.pop();
        if let Some(t) = r {
            proof {
                assert(t@ == tables[merged as int]);
                assert(freq_space@ =~= tables.skip(merged as int + 1));
                assert(t.wf()) by {
                    assert(crate::freq::table_wf(tables[merged as int]));
                }
                assert forall|w: Seq<char>| total.count(w) + t.count(w) <= u64::MAX by {
                    assert(t.count(w) == crate::freq::count_in(tables[merged as int], w));
                    assert(crate::freq::count_in(tables[merged as int], w) == (if merged
                        == 0 {
                        occurrences(kept, w)
                    } else {
                        0nat
                    }));
                    assert(occurrences(kept, w) <= toks.len());
                }
            }
            total.merge_from(&t);
            proof {
                assert forall|w: Seq<char>|
                    total.count(w) == occurrences(kept, w) by {
                    assert(total.count(w) == crate::freq::count_in(total0, w)
                        + crate::freq::count_in(tables[merged as int], w));
                    assert(crate::freq::count_in(tables[merged as int], w) == (if merged
                        == 0 {
                        occurrences(kept, w)
                    } else {
                        0nat
                    }));
                }
            }
        }
        merged = merged + 1;
    }
    proof {
        assert(merged == workers && workers >= 1);
        lemma_tokens_long(text@, Seq::empty());
        assert forall|i: int|
            0 <= i < toks.len() implies long_non_stop(stops_spec)(#[trigger] toks[i])
            == crate::freq::not_stop_word(stops_spec)(toks[i]) by {
            assert(toks[i].len() > 1);
        }
        lemma_filter_agree(
            toks,
            long_non_stop(stops_spec),
            crate::freq::not_stop_word(stops_spec),
        );
        assert(kept == without_stop_words(toks, stops_spec));
        assert(counts_stream(total@, toks, stops_spec)) by {
            assert(crate::freq::table_wf(total@));
            assert forall|w: Seq<char>|
                crate::freq::count_in(total@, w) == occurrences(
                    without_stop_words(toks, stops_spec),
                    w,
                ) by {
                assert(total.count(w) == occurrences(kept, w));
            }
        }
    }
    let ghost table_view = total@;
    let out = rank(total);
    proof {
        assert(ranked_output(entry_views(out@), toks, stops_spec));
    }
    out
}

} // verus!
