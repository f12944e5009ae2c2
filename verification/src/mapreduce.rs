//! The map-reduce pipeline: the input text is cut into chunks of whole
//! lines, a pure mapper turns each chunk into (word, 1) pairs, a regroup
//! stage collects the pairs by word, and a reducer folds each word's
//! contributions into its count. Chunk boundaries always fall on line
//! breaks, so no token is ever split; mappers share no state and may run
//! in any order.

use vstd::prelude::*;
use crate::freq::{
    entry_views, lemma_filter_singleton, not_stop_word, table_keys, without_stop_words,
};
use crate::stop::StopWordSet;
use crate::text::{push_char, tokenize, tokens, word_views};

verus! {

/// How many line breaks a text holds.
pub open spec fn line_breaks(s: Seq<char>) -> nat
    decreases s.len(),
{
    if s.len() == 0 {
        0
    } else {
        (if s[0] == '\n' {
            1nat
        } else {
            0nat
        }) + line_breaks(s.drop_first())
    }
}

pub proof fn lemma_line_breaks_concat(a: Seq<char>, b: Seq<char>)
    ensures
        line_breaks(a + b) == line_breaks(a) + line_breaks(b),
    decreases a.len(),
{
    if a.len() == 0 {
        assert(a + b =~= b);
    } else {
        assert((a + b).drop_first() =~= a.drop_first() + b);
        lemma_line_breaks_concat(a.drop_first(), b);
    }
}

pub proof fn lemma_line_breaks_push(s: Seq<char>, c: char)
    ensures
        line_breaks(s.push(c)) == line_breaks(s) + (if c == '\n' {
            1nat
        } else {
            0nat
        }),
{
    assert(s.push(c) =~= s + seq![c]);
    lemma_line_breaks_concat(s, seq![c]);
    assert(seq![c].drop_first() =~= Seq::<char>::empty());
    assert(line_breaks(seq![c].drop_first()) == 0);
}

/// Splits the text into contiguous chunks: every chunk but the last holds
/// exactly `chunk_size` whole lines and ends on a line break, the last
/// holds whatever is left. Concatenating the chunks gives back the text,
/// so nothing is dropped or duplicated.
pub fn partition(text: &str, chunk_size: usize) -> (chunks: Vec<String>)
    requires
        chunk_size >= 1,
    ensures
        word_views(chunks@).flatten() == text@,
        forall|i: int| 0 <= i < chunks@.len() ==> (#[trigger] chunks@[i]@).len() > 0,
        forall|i: int|
            0 <= i < chunks@.len() - 1 ==> (#[trigger] chunks@[i]@).last() == '\n' && line_breaks(
                chunks@[i]@,
            ) == chunk_size,
        chunks@.len() > 0 ==> line_breaks(chunks@.last()@) <= chunk_size,
{
    let n = text.unicode_len();
    let mut chunks: Vec<String> = Vec::new();
    let mut cur = String::new();
    let mut lines: usize = 0;
    let mut i: usize = 0;
    proof {
        assert(word_views(chunks@) =~= Seq::<Seq<char>>::empty());
        assert(word_views(chunks@).flatten() =~= Seq::<char>::empty());
        assert(word_views(chunks@).flatten() + cur@ =~= text@.take(0));
    }
    while i < n
        invariant
            i <= n,
            n == text@.len(),
            lines == line_breaks(cur@),
            lines < chunk_size,
            word_views(chunks@).flatten() + cur@ == text@.take(i as int),
            forall|j: int| 0 <= j < chunks@.len() ==> (#[trigger] chunks@[j]@).len() > 0,
            forall|j: int|
                0 <= j < chunks@.len() ==> (#[trigger] chunks@[j]@).last() == '\n' && line_breaks(
                    chunks@[j]@,
                ) == chunk_size,
        decreases n - i,
    {
        let c = text.get_char(i);
        let ghost cur0 = cur@;
        push_char(&mut cur, c);
        proof {
            lemma_line_breaks_push(cur0, c);
            assert(text@.take(i as int + 1) =~= text@.take(i as int).push(text@[i as int]));
            assert((word_views(chunks@).flatten() + cur0).push(c) =~= word_views(
                chunks@,
            ).flatten() + cur0.push(c));
        }
        if c == '\n' {
            lines = lines + 1;
            if lines == chunk_size {
                let ghost before = chunks@;
                let ghost curv = cur@;
                chunks.push(cur);
                cur = String::new();
                lines = 0;
                proof {
                    broadcast use Seq::lemma_flatten_push;

                    assert(word_views(chunks@) =~= word_views(before).push(curv));
                    assert(word_views(chunks@).flatten() =~= word_views(before).flatten() + curv);
                    assert(word_views(chunks@).flatten() + cur@ =~= word_views(
                        before,
                    ).flatten() + curv);
                    assert(curv.last() == '\n');
                    assert forall|j: int| 0 <= j < chunks@.len() implies (#[trigger] chunks@[j]@)
                        .last() == '\n' && line_breaks(chunks@[j]@) == chunk_size by {
                        if j < before.len() {
                            assert(chunks@[j] == before[j]);
                        }
                    }
                }
            }
        }
        i = i + 1;
    }
    proof {
        assert(text@.take(n as int) =~= text@);
    }
    if cur.as_str().unicode_len() > 0 {
        let ghost before = chunks@;
        let ghost curv = cur@;
        chunks.push(cur);
        proof {
            broadcast use Seq::lemma_flatten_push;

            assert(word_views(chunks@) =~= word_views(before).push(curv));
            assert(word_views(chunks@).flatten() =~= word_views(before).flatten() + curv);
            assert forall|j: int| 0 <= j < chunks@.len() - 1 implies (#[trigger] chunks@[j]@)
                .last() == '\n' && line_breaks(chunks@[j]@) == chunk_size by {
                assert(chunks@[j] == before[j]);
            }
        }
    } else {
        proof {
            assert(cur@ =~= Seq::<char>::empty());
            assert(word_views(chunks@).flatten() + cur@ =~= word_views(chunks@).flatten());
        }
    }
    chunks
}

/// The mapper: a pure function over one chunk. It tokenizes the chunk,
/// drops the stop words, and emits one (word, 1) pair per kept token, in
/// order, with no combining.
pub fn split_words(chunk: &str, stops: &StopWordSet) -> (pairs: Vec<(String, u64)>)
    ensures
        table_keys(entry_views(pairs@)) == without_stop_words(tokens(chunk@), stops@),
        forall|i: int| 0 <= i < pairs@.len() ==> (#[trigger] pairs@[i]).1 == 1,
{
    let toks = tokenize(chunk);
    let ghost all = word_views(toks@);
    let mut pairs: Vec<(String, u64)> = Vec::new();
    let n = toks.len();
    let mut i: usize = 0;
    proof {
        assert(all.take(0) =~= Seq::<Seq<char>>::empty());
        reveal(Seq::filter);
        assert(without_stop_words(all.take(0), stops@) =~= Seq::<Seq<char>>::empty());
        assert(table_keys(entry_views(pairs@)) =~= Seq::<Seq<char>>::empty());
    }
    while i < n
        invariant
            i <= n,
            n == toks@.len(),
            all == word_views(toks@),
            table_keys(entry_views(pairs@)) == without_stop_words(all.take(i as int), stops@),
            forall|j: int| 0 <= j < pairs@.len() ==> (#[trigger] pairs@[j]).1 == 1,
        decreases n - i,
    {
        let word = toks[i].clone();
        proof {
            assert(all[i as int] == word@);
            assert(all.take(i as int + 1) =~= all.take(i as int) + seq![word@]);
            Seq::filter_distributes_over_add(
                all.take(i as int),
                seq![word@],
                not_stop_word(stops@),
            );
            lemma_filter_singleton(word@, not_stop_word(stops@));
        }
        let is_stop = stops.contains(&word);
        if !is_stop {
            let ghost before = pairs@;
            pairs.push((word, 1));
            proof {
                assert(table_keys(entry_views(pairs@)) =~= table_keys(
                    entry_views(before),
                ).push(word@));
                assert(without_stop_words(all.take(i as int + 1), stops@) =~= without_stop_words(
                    all.take(i as int),
                    stops@,
                ).push(word@));
            }
        } else {
            proof {
                assert(without_stop_words(all.take(i as int + 1), stops@) =~= without_stop_words(
                    all.take(i as int),
                    stops@,
                ));
            }
        }
        i = i + 1;
    }
    proof {
        assert(all.take(n as int) =~= all);
    }
    pairs
}

/// The predicate holding of the pairs keyed by `w`.
pub open spec fn key_matches(w: Seq<char>) -> spec_fn((Seq<char>, nat)) -> bool {
    |e: (Seq<char>, nat)| e.0 == w
}

/// The contributions collected for `w`: every pair of `ps` keyed by `w`,
/// in order.
pub open spec fn group_of(ps: Seq<(Seq<char>, nat)>, w: Seq<char>) -> Seq<(Seq<char>, nat)> {
    ps.filter(key_matches(w))
}

/// The counts of the contributions collected for `w`.
pub open spec fn group_counts(ps: Seq<(Seq<char>, nat)>, w: Seq<char>) -> Seq<nat> {
    group_of(ps, w).map_values(|e: (Seq<char>, nat)| e.1)
}

/// The views of a contribution list.
pub open spec fn count_views(cs: Seq<u64>) -> Seq<nat> {
    cs.map_values(|c: u64| c as nat)
}

/// The sum of a contribution list.
pub open spec fn total_of(cs: Seq<nat>) -> nat
    decreases cs.len(),
{
    if cs.len() == 0 {
        0
    } else {
        cs[0] + total_of(cs.drop_first())
    }
}

pub proof fn lemma_total_of_concat(a: Seq<nat>, b: Seq<nat>)
    ensures
        total_of(a + b) == total_of(a) + total_of(b),
    decreases a.len(),
{
    if a.len() == 0 {
        assert(a + b =~= b);
    } else {
        assert((a + b).drop_first() =~= a.drop_first() + b);
        lemma_total_of_concat(a.drop_first(), b);
    }
}

/// A list of single contributions sums to its length.
pub proof fn lemma_total_of_ones(cs: Seq<nat>)
    requires
        forall|i: int| 0 <= i < cs.len() ==> cs[i] == 1,
    ensures
        total_of(cs) == cs.len(),
    decreases cs.len(),
{
    if cs.len() > 0 {
        lemma_total_of_ones(cs.drop_first());
    }
}

/// The group of `w` is exactly as long as `w` occurs among the keys.
pub proof fn lemma_group_occ(ps: Seq<(Seq<char>, nat)>, w: Seq<char>)
    ensures
        group_of(ps, w).len() == crate::freq::occurrences(table_keys(ps), w),
    decreases ps.len(),
{
    reveal(Seq::filter);
    if ps.len() == 0 {
        assert(table_keys(ps) =~= Seq::<Seq<char>>::empty());
    } else {
        lemma_group_occ(ps.drop_last(), w);
        assert(table_keys(ps).drop_last() =~= table_keys(ps.drop_last()));
        assert(table_keys(ps).last() == ps.last().0);
    }
}

/// The keys of a grouping, in entry order.
pub open spec fn group_keys(g: Seq<(String, Vec<u64>)>) -> Seq<Seq<char>> {
    g.map_values(|e: (String, Vec<u64>)| e.0@)
}

/// All the pairs the mappers emitted, in chunk order.
pub open spec fn flat_pairs_spec(gs: Seq<Vec<(String, u64)>>) -> Seq<(Seq<char>, nat)> {
    gs.map_values(|g: Vec<(String, u64)>| entry_views(g@)).flatten()
}

/// The index of the group collected for `word`, if one exists yet.
fn find_key(result: &Vec<(String, Vec<u64>)>, word: &String) -> (r: Option<usize>)
    ensures
        match r {
            Some(j) => j < result@.len() && result@[j as int].0@ == word@,
            None => forall|q: int|
                0 <= q < result@.len() ==> (#[trigger] result@[q]).0@ != word@,
        },
{
    let n = result.len();
    let mut j: usize = 0;
    while j < n
        invariant
            j <= n,
            n == result@.len(),
            forall|q: int| 0 <= q < j ==> (#[trigger] result@[q]).0@ != word@,
        decreases n - j,
    {
        if result[j].0.eq(word) {
            return Some(j);
        }
        j = j + 1;
    }
    None
}

/// The shuffle: collects every emitted pair, across all chunks, into a
/// mapping from word to the ordered list of that word's contributions.
/// This is the synchronization barrier between the map and reduce phases.
pub fn regroup(groups: Vec<Vec<(String, u64)>>) -> (result: Vec<(String, Vec<u64>)>)
    ensures
        ({
            let flat = flat_pairs_spec(groups@);
            &&& group_keys(result@).no_duplicates()
            &&& forall|j: int|
                0 <= j < result@.len() ==> count_views((#[trigger] result@[j]).1@) == group_counts(
                    flat,
                    result@[j].0@,
                )
            &&& forall|j: int| 0 <= j < result@.len() ==> (#[trigger] result@[j]).1@.len() >= 1
            &&& forall|w: Seq<char>|
                !group_keys(result@).contains(w) ==> group_of(flat, w).len() == 0
        }),
{
    let ghost gs0 = groups@;
    // concatenate the chunk outputs in chunk order
    let mut flat: Vec<(String, u64)> = Vec::new();
    let mut rest = groups;
    proof {
        assert(gs0.take(0).map_values(|g: Vec<(String, u64)>| entry_views(g@)) =~= Seq::<
            Seq<(Seq<char>, nat)>,
        >::empty());
        assert(flat_pairs_spec(gs0.take(0)) =~= Seq::<(Seq<char>, nat)>::empty());
        assert(entry_views(flat@) =~= Seq::<(Seq<char>, nat)>::empty());
    }
    while rest.len() > 0
        invariant
            rest@.len() <= gs0.len(),
            rest@ == gs0.skip(gs0.len() - rest@.len()),
            entry_views(flat@) == flat_pairs_spec(gs0.take(gs0.len() - rest@.len())),
        decreases rest@.len(),
    {
        let ghost k = gs0.len() - rest@.len();
        let mut g = rest.remove(0);
        proof {
            assert(g == gs0[k]);
            assert(rest@ =~= gs0.skip(k + 1));
        }
        let ghost flat0 = flat@;
        flat.append(&mut g);
        proof {
            broadcast use Seq::lemma_flatten_push;

            assert(entry_views(flat@) =~= entry_views(flat0) + entry_views(gs0[k]@));
            assert(gs0.take(k + 1) =~= gs0.take(k).push(gs0[k]));
            assert(gs0.take(k + 1).map_values(|g: Vec<(String, u64)>| entry_views(g@)) =~= gs0.take(
                k,
            ).map_values(|g: Vec<(String, u64)>| entry_views(g@)).push(entry_views(gs0[k]@)));
        }
    }
    proof {
        assert(gs0.take(gs0.len() as int) =~= gs0);
    }
    // group the pairs by word, in first-occurrence order
    let ghost fp = entry_views(flat@);
    let mut result: Vec<(String, Vec<u64>)> = Vec::new();
    let mut pairs = flat;
    proof {
        reveal(Seq::filter);
        assert(fp.take(0) =~= Seq::<(Seq<char>, nat)>::empty());
        assert forall|w: Seq<char>| group_of(fp.take(0), w).len() == 0 by {
            assert(Seq::<(Seq<char>, nat)>::empty().filter(key_matches(w)) =~= Seq::<(
                Seq<char>,
                nat,
            )>::empty());
        }
        assert(group_keys(result@) =~= Seq::<Seq<char>>::empty());
    }
    while pairs.len() > 0
        invariant
            pairs@.len() <= fp.len(),
            entry_views(pairs@) == fp.skip(fp.len() - pairs@.len()),
            group_keys(result@).no_duplicates(),
            forall|j: int|
                0 <= j < result@.len() ==> count_views((#[trigger] result@[j]).1@) == group_counts(
                    fp.take(fp.len() - pairs@.len()),
                    result@[j].0@,
                ),
            forall|j: int| 0 <= j < result@.len() ==> (#[trigger] result@[j]).1@.len() >= 1,
            forall|w: Seq<char>|
                !group_keys(result@).contains(w) ==> group_of(
                    fp.take(fp.len() - pairs@.len()),
                    w,
                ).len() == 0,
        decreases pairs@.len(),
    {
        let ghost k = fp.len() - pairs@.len();
        let ghost ps0 = pairs@;
        proof {
            assert(entry_views(ps0)[0] == fp[k]);
        }
        let pr = pairs.remove(0);
        let (word, c) = pr;
        proof {
            assert(pairs@ =~= ps0.drop_first());
            assert(entry_views(pairs@) =~= entry_views(ps0).drop_first());
            assert(entry_views(ps0).drop_first() =~= fp.skip(k).drop_first());
            assert(fp.skip(k).drop_first() =~= fp.skip(k + 1));
            assert(fp[k] == (word@, c as nat));
            assert(fp.take(k + 1) =~= fp.take(k) + seq![fp[k]]);
            assert forall|w: Seq<char>| #[trigger] group_of(fp.take(k + 1), w) == group_of(
                fp.take(k),
                w,
            ) + (if w == word@ {
                seq![fp[k]]
            } else {
                Seq::<(Seq<char>, nat)>::empty()
            }) by {
                Seq::filter_distributes_over_add(fp.take(k), seq![fp[k]], key_matches(w));
                lemma_filter_singleton(fp[k], key_matches(w));
                if w != word@ {
                    assert(group_of(fp.take(k), w) + Seq::<(Seq<char>, nat)>::empty()
                        =~= group_of(fp.take(k), w));
                }
            }
        }
        // look the word up among the collected keys
        let rn = result.len();
        let found = match find_key(&result, &word) {
            Some(j) => j,
            None => rn,
        };
        proof {
            if found < rn {
                assert(result@[found as int].0@ == word@);
            } else {
                assert(forall|q: int| 0 <= q < rn ==> (#[trigger] result@[q]).0@ != word@);
            }
        }
        if found < rn {
            let ghost r0 = result@;
            let mut entry = result.remove(found);
            let ghost cs0 = entry.1@;
            entry.1.push(c);
            result.insert(found, entry);
            proof {
                assert(result@ =~= r0.update(
                    found as int,
                    (r0[found as int].0, result@[found as int].1),
                ));
                assert(result@[found as int].1@ =~= cs0.push(c));
                assert(group_keys(result@) =~= group_keys(r0));
                assert(r0[found as int].0@ == word@);
                assert forall|j2: int|
                    0 <= j2 < result@.len() implies count_views((#[trigger] result@[j2]).1@)
                    == group_counts(fp.take(k + 1), result@[j2].0@) by {
                    if j2 == found {
                        assert(count_views(cs0.push(c)) =~= count_views(cs0).push(c as nat));
                        assert(group_counts(fp.take(k + 1), word@) =~= group_counts(
                            fp.take(k),
                            word@,
                        ).push(c as nat));
                    } else {
                        assert(result@[j2] == r0[j2]);
                        assert(r0[j2].0@ != word@) by {
                            assert(group_keys(r0)[j2] == r0[j2].0@);
                            assert(group_keys(r0)[found as int] == word@);
                        }
                        assert(group_of(fp.take(k + 1), r0[j2].0@) == group_of(
                            fp.take(k),
                            r0[j2].0@,
                        ) + Seq::<(Seq<char>, nat)>::empty());
                        assert(group_of(fp.take(k + 1), r0[j2].0@) =~= group_of(
                            fp.take(k),
                            r0[j2].0@,
                        ));
                    }
                }
                assert forall|w: Seq<char>|
                    !group_keys(result@).contains(w) implies group_of(fp.take(k + 1), w).len()
                    == 0 by {
                    assert(group_keys(result@)[found as int] == word@);
                    assert(w != word@);
                    assert(group_of(fp.take(k + 1), w) =~= group_of(fp.take(k), w));
                }
            }
        } else {
            let ghost r0 = result@;
            let mut cs: Vec<u64> = Vec::new();
            cs.push(c);
            let ghost wv = word@;
            result.push((word, cs));
            proof {
                assert(group_keys(result@) =~= group_keys(r0).push(wv));
                assert forall|q: int| 0 <= q < r0.len() implies #[trigger] group_keys(r0)[q]
                    != wv by {
                    assert(r0[q].0@ != wv);
                }
                assert(!group_keys(r0).contains(wv));
                assert(group_of(fp.take(k), wv).len() == 0);
                assert forall|j2: int|
                    0 <= j2 < result@.len() implies count_views((#[trigger] result@[j2]).1@)
                    == group_counts(fp.take(k + 1), result@[j2].0@) by {
                    if j2 == r0.len() {
                        assert(result@[j2].1@ =~= seq![c]);
                        assert(count_views(seq![c]) =~= seq![c as nat]);
                        assert(group_of(fp.take(k), wv) =~= Seq::<(Seq<char>, nat)>::empty());
                        assert(group_of(fp.take(k + 1), wv) =~= seq![fp[k]]);
                        assert(group_counts(fp.take(k + 1), wv) =~= seq![c as nat]);
                    } else {
                        assert(result@[j2] == r0[j2]);
                        if r0[j2].0@ == wv {
                            assert(group_keys(r0)[j2] == wv);
                        }
                        assert(group_of(fp.take(k + 1), r0[j2].0@) =~= group_of(
                            fp.take(k),
                            r0[j2].0@,
                        ));
                    }
                }
                assert forall|w: Seq<char>|
                    !group_keys(result@).contains(w) implies group_of(fp.take(k + 1), w).len()
                    == 0 by {
                    assert(group_keys(result@)[r0.len() as int] == wv);
                    assert(w != wv);
                    assert(group_of(fp.take(k + 1), w) =~= group_of(fp.take(k), w));
                    assert(!group_keys(r0).contains(w)) by {
                        if group_keys(r0).contains(w) {
                            let q = choose|q: int|
                                0 <= q < r0.len() && group_keys(r0)[q] == w;
                            assert(group_keys(result@)[q] == w);
                        }
                    }
                }
            }
        }
    }
    proof {
        assert(fp.take(fp.len() as int) =~= fp);
        assert(fp == flat_pairs_spec(gs0));
    }
    result
}

/// The reducer: folds one word's contribution list into a single
/// (word, count) pair by summation.
pub fn count_words(item: (String, Vec<u64>)) -> (r: (String, u64))
    requires
        total_of(count_views(item.1@)) <= u64::MAX,
    ensures
        r.0 == item.0,
        r.1 as nat == total_of(count_views(item.1@)),
{
    let (word, cs) = item;
    let ghost all = count_views(cs@);
    let n = cs.len();
    let mut acc: u64 = 0;
    let mut i: usize = 0;
    proof {
        assert(all.take(0) =~= Seq::<nat>::empty());
    }
    while i < n
        invariant
            i <= n,
            n == cs@.len(),
            all == count_views(cs@),
            acc as nat == total_of(all.take(i as int)),
            total_of(all) <= u64::MAX,
        decreases n - i,
    {
        proof {
            assert(all.take(i as int + 1) =~= all.take(i as int) + seq![all[i as int]]);
            lemma_total_of_concat(all.take(i as int), seq![all[i as int]]);
            assert(seq![all[i as int]].drop_first() =~= Seq::<nat>::empty());
            assert(total_of(Seq::<nat>::empty()) == 0);
            assert(total_of(seq![all[i as int]]) == all[i as int]);
            // the running total never exceeds the whole
            assert(all =~= all.take(i as int + 1) + all.skip(i as int + 1));
            lemma_total_of_concat(all.take(i as int + 1), all.skip(i as int + 1));
            assert(all[i as int] == cs@[i as int] as nat);
        }
        acc = acc + cs[i];
        i = i + 1;
    }
    proof {
        assert(all.take(n as int) =~= all);
    }
    (word, acc)
}

/// The whole map-reduce run: partition the text into line chunks, map
/// each chunk to (word, 1) pairs, regroup by word, reduce by summation,
/// and rank. The result is the one ranked word-frequency table of the
/// text — identical to counting the unpartitioned token stream.
#[verifier::rlimit(100)]
pub fn map_reduce(text: &str, stop_text: &str, chunk_size: usize) -> (out: Vec<(String, u64)>)
    requires
        chunk_size >= 1,
    ensures
        crate::top::ranked_output(
            entry_views(out@),
            tokens(text@),
            crate::stop::stop_set(stop_text@),
        ),
{
    let ghost stops_spec = crate::stop::stop_set(stop_text@);
    let stops = StopWordSet::from_text(stop_text);
    let chunks = partition(text, chunk_size);
    let ghost cviews = word_views(chunks@);
    proof {
        assert forall|i: int|
            0 <= i < cviews.len() - 1 implies (#[trigger] cviews[i]).len() > 0
            && !crate::text::is_word_char(cviews[i].last()) by {
            assert(cviews[i] == chunks@[i]@);
            assert(chunks@[i]@.last() == '\n');
            assert(!crate::text::is_word_char('\n'));
        }
        crate::text::lemma_chunked_tokens(cviews);
        assert(cviews.flatten() == text@);
        assert(crate::text::chunked_tokens(cviews) == tokens(text@));
    }
    // map: one pure call per chunk
    let mut mapped: Vec<Vec<(String, u64)>> = Vec::new();
    let cn = chunks.len();
    let mut i: usize = 0;
    proof {
        assert(mapped@.map_values(|g: Vec<(String, u64)>| entry_views(g@)) =~= Seq::<
            Seq<(Seq<char>, nat)>,
        >::empty());
        assert(flat_pairs_spec(mapped@) =~= Seq::<(Seq<char>, nat)>::empty());
        assert(cviews.take(0) =~= Seq::<Seq<char>>::empty());
        assert(crate::text::chunked_tokens(cviews.take(0)) =~= Seq::<Seq<char>>::empty());
        reveal(Seq::filter);
        assert(table_keys(flat_pairs_spec(mapped@)) =~= without_stop_words(
            crate::text::chunked_tokens(cviews.take(0)),
            stops_spec,
        ));
    }
    while i < cn
        invariant
            i <= cn,
            cn == chunks@.len(),
            cviews == word_views(chunks@),
            stops@ == stops_spec,
            table_keys(flat_pairs_spec(mapped@)) == without_stop_words(
                crate::text::chunked_tokens(cviews.take(i as int)),
                stops_spec,
            ),
            forall|p: int|
                0 <= p < flat_pairs_spec(mapped@).len() ==> (#[trigger] flat_pairs_spec(
                    mapped@,
                )[p]).1 == 1,
        decreases cn - i,
    {
        let pairs = split_words(chunks[i].as_str(), &stops);
        let ghost m0 = mapped@;
        let ghost pv = entry_views(pairs@);
        mapped.push(pairs);
        proof {
            broadcast use Seq::lemma_flatten_push;

            assert(mapped@.map_values(|g: Vec<(String, u64)>| entry_views(g@)) =~= m0.map_values(
                |g: Vec<(String, u64)>| entry_views(g@),
            ).push(pv));
            assert(flat_pairs_spec(mapped@) =~= flat_pairs_spec(m0) + pv);
            assert(table_keys(flat_pairs_spec(mapped@)) =~= table_keys(
                flat_pairs_spec(m0),
            ) + table_keys(pv));
            assert(cviews.take(i as int + 1) =~= cviews.take(i as int).push(cviews[i as int]));
            crate::text::lemma_chunked_tokens_push(cviews.take(i as int), cviews[i as int]);
            crate::freq::lemma_without_stop_words_split(
                crate::text::chunked_tokens(cviews.take(i as int)),
                tokens(cviews[i as int]),
                stops_spec,
            );
            assert(cviews[i as int] == chunks@[i as int]@);
            assert(table_keys(pv) == without_stop_words(tokens(chunks@[i as int]@), stops_spec));
            assert forall|p: int|
                0 <= p < flat_pairs_spec(mapped@).len() implies (#[trigger] flat_pairs_spec(
                mapped@,
            )[p]).1 == 1 by {
                if p < flat_pairs_spec(m0).len() {
                    assert(flat_pairs_spec(mapped@)[p] == flat_pairs_spec(m0)[p]);
                } else {
                    assert(flat_pairs_spec(mapped@)[p] == pv[p - flat_pairs_spec(m0).len()]);
                    assert(pairs@[p - flat_pairs_spec(m0).len()].1 == 1);
                }
            }
        }
        i = i + 1;
    }
    proof {
        assert(cviews.take(cn as int) =~= cviews);
    }
    let ghost fp = flat_pairs_spec(mapped@);
    let ghost kept = without_stop_words(tokens(text@), stops_spec);
    proof {
        assert(table_keys(fp) == kept);
    }

    // shuffle, then reduce each group independently
    let grouped = regroup(mapped);
    let ghost gq = grouped@;
    let mut reduced: Vec<(String, u64)> = Vec::new();
    let mut rest = grouped;
    while rest.len() > 0
        invariant
            rest@.len() <= gq.len(),
            rest@ == gq.skip(gq.len() - rest@.len()),
            reduced@.len() == gq.len() - rest@.len(),
            group_keys(gq).no_duplicates(),
            forall|j: int|
                0 <= j < gq.len() ==> count_views((#[trigger] gq[j]).1@) == group_counts(
                    fp,
                    gq[j].0@,
                ),
            forall|j: int| 0 <= j < gq.len() ==> (#[trigger] gq[j]).1@.len() >= 1,
            forall|w: Seq<char>| !group_keys(gq).contains(w) ==> group_of(fp, w).len() == 0,
            forall|p: int| 0 <= p < fp.len() ==> (#[trigger] fp[p]).1 == 1,
            forall|j: int|
                0 <= j < reduced@.len() ==> (#[trigger] entry_views(reduced@)[j]).0 == gq[j].0@
                    && entry_views(reduced@)[j].1 == group_of(fp, gq[j].0@).len(),
        decreases rest@.len(),
    {
        let ghost k = gq.len() - rest@.len();
        let item = rest.remove(0);
        let item_len = item.1.len();
        proof {
            assert(item.1@.len() == item_len);
            assert(item == gq[k]);
            assert(rest@ =~= gq.skip(k + 1));
            // the contributions are all ones, so the sum is the group size
            assert(count_views(item.1@) == group_counts(fp, item.0@));
            assert forall|q: int| 0 <= q < count_views(item.1@).len() implies #[trigger]
                count_views(item.1@)[q] == 1 by {
                assert(group_counts(fp, item.0@)[q] == group_of(fp, item.0@)[q].1);
                let e = group_of(fp, item.0@)[q];
                assert(group_of(fp, item.0@).contains(e));
                crate::freq::lemma_filter_subset(fp, key_matches(item.0@), e);
                let x = choose|x: int| 0 <= x < fp.len() && fp[x] == e;
                assert(fp[x].1 == 1);
            }
            lemma_total_of_ones(count_views(item.1@));
            assert(total_of(count_views(item.1@)) == item.1@.len());
            assert(item.1@.len() <= usize::MAX);
        }
        let ghost key = item.0@;
        let ghost clen = item.1@.len();
        let pair = count_words(item);
        let ghost r0 = reduced@;
        reduced.push(pair);
        proof {
            assert(entry_views(reduced@) =~= entry_views(r0).push((pair.0@, pair.1 as nat)));
            assert(pair.0@ == key);
            assert(pair.1 as nat == clen);
            assert(group_of(fp, key).len() == group_counts(fp, key).len());
            assert(count_views(gq[k].1@).len() == clen);
            assert forall|j: int|
                0 <= j < reduced@.len() implies (#[trigger] entry_views(reduced@)[j]).0
                == gq[j].0@ && entry_views(reduced@)[j].1 == group_of(fp, gq[j].0@).len() by {
                if j < r0.len() {
                    assert(entry_views(reduced@)[j] == entry_views(r0)[j]);
                }
            }
        }
    }
    let ghost table = entry_views(reduced@);
    proof {
        assert(reduced@.len() == gq.len());
        // the reduced pairs form a well-formed table with the true counts
        assert(table_keys(table) =~= group_keys(gq));
        assert(crate::freq::table_wf(table)) by {
            assert forall|j: int| 0 <= j < table.len() implies (#[trigger] table[j]).1 >= 1 by {
                assert(table[j].1 == group_of(fp, gq[j].0@).len());
                assert(count_views(gq[j].1@) == group_counts(fp, gq[j].0@));
                assert(count_views(gq[j].1@).len() >= 1);
            }
        }
        assert forall|w: Seq<char>|
            crate::freq::count_in(table, w) == crate::freq::occurrences(kept, w) by {
            lemma_group_occ(fp, w);
            if group_keys(gq).contains(w) {
                let j = choose|j: int| 0 <= j < gq.len() && group_keys(gq)[j] == w;
                assert(table_keys(table)[j] == w);
                assert(table[j].0 == w);
                crate::freq::lemma_count_in_unique(table, j);
                assert(crate::freq::count_in(table, w) == table[j].1);
                assert(table[j].1 == group_of(fp, w).len());
            } else {
                assert(group_of(fp, w).len() == 0);
                assert forall|j: int| 0 <= j < table.len() implies (#[trigger] table[j]).0
                    != w by {
                    assert(table_keys(table)[j] == table[j].0);
                    assert(group_keys(gq)[j] == table_keys(table)[j]);
                }
                crate::freq::lemma_count_in_absent(table, w);
            }
        }
        assert(crate::top::counts_stream(table, tokens(text@), stops_spec));
    }
    let out = crate::rank::rank_entries(reduced);
    proof {
        assert(entry_views(out@) == crate::rank::rank_spec(table));
    }
    out
}

} // verus!
