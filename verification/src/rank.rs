//! Ranking: entries ordered by count descending, ties broken by ascending
//! lexicographic order on the word (the declared tie-break rule, chosen so
//! that the output is deterministic), truncated to at most 25 entries.

use vstd::prelude::*;
use vstd::relations::{sorted_by, total_ordering};
use vstd::seq_lib::*;
use vstd::string::StringExecFns;
use crate::freq::{
    count_in, entry_views, lemma_count_in_at, lemma_count_in_unique, lemma_key_iff_count,
    table_keys, table_wf, FrequencyTable,
};
use crate::text::push_char;

verus! {

/// The most entries a ranked result may hold.
pub const MAX_RANKED: usize = 25;

/// Ascending lexicographic order on words, by character codepoint.
pub open spec fn lex_le(a: Seq<char>, b: Seq<char>) -> bool
    decreases a.len(),
{
    if a.len() == 0 {
        true
    } else if b.len() == 0 {
        false
    } else if a[0] != b[0] {
        a[0] < b[0]
    } else {
        lex_le(a.drop_first(), b.drop_first())
    }
}

pub proof fn lemma_lex_le_refl(a: Seq<char>)
    ensures
        lex_le(a, a),
    decreases a.len(),
{
    if a.len() > 0 {
        lemma_lex_le_refl(a.drop_first());
    }
}

pub proof fn lemma_lex_le_total(a: Seq<char>, b: Seq<char>)
    ensures
        lex_le(a, b) || lex_le(b, a),
    decreases a.len(),
{
    if a.len() > 0 && b.len() > 0 && a[0] == b[0] {
        lemma_lex_le_total(a.drop_first(), b.drop_first());
    }
}

pub proof fn lemma_lex_le_antisym(a: Seq<char>, b: Seq<char>)
    requires
        lex_le(a, b),
        lex_le(b, a),
    ensures
        a == b,
    decreases a.len(),
{
    if a.len() == 0 {
        assert(b.len() == 0);
        assert(a =~= b);
    } else {
        assert(b.len() > 0);
        assert(a[0] == b[0]) by {
            if a[0] != b[0] {
                assert(lex_le(a, b) == (a[0] < b[0]));
                assert(lex_le(b, a) == (b[0] < a[0]));
            }
        }
        lemma_lex_le_antisym(a.drop_first(), b.drop_first());
        assert(a =~= b) by {
            assert(a.drop_first() =~= b.drop_first());
            assert(a.len() == b.len());
            assert(forall|i: int|
                1 <= i < a.len() ==> a[i] == a.drop_first()[i - 1] && b[i] == b.drop_first()[i
                    - 1]);
        }
    }
}

pub proof fn lemma_lex_le_trans(a: Seq<char>, b: Seq<char>, c: Seq<char>)
    requires
        lex_le(a, b),
        lex_le(b, c),
    ensures
        lex_le(a, c),
    decreases a.len(),
{
    if a.len() > 0 && b.len() > 0 && c.len() > 0 && a[0] == b[0] && b[0] == c[0] {
        lemma_lex_le_trans(a.drop_first(), b.drop_first(), c.drop_first());
    }
}

/// The ranking order on (word, count) entries: greater count first, ties
/// by ascending lexicographic order on the word.
pub open spec fn entry_le(a: (Seq<char>, nat), b: (Seq<char>, nat)) -> bool {
    b.1 < a.1 || (a.1 == b.1 && lex_le(a.0, b.0))
}

/// The ranking order as a relation value, for sorting.
pub open spec fn entry_order() -> spec_fn((Seq<char>, nat), (Seq<char>, nat)) -> bool {
    |a: (Seq<char>, nat), b: (Seq<char>, nat)| entry_le(a, b)
}

/// The ranking order is a total order, so sorting by it is deterministic.
pub proof fn lemma_entry_order_total()
    ensures
        total_ordering(entry_order()),
{
    let r = entry_order();
    assert forall|x: (Seq<char>, nat)| #[trigger] r(x, x) by {
        lemma_lex_le_refl(x.0);
    }
    assert forall|x: (Seq<char>, nat), y: (Seq<char>, nat)| #[trigger] r(x, y) && #[trigger] r(
        y,
        x,
    ) implies x == y by {
        lemma_lex_le_antisym(x.0, y.0);
    }
    assert forall|x: (Seq<char>, nat), y: (Seq<char>, nat), z: (Seq<char>, nat)|
        #[trigger] r(x, y) && #[trigger] r(y, z) implies r(x, z) by {
        if x.1 == y.1 && y.1 == z.1 {
            lemma_lex_le_trans(x.0, y.0, z.0);
        }
    }
    assert forall|x: (Seq<char>, nat), y: (Seq<char>, nat)| #[trigger] r(x, y) || #[trigger] r(
        y,
        x,
    ) by {
        lemma_lex_le_total(x.0, y.0);
    }
}

/// Whether `a` comes no later than `b` in ascending lexicographic order.
pub fn word_le(a: &String, b: &String) -> (r: bool)
    ensures
        r == lex_le(a@, b@),
{
    let an = a.as_str().unicode_len();
    let bn = b.as_str().unicode_len();
    let mut i: usize = 0;
    proof {
        assert(a@.skip(0) =~= a@);
        assert(b@.skip(0) =~= b@);
    }
    while i < an && i < bn
        invariant
            i <= an,
            i <= bn,
            an == a@.len(),
            bn == b@.len(),
            lex_le(a@, b@) == lex_le(a@.skip(i as int), b@.skip(i as int)),
        decreases an - i,
    {
        let ca = a.as_str().get_char(i);
        let cb = b.as_str().get_char(i);
        proof {
            assert(a@.skip(i as int)[0] == a@[i as int]);
            assert(b@.skip(i as int)[0] == b@[i as int]);
            assert(a@.skip(i as int).drop_first() =~= a@.skip(i as int + 1));
            assert(b@.skip(i as int).drop_first() =~= b@.skip(i as int + 1));
        }
        let ua = ca as u32;
        let ub = cb as u32;
        if ua < ub {
            return true;
        }
        if ub < ua {
            return false;
        }
        i = i + 1;
    }
    proof {
        if i == an {
            assert(a@.skip(i as int) =~= Seq::<char>::empty());
        } else {
            assert(b@.skip(i as int) =~= Seq::<char>::empty());
            assert(a@.skip(i as int).len() > 0);
        }
    }
    i >= an
}

/// Whether `x` comes no later than `y` in the ranking order.
pub fn entry_le_exec(x: &(String, u64), y: &(String, u64)) -> (r: bool)
    ensures
        r == entry_le((x.0@, x.1 as nat), (y.0@, y.1 as nat)),
{
    if y.1 < x.1 {
        true
    } else if x.1 == y.1 {
        word_le(&x.0, &y.0)
    } else {
        false
    }
}

/// The position before which the entry at `i` belongs among the sorted
/// first `i` entries.
fn find_pos(v: &Vec<(String, u64)>, i: usize) -> (j: usize)
    requires
        i < v@.len(),
    ensures
        j <= i,
        forall|k: int| 0 <= k < j ==> entry_order()(entry_views(v@)[k], entry_views(v@)[i as int]),
        j < i ==> !entry_order()(entry_views(v@)[j as int], entry_views(v@)[i as int]),
{
    let ghost s = entry_views(v@);
    let mut j: usize = 0;
    while j < i
        invariant
            j <= i < v@.len(),
            s == entry_views(v@),
            forall|k: int| 0 <= k < j ==> entry_order()(s[k], s[i as int]),
        decreases i - j,
    {
        let keep_going = entry_le_exec(&v[j], &v[i]);
        proof {
            assert(s[j as int] == (v@[j as int].0@, v@[j as int].1 as nat));
            assert(s[i as int] == (v@[i as int].0@, v@[i as int].1 as nat));
        }
        if !keep_going {
            return j;
        }
        j = j + 1;
    }
    j
}

/// Sorts the entries into the ranking order.
pub fn sort_entries(v: &mut Vec<(String, u64)>)
    ensures
        entry_views(final(v)@) == entry_views(old(v)@).sort_by(entry_order()),
{
    let ghost orig = entry_views(old(v)@);
    let ghost ord = entry_order();
    proof {
        lemma_entry_order_total();
    }
    let n = v.len();
    if n > 1 {
        let mut i: usize = 1;
        while i < n
            invariant
                1 <= i <= n,
                n == v@.len(),
                ord == entry_order(),
                orig == entry_views(old(v)@),
                entry_views(v@).to_multiset() == orig.to_multiset(),
                sorted_by(entry_views(v@).take(i as int), ord),
                total_ordering(ord),
            decreases n - i,
        {
            let ghost s = entry_views(v@);
            let j = find_pos(v, i);
            let ghost x = s[i as int];
            proof {
                // indexing into the sorted prefix reaches the same entries
                assert forall|k1: int, k2: int| 0 <= k1 < k2 < i implies #[trigger] ord(
                    s[k1],
                    s[k2],
                ) by {
                    assert(s.take(i as int)[k1] == s[k1]);
                    assert(s.take(i as int)[k2] == s[k2]);
                }
                // every displaced element follows x in the order
                assert forall|k: int| j <= k < i implies #[trigger] ord(x, s[k]) by {
                    assert(j < i);
                    assert(!ord(s[j as int], s[i as int]));
                    assert(ord(s[i as int], s[j as int]) || ord(s[j as int], s[i as int]));
                    assert(ord(x, s[j as int]));
                    if k > j {
                        assert(ord(s[j as int], s[k]));
                        assert(ord(x, s[j as int]) && ord(s[j as int], s[k]) ==> ord(x, s[k]));
                    }
                }
            }
            let e = v.remove(i);
            v.insert(j, e);
            proof {
                broadcast use vstd::seq_lib::group_to_multiset_ensures;

                let after = entry_views(v@);
                assert(after =~= s.remove(i as int).insert(j as int, x));
                assert(s.remove(i as int).to_multiset() =~= s.to_multiset().remove(x));
                assert(after.to_multiset() =~= s.to_multiset().remove(x).insert(x));
                assert(s.to_multiset().contains(x)) by {
                    assert(s.contains(x));
                }
                assert(after.to_multiset() =~= s.to_multiset());
                // the prefix one longer is sorted again
                assert forall|p: int, q: int| 0 <= p < q < i + 1 implies #[trigger] ord(
                    after.take(i as int + 1)[p],
                    after.take(i as int + 1)[q],
                ) by {
                    assert(forall|k: int| 0 <= k < j ==> after[k] == s[k]);
                    assert(after[j as int] == x);
                    assert(forall|k: int| j < k <= i ==> after[k] == s[k - 1]);
                    assert(after.take(i as int + 1)[p] == after[p]);
                    assert(after.take(i as int + 1)[q] == after[q]);
                }
            }
            i = i + 1;
        }
    }
    proof {
        let mine = entry_views(v@);
        if n <= 1 {
            assert(mine =~= orig);
        } else {
            assert(mine.take(n as int) =~= mine);
        }
        assert(sorted_by(mine, ord));
        orig.lemma_sort_by_ensures(ord);
        lemma_sorted_unique(mine, orig.sort_by(ord), ord);
        assert(mine =~= orig.sort_by(ord));
    }
}

/// The entries sorted into the ranking order, truncated to the first
/// `k`.
pub open spec fn ranked_take(t: Seq<(Seq<char>, nat)>, k: int) -> Seq<(Seq<char>, nat)> {
    let sorted = t.sort_by(entry_order());
    if sorted.len() <= k {
        sorted
    } else {
        sorted.take(k)
    }
}

/// The ranked result of a table: its entries sorted into the ranking
/// order, truncated to at most `MAX_RANKED` entries.
pub open spec fn rank_spec(t: Seq<(Seq<char>, nat)>) -> Seq<(Seq<char>, nat)> {
    ranked_take(t, MAX_RANKED as int)
}

/// Ranks a list of entries: sorts them by count descending with the
/// lexicographic tie-break, and keeps at most the first `MAX_RANKED`.
pub fn rank_entries(entries: Vec<(String, u64)>) -> (out: Vec<(String, u64)>)
    ensures
        entry_views(out@) == rank_spec(entry_views(entries@)),
{
    let mut v = entries;
    sort_entries(&mut v);
    if v.len() > MAX_RANKED {
        let ghost before = entry_views(v@);
        v.truncate(MAX_RANKED);
        proof {
            assert(entry_views(v@) =~= before.take(MAX_RANKED as int));
        }
    }
    v
}

/// Ranks a frequency table: sorts its entries by count descending with the
/// lexicographic tie-break, and keeps at most the first `MAX_RANKED`.
pub fn rank(t: FrequencyTable) -> (out: Vec<(String, u64)>)
    ensures
        entry_views(out@) == rank_spec(t@),
{
    let entries = t.into_entries();
    rank_entries(entries)
}

/// The decimal digit characters of a number, most significant first.
pub open spec fn digit_char(d: nat) -> char {
    if d == 0 {
        '0'
    } else if d == 1 {
        '1'
    } else if d == 2 {
        '2'
    } else if d == 3 {
        '3'
    } else if d == 4 {
        '4'
    } else if d == 5 {
        '5'
    } else if d == 6 {
        '6'
    } else if d == 7 {
        '7'
    } else if d == 8 {
        '8'
    } else {
        '9'
    }
}

pub open spec fn decimal(n: nat) -> Seq<char>
    decreases n,
{
    if n < 10 {
        seq![digit_char(n)]
    } else {
        decimal(n / 10).push(digit_char(n % 10))
    }
}

fn digit(d: u64) -> (c: char)
    requires
        d < 10,
    ensures
        c == digit_char(d as nat),
{
    if d == 0 {
        '0'
    } else if d == 1 {
        '1'
    } else if d == 2 {
        '2'
    } else if d == 3 {
        '3'
    } else if d == 4 {
        '4'
    } else if d == 5 {
        '5'
    } else if d == 6 {
        '6'
    } else if d == 7 {
        '7'
    } else if d == 8 {
        '8'
    } else {
        '9'
    }
}

/// Writes `n` in decimal.
pub fn fmt_u64(n: u64) -> (s: String)
    ensures
        s@ == decimal(n as nat),
    decreases n,
{
    if n < 10 {
        let mut s = String::new();
        push_char(&mut s, digit(n));
        proof {
            assert(s@ =~= seq![digit_char(n as nat)]);
        }
        s
    } else {
        let mut s = fmt_u64(n / 10);
        push_char(&mut s, digit(n % 10));
        s
    }
}

/// One output line: `<word> - <count>`, newline-terminated.
pub open spec fn report_line(e: (Seq<char>, nat)) -> Seq<char> {
    e.0 + " - "@ + decimal(e.1) + "\n"@
}

/// The full report text of a ranked result, one line per entry.
pub open spec fn report_lines(t: Seq<(Seq<char>, nat)>) -> Seq<char>
    decreases t.len(),
{
    if t.len() == 0 {
        Seq::empty()
    } else {
        report_line(t[0]) + report_lines(t.drop_first())
    }
}

pub proof fn lemma_report_lines_concat(a: Seq<(Seq<char>, nat)>, b: Seq<(Seq<char>, nat)>)
    ensures
        report_lines(a + b) == report_lines(a) + report_lines(b),
    decreases a.len(),
{
    if a.len() == 0 {
        assert(a + b =~= b);
        assert(report_lines(a) + report_lines(b) =~= report_lines(b));
    } else {
        assert((a + b).drop_first() =~= a.drop_first() + b);
        lemma_report_lines_concat(a.drop_first(), b);
        assert(report_line(a[0]) + (report_lines(a.drop_first()) + report_lines(b))
            =~= (report_line(a[0]) + report_lines(a.drop_first())) + report_lines(b));
    }
}

/// Renders a ranked result, one `<word> - <count>` line per entry.
pub fn report(entries: &Vec<(String, u64)>) -> (s: String)
    ensures
        s@ == report_lines(entry_views(entries@)),
{
    let ghost all = entry_views(entries@);
    let mut s = String::new();
    let n = entries.len();
    let mut i: usize = 0;
    proof {
        assert(all.take(0) =~= Seq::<(Seq<char>, nat)>::empty());
        assert(s@ =~= report_lines(all.take(0)));
    }
    while i < n
        invariant
            i <= n,
            n == entries@.len(),
            all == entry_views(entries@),
            s@ == report_lines(all.take(i as int)),
        decreases n - i,
    {
        let word = &entries[i].0;
        let times = entries[i].1;
        s.append(word.as_str());
        s.append(" - ");
        let d = fmt_u64(times);
        s.append(d.as_str());
        s.append("\n");
        proof {
            assert(all.take(i as int + 1) =~= all.take(i as int) + seq![all[i as int]]);
            lemma_report_lines_concat(all.take(i as int), seq![all[i as int]]);
            assert(seq![all[i as int]].drop_first() =~= Seq::<(Seq<char>, nat)>::empty());
            assert(report_lines(Seq::<(Seq<char>, nat)>::empty()) =~= Seq::<char>::empty());
            assert(report_lines(seq![all[i as int]]) =~= report_line(all[i as int]) + Seq::<
                char,
            >::empty());
            assert(report_line(all[i as int]) + Seq::<char>::empty() =~= report_line(
                all[i as int],
            ));
            assert(all[i as int] == (word@, times as nat));
            assert(s@ =~= report_lines(all.take(i as int)) + report_line(all[i as int]));
        }
        i = i + 1;
    }
    proof {
        assert(all.take(n as int) =~= all);
    }
    s
}

/// In a well-formed table, distinct positions hold distinct entries.
pub proof fn lemma_entries_no_dup(t: Seq<(Seq<char>, nat)>)
    requires
        table_wf(t),
    ensures
        t.no_duplicates(),
{
    assert forall|i: int, j: int| 0 <= i < t.len() && 0 <= j < t.len() && i != j implies t[i]
        != t[j] by {
        assert(table_keys(t)[i] == t[i].0);
        assert(table_keys(t)[j] == t[j].0);
    }
}

/// Removing one position keeps a key sequence free of duplicates.
proof fn lemma_no_dup_remove<A>(s: Seq<A>, j: int)
    requires
        s.no_duplicates(),
        0 <= j < s.len(),
    ensures
        s.remove(j).no_duplicates(),
{
    let r = s.remove(j);
    assert forall|p: int, q: int| 0 <= p < r.len() && 0 <= q < r.len() && p != q implies r[p]
        != r[q] by {
        let p0 = if p < j { p } else { p + 1 };
        let q0 = if q < j { q } else { q + 1 };
        assert(r[p] == s[p0]);
        assert(r[q] == s[q0]);
    }
}

/// Two well-formed tables that record the same count for every word hold
/// the same entries, up to order.
pub proof fn lemma_table_multiset_from_counts(t1: Seq<(Seq<char>, nat)>, t2: Seq<(Seq<char>, nat)>)
    requires
        table_wf(t1),
        table_wf(t2),
        forall|w: Seq<char>| count_in(t1, w) == count_in(t2, w),
    ensures
        t1.to_multiset() == t2.to_multiset(),
    decreases t1.len(),
{
    broadcast use vstd::seq_lib::group_to_multiset_ensures;
    broadcast use vstd::multiset::group_multiset_axioms;

    if t1.len() == 0 {
        if t2.len() > 0 {
            lemma_count_in_at(t2, 0);
            assert(count_in(t1, t2[0].0) == 0);
            assert(false);
        }
        assert(t1.to_multiset() =~= t2.to_multiset());
    } else {
        let e = t1[0];
        lemma_count_in_unique(t1, 0);
        assert(count_in(t2, e.0) == e.1 && e.1 >= 1);
        lemma_key_iff_count(t2, e.0);
        let j = choose|j: int| 0 <= j < t2.len() && table_keys(t2)[j] == e.0;
        assert(t2[j].0 == e.0);
        lemma_count_in_unique(t2, j);
        assert(t2[j] == e);
        let r1 = t1.drop_first();
        let r2 = t2.remove(j);
        // both remainders are well formed
        assert(table_keys(r1) =~= table_keys(t1).drop_first());
        assert(table_keys(t1).drop_first() =~= table_keys(t1).remove(0));
        lemma_no_dup_remove(table_keys(t1), 0);
        assert(table_keys(r2) =~= table_keys(t2).remove(j));
        lemma_no_dup_remove(table_keys(t2), j);
        assert(table_wf(r1)) by {
            assert(forall|i: int| 0 <= i < r1.len() ==> r1[i] == t1[i + 1]);
        }
        assert(table_wf(r2)) by {
            assert(forall|i: int|
                0 <= i < r2.len() ==> r2[i] == (if i < j {
                    t2[i]
                } else {
                    t2[i + 1]
                }));
        }
        // the remainders record the same counts
        assert forall|w: Seq<char>| count_in(r1, w) == count_in(r2, w) by {
            assert(count_in(t1, w) == (if e.0 == w {
                e.1 + count_in(r1, w)
            } else {
                count_in(r1, w)
            }));
            assert(t2 =~= t2.take(j) + seq![e] + t2.skip(j + 1));
            assert(r2 =~= t2.take(j) + t2.skip(j + 1));
            crate::freq::lemma_count_in_concat(t2.take(j) + seq![e], t2.skip(j + 1), w);
            crate::freq::lemma_count_in_concat(t2.take(j), seq![e], w);
            crate::freq::lemma_count_in_concat(t2.take(j), t2.skip(j + 1), w);
            crate::freq::lemma_count_in_singleton(e, w);
        }
        lemma_table_multiset_from_counts(r1, r2);
        // put the shared entry back
        assert(r1 =~= t1.remove(0));
        assert(r1.to_multiset() == t1.to_multiset().remove(e));
        assert(r2.to_multiset() == t2.to_multiset().remove(e));
        lemma_count_in_at(t1, 0);
        assert(t1.to_multiset().contains(e)) by {
            assert(t1.contains(e));
        }
        assert(t2.to_multiset().contains(e)) by {
            assert(t2.contains(e));
        }
        assert(t1.to_multiset() =~= t1.to_multiset().remove(e).insert(e));
        assert(t2.to_multiset() =~= t2.to_multiset().remove(e).insert(e));
    }
}

/// Re-running the ranking on tables with the same counts gives the same
/// result: the output depends only on the count recorded for each word,
/// not on the order in which the words were met.
pub proof fn lemma_ranking_deterministic(t1: Seq<(Seq<char>, nat)>, t2: Seq<(Seq<char>, nat)>)
    requires
        table_wf(t1),
        table_wf(t2),
        forall|w: Seq<char>| count_in(t1, w) == count_in(t2, w),
    ensures
        rank_spec(t1) == rank_spec(t2),
{
    broadcast use vstd::seq_lib::group_to_multiset_ensures;

    let ord = entry_order();
    lemma_entry_order_total();
    lemma_table_multiset_from_counts(t1, t2);
    t1.lemma_sort_by_ensures(ord);
    t2.lemma_sort_by_ensures(ord);
    lemma_sorted_unique(t1.sort_by(ord), t2.sort_by(ord), ord);
    assert(t1.sort_by(ord) =~= t2.sort_by(ord));
}

/// What holds of a ranked result: at most 25 entries, sorted by the
/// ranking order with no key repeated, every entry carrying its word's
/// true count, and every word left out ranking no earlier than any entry
/// kept.
pub proof fn lemma_rank_spec_wf(t: Seq<(Seq<char>, nat)>)
    requires
        table_wf(t),
    ensures
        rank_spec(t).len() <= MAX_RANKED as int,
        rank_spec(t).len() == (if t.len() <= MAX_RANKED as int {
            t.len() as int
        } else {
            MAX_RANKED as int
        }),
        sorted_by(rank_spec(t), entry_order()),
        table_keys(rank_spec(t)).no_duplicates(),
        forall|i: int|
            0 <= i < rank_spec(t).len() ==> count_in(t, #[trigger] rank_spec(t)[i].0)
                == rank_spec(t)[i].1 && rank_spec(t)[i].1 >= 1,
        forall|w: Seq<char>|
            count_in(t, w) >= 1 && !table_keys(rank_spec(t)).contains(w) ==> forall|i: int|
                0 <= i < rank_spec(t).len() ==> entry_le(
                    #[trigger] rank_spec(t)[i],
                    (w, count_in(t, w)),
                ),
{
    broadcast use vstd::seq_lib::group_to_multiset_ensures;

    let ord = entry_order();
    let sorted = t.sort_by(ord);
    let out = rank_spec(t);
    lemma_entry_order_total();
    t.lemma_sort_by_ensures(ord);
    assert(sorted.len() == t.len()) by {
        assert(sorted.to_multiset().len() == t.to_multiset().len());
    }
    assert(forall|i: int| 0 <= i < out.len() ==> out[i] == sorted[i]);
    // each kept entry is a true entry of the table
    assert forall|i: int| 0 <= i < out.len() implies count_in(t, #[trigger] out[i].0) == out[i].1
        && out[i].1 >= 1 by {
        assert(sorted.to_multiset().contains(sorted[i])) by {
            assert(sorted.contains(sorted[i]));
        }
        assert(t.contains(sorted[i]));
        let k = choose|k: int| 0 <= k < t.len() && t[k] == sorted[i];
        lemma_count_in_unique(t, k);
    }
    // entries, and so keys, stay distinct
    lemma_entries_no_dup(t);
    t.lemma_multiset_has_no_duplicates();
    assert(forall|x: (Seq<char>, nat)|
        sorted.to_multiset().contains(x) ==> sorted.to_multiset().count(x) == 1);
    sorted.lemma_multiset_has_no_duplicates_conv();
    assert forall|p: int, q: int|
        0 <= p < out.len() && 0 <= q < out.len() && p != q implies #[trigger] table_keys(out)[p]
        != #[trigger] table_keys(out)[q] by {
        if out[p].0 == out[q].0 {
            assert(count_in(t, out[p].0) == out[p].1);
            assert(count_in(t, out[q].0) == out[q].1);
            assert(out[p] == out[q]);
            assert(sorted[p] == sorted[q]);
        }
        assert(table_keys(out)[p] == out[p].0);
        assert(table_keys(out)[q] == out[q].0);
    }
    // everything not kept ranks no earlier than what was kept
    assert forall|w: Seq<char>|
        count_in(t, w) >= 1 && !table_keys(out).contains(w) implies forall|i: int|
            0 <= i < out.len() ==> entry_le(#[trigger] out[i], (w, count_in(t, w))) by {
        lemma_key_iff_count(t, w);
        let k = choose|k: int| 0 <= k < t.len() && table_keys(t)[k] == w;
        assert(t[k].0 == w);
        lemma_count_in_unique(t, k);
        assert(t[k] == (w, count_in(t, w)));
        assert(sorted.to_multiset().contains(t[k])) by {
            assert(t.contains(t[k]));
            assert(t.to_multiset().contains(t[k]));
        }
        assert(sorted.contains(t[k]));
        let m = choose|m: int| 0 <= m < sorted.len() && sorted[m] == t[k];
        assert(m >= out.len()) by {
            if m < out.len() {
                assert(out[m] == t[k]);
                assert(table_keys(out)[m] == w);
            }
        }
        assert forall|i: int| 0 <= i < out.len() implies entry_le(
            #[trigger] out[i],
            (w, count_in(t, w)),
        ) by {
            assert(ord(sorted[i], sorted[m]));
        }
    }
}

} // verus!
