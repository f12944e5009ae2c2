//! The stop-word set: an immutable set of words, loaded once per run from a
//! comma-separated list, shared read-only by every component that filters.

use vstd::prelude::*;
use crate::text::push_char;

verus! {

/// The fields of a comma-separated list, when a partial field `cur` has
/// already been read. Every field is kept, even an empty one.
pub open spec fn fields_from(s: Seq<char>, cur: Seq<char>) -> Seq<Seq<char>>
    decreases s.len(),
{
    if s.len() == 0 {
        seq![cur]
    } else if s[0] == ',' {
        seq![cur] + fields_from(s.drop_first(), Seq::empty())
    } else {
        fields_from(s.drop_first(), cur.push(s[0]))
    }
}

/// The fields of a comma-separated list.
pub open spec fn fields(s: Seq<char>) -> Seq<Seq<char>> {
    fields_from(s, Seq::empty())
}

/// The stop-word set described by the text of a stop-word file.
pub open spec fn stop_set(s: Seq<char>) -> Set<Seq<char>> {
    fields(s).to_set()
}

/// An immutable exclusion set of words. It is built once, and only
/// membership is ever asked of it.
pub struct StopWordSet {
    words: Vec<String>,
}

impl StopWordSet {
    /// The set of words held.
    pub closed spec fn view(&self) -> Set<Seq<char>> {
        crate::text::word_views(self.words@).to_set()
    }

    /// An empty exclusion set.
    pub fn new() -> (r: StopWordSet)
        ensures
            r@ == Set::<Seq<char>>::empty(),
    {
        let r = StopWordSet { words: Vec::new() };
        proof {
            assert(r@ =~= Set::<Seq<char>>::empty());
        }
        r
    }

    /// Loads the set from the text of a stop-word file: a comma-separated
    /// list, every field taken as one word.
    pub fn from_text(s: &str) -> (r: StopWordSet)
        ensures
            r@ == fields(s@).to_set(),
    {
        let n = s.unicode_len();
        let mut words: Vec<String> = Vec::new();
        let mut cur = String::new();
        let mut i: usize = 0;
        proof {
            assert(s@.skip(0) =~= s@);
            assert(crate::text::word_views(words@) + fields_from(s@, cur@) =~= fields_from(
                s@,
                cur@,
            ));
        }
        while i < n
            invariant
                i <= n,
                n == s@.len(),
                fields(s@) == crate::text::word_views(words@) + fields_from(
                    s@.skip(i as int),
                    cur@,
                ),
            decreases n - i,
        {
            let c = s.get_char(i);
            proof {
                assert(s@.skip(i as int)[0] == s@[i as int]);
                assert(s@.skip(i as int).drop_first() =~= s@.skip(i as int + 1));
            }
            if c == ',' {
                let ghost old_words = words@;
                let ghost old_cur = cur@;
                words.push(cur);
                proof {
                    assert(crate::text::word_views(words@) =~= crate::text::word_views(
                        old_words,
                    ).push(old_cur));
                    assert(crate::text::word_views(old_words) + (seq![old_cur] + fields_from(
                        s@.skip(i as int + 1),
                        Seq::empty(),
                    )) =~= crate::text::word_views(words@) + fields_from(
                        s@.skip(i as int + 1),
                        Seq::empty(),
                    ));
                }
                cur = String::new();
            } else {
                push_char(&mut cur, c);
            }
            i = i + 1;
        }
        proof {
            assert(s@.skip(n as int) =~= Seq::<char>::empty());
        }
        let ghost old_words = words@;
        let ghost old_cur = cur@;
        words.push(cur);
        proof {
            assert(crate::text::word_views(words@) =~= crate::text::word_views(old_words).push(
                old_cur,
            ));
            assert(crate::text::word_views(old_words) + seq![old_cur] =~= crate::text::word_views(
                words@,
            ));
        }
        StopWordSet { words }
    }

    /// Whether `w` is a stop word.
    pub fn contains(&self, w: &String) -> (r: bool)
        ensures
            r == self@.contains(w@),
    {
        let n = self.words.len();
        let mut i: usize = 0;
        while i < n
            invariant
                i <= n,
                n == self.words@.len(),
                forall|j: int|
                    0 <= j < i ==> #[trigger] self.words@[j]@ != w@,
            decreases n - i,
        {
            if self.words[i].eq(w) {
                proof {
                    assert(crate::text::word_views(self.words@)[i as int] == w@);
                    assert(self@.contains(w@));
                }
                return true;
            }
            i = i + 1;
        }
        proof {
            assert forall|t: Seq<char>| crate::text::word_views(self.words@).contains(t)
                implies t != w@ by {
                let j = choose|j: int|
                    0 <= j < self.words@.len() && crate::text::word_views(self.words@)[j] == t;
                assert(self.words@[j]@ != w@);
            }
            assert(!self@.contains(w@));
        }
        false
    }
}

} // verus!
