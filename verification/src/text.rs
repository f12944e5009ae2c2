//! Tokenization: a token is a maximal run of ASCII-alphabetic characters,
//! case-folded to lower case; runs of length <= 1 are discarded at this
//! boundary, before any further processing sees them.

use vstd::prelude::*;

verus! {

/// A word character: an ASCII letter.
pub open spec fn is_word_char(c: char) -> bool {
    (97 <= c as u32 && c as u32 <= 122) || (65 <= c as u32 && c as u32 <= 90)
}

/// Case-fold one character: an ASCII upper-case letter maps to its
/// lower-case form; every other character is unchanged.
pub open spec fn lower_char(c: char) -> char {
    match c {
        'A' => 'a',
        'B' => 'b',
        'C' => 'c',
        'D' => 'd',
        'E' => 'e',
        'F' => 'f',
        'G' => 'g',
        'H' => 'h',
        'I' => 'i',
        'J' => 'j',
        'K' => 'k',
        'L' => 'l',
        'M' => 'm',
        'N' => 'n',
        'O' => 'o',
        'P' => 'p',
        'Q' => 'q',
        'R' => 'r',
        'S' => 's',
        'T' => 't',
        'U' => 'u',
        'V' => 'v',
        'W' => 'w',
        'X' => 'x',
        'Y' => 'y',
        'Z' => 'z',
        _ => c,
    }
}

/// What a finished run contributes to the token stream: itself if it is
/// long enough to be a token, nothing otherwise.
pub open spec fn emit_run(run: Seq<char>) -> Seq<Seq<char>> {
    if run.len() > 1 {
        seq![run]
    } else {
        Seq::empty()
    }
}

/// The token stream of `s` when a (case-folded) partial run `run` has
/// already been read immediately before `s`.
pub open spec fn tokens_from(s: Seq<char>, run: Seq<char>) -> Seq<Seq<char>>
    decreases s.len(),
{
    if s.len() == 0 {
        emit_run(run)
    } else if is_word_char(s[0]) {
        tokens_from(s.drop_first(), run.push(lower_char(s[0])))
    } else {
        emit_run(run) + tokens_from(s.drop_first(), Seq::empty())
    }
}

/// The token stream of a text: maximal ASCII-alphabetic runs in order,
/// case-folded, with runs of length <= 1 discarded.
pub open spec fn tokens(s: Seq<char>) -> Seq<Seq<char>> {
    tokens_from(s, Seq::empty())
}

/// Every token of a stream is longer than one character: shorter runs are
/// discarded at the tokenization boundary.
pub proof fn lemma_tokens_long(s: Seq<char>, run: Seq<char>)
    ensures
        forall|i: int|
            0 <= i < tokens_from(s, run).len() ==> (#[trigger] tokens_from(s, run)[i]).len() > 1,
    decreases s.len(),
{
    if s.len() == 0 {
        assert forall|i: int|
            0 <= i < tokens_from(s, run).len() implies (#[trigger] tokens_from(s, run)[i]).len()
            > 1 by {
            assert(tokens_from(s, run) == emit_run(run));
            assert(emit_run(run)[i] == run);
        }
    } else if is_word_char(s[0]) {
        lemma_tokens_long(s.drop_first(), run.push(lower_char(s[0])));
        let rec = tokens_from(s.drop_first(), run.push(lower_char(s[0])));
        assert forall|i: int|
            0 <= i < tokens_from(s, run).len() implies (#[trigger] tokens_from(s, run)[i]).len()
            > 1 by {
            assert(tokens_from(s, run)[i] == rec[i]);
        }
    } else {
        lemma_tokens_long(s.drop_first(), Seq::empty());
        let rest = tokens_from(s.drop_first(), Seq::empty());
        assert forall|i: int|
            0 <= i < tokens_from(s, run).len() implies (#[trigger] tokens_from(s, run)[i]).len()
            > 1 by {
            if i < emit_run(run).len() {
                assert(tokens_from(s, run)[i] == emit_run(run)[i]);
                assert(emit_run(run)[i] == run);
            } else {
                assert(tokens_from(s, run)[i] == rest[i - emit_run(run).len()]);
            }
        }
    }
}

/// Cutting a text immediately after a separator splits its token stream:
/// the run is finished there, so nothing crosses the cut.
pub proof fn lemma_tokens_split_at_separator(s1: Seq<char>, s2: Seq<char>, run: Seq<char>)
    requires
        s1.len() > 0,
        !is_word_char(s1.last()),
    ensures
        tokens_from(s1 + s2, run) == tokens_from(s1, run) + tokens_from(s2, Seq::empty()),
    decreases s1.len(),
{
    if s1.len() == 1 {
        assert((s1 + s2).len() == 1 + s2.len());
        assert((s1 + s2)[0] == s1[0]);
        assert((s1 + s2).drop_first() =~= s2);
        assert(s1[0] == s1.last());
        assert(s1.drop_first() =~= Seq::<char>::empty());
        assert(emit_run(Seq::<char>::empty()) =~= Seq::<Seq<char>>::empty());
        assert(tokens_from(s1, run) =~= emit_run(run));
        assert(tokens_from(s1 + s2, run) =~= emit_run(run) + tokens_from(s2, Seq::empty()));
    } else {
        assert((s1 + s2).len() == s1.len() + s2.len());
        assert((s1 + s2)[0] == s1[0]);
        assert((s1 + s2).drop_first() =~= s1.drop_first() + s2);
        assert(s1.drop_first().last() == s1.last());
        if is_word_char(s1[0]) {
            lemma_tokens_split_at_separator(s1.drop_first(), s2, run.push(lower_char(s1[0])));
        } else {
            lemma_tokens_split_at_separator(s1.drop_first(), s2, Seq::empty());
            assert(emit_run(run) + (tokens_from(s1.drop_first(), Seq::empty()) + tokens_from(
                s2,
                Seq::empty(),
            )) =~= (emit_run(run) + tokens_from(s1.drop_first(), Seq::empty())) + tokens_from(
                s2,
                Seq::empty(),
            ));
        }
    }
}

/// The token streams of a sequence of chunks, concatenated in chunk
/// order.
pub open spec fn chunked_tokens(chunks: Seq<Seq<char>>) -> Seq<Seq<char>>
    decreases chunks.len(),
{
    if chunks.len() == 0 {
        Seq::empty()
    } else {
        tokens(chunks.first()) + chunked_tokens(chunks.drop_first())
    }
}

pub proof fn lemma_chunked_tokens_push(chunks: Seq<Seq<char>>, c: Seq<char>)
    ensures
        chunked_tokens(chunks.push(c)) == chunked_tokens(chunks) + tokens(c),
    decreases chunks.len(),
{
    if chunks.len() == 0 {
        assert(chunks.push(c).drop_first() =~= Seq::<Seq<char>>::empty());
        assert(chunks.push(c).first() == c);
        assert(chunked_tokens(Seq::<Seq<char>>::empty()) =~= Seq::<Seq<char>>::empty());
        assert(tokens(c) + Seq::<Seq<char>>::empty() =~= tokens(c));
        assert(chunked_tokens(chunks.push(c)) =~= tokens(c));
        assert(chunked_tokens(chunks) + tokens(c) =~= tokens(c));
    } else {
        assert(chunks.push(c).drop_first() =~= chunks.drop_first().push(c));
        assert(chunks.push(c).first() == chunks.first());
        lemma_chunked_tokens_push(chunks.drop_first(), c);
        assert(tokens(chunks.first()) + (chunked_tokens(chunks.drop_first()) + tokens(c)) =~= (
        tokens(chunks.first()) + chunked_tokens(chunks.drop_first())) + tokens(c));
    }
}

/// When every cut falls right after a separator — as chunking on line
/// breaks guarantees — tokenizing the chunks one by one and concatenating
/// recovers exactly the token stream of the whole text: no token is
/// dropped, duplicated or split across a chunk boundary.
pub proof fn lemma_chunked_tokens(chunks: Seq<Seq<char>>)
    requires
        forall|i: int|
            0 <= i < chunks.len() - 1 ==> (#[trigger] chunks[i]).len() > 0 && !is_word_char(
                chunks[i].last(),
            ),
    ensures
        chunked_tokens(chunks) == tokens(chunks.flatten()),
    decreases chunks.len(),
{
    if chunks.len() == 0 {
        assert(chunks.flatten() =~= Seq::<char>::empty());
        assert(tokens(Seq::<char>::empty()) =~= Seq::<Seq<char>>::empty());
    } else if chunks.len() == 1 {
        assert(chunks.drop_first().flatten() =~= Seq::<char>::empty());
        assert(chunks.flatten() =~= chunks.first());
        assert(chunked_tokens(chunks.drop_first()) =~= Seq::<Seq<char>>::empty());
        assert(chunked_tokens(chunks) =~= tokens(chunks.first()));
    } else {
        assert(forall|i: int|
            0 <= i < chunks.drop_first().len() - 1 ==> (#[trigger] chunks.drop_first()[i])
                == chunks[i + 1]);
        lemma_chunked_tokens(chunks.drop_first());
        assert(chunks.flatten() == chunks.first() + chunks.drop_first().flatten());
        lemma_tokens_split_at_separator(
            chunks.first(),
            chunks.drop_first().flatten(),
            Seq::empty(),
        );
    }
}

/// The views of a sequence of words.
pub open spec fn word_views(ws: Seq<String>) -> Seq<Seq<char>> {
    ws.map_values(|w: String| w@)
}

/// A word with every character case-folded.
pub open spec fn folded(w: Seq<char>) -> Seq<char> {
    w.map_values(|c: char| lower_char(c))
}

/// The fields of a text split on every non-word character: every maximal
/// run of word characters, and an empty field wherever two separators
/// meet. Nothing is folded or discarded here.
pub open spec fn raw_fields_from(s: Seq<char>, cur: Seq<char>) -> Seq<Seq<char>>
    decreases s.len(),
{
    if s.len() == 0 {
        seq![cur]
    } else if is_word_char(s[0]) {
        raw_fields_from(s.drop_first(), cur.push(s[0]))
    } else {
        seq![cur] + raw_fields_from(s.drop_first(), Seq::empty())
    }
}

pub open spec fn raw_fields(s: Seq<char>) -> Seq<Seq<char>> {
    raw_fields_from(s, Seq::empty())
}

/// Relies on `String::push`: appends exactly the given character.
#[verifier::external_body]
pub(crate) fn push_char(s: &mut String, c: char)
    ensures
        final(s)@ == old(s)@.push(c),
{
    s.push(c);
}

/// Whether `c` is an ASCII letter.
pub fn word_char(c: char) -> (r: bool)
    ensures
        r == is_word_char(c),
{
    let u = c as u32;
    (97 <= u && u <= 122) || (65 <= u && u <= 90)
}

/// The case-folded form of `c`.
pub fn fold_char(c: char) -> (r: char)
    ensures
        r == lower_char(c),
{
    match c {
        'A' => 'a',
        'B' => 'b',
        'C' => 'c',
        'D' => 'd',
        'E' => 'e',
        'F' => 'f',
        'G' => 'g',
        'H' => 'h',
        'I' => 'i',
        'J' => 'j',
        'K' => 'k',
        'L' => 'l',
        'M' => 'm',
        'N' => 'n',
        'O' => 'o',
        'P' => 'p',
        'Q' => 'q',
        'R' => 'r',
        'S' => 's',
        'T' => 't',
        'U' => 'u',
        'V' => 'v',
        'W' => 'w',
        'X' => 'x',
        'Y' => 'y',
        'Z' => 'z',
        _ => c,
    }
}

/// Splits `s` into its token stream.
pub fn tokenize(s: &str) -> (out: Vec<String>)
    ensures
        word_views(out@) == tokens(s@),
{
    let n = s.unicode_len();
    let mut out: Vec<String> = Vec::new();
    let mut run = String::new();
    let mut i: usize = 0;
    proof {
        assert(s@.skip(0) =~= s@);
        assert(word_views(out@) + tokens_from(s@, run@) =~= tokens_from(s@, run@));
    }
    while i < n
        invariant
            i <= n,
            n == s@.len(),
            tokens(s@) == word_views(out@) + tokens_from(s@.skip(i as int), run@),
        decreases n - i,
    {
        let c = s.get_char(i);
        proof {
            assert(s@.skip(i as int)[0] == s@[i as int]);
            assert(s@.skip(i as int).drop_first() =~= s@.skip(i as int + 1));
        }
        if word_char(c) {
            push_char(&mut run, fold_char(c));
        } else {
            if run.as_str().unicode_len() > 1 {
                let ghost old_out = out@;
                let ghost old_run = run@;
                out.push(run);
                proof {
                    assert(word_views(out@) =~= word_views(old_out).push(old_run));
                    assert(word_views(old_out) + (emit_run(old_run) + tokens_from(
                        s@.skip(i as int + 1),
                        Seq::empty(),
                    )) =~= word_views(out@) + tokens_from(s@.skip(i as int + 1), Seq::empty()));
                }
            } else {
                proof {
                    assert(word_views(out@) + (emit_run(run@) + tokens_from(
                        s@.skip(i as int + 1),
                        Seq::empty(),
                    )) =~= word_views(out@) + tokens_from(s@.skip(i as int + 1), Seq::empty()));
                }
            }
            run = String::new();
        }
        i = i + 1;
    }
    proof {
        assert(s@.skip(n as int) =~= Seq::<char>::empty());
    }
    if run.as_str().unicode_len() > 1 {
        let ghost old_out = out@;
        let ghost old_run = run@;
        out.push(run);
        proof {
            assert(word_views(out@) =~= word_views(old_out).push(old_run));
            assert(word_views(old_out) + emit_run(old_run) =~= word_views(out@));
        }
    } else {
        proof {
            assert(word_views(out@) + emit_run(run@) =~= word_views(out@));
        }
    }
    out
}

/// Case-folds a word.
pub fn fold_string(w: &str) -> (r: String)
    ensures
        r@ == folded(w@),
{
    let n = w.unicode_len();
    let mut r = String::new();
    let mut i: usize = 0;
    proof {
        assert(r@ =~= folded(w@.take(0)));
    }
    while i < n
        invariant
            i <= n,
            n == w@.len(),
            r@ == folded(w@.take(i as int)),
        decreases n - i,
    {
        let c = w.get_char(i);
        push_char(&mut r, fold_char(c));
        proof {
            assert(w@.take(i as int + 1) =~= w@.take(i as int).push(w@[i as int]));
            assert(folded(w@.take(i as int + 1)) =~= folded(w@.take(i as int)).push(
                lower_char(w@[i as int]),
            ));
        }
        i = i + 1;
    }
    proof {
        assert(w@.take(n as int) =~= w@);
    }
    r
}

/// Splits `s` on every non-word character, keeping every field.
pub fn split_raw(s: &str) -> (out: Vec<String>)
    ensures
        word_views(out@) == raw_fields(s@),
{
    let n = s.unicode_len();
    let mut out: Vec<String> = Vec::new();
    let mut cur = String::new();
    let mut i: usize = 0;
    proof {
        assert(s@.skip(0) =~= s@);
        assert(word_views(out@) + raw_fields_from(s@, cur@) =~= raw_fields_from(s@, cur@));
    }
    while i < n
        invariant
            i <= n,
            n == s@.len(),
            raw_fields(s@) == word_views(out@) + raw_fields_from(s@.skip(i as int), cur@),
        decreases n - i,
    {
        let c = s.get_char(i);
        proof {
            assert(s@.skip(i as int)[0] == s@[i as int]);
            assert(s@.skip(i as int).drop_first() =~= s@.skip(i as int + 1));
        }
        if word_char(c) {
            push_char(&mut cur, c);
        } else {
            let ghost old_out = out@;
            let ghost old_cur = cur@;
            out.push(cur);
            cur = String::new();
            proof {
                assert(word_views(out@) =~= word_views(old_out).push(old_cur));
                assert(word_views(old_out) + (seq![old_cur] + raw_fields_from(
                    s@.skip(i as int + 1),
                    Seq::empty(),
                )) =~= word_views(out@) + raw_fields_from(s@.skip(i as int + 1), Seq::empty()));
            }
        }
        i = i + 1;
    }
    proof {
        assert(s@.skip(n as int) =~= Seq::<char>::empty());
    }
    let ghost old_out = out@;
    let ghost old_cur = cur@;
    out.push(cur);
    proof {
        assert(word_views(out@) =~= word_views(old_out).push(old_cur));
        assert(word_views(old_out) + seq![old_cur] =~= word_views(out@));
    }
    out
}

} // verus!
