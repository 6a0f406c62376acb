//! Substitution engine: rewrite every occurrence of a dictionary word in a
//! text into its configured reading, with leftmost-longest, non-overlapping
//! match semantics.

use crate::dict::{
    dict_map, distinct_words, lemma_read_at, pair_view, pairs_of, word_in, Dictionary,
};
use vstd::prelude::*;
use vstd::string::*;

verus! {

/// The pattern `p` occurs in `s` starting at position `i`.
pub open spec fn matches_at(s: Seq<char>, i: int, p: Seq<char>) -> bool {
    0 <= i && i + p.len() <= s.len() && s.subrange(i, i + p.len()) == p
}

/// Some word of `m` of length `l` matches in `s` at position `i`.
pub open spec fn has_match(m: Map<Seq<char>, Seq<char>>, s: Seq<char>, i: int, l: int) -> bool {
    exists|w: Seq<char>| #[trigger] m.contains_key(w) && w.len() == l && matches_at(s, i, w)
}

/// Length of the longest word of `m` of length at most `l` that matches in
/// `s` at position `i`; 0 when none does. Empty words never match.
pub open spec fn best_len_upto(m: Map<Seq<char>, Seq<char>>, s: Seq<char>, i: int, l: int) -> int
    decreases l,
{
    if l <= 0 {
        0
    } else if has_match(m, s, i, l) {
        l
    } else {
        best_len_upto(m, s, i, l - 1)
    }
}

/// Length of the longest word of `m` matching in `s` at position `i`.
pub open spec fn best_len(m: Map<Seq<char>, Seq<char>>, s: Seq<char>, i: int) -> int {
    best_len_upto(m, s, i, s.len() - i)
}

/// Leftmost-longest, non-overlapping replacement of the words of `m` in `s`
/// by their readings, scanning left to right from position `i`: at each
/// position the longest matching word wins, its span is consumed, and
/// scanning resumes after it.
pub open spec fn replace_spec(m: Map<Seq<char>, Seq<char>>, s: Seq<char>, i: int) -> Seq<char>
    decreases s.len() - i,
{
    if i < 0 || i >= s.len() {
        Seq::empty()
    } else {
        let b = best_len(m, s, i);
        if 1 <= b && b <= s.len() - i {
            m[s.subrange(i, i + b)] + replace_spec(m, s, i + b)
        } else {
            seq![s[i]] + replace_spec(m, s, i + 1)
        }
    }
}

/// Mappings that agree on which non-empty words they hold match alike.
proof fn lemma_best_upto_agree(
    m1: Map<Seq<char>, Seq<char>>,
    m2: Map<Seq<char>, Seq<char>>,
    s: Seq<char>,
    i: int,
    l: int,
)
    requires
        forall|w: Seq<char>|
            w.len() > 0 ==> (#[trigger] m1.contains_key(w) <==> m2.contains_key(w)),
    ensures
        best_len_upto(m1, s, i, l) == best_len_upto(m2, s, i, l),
    decreases l,
{
    if l > 0 {
        assert(has_match(m1, s, i, l) == has_match(m2, s, i, l)) by {
            if has_match(m1, s, i, l) {
                let w = choose|w: Seq<char>| #[trigger]
                    m1.contains_key(w) && w.len() == l && matches_at(s, i, w);
                assert(m2.contains_key(w) && w.len() == l && matches_at(s, i, w));
            }
            if has_match(m2, s, i, l) {
                let w = choose|w: Seq<char>| #[trigger]
                    m2.contains_key(w) && w.len() == l && matches_at(s, i, w);
                assert(m1.contains_key(w) && w.len() == l && matches_at(s, i, w));
            }
        }
        lemma_best_upto_agree(m1, m2, s, i, l - 1);
    }
}

/// A positive best length is the length of an actual match.
proof fn lemma_best_upto_match(m: Map<Seq<char>, Seq<char>>, s: Seq<char>, i: int, l: int)
    ensures
        best_len_upto(m, s, i, l) != 0 ==> has_match(m, s, i, best_len_upto(m, s, i, l)),
    decreases l,
{
    if l > 0 && !has_match(m, s, i, l) {
        lemma_best_upto_match(m, s, i, l - 1);
    }
}

/// Mappings that agree on all non-empty words replace alike.
proof fn lemma_replace_agree(
    m1: Map<Seq<char>, Seq<char>>,
    m2: Map<Seq<char>, Seq<char>>,
    s: Seq<char>,
    i: int,
)
    requires
        forall|w: Seq<char>|
            w.len() > 0 ==> (#[trigger] m1.contains_key(w) <==> m2.contains_key(w)),
        forall|w: Seq<char>| w.len() > 0 && #[trigger] m1.contains_key(w) ==> m1[w] == m2[w],
    ensures
        replace_spec(m1, s, i) == replace_spec(m2, s, i),
    decreases s.len() - i,
{
    if 0 <= i < s.len() {
        lemma_best_upto_agree(m1, m2, s, i, s.len() - i);
        let b = best_len(m1, s, i);
        if 1 <= b && b <= s.len() - i {
            lemma_best_upto_match(m1, s, i, s.len() - i);
            assert(has_match(m1, s, i, b));
            let w = choose|w: Seq<char>| #[trigger]
                m1.contains_key(w) && w.len() == b && matches_at(s, i, w);
            assert(w == s.subrange(i, i + b));
            lemma_replace_agree(m1, m2, s, i + b);
        } else {
            lemma_replace_agree(m1, m2, s, i + 1);
        }
    }
}

/// A mapping with no words at all never matches.
proof fn lemma_no_match(m: Map<Seq<char>, Seq<char>>, s: Seq<char>, i: int, l: int)
    requires
        forall|w: Seq<char>| !(#[trigger] m.contains_key(w)),
    ensures
        best_len_upto(m, s, i, l) == 0,
    decreases l,
{
    if l > 0 {
        if has_match(m, s, i, l) {
            let w = choose|w: Seq<char>| #[trigger]
                m.contains_key(w) && w.len() == l && matches_at(s, i, w);
            assert(false);
        }
        lemma_no_match(m, s, i, l - 1);
    }
}

/// With an empty dictionary the text passes through unchanged.
pub proof fn lemma_empty_dict_identity(m: Map<Seq<char>, Seq<char>>, s: Seq<char>, i: int)
    requires
        forall|w: Seq<char>| !(#[trigger] m.contains_key(w)),
        0 <= i <= s.len(),
    ensures
        replace_spec(m, s, i) == s.subrange(i, s.len() as int),
    decreases s.len() - i,
{
    if i >= s.len() {
        assert(replace_spec(m, s, i) =~= s.subrange(i, s.len() as int));
    } else {
        lemma_no_match(m, s, i, s.len() - i);
        lemma_empty_dict_identity(m, s, i + 1);
        assert(replace_spec(m, s, i) =~= s.subrange(i, s.len() as int));
    }
}

/// The pair `e` occurs in `d` before position `n`.
spec fn from_source(e: (Seq<char>, Seq<char>), d: Seq<(Seq<char>, Seq<char>)>, n: int) -> bool {
    exists|j: int| 0 <= j < n && e == #[trigger] d[j]
}

/// The pairs of `s` whose word is non-empty, in their original order:
/// the pattern list the matcher is built from.
pub open spec fn nonempty_pairs(s: Seq<(Seq<char>, Seq<char>)>) -> Seq<(Seq<char>, Seq<char>)>
    decreases s.len(),
{
    if s.len() == 0 {
        Seq::empty()
    } else if s.last().0.len() > 0 {
        nonempty_pairs(s.drop_last()).push(s.last())
    } else {
        nonempty_pairs(s.drop_last())
    }
}

/// Whether the multi-pattern automaton can be built over this pattern
/// list: the outcome of matcher construction, a function of the list
/// alone (construction fails only on its internal size limits, which
/// depend on the patterns and on nothing else).
pub uninterp spec fn matcher_builds(ws: Seq<(Seq<char>, Seq<char>)>) -> bool;

/// Relies on `aho_corasick::AhoCorasick`, built over the words with
/// `MatchKind::LeftmostLongest`, and on `AhoCorasick::try_replace_all`:
/// matches are non-overlapping, the earliest starting match wins and, at
/// equal starts, the longest pattern wins; each matched span is replaced
/// by the reading at the matched pattern's index. The words are distinct
/// and non-empty, so at most one word of a given length matches at a
/// position, and byte positions of matches coincide with character
/// positions. Whether a string comes back is decided by automaton
/// construction alone, whose outcome is a function of the pattern list
/// (`matcher_builds`): it fails only when the patterns overrun internal
/// size limits, which an empty pattern list cannot, and the error path of
/// `try_replace_all` is dead for this builder configuration (unanchored
/// start kind, non-overlapping leftmost search).
#[verifier::external_body]
fn ac_replace_all(entries: &Vec<(String, String)>, text: &str) -> (r: Option<String>)
    requires
        distinct_words(pairs_of(entries@)),
        forall|k: int| 0 <= k < entries@.len() ==> (#[trigger] pairs_of(entries@)[k]).0.len() > 0,
    ensures
        (r is Some) == matcher_builds(pairs_of(entries@)),
        entries@.len() == 0 ==> r is Some,
        r matches Some(out) ==> out@ == replace_spec(dict_map(pairs_of(entries@)), text@, 0),
{
    let words: Vec<&str> = entries.iter().map(|e| e.0.as_str()).collect();
    let reads: Vec<&str> = entries.iter().map(|e| e.1.as_str()).collect();
    let ac = match aho_corasick::AhoCorasick::builder().match_kind(
        aho_corasick::MatchKind::LeftmostLongest,
    ).build(&words) {
        Ok(a) => a,
        Err(_) => return None,
    };
    match ac.try_replace_all(text, &reads) {
        Ok(s) => Some(s),
        Err(_) => None,
    }
}

/// Rewrite every occurrence of a dictionary word in `text` into its
/// reading: non-overlapping, earliest match first and, at equal starting
/// positions, longest word first. A string comes back exactly when the
/// matcher can be built over the dictionary's non-empty words
/// (`matcher_builds`), which depends on the dictionary alone, never on
/// the text; an empty dictionary always succeeds and passes the text
/// through unchanged.
pub fn replace_words_on_dict(dict: &Dictionary, text: &str) -> (r: Option<String>)
    requires
        dict.wf(),
    ensures
        (r is Some) == matcher_builds(nonempty_pairs(dict.pairs())),
        dict@ == Map::<Seq<char>, Seq<char>>::empty() ==> r is Some,
        r matches Some(out) ==> out@ == replace_spec(dict@, text@, 0),
{
    let pairs = dict.word_pairs();
    let ghost dpairs = pairs_of(pairs@);
    let mut entries: Vec<(String, String)> = Vec::new();
    let mut i: usize = 0;
    proof {
        assert(pairs_of(entries@) =~= Seq::<(Seq<char>, Seq<char>)>::empty());
        assert(dpairs.take(0) =~= Seq::<(Seq<char>, Seq<char>)>::empty());
    }
    while i < pairs.len()
        invariant
            i <= pairs@.len(),
            dpairs == pairs_of(pairs@),
            dpairs == dict.pairs(),
            distinct_words(dpairs),
            dict_map(dpairs) == dict@,
            pairs_of(entries@) == nonempty_pairs(dpairs.take(i as int)),
            distinct_words(pairs_of(entries@)),
            forall|k: int|
                0 <= k < entries@.len() ==> (#[trigger] pairs_of(entries@)[k]).0.len() > 0,
            forall|k: int|
                0 <= k < entries@.len() ==> from_source(
                    #[trigger] pairs_of(entries@)[k],
                    dpairs,
                    i as int,
                ),
            forall|j: int|
                0 <= j < i && (#[trigger] dpairs[j]).0.len() > 0 ==> word_in(
                    pairs_of(entries@),
                    dpairs[j].0,
                ),
        decreases pairs@.len() - i,
    {
        let ghost prev = pairs_of(entries@);
        let nonempty = !pairs[i].0.as_str().is_empty();
        if nonempty {
            let w = pairs[i].0.clone();
            let a = pairs[i].1.clone();
            entries.push((w, a));
            proof {
                assert((w@, a@) == dpairs[i as int]);
                assert(pairs_of(entries@) =~= prev.push(dpairs[i as int]));
            }
        }
        proof {
            let cur = pairs_of(entries@);
            assert forall|k: int| 0 <= k < cur.len() implies from_source(
                #[trigger] cur[k],
                dpairs,
                i as int + 1,
            ) by {
                if k < prev.len() {
                    assert(cur[k] == prev[k]);
                    let j = choose|j: int| 0 <= j < i && prev[k] == #[trigger] dpairs[j];
                    assert(cur[k] == dpairs[j]);
                } else {
                    assert(cur[k] == dpairs[i as int]);
                }
            }
            assert forall|k1: int, k2: int| 0 <= k1 < k2 < cur.len() implies (
            #[trigger] cur[k1]).0 != (#[trigger] cur[k2]).0 by {
                if k2 < prev.len() {
                    assert(cur[k1] == prev[k1] && cur[k2] == prev[k2]);
                } else {
                    assert(cur[k1] == prev[k1] && cur[k2] == dpairs[i as int]);
                    let j = choose|j: int| 0 <= j < i && prev[k1] == #[trigger] dpairs[j];
                    assert(dpairs[j].0 != dpairs[i as int].0);
                }
            }
            assert forall|j: int|
                0 <= j < i as int + 1 && (#[trigger] dpairs[j]).0.len() > 0 implies word_in(
                cur,
                dpairs[j].0,
            ) by {
                if j < i as int {
                    let k = choose|k: int|
                        0 <= k < prev.len() && (#[trigger] prev[k]).0 == dpairs[j].0;
                    assert(cur[k].0 == dpairs[j].0);
                } else {
                    assert(nonempty);
                    assert(cur[prev.len() as int].0 == dpairs[j].0);
                }
            }
            let t = dpairs.take(i as int + 1);
            assert(t.drop_last() =~= dpairs.take(i as int));
            assert(t.last() == dpairs[i as int]);
            assert(dpairs[i as int] == pair_view(pairs@[i as int]));
            if nonempty {
                assert(dpairs[i as int].0.len() > 0);
                assert(nonempty_pairs(t) == prev.push(dpairs[i as int]));
                assert(cur == nonempty_pairs(t));
            } else {
                assert(dpairs[i as int].0.len() == 0);
                assert(nonempty_pairs(t) == prev);
                assert(cur == nonempty_pairs(t));
            }
        }
        i += 1;
    }
    let ghost fpairs = pairs_of(entries@);
    proof {
        assert(dpairs.take(dpairs.len() as int) =~= dpairs);
        assert(fpairs == nonempty_pairs(dict.pairs()));
        if dict@ == Map::<Seq<char>, Seq<char>>::empty() {
            if dpairs.len() > 0 {
                assert(word_in(dpairs, dpairs[0].0));
                assert(dict@.contains_key(dpairs[0].0));
                assert(false);
            }
            assert(dpairs =~= Seq::<(Seq<char>, Seq<char>)>::empty());
            assert(fpairs.len() == 0);
            assert(entries@.len() == 0);
        }
        assert forall|w: Seq<char>|
            w.len() > 0 implies (#[trigger] dict_map(fpairs).contains_key(w)
            <==> dict@.contains_key(w)) by {
            if word_in(fpairs, w) {
                let k = choose|k: int| 0 <= k < fpairs.len() && (#[trigger] fpairs[k]).0 == w;
                let j = choose|j: int| 0 <= j < dpairs.len() && fpairs[k] == #[trigger] dpairs[j];
                assert(dpairs[j].0 == w);
                assert(word_in(dpairs, w));
            }
            if word_in(dpairs, w) {
                let j = choose|j: int| 0 <= j < dpairs.len() && (#[trigger] dpairs[j]).0 == w;
                assert(word_in(fpairs, dpairs[j].0));
            }
        }
        assert forall|w: Seq<char>|
            w.len() > 0 && #[trigger] dict_map(fpairs).contains_key(w) implies dict_map(fpairs)[w]
            == dict@[w] by {
            let k = choose|k: int| 0 <= k < fpairs.len() && (#[trigger] fpairs[k]).0 == w;
            let j = choose|j: int| 0 <= j < dpairs.len() && fpairs[k] == #[trigger] dpairs[j];
            lemma_read_at(fpairs, k);
            lemma_read_at(dpairs, j);
        }
    }
    let r = ac_replace_all(&entries, text);
    proof {
        lemma_replace_agree(dict_map(fpairs), dict@, text@, 0);
    }
    r
}

} // verus!
