//! Subsequence scoring of a name against a search query.
//!
//! A query matches a name when the query's characters occur in the name in
//! order (not necessarily contiguously).  The score of a match is the number
//! of name characters skipped before the whole query has been consumed; lower
//! is better, and characters after the match completes are not counted.

use vstd::prelude::*;

verus! {

/// `q` occurs in `n` as an in-order (not necessarily contiguous) subsequence.
pub open spec fn subseq_of(q: Seq<char>, n: Seq<char>) -> bool
    decreases n.len(),
{
    if q.len() == 0 {
        true
    } else if n.len() == 0 {
        false
    } else {
        (q[0] == n[0] && subseq_of(q.drop_first(), n.drop_first())) || subseq_of(
            q,
            n.drop_first(),
        )
    }
}

/// Cost of matching `q` against `n` in one left-to-right pass: every
/// character of `n` skipped before the last character of `q` is consumed
/// counts one penalty point, and characters of `n` after the match completes
/// contribute nothing.  `None` when `n` ends before all of `q` is consumed.
pub open spec fn score_spec(n: Seq<char>, q: Seq<char>) -> Option<nat>
    decreases n.len(),
{
    if q.len() == 0 {
        Some(0 as nat)
    } else if n.len() == 0 {
        None
    } else if n[0] == q[0] {
        score_spec(n.drop_first(), q.drop_first())
    } else {
        match score_spec(n.drop_first(), q) {
            Some(p) => Some((p + 1) as nat),
            None => None,
        }
    }
}

/// A subsequence of the tail of `n` is a subsequence of `n`.
proof fn lemma_subseq_extend(q: Seq<char>, n: Seq<char>)
    requires
        n.len() > 0,
        subseq_of(q, n.drop_first()),
    ensures
        subseq_of(q, n),
{
}

/// Dropping the head of the query preserves a subsequence match.
proof fn lemma_subseq_drop_head(q: Seq<char>, n: Seq<char>)
    requires
        q.len() > 0,
        subseq_of(q, n),
    ensures
        subseq_of(q.drop_first(), n),
    decreases n.len(),
{
    if q[0] == n[0] && subseq_of(q.drop_first(), n.drop_first()) {
        lemma_subseq_extend(q.drop_first(), n);
    } else {
        lemma_subseq_drop_head(q, n.drop_first());
        lemma_subseq_extend(q.drop_first(), n);
    }
}

/// When the heads agree, a match of the whole query inside the whole name
/// yields a match of both tails: consuming a matching head loses nothing.
proof fn lemma_subseq_greedy(q: Seq<char>, n: Seq<char>)
    requires
        q.len() > 0,
        n.len() > 0,
        q[0] == n[0],
        subseq_of(q, n),
    ensures
        subseq_of(q.drop_first(), n.drop_first()),
{
    if !subseq_of(q.drop_first(), n.drop_first()) {
        lemma_subseq_drop_head(q, n.drop_first());
    }
}

/// The scorer succeeds exactly on the queries that are in-order subsequences
/// of the name: `score_spec(n, q)` is `Some` if and only if `subseq_of(q, n)`.
pub proof fn lemma_score_some_iff_subseq(n: Seq<char>, q: Seq<char>)
    ensures
        score_spec(n, q) is Some <==> subseq_of(q, n),
    decreases n.len(),
{
    if q.len() == 0 {
    } else if n.len() == 0 {
    } else if n[0] == q[0] {
        lemma_score_some_iff_subseq(n.drop_first(), q.drop_first());
        if subseq_of(q, n) {
            lemma_subseq_greedy(q, n);
        }
    } else {
        lemma_score_some_iff_subseq(n.drop_first(), q);
    }
}

/// A successful score `p` counts exactly the skipped characters: the match
/// completes after the first `p + q.len()` characters of the name (`q` is a
/// subsequence of that prefix and of no shorter one), so `p` is the number of
/// name characters before the completion point not consumed by the match.
pub proof fn lemma_score_counts_skips(n: Seq<char>, q: Seq<char>, p: nat)
    requires
        score_spec(n, q) == Some(p),
    ensures
        p + q.len() <= n.len(),
        subseq_of(q, n.take((p + q.len()) as int)),
        forall|k: int| 0 <= k < p + q.len() ==> !subseq_of(q, n.take(k)),
    decreases n.len(),
{
    if q.len() == 0 {
        assert(p == 0);
    } else if n.len() == 0 {
        assert(false);
    } else if n[0] == q[0] {
        lemma_score_counts_skips(n.drop_first(), q.drop_first(), p);
        let m = (p + q.len()) as int;
        assert(n.take(m).drop_first() =~= n.drop_first().take(m - 1));
        assert(subseq_of(q, n.take(m)));
        assert forall|k: int| 0 <= k < m implies !subseq_of(q, n.take(k)) by {
            if subseq_of(q, n.take(k)) {
                assert(k > 0);
                assert(n.take(k).drop_first() =~= n.drop_first().take(k - 1));
                if q[0] == n.take(k)[0] && subseq_of(q.drop_first(), n.take(k).drop_first()) {
                    assert(subseq_of(q.drop_first(), n.drop_first().take(k - 1)));
                } else {
                    lemma_subseq_drop_head(q, n.take(k).drop_first());
                    assert(subseq_of(q.drop_first(), n.drop_first().take(k - 1)));
                }
            }
        }
    } else {
        lemma_score_counts_skips(n.drop_first(), q, (p - 1) as nat);
        let m = (p + q.len()) as int;
        assert(n.take(m).drop_first() =~= n.drop_first().take(m - 1));
        assert(subseq_of(q, n.take(m)));
        assert forall|k: int| 0 <= k < m implies !subseq_of(q, n.take(k)) by {
            if subseq_of(q, n.take(k)) {
                assert(k > 0);
                assert(n.take(k).drop_first() =~= n.drop_first().take(k - 1));
            }
        }
    }
}

/// Scores `needle` against `haystack` in one pass over `haystack`'s
/// characters, exactly as `score_spec` describes: `Some(penalty)` when
/// `needle` is an in-order subsequence of `haystack`, `None` otherwise, and
/// an empty `needle` always scores `Some(0)`.
pub fn search_score(haystack: &str, needle: &str) -> (r: Option<usize>)
    ensures
        r is Some <==> subseq_of(needle@, haystack@),
        r matches Some(p) ==> score_spec(haystack@, needle@) == Some(p as nat),
        r is None ==> score_spec(haystack@, needle@) is None,
        needle@.len() == 0 ==> r == Some(0usize),
{
    let hlen = haystack.unicode_len();
    let nlen = needle.unicode_len();
    let mut score: usize = 0;
    let mut qi: usize = 0;
    let mut i: usize = 0;
    proof {
        assert(haystack@.skip(0) =~= haystack@);
        assert(needle@.skip(0) =~= needle@);
    }
    while i < hlen && qi < nlen
        invariant
            hlen == haystack@.len(),
            nlen == needle@.len(),
            i <= hlen,
            qi <= nlen,
            score <= i,
            score_spec(haystack@, needle@) == (match score_spec(
                haystack@.skip(i as int),
                needle@.skip(qi as int),
            ) {
                Some(p) => Some((p + score) as nat),
                None => None,
            }),
        decreases hlen - i,
    {
        let hc = haystack.get_char(i);
        let qc = needle.get_char(qi);
        proof {
            assert(haystack@.skip(i as int)[0] == haystack@[i as int]);
            assert(needle@.skip(qi as int)[0] == needle@[qi as int]);
            assert(haystack@.skip(i as int).drop_first() =~= haystack@.skip(i as int + 1));
            assert(needle@.skip(qi as int).drop_first() =~= needle@.skip(qi as int + 1));
        }
        if hc == qc {
            qi = qi + 1;
        } else {
            score = score + 1;
        }
        i = i + 1;
    }
    proof {
        if qi == nlen {
            assert(needle@.skip(qi as int).len() == 0);
        } else {
            assert(haystack@.skip(i as int).len() == 0);
        }
        lemma_score_some_iff_subseq(haystack@, needle@);
    }
    if qi < nlen {
        None
    } else {
        Some(score)
    }
}

} // verus!
