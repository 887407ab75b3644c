//! Ranking of an emoji catalog against a live search query: keep exactly the
//! entries whose name the query matches, ordered by ascending score, with
//! ties keeping the original catalog order.

use vstd::prelude::*;

use crate::score::score_spec;
use crate::score::search_score;

verus! {

/// One catalog record: a display name and the emoji character sequence.
pub struct EmojiEntry {
    pub name: String,
    pub glyph: String,
}

/// One ranked search result: a copy of a catalog entry, its position in the
/// catalog, and its match score.
pub struct RankedResult {
    pub entry: EmojiEntry,
    pub index: usize,
    pub score: usize,
}

/// The two entries carry the same name and the same glyph.
pub open spec fn entry_like(a: EmojiEntry, b: EmojiEntry) -> bool {
    a.name@ == b.name@ && a.glyph@ == b.glyph@
}

/// `r` is a faithful result for `catalog` and `query`: it points into the
/// catalog, copies that entry, and carries exactly that entry's score.
pub open spec fn ranked_from(catalog: Seq<EmojiEntry>, query: Seq<char>, r: RankedResult) -> bool {
    &&& r.index < catalog.len()
    &&& entry_like(r.entry, catalog[r.index as int])
    &&& score_spec(catalog[r.index as int].name@, query) == Some(r.score as nat)
}

/// Display order: ascending score and, on equal scores, ascending catalog
/// position, so that ties keep the catalog order.
pub open spec fn lex_before(a: RankedResult, b: RankedResult) -> bool {
    a.score < b.score || (a.score == b.score && a.index < b.index)
}

/// `out` is the ranking of `catalog` under `query`: every element is a
/// faithful result, the sequence is strictly ordered by score then catalog
/// position, and every catalog entry whose name the query matches appears.
/// These three clauses pin `out` down to exactly one value (see
/// `lemma_rank_deterministic`).
pub open spec fn rank_correct(
    catalog: Seq<EmojiEntry>,
    query: Seq<char>,
    out: Seq<RankedResult>,
) -> bool {
    &&& forall|j: int| 0 <= j < out.len() ==> ranked_from(catalog, query, #[trigger] out[j])
    &&& forall|j1: int, j2: int|
        0 <= j1 < j2 < out.len() ==> lex_before(#[trigger] out[j1], #[trigger] out[j2])
    &&& forall|i: int|
        0 <= i < catalog.len() && score_spec((#[trigger] catalog[i]).name@, query) is Some
            ==> exists|j: int| 0 <= j < out.len() && (#[trigger] out[j]).index == i
}

/// Ranks the catalog against the query: filters to the entries whose name the
/// query matches as an in-order subsequence and sorts them by ascending score,
/// entries of equal score staying in catalog order.  An empty query keeps the
/// whole catalog, in catalog order, every entry with score zero.
#[verifier::loop_isolation(false)]
pub fn rank(catalog: &Vec<EmojiEntry>, query: &str) -> (out: Vec<RankedResult>)
    ensures
        rank_correct(catalog@, query@, out@),
        query@.len() == 0 ==> out@.len() == catalog@.len() && (forall|j: int|
            0 <= j < out@.len() ==> (#[trigger] out@[j]).index == j && out@[j].score == 0
                && entry_like(out@[j].entry, catalog@[j])),
{
    let mut out: Vec<RankedResult> = Vec::new();
    let mut i: usize = 0;
    while i < catalog.len()
        invariant
            i <= catalog@.len(),
            forall|j: int|
                0 <= j < out@.len() ==> ranked_from(catalog@, query@, #[trigger] out@[j]),
            forall|j: int| 0 <= j < out@.len() ==> (#[trigger] out@[j]).index < i,
            forall|j1: int, j2: int|
                0 <= j1 < j2 < out@.len() ==> lex_before(#[trigger] out@[j1], #[trigger] out@[j2]),
            forall|ii: int|
                0 <= ii < i && score_spec((#[trigger] catalog@[ii]).name@, query@) is Some
                    ==> exists|j: int| 0 <= j < out@.len() && (#[trigger] out@[j]).index == ii,
        decreases catalog@.len() - i,
    {
        match search_score(catalog[i].name.as_str(), query) {
            Some(s) => {
                let mut pos: usize = 0;
                while pos < out.len() && out[pos].score <= s
                    invariant
                        pos <= out@.len(),
                        forall|j: int| 0 <= j < pos ==> (#[trigger] out@[j]).score <= s,
                    decreases out@.len() - pos,
                {
                    pos = pos + 1;
                }
                let item = RankedResult {
                    entry: EmojiEntry {
                        name: catalog[i].name.clone(),
                        glyph: catalog[i].glyph.clone(),
                    },
                    index: i,
                    score: s,
                };
                let ghost prev = out@;
                out.insert(pos, item);
                proof {
                    prev.insert_ensures(pos as int, item);
                    assert(out@[pos as int] == item);
                    assert(ranked_from(catalog@, query@, item));
                    assert forall|j: int| pos <= j < prev.len() implies s < (
                    #[trigger] prev[j]).score by {
                        if j > pos {
                            assert(lex_before(prev[pos as int], prev[j]));
                        }
                    }
                    assert forall|j: int| 0 <= j < out@.len() implies ranked_from(
                        catalog@,
                        query@,
                        #[trigger] out@[j],
                    ) && out@[j].index < i + 1 by {
                        if j < pos {
                            assert(out@[j] == prev[j]);
                        } else if j > pos {
                            assert(out@[j] == prev[j - 1]);
                        }
                    }
                    assert forall|j1: int, j2: int| 0 <= j1 < j2 < out@.len() implies lex_before(
                        #[trigger] out@[j1],
                        #[trigger] out@[j2],
                    ) by {
                        if j1 < pos {
                            assert(out@[j1] == prev[j1]);
                            assert(prev[j1].score <= s);
                            assert(prev[j1].index < i);
                            if j2 < pos {
                                assert(out@[j2] == prev[j2]);
                            } else if j2 > pos {
                                assert(out@[j2] == prev[j2 - 1]);
                                assert(lex_before(prev[j1], prev[j2 - 1]));
                            }
                        } else if j1 == pos {
                            assert(out@[j2] == prev[j2 - 1]);
                            assert(s < prev[j2 - 1].score);
                        } else {
                            assert(out@[j1] == prev[j1 - 1]);
                            assert(out@[j2] == prev[j2 - 1]);
                        }
                    }
                    assert forall|ii: int|
                        0 <= ii < i + 1 && score_spec(
                            (#[trigger] catalog@[ii]).name@,
                            query@,
                        ) is Some implies exists|j: int|
                        0 <= j < out@.len() && (#[trigger] out@[j]).index == ii by {
                        if ii == i {
                            assert(out@[pos as int].index == ii);
                        } else {
                            assert(exists|j: int|
                                0 <= j < prev.len() && (#[trigger] prev[j]).index == ii);
                            let j0 = choose|j: int|
                                0 <= j < prev.len() && (#[trigger] prev[j]).index == ii;
                            if j0 < pos {
                                assert(out@[j0] == prev[j0]);
                                assert(out@[j0].index == ii);
                            } else {
                                assert(out@[j0 + 1] == prev[j0]);
                                assert(out@[j0 + 1].index == ii);
                            }
                        }
                    }
                }
            },
            None => {
            },
        }
        i = i + 1;
    }
    proof {
        if query@.len() == 0 {
            lemma_rank_empty_query(catalog@, query@, out@);
        }
    }
    out
}

/// Every result of an empty-query ranking scores zero: an empty query matches
/// any name at once, with nothing skipped.
proof fn lemma_rank_empty_scores_zero(
    catalog: Seq<EmojiEntry>,
    query: Seq<char>,
    out: Seq<RankedResult>,
)
    requires
        query.len() == 0,
        rank_correct(catalog, query, out),
    ensures
        forall|j: int| 0 <= j < out.len() ==> (#[trigger] out[j]).score == 0,
{
    assert forall|j: int| 0 <= j < out.len() implies (#[trigger] out[j]).score == 0 by {
        assert(ranked_from(catalog, query, out[j]));
        assert(score_spec(catalog[out[j].index as int].name@, query) == Some(0 as nat));
    }
}

/// Under an empty query the first `i + 1` results are the first `i + 1`
/// catalog entries, in catalog order.
proof fn lemma_rank_empty_prefix(
    catalog: Seq<EmojiEntry>,
    query: Seq<char>,
    out: Seq<RankedResult>,
    i: int,
)
    requires
        query.len() == 0,
        rank_correct(catalog, query, out),
        0 <= i < catalog.len(),
    ensures
        i < out.len(),
        forall|j: int| 0 <= j <= i ==> (#[trigger] out[j]).index == j,
    decreases i,
{
    if i > 0 {
        lemma_rank_empty_prefix(catalog, query, out, i - 1);
    }
    lemma_rank_empty_scores_zero(catalog, query, out);
    assert(score_spec(catalog[i].name@, query) == Some(0 as nat));
    assert(exists|j: int| 0 <= j < out.len() && (#[trigger] out[j]).index == i);
    let j0 = choose|j: int| 0 <= j < out.len() && (#[trigger] out[j]).index == i;
    if j0 < i {
        assert(out[j0].index == j0);
        assert(false);
    } else if j0 > i {
        assert(lex_before(out[i], out[j0]));
        if i > 0 {
            assert(lex_before(out[i - 1], out[i]));
            assert(false);
        } else {
            assert(false);
        }
    }
}

/// An empty query keeps the whole catalog: the ranking has one result per
/// catalog entry, in catalog order, each with score zero.
pub proof fn lemma_rank_empty_query(
    catalog: Seq<EmojiEntry>,
    query: Seq<char>,
    out: Seq<RankedResult>,
)
    requires
        query.len() == 0,
        rank_correct(catalog, query, out),
    ensures
        out.len() == catalog.len(),
        forall|j: int|
            0 <= j < out.len() ==> (#[trigger] out[j]).index == j && out[j].score == 0
                && entry_like(out[j].entry, catalog[j]),
{
    lemma_rank_empty_scores_zero(catalog, query, out);
    if catalog.len() == 0 {
        if out.len() > 0 {
            assert(ranked_from(catalog, query, out[0]));
            assert(false);
        }
    } else {
        let n = catalog.len() as int;
        lemma_rank_empty_prefix(catalog, query, out, n - 1);
        assert(out[n - 1].index == n - 1);
        if out.len() > catalog.len() {
            assert(ranked_from(catalog, query, out[n]));
            assert(lex_before(out[n - 1], out[n]));
            assert(false);
        }
    }
    assert forall|j: int| 0 <= j < out.len() implies (#[trigger] out[j]).index == j
        && out[j].score == 0 && entry_like(out[j].entry, catalog[j]) by {
        assert(ranked_from(catalog, query, out[j]));
    }
}

/// The two results stand for the same catalog entry with the same score.
pub open spec fn same_ranked(a: RankedResult, b: RankedResult) -> bool {
    a.index == b.index && a.score == b.score && entry_like(a.entry, b.entry)
}

/// Two results of a correct ranking never share a catalog position: they
/// would carry the same score, and the strict display order forbids that.
proof fn lemma_rank_distinct_indexes(
    catalog: Seq<EmojiEntry>,
    query: Seq<char>,
    out: Seq<RankedResult>,
    j1: int,
    j2: int,
)
    requires
        rank_correct(catalog, query, out),
        0 <= j1 < j2 < out.len(),
    ensures
        out[j1].index != out[j2].index,
{
    assert(ranked_from(catalog, query, out[j1]));
    assert(ranked_from(catalog, query, out[j2]));
    assert(lex_before(out[j1], out[j2]));
}

/// In two correct rankings that agree on their first `i` results, the result
/// at position `i` of the first is not ordered before the one of the second.
proof fn lemma_rank_elem_position(
    catalog: Seq<EmojiEntry>,
    query: Seq<char>,
    a: Seq<RankedResult>,
    b: Seq<RankedResult>,
    i: int,
)
    requires
        rank_correct(catalog, query, a),
        rank_correct(catalog, query, b),
        0 <= i < a.len(),
        i < b.len(),
        forall|j: int| 0 <= j < i ==> same_ranked(#[trigger] a[j], b[j]),
    ensures
        !lex_before(a[i], b[i]),
{
    assert(ranked_from(catalog, query, a[i]));
    assert(ranked_from(catalog, query, b[i]));
    assert(exists|j: int| 0 <= j < b.len() && (#[trigger] b[j]).index == a[i].index);
    let j2 = choose|j: int| 0 <= j < b.len() && (#[trigger] b[j]).index == a[i].index;
    assert(ranked_from(catalog, query, b[j2]));
    if j2 < i {
        assert(same_ranked(a[j2], b[j2]));
        lemma_rank_distinct_indexes(catalog, query, a, j2, i);
        assert(false);
    } else if j2 > i {
        assert(lex_before(b[i], b[j2]));
    }
}

/// Two correct rankings agree on all of their first `i + 1` results.
proof fn lemma_rank_unique_prefix(
    catalog: Seq<EmojiEntry>,
    query: Seq<char>,
    a: Seq<RankedResult>,
    b: Seq<RankedResult>,
    i: int,
)
    requires
        rank_correct(catalog, query, a),
        rank_correct(catalog, query, b),
        0 <= i < a.len(),
        i < b.len(),
    ensures
        forall|j: int| 0 <= j <= i ==> same_ranked(#[trigger] a[j], b[j]),
    decreases i,
{
    if i > 0 {
        lemma_rank_unique_prefix(catalog, query, a, b, i - 1);
    }
    assert forall|j: int| 0 <= j < i implies same_ranked(#[trigger] b[j], a[j]) by {
        assert(same_ranked(a[j], b[j]));
    }
    lemma_rank_elem_position(catalog, query, a, b, i);
    lemma_rank_elem_position(catalog, query, b, a, i);
    assert(ranked_from(catalog, query, a[i]));
    assert(ranked_from(catalog, query, b[i]));
    assert(same_ranked(a[i], b[i]));
}

/// A correct ranking cannot be a strict prefix of another: every catalog
/// position a longer ranking would show is already shown by the shorter one.
proof fn lemma_rank_no_excess(
    catalog: Seq<EmojiEntry>,
    query: Seq<char>,
    a: Seq<RankedResult>,
    b: Seq<RankedResult>,
)
    requires
        rank_correct(catalog, query, a),
        rank_correct(catalog, query, b),
    ensures
        b.len() <= a.len(),
{
    if a.len() < b.len() {
        let m = a.len() as int;
        if m > 0 {
            lemma_rank_unique_prefix(catalog, query, a, b, m - 1);
        }
        assert(ranked_from(catalog, query, b[m]));
        assert(exists|j: int| 0 <= j < a.len() && (#[trigger] a[j]).index == b[m].index);
        let j0 = choose|j: int| 0 <= j < a.len() && (#[trigger] a[j]).index == b[m].index;
        assert(same_ranked(a[j0], b[j0]));
        lemma_rank_distinct_indexes(catalog, query, b, j0, m);
        assert(false);
    }
}

/// Ranking is a function of the catalog and the query alone: any two
/// sequences that satisfy `rank_correct` for the same catalog and query agree
/// position by position, so re-running the ranking with nothing changed
/// yields the identical order every time.
pub proof fn lemma_rank_deterministic(
    catalog: Seq<EmojiEntry>,
    query: Seq<char>,
    out1: Seq<RankedResult>,
    out2: Seq<RankedResult>,
)
    requires
        rank_correct(catalog, query, out1),
        rank_correct(catalog, query, out2),
    ensures
        out1.len() == out2.len(),
        forall|j: int| 0 <= j < out1.len() ==> same_ranked(#[trigger] out1[j], out2[j]),
{
    lemma_rank_no_excess(catalog, query, out1, out2);
    lemma_rank_no_excess(catalog, query, out2, out1);
    if out1.len() > 0 {
        lemma_rank_unique_prefix(catalog, query, out1, out2, out1.len() - 1);
    }
}

} // verus!
