//! Ranking the documents of an index against a query: by score, the highest
//! first, and among equal scores by path in lexical order.

use vstd::prelude::*;
use crate::index::{Index, string_views, valid_index};
use crate::order::{
    before, lemma_before_irreflexive, lemma_before_total, lemma_before_transitive, str_before,
};
use crate::score::{
    Scores, int_views, parse_query, query_terms, score, score_of, scored, term_weights, weights_of,
};

verus! {

/// Whether `a` comes before `b` in a ranking: it has the higher score, or the
/// same score and the path that comes first in lexical order.
pub open spec fn outranks(a: (Seq<char>, int), b: (Seq<char>, int)) -> bool {
    a.1 > b.1 || (a.1 == b.1 && before(a.0, b.0))
}

/// Each element of `hits` outranks those that follow it.
pub open spec fn ranked(hits: Scores) -> bool {
    forall|i: int, j: int|
        0 <= i < j < hits.len() ==> outranks(#[trigger] hits[i], #[trigger] hits[j])
}

/// Whether `hits` is the ranking of `candidates`, cut off after `limit`
/// entries: it holds `limit` of the candidates, or all where there are fewer;
/// each outranks those that follow it; and it leaves a candidate out only
/// where it is full and all that it holds outrank the candidate.
pub open spec fn is_ranking(hits: Scores, candidates: Scores, limit: nat) -> bool {
    &&& hits.len() == if limit <= candidates.len() {
        limit
    } else {
        candidates.len()
    }
    &&& ranked(hits)
    &&& forall|i: int| 0 <= i < hits.len() ==> candidates.contains(#[trigger] hits[i])
    &&& forall|k: int|
        0 <= k < candidates.len() ==> hits.contains(#[trigger] candidates[k]) || (hits.len()
            == limit && forall|i: int|
            0 <= i < hits.len() ==> outranks(#[trigger] hits[i], candidates[k]))
}

/// Nothing outranks itself.
pub proof fn lemma_outranks_irreflexive(a: (Seq<char>, int))
    ensures
        !outranks(a, a),
{
    lemma_before_irreflexive(a.0);
}

/// Of two candidates with different paths exactly one outranks the other.
pub proof fn lemma_outranks_total(a: (Seq<char>, int), b: (Seq<char>, int))
    ensures
        !(outranks(a, b) && outranks(b, a)),
        a.0 != b.0 ==> outranks(a, b) || outranks(b, a),
{
    lemma_before_total(a.0, b.0);
}

/// What outranks a candidate outranks all that the candidate outranks.
pub proof fn lemma_outranks_transitive(
    a: (Seq<char>, int),
    b: (Seq<char>, int),
    c: (Seq<char>, int),
)
    requires
        outranks(a, b),
        outranks(b, c),
    ensures
        outranks(a, c),
{
    if a.1 == b.1 && b.1 == c.1 {
        lemma_before_transitive(a.0, b.0, c.0);
    }
}

/// The first `limit` elements of `hits`, or all where there are fewer.
pub open spec fn cut(hits: Scores, limit: nat) -> Scores {
    if hits.len() > limit {
        hits.take(limit as int)
    } else {
        hits
    }
}

/// How a ranking takes one more candidate `c`, whose path no candidate has
/// yet: `p` being its place, after the hits that outrank it, the new ranking
/// has `c` at `p` and is cut off again, and where `p` is beyond the limit it
/// is the old one.
pub proof fn lemma_ranking_step(
    hits: Scores,
    candidates: Scores,
    c: (Seq<char>, int),
    p: int,
    limit: nat,
)
    requires
        is_ranking(hits, candidates, limit),
        forall|k: int| 0 <= k < candidates.len() ==> (#[trigger] candidates[k]).0 != c.0,
        0 <= p <= hits.len(),
        forall|q: int| 0 <= q < p ==> outranks(#[trigger] hits[q], c),
        p < hits.len() ==> !outranks(hits[p], c),
    ensures
        p < limit ==> is_ranking(cut(hits.insert(p, c), limit), candidates.push(c), limit),
        p >= limit ==> is_ranking(hits, candidates.push(c), limit),
{
    let more = candidates.push(c);
    assert(more[candidates.len() as int] == c);
    assert forall|k: int| 0 <= k < candidates.len() implies #[trigger] more[k]
        == candidates[k] by {}
    assert forall|q: int| p <= q < hits.len() implies outranks(c, #[trigger] hits[q]) by {
        let k = choose|k: int| 0 <= k < candidates.len() && candidates[k] == hits[p];
        lemma_outranks_total(c, hits[p]);
        if q > p {
            lemma_outranks_transitive(c, hits[p], hits[q]);
        }
    }
    if p < limit {
        let grown = hits.insert(p, c);
        let next = cut(grown, limit);
        assert forall|i: int| 0 <= i < grown.len() implies #[trigger] grown[i] == if i < p {
            hits[i]
        } else if i == p {
            c
        } else {
            hits[i - 1]
        } by {}
        assert forall|i: int| 0 <= i < next.len() implies #[trigger] next[i] == grown[i] by {}
        assert forall|i: int, j: int| 0 <= i < j < next.len() implies outranks(
            #[trigger] next[i],
            #[trigger] next[j],
        ) by {
            assert(next[i] == grown[i] && next[j] == grown[j]);
            if j < p {
            } else if j == p {
            } else if i < p {
                assert(outranks(hits[i], hits[j - 1]));
            } else if i == p {
                assert(outranks(c, hits[j - 1]));
            } else {
                assert(outranks(hits[i - 1], hits[j - 1]));
            }
        }
        assert forall|i: int| 0 <= i < next.len() implies more.contains(#[trigger] next[i]) by {
            assert(next[i] == grown[i]);
            if i == p {
            } else {
                let h = if i < p {
                    hits[i]
                } else {
                    hits[i - 1]
                };
                let k = choose|k: int| 0 <= k < candidates.len() && candidates[k] == h;
                assert(more[k] == h);
            }
        }
        assert forall|k: int| 0 <= k < more.len() implies next.contains(#[trigger] more[k]) || (
        next.len() == limit && forall|i: int|
            0 <= i < next.len() ==> outranks(#[trigger] next[i], more[k])) by {
            let x = more[k];
            if k == candidates.len() {
                assert(next[p] == x);
            } else if hits.contains(candidates[k]) {
                let q = choose|q: int| 0 <= q < hits.len() && hits[q] == x;
                let at = if q < p {
                    q
                } else {
                    q + 1
                };
                assert(grown[at] == x);
                if at < next.len() {
                    assert(next[at] == x);
                } else {
                    assert forall|i: int| 0 <= i < next.len() implies outranks(
                        #[trigger] next[i],
                        x,
                    ) by {
                        assert(next[i] == grown[i]);
                        if i < p {
                            assert(outranks(hits[i], hits[q]));
                        } else if i == p {
                            assert(outranks(c, hits[q]));
                        } else {
                            assert(outranks(hits[i - 1], hits[q]));
                        }
                    }
                }
            } else {
                assert forall|i: int| 0 <= i < next.len() implies outranks(
                    #[trigger] next[i],
                    x,
                ) by {
                    assert(next[i] == grown[i]);
                    if i < p {
                        assert(outranks(hits[i], candidates[k]));
                    } else if i == p {
                        assert(hits.len() == limit);
                        assert(outranks(c, hits[p]));
                        assert(outranks(hits[p], candidates[k]));
                        lemma_outranks_transitive(c, hits[p], x);
                    } else {
                        assert(outranks(hits[i - 1], candidates[k]));
                    }
                }
            }
        }
    } else {
        assert forall|i: int| 0 <= i < hits.len() implies more.contains(#[trigger] hits[i]) by {
            let k = choose|k: int| 0 <= k < candidates.len() && candidates[k] == hits[i];
            assert(more[k] == hits[i]);
        }
        assert forall|k: int| 0 <= k < more.len() implies hits.contains(#[trigger] more[k]) || (
        hits.len() == limit && forall|i: int|
            0 <= i < hits.len() ==> outranks(#[trigger] hits[i], more[k])) by {
            if k < candidates.len() {
                assert(more[k] == candidates[k]);
            }
        }
    }
}

/// There is but one ranking of given candidates with a given limit: ranking
/// the same index for the same query twice gives the same list, ties in their
/// order by path included.
pub proof fn lemma_ranking_unique(a: Scores, b: Scores, candidates: Scores, limit: nat)
    requires
        is_ranking(a, candidates, limit),
        is_ranking(b, candidates, limit),
    ensures
        a == b,
{
    assert forall|i: int| 0 <= i < a.len() implies a[i] == b[i] by {
        lemma_ranking_agree(a, b, candidates, limit, i);
    }
    assert(a =~= b);
}

/// Two rankings of the same candidates agree at every place.
proof fn lemma_ranking_agree(a: Scores, b: Scores, candidates: Scores, limit: nat, i: int)
    requires
        is_ranking(a, candidates, limit),
        is_ranking(b, candidates, limit),
        0 <= i < a.len(),
    ensures
        a[i] == b[i],
    decreases i,
{
    assert forall|j: int| 0 <= j < i implies a[j] == b[j] by {
        lemma_ranking_agree(a, b, candidates, limit, j);
    }
    lemma_place(a, b, candidates, limit, i);
    lemma_place(b, a, candidates, limit, i);
    lemma_outranks_total(a[i], b[i]);
}

/// Where two rankings agree before place `i`, what the first has at `i` the
/// second has there too, or the second has at `i` something that outranks it.
proof fn lemma_place(a: Scores, b: Scores, candidates: Scores, limit: nat, i: int)
    requires
        is_ranking(a, candidates, limit),
        is_ranking(b, candidates, limit),
        0 <= i < a.len(),
        forall|j: int| 0 <= j < i ==> a[j] == b[j],
    ensures
        a[i] == b[i] || outranks(b[i], a[i]),
{
    let x = a[i];
    let k = choose|k: int| 0 <= k < candidates.len() && candidates[k] == x;
    if b.contains(candidates[k]) {
        let j = choose|j: int| 0 <= j < b.len() && b[j] == x;
        if j < i {
            assert(a[j] == b[j]);
            assert(outranks(a[j], a[i]));
            lemma_outranks_irreflexive(x);
        } else if j > i {
            assert(outranks(b[i], b[j]));
        }
    } else {
        assert(outranks(b[i], candidates[k]));
    }
}

/// One document of a ranking.
#[derive(Debug)]
pub struct Hit {
    /// The path of the document.
    pub path: String,
    /// The score of the document, in the unit of the table of inverse
    /// document frequencies.
    pub score: i64,
}

/// The paths and scores of `hits`, one by one.
pub open spec fn hit_views(hits: Seq<Hit>) -> Scores {
    Seq::new(hits.len(), |i: int| (hits[i].path@, hits[i].score as int))
}

/// Whether the candidate with path `a` and score `x` outranks the one with
/// path `b` and score `y`.
fn comes_first(a: &str, x: i64, b: &str, y: i64) -> (r: bool)
    ensures
        r == outranks((a@, x as int), (b@, y as int)),
{
    x > y || (x == y && str_before(a, b))
}

/// The ranking of the documents of `index` for the different terms `terms`,
/// cut off after `limit` entries.
pub fn rank_terms(index: &Index, terms: &Vec<String>, idf: &[i64], limit: usize) -> (hits: Vec<Hit>)
    requires
        index.wf(),
        string_views(terms@).no_duplicates(),
    ensures
        is_ranking(hit_views(hits@), scored(index@, string_views(terms@), idf@), limit as nat),
{
    let ghost names = string_views(terms@);
    let ghost all = scored(index@, names, idf@);
    let weights = weights_of(index, terms, idf);
    let mut hits: Vec<Hit> = Vec::new();
    let n = index.len();
    let mut i: usize = 0;
    proof {
        index.lemma_wf();
        assert(all.take(0) =~= Seq::empty());
        assert(hit_views(hits@) =~= Seq::empty());
    }
    while i < n
        invariant
            i <= n == index@.len(),
            index.wf(),
            valid_index(index@),
            names == string_views(terms@),
            names.no_duplicates(),
            all == scored(index@, names, idf@),
            weights@.len() == terms@.len(),
            int_views(weights@) == term_weights(index@, names, idf@),
            is_ranking(hit_views(hits@), all.take(i as int), limit as nat),
        decreases n - i,
    {
        let path = index.path(i);
        let points = score_of(index.document(i), terms, &weights);
        let ghost c = (path@, points as int);
        let ghost old_hits = hit_views(hits@);
        assert(all[i as int] == c);
        let mut p: usize = 0;
        let mut ahead: bool = true;
        while ahead && p < hits.len()
            invariant
                p <= hits@.len(),
                old_hits == hit_views(hits@),
                c == (path@, points as int),
                forall|q: int| 0 <= q < p ==> outranks(#[trigger] old_hits[q], c),
                !ahead ==> p < hits@.len() && !outranks(old_hits[p as int], c),
            decreases hits@.len() - p, if ahead { 1int } else { 0int },
        {
            if comes_first(hits[p].path.as_str(), hits[p].score, path, points) {
                p += 1;
            } else {
                ahead = false;
            }
        }
        proof {
            assert forall|k: int| 0 <= k < all.take(i as int).len() implies (
            #[trigger] all.take(i as int)[k]).0 != c.0 by {
                assert(all.take(i as int)[k].0 == index@[k].0);
            }
            lemma_ranking_step(old_hits, all.take(i as int), c, p as int, limit as nat);
            assert(all.take(i + 1) =~= all.take(i as int).push(c));
        }
        if p < limit {
            hits.insert(p, Hit { path: path.to_owned(), score: points });
            assert(hit_views(hits@) =~= old_hits.insert(p as int, c));
            if hits.len() > limit {
                hits.pop();
                assert(hit_views(hits@) =~= cut(old_hits.insert(p as int, c), limit as nat));
            }
        }
        i += 1;
    }
    proof {
        assert(all.take(i as int) =~= all);
    }
    hits
}

/// The ranking of the documents of `index` for `query`, cut off after `limit`
/// entries. A query without terms and an index without documents give an
/// empty ranking.
pub fn rank(index: &Index, query: &str, idf: &[i64], limit: usize) -> (hits: Vec<Hit>)
    requires
        index.wf(),
    ensures
        query_terms(query@).len() == 0 || index@.len() == 0 ==> hits@.len() == 0,
        query_terms(query@).len() > 0 ==> is_ranking(
            hit_views(hits@),
            scored(index@, query_terms(query@), idf@),
            limit as nat,
        ),
{
    let terms = parse_query(query);
    if terms.len() == 0 {
        return Vec::new();
    }
    rank_terms(index, &terms, idf, limit)
}

} // verus!
