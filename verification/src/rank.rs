//! The population ranking engine: every individual is scored against the
//! query profile, then ordered descending by score with ties broken by id
//! ascending, and given ranks `1..=N`.

use vstd::prelude::*;

verus! {

use crate::SimError;
use vstd::multiset::Multiset;
use crate::bytes::{lex_leq, lex_leq_spec, lemma_lex_total, lemma_lex_trans};
use crate::group::{ScoreAggregator, matrix_spec, group_similarity};
use crate::bytes::clone_bytes;
use crate::ontology::{Ontology, resolves_all_exec};
use crate::population::Individual;
use crate::similarity::CustomJaccardIC;
use crate::termset::{TermSet, dedup_spec, parse_terms, parse_terms_spec};

/// An individual with its group score, before ranks are assigned.
pub struct ScoredId {
    pub id: Vec<u8>,
    pub score: u64,
}

/// One line of the ranking result: the individual, its score in fixed-point
/// units, and its rank (`1` is the best match).
pub struct ScoreRecord {
    pub id: Vec<u8>,
    pub score: u64,
    pub rank: usize,
}

/// The (id, score) pair a scored individual stands for.
pub open spec fn scored_pair(x: ScoredId) -> (Seq<u8>, u64) {
    (x.id@, x.score)
}

/// The (id, score) pair a result record stands for.
pub open spec fn record_pair(x: ScoreRecord) -> (Seq<u8>, u64) {
    (x.id@, x.score)
}

/// `a` ranks no worse than `b`: a higher score comes first, and equal scores
/// order by id ascending, so the ranking is deterministic.
pub open spec fn rank_leq(a: (Seq<u8>, u64), b: (Seq<u8>, u64)) -> bool {
    a.1 > b.1 || (a.1 == b.1 && lex_leq_spec(a.0, b.0))
}

/// The ranking order is total.
pub proof fn lemma_rank_leq_total(a: (Seq<u8>, u64), b: (Seq<u8>, u64))
    ensures
        rank_leq(a, b) || rank_leq(b, a),
{
    lemma_lex_total(a.0, b.0);
}

/// The ranking order is transitive.
pub proof fn lemma_rank_leq_trans(a: (Seq<u8>, u64), b: (Seq<u8>, u64), c: (Seq<u8>, u64))
    requires
        rank_leq(a, b),
        rank_leq(b, c),
    ensures
        rank_leq(a, c),
{
    if a.1 == b.1 && b.1 == c.1 {
        lemma_lex_trans(a.0, b.0, c.0);
    }
}

/// Whether `a` ranks no worse than `b`.
fn ranks_before(a: &ScoredId, b: &ScoredId) -> (r: bool)
    ensures
        r == rank_leq(scored_pair(*a), scored_pair(*b)),
{
    if a.score > b.score {
        true
    } else if a.score == b.score {
        lex_leq(&a.id, &b.id)
    } else {
        false
    }
}

/// Sorts the scored individuals by the ranking order, keeping exactly the
/// same (id, score) pairs.
fn sort_scored(input: Vec<ScoredId>) -> (r: Vec<ScoredId>)
    ensures
        r@.len() == input@.len(),
        forall|i: int, j: int|
            0 <= i < j < r@.len() ==> rank_leq(
                scored_pair(#[trigger] r@[i]),
                scored_pair(#[trigger] r@[j]),
            ),
        r@.map_values(|x: ScoredId| scored_pair(x)).to_multiset() == input@.map_values(
            |x: ScoredId| scored_pair(x),
        ).to_multiset(),
{
    broadcast use vstd::multiset::group_multiset_axioms;

    let ghost orig = input@.map_values(|x: ScoredId| scored_pair(x));
    let mut rest = input;
    let mut out: Vec<ScoredId> = Vec::new();
    proof {
        let e = out@.map_values(|x: ScoredId| scored_pair(x));
        e.to_multiset_ensures();
        assert(e.to_multiset() =~= Multiset::<(Seq<u8>, u64)>::empty());
        assert(e.to_multiset().add(orig.to_multiset()) =~= orig.to_multiset());
    }
    while rest.len() > 0
        invariant
            forall|i: int, j: int|
                0 <= i < j < out@.len() ==> rank_leq(
                    scored_pair(#[trigger] out@[i]),
                    scored_pair(#[trigger] out@[j]),
                ),
            out@.len() + rest@.len() == orig.len(),
            out@.map_values(|x: ScoredId| scored_pair(x)).to_multiset().add(
                rest@.map_values(|x: ScoredId| scored_pair(x)).to_multiset(),
            ) == orig.to_multiset(),
        decreases rest@.len(),
    {
        let ghost rest_pairs = rest@.map_values(|x: ScoredId| scored_pair(x));
        let x = match rest.pop() {
            Some(x) => x,
            None => {
                proof {
                    assert(false);
                }
                return out;
            },
        };
        let ghost xp = scored_pair(x);
        proof {
            assert(rest_pairs.len() > 0);
            assert(rest@.map_values(|x: ScoredId| scored_pair(x)) =~= rest_pairs.drop_last());
            assert(rest_pairs.drop_last() =~= rest_pairs.remove(rest_pairs.len() - 1));
            assert(rest_pairs[rest_pairs.len() - 1] == xp);
            vstd::seq_lib::to_multiset_remove(rest_pairs, rest_pairs.len() - 1);
            assert(rest_pairs.to_multiset().contains(xp)) by {
                rest_pairs.to_multiset_ensures();
            }
        }
        let n = out.len();
        let mut k: usize = 0;
        loop
            invariant
                k <= n,
                n == out@.len(),
                xp == scored_pair(x),
                forall|j: int| 0 <= j < k ==> !rank_leq(xp, scored_pair(#[trigger] out@[j])),
            ensures
                k <= n,
                n == out@.len(),
                forall|j: int| 0 <= j < k ==> !rank_leq(xp, scored_pair(#[trigger] out@[j])),
                k < n ==> rank_leq(xp, scored_pair(out@[k as int])),
            decreases n - k,
        {
            if k == n {
                break ;
            }
            if ranks_before(&x, &out[k]) {
                break ;
            }
            k += 1;
        }
        let ghost out_pre = out@;
        out.insert(k, x);
        proof {
            assert(out@ == out_pre.insert(k as int, x));
            assert forall|i: int, j: int|
                0 <= i < j < out@.len() implies rank_leq(
                scored_pair(#[trigger] out@[i]),
                scored_pair(#[trigger] out@[j]),
            ) by {
                let ki = k as int;
                if j < ki {
                    assert(out@[i] == out_pre[i] && out@[j] == out_pre[j]);
                } else if i < ki && j == ki {
                    assert(out@[i] == out_pre[i] && out@[j] == x);
                    lemma_rank_leq_total(xp, scored_pair(out_pre[i]));
                } else if i < ki && j > ki {
                    assert(out@[i] == out_pre[i] && out@[j] == out_pre[j - 1]);
                } else if i == ki {
                    assert(out@[i] == x && out@[j] == out_pre[j - 1]);
                    assert(rank_leq(xp, scored_pair(out_pre[ki])));
                    if j - 1 > ki {
                        lemma_rank_leq_trans(
                            xp,
                            scored_pair(out_pre[ki]),
                            scored_pair(out_pre[j - 1]),
                        );
                    }
                } else {
                    assert(out@[i] == out_pre[i - 1] && out@[j] == out_pre[j - 1]);
                }
            }
            assert(out@.map_values(|x: ScoredId| scored_pair(x)) =~= out_pre.map_values(
                |x: ScoredId| scored_pair(x),
            ).insert(k as int, xp));
            vstd::seq_lib::to_multiset_insert(
                out_pre.map_values(|x: ScoredId| scored_pair(x)),
                k as int,
                xp,
            );
            assert(out@.map_values(|x: ScoredId| scored_pair(x)).to_multiset() == out_pre.map_values(
                |x: ScoredId| scored_pair(x),
            ).to_multiset().insert(xp));
            assert(out@.map_values(|x: ScoredId| scored_pair(x)).to_multiset().add(
                rest@.map_values(|x: ScoredId| scored_pair(x)).to_multiset(),
            ) =~= orig.to_multiset());
        }
    }
    proof {
        let e = rest@.map_values(|x: ScoredId| scored_pair(x));
        e.to_multiset_ensures();
        assert(e =~= Seq::<(Seq<u8>, u64)>::empty());
        assert(e.to_multiset() =~= Multiset::<(Seq<u8>, u64)>::empty());
        assert(out@.map_values(|x: ScoredId| scored_pair(x)).to_multiset() =~= orig.to_multiset());
        out@.map_values(|x: ScoredId| scored_pair(x)).to_multiset_ensures();
        orig.to_multiset_ensures();
    }
    out
}

/// The result list is well ranked: sorted by the ranking order, with rank
/// `i + 1` at position `i`, so the ranks are exactly `1..=N`.
pub open spec fn ranked_wf(r: Seq<ScoreRecord>) -> bool {
    &&& forall|i: int| 0 <= i < r.len() ==> (#[trigger] r[i]).rank == i + 1
    &&& forall|i: int, j: int|
        0 <= i < j < r.len() ==> rank_leq(record_pair(#[trigger] r[i]), record_pair(#[trigger] r[j]))
}

/// Orders the scored individuals and assigns ranks `1..=N`: rank 1 is the
/// highest score, ties ordered by id ascending, and exactly the given
/// (id, score) pairs appear in the result.
pub fn create_ranked_vec(scored: Vec<ScoredId>) -> (r: Vec<ScoreRecord>)
    ensures
        r@.len() == scored@.len(),
        ranked_wf(r@),
        r@.map_values(|x: ScoreRecord| record_pair(x)).to_multiset() == scored@.map_values(
            |x: ScoredId| scored_pair(x),
        ).to_multiset(),
{
    let mut sorted = sort_scored(scored);
    let ghost sorted_pairs = sorted@.map_values(|x: ScoredId| scored_pair(x));
    proof {
        assert(forall|i: int, j: int|
            0 <= i < j < sorted_pairs.len() ==> rank_leq(
                #[trigger] sorted_pairs[i],
                #[trigger] sorted_pairs[j],
            ));
    }
    let total = sorted.len();
    let mut out: Vec<ScoreRecord> = Vec::new();
    let mut i: usize = 0;
    while i < total
        invariant
            i <= total,
            out@.len() == i,
            total - i == sorted@.len(),
            sorted_pairs.len() == total,
            sorted@.map_values(|x: ScoredId| scored_pair(x)) =~= sorted_pairs.skip(i as int),
            forall|j: int|
                0 <= j < i ==> record_pair(#[trigger] out@[j]) == sorted_pairs[j] && out@[j].rank
                    == j + 1,
        decreases total - i,
    {
        let ghost pre = sorted@;
        let x = sorted.remove(0);
        proof {
            assert(pre.map_values(|y: ScoredId| scored_pair(y)) == sorted_pairs.skip(i as int));
            assert(scored_pair(x) == pre.map_values(|y: ScoredId| scored_pair(y))[0]);
            assert(scored_pair(x) == sorted_pairs[i as int]);
        }
        out.push(
            ScoreRecord { id: x.id, score: x.score, rank: i + 1 },
        );
        proof {
            assert forall|j: int| 0 <= j < sorted@.len() implies scored_pair(
                #[trigger] sorted@[j],
            ) == sorted_pairs[i + 1 + j] by {
                assert(sorted@[j] == pre[j + 1]);
                assert(pre.map_values(|y: ScoredId| scored_pair(y))[j + 1] == scored_pair(
                    pre[j + 1],
                ));
                assert(sorted_pairs.skip(i as int)[j + 1] == sorted_pairs[i + 1 + j]);
            }
            assert(sorted@.map_values(|y: ScoredId| scored_pair(y)) =~= sorted_pairs.skip(i + 1));
        }
        i += 1;
    }
    proof {
        assert(out@.map_values(|x: ScoreRecord| record_pair(x)) =~= sorted_pairs);
    }
    out
}

/// The parsed, deduplicated phenotype profile of an individual.
pub open spec fn individual_profile(ind: Individual) -> Seq<u32> {
    match parse_terms_spec(ind.terms@) {
        Some(codes) => dedup_spec(codes),
        None => Seq::empty(),
    }
}

/// The individual's raw term field parses and every parsed term resolves.
pub open spec fn individual_ok(o: Ontology, ind: Individual) -> bool {
    &&& parse_terms_spec(ind.terms@).is_some()
    &&& o.resolves_all(individual_profile(ind))
}

/// The group score of an individual against the query profile, under the
/// aggregation strategy `A`.
pub open spec fn individual_score<A: ScoreAggregator>(
    o: Ontology,
    q: Seq<u32>,
    ind: Individual,
) -> u64 {
    A::spec_aggregate(matrix_spec(o, q, individual_profile(ind)))
}

/// Scores every individual of the population against the query profile and
/// ranks them.
///
/// Succeeds exactly when every individual's raw term field parses and every
/// parsed term resolves; one malformed or unresolvable record is a data
/// error for the whole request. The result carries exactly one record per
/// individual, ordered and ranked `1..=N`; an empty population yields the
/// empty ranking, not an error.
pub fn calc_scores<A: ScoreAggregator>(
    o: &Ontology,
    agg: &A,
    query: &TermSet,
    population: &Vec<Individual>,
) -> (r: Result<Vec<ScoreRecord>, SimError>)
    requires
        o.wf(),
        query.wf(),
        o.resolves_all(query@),
    ensures
        match r {
            Ok(recs) => {
                &&& forall|i: int|
                    0 <= i < population@.len() ==> individual_ok(*o, #[trigger] population@[i])
                &&& recs@.len() == population@.len()
                &&& ranked_wf(recs@)
                &&& recs@.map_values(|x: ScoreRecord| record_pair(x)).to_multiset()
                    == population@.map_values(
                    |ind: Individual| (ind.id@, individual_score::<A>(*o, query@, ind)),
                ).to_multiset()
            },
            Err(e) => e == SimError::DataError && exists|i: int|
                0 <= i < population@.len() && !individual_ok(*o, #[trigger] population@[i]),
        },
        population@.len() == 0 ==> r is Ok,
{
    let jac = CustomJaccardIC {  };
    let n = population.len();
    let mut scored: Vec<ScoredId> = Vec::new();
    let mut i: usize = 0;
    while i < n
        invariant
            o.wf(),
            query.wf(),
            o.resolves_all(query@),
            i <= n,
            n == population@.len(),
            scored@.len() == i,
            forall|j: int| 0 <= j < i ==> individual_ok(*o, #[trigger] population@[j]),
            forall|j: int|
                0 <= j < i ==> scored_pair(#[trigger] scored@[j]) == (
                    population@[j].id@,
                    individual_score::<A>(*o, query@, population@[j]),
                ),
        decreases n - i,
    {
        let codes = match parse_terms(&population[i].terms) {
            Ok(c) => c,
            Err(_) => {
                proof {
                    assert(!individual_ok(*o, population@[i as int]));
                }
                return Err(SimError::DataError);
            },
        };
        let profile = TermSet::new(codes);
        if !resolves_all_exec(o, &profile.ids) {
            proof {
                assert(!individual_ok(*o, population@[i as int]));
            }
            return Err(SimError::DataError);
        }
        let sc = group_similarity(agg, o, &jac, query, &profile);
        let cid = clone_bytes(&population[i].id);
        scored.push(ScoredId { id: cid, score: sc });
        i += 1;
    }
    let ghost scored_view = scored@;
    proof {
        assert(scored_view.map_values(|x: ScoredId| scored_pair(x)) =~= population@.map_values(
            |ind: Individual| (ind.id@, individual_score::<A>(*o, query@, ind)),
        ));
    }
    let ranked = create_ranked_vec(scored);
    Ok(ranked)
}

} // verus!
