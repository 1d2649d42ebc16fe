//! The permutation-based significance estimator: Monte Carlo trials drawn
//! without replacement score a random profile against the hit profile, two
//! Laplace-smoothed p-values come out exactly, and the pre-fit parameters of
//! the scaled chi-square combination ride along for the caller to finish
//! with.

use vstd::prelude::*;

verus! {

use crate::SimError;
use crate::bytes::{bytes_equal, clone_bytes};
use crate::group::{ScoreAggregator, matrix_spec, group_similarity};
use crate::ontology::Ontology;
use crate::ontology::resolves_all_exec;
use crate::ratio::Ratio;
use crate::rng::SimRng;
use crate::sample::{sample_indices, sample_terms};
use crate::similarity::CustomJaccardIC;
use crate::termset::{TermSet, dedup_spec, dedup_ids, parse_code, parse_code_spec};

/// The label bytes `udn`.
pub open spec fn udn_label() -> Seq<u8> {
    seq![117u8, 100u8, 110u8]
}

/// The label bytes `clinvar`.
pub open spec fn clinvar_label() -> Seq<u8> {
    seq![99u8, 108u8, 105u8, 110u8, 118u8, 97u8, 114u8]
}

/// A known background cohort with pre-fit chi-square parameters.
#[derive(Clone, Copy, Debug, PartialEq, Eq, Structural)]
pub enum BackgroundProfile {
    Udn,
    Clinvar,
}

/// Pre-fit parameters of the scaled chi-square approximation, as exact
/// decimal fractions: `scale = scale_num / scale_den`,
/// `dof = dof_num / dof_den`.
#[derive(Clone, Copy, Debug, PartialEq, Eq, Structural)]
pub struct BrownParams {
    pub scale_num: u64,
    pub scale_den: u64,
    pub dof_num: u64,
    pub dof_den: u64,
}

/// Maps each known cohort to its parameters.
pub open spec fn brown_params_spec(p: BackgroundProfile) -> BrownParams {
    match p {
        BackgroundProfile::Udn => BrownParams {
            scale_num: 10703270447328037,
            scale_den: 10000000000000000,
            dof_num: 3737175491999793,
            dof_den: 1000000000000000,
        },
        BackgroundProfile::Clinvar => BrownParams {
            scale_num: 10334745692972533,
            scale_den: 10000000000000000,
            dof_num: 38704387305049393,
            dof_den: 10000000000000000,
        },
    }
}

/// Accepts exactly the two known background labels; any other label is a
/// configuration error, never a silent default.
pub fn parse_profile(label: &Vec<u8>) -> (r: Result<BackgroundProfile, SimError>)
    ensures
        match r {
            Ok(p) => (p == BackgroundProfile::Udn && label@ == udn_label()) || (p
                == BackgroundProfile::Clinvar && label@ == clinvar_label()),
            Err(e) => e == SimError::ConfigurationError && label@ != udn_label() && label@
                != clinvar_label(),
        },
{
    let udn = vec![117u8, 100u8, 110u8];
    let clin = vec![99u8, 108u8, 105u8, 110u8, 118u8, 97u8, 114u8];
    proof {
        assert(udn@ =~= udn_label());
        assert(clin@ =~= clinvar_label());
    }
    if bytes_equal(label, &udn) {
        Ok(BackgroundProfile::Udn)
    } else if bytes_equal(label, &clin) {
        Ok(BackgroundProfile::Clinvar)
    } else {
        Err(SimError::ConfigurationError)
    }
}

/// The pre-fit parameters of a known cohort. Scale and degrees of freedom
/// are positive, so the scaled chi-square distribution is valid before any
/// simulation starts.
pub fn brown_params(p: BackgroundProfile) -> (r: BrownParams)
    ensures
        r == brown_params_spec(p),
        r.scale_num >= 1 && r.scale_den >= 1 && r.dof_num >= 1 && r.dof_den >= 1,
{
    match p {
        BackgroundProfile::Udn => BrownParams {
            scale_num: 10703270447328037,
            scale_den: 10000000000000000,
            dof_num: 3737175491999793,
            dof_den: 1000000000000000,
        },
        BackgroundProfile::Clinvar => BrownParams {
            scale_num: 10334745692972533,
            scale_den: 10000000000000000,
            dof_num: 38704387305049393,
            dof_den: 10000000000000000,
        },
    }
}

/// The parseable codes of a raw list that the ontology recognizes, in order.
pub open spec fn recognized_codes(o: Ontology, raws: Seq<Seq<u8>>) -> Seq<u32>
    decreases raws.len(),
{
    if raws.len() == 0 {
        Seq::empty()
    } else {
        let pre = recognized_codes(o, raws.drop_last());
        match parse_code_spec(raws.last()) {
            Some(v) => if o.contains_term(v) {
                pre.push(v)
            } else {
                pre
            },
            None => pre,
        }
    }
}

/// The term universe a raw code list stands for: every parseable code the
/// ontology resolves, first occurrences only, in order.
pub open spec fn term_universe_spec(o: Ontology, raws: Seq<Seq<u8>>) -> Seq<u32> {
    dedup_spec(recognized_codes(o, raws))
}

/// Filters the raw term codes to those the ontology recognizes and drops
/// repetitions: the universe the trials draw from.
pub fn build_term_universe(o: &Ontology, raws: &Vec<Vec<u8>>) -> (r: Vec<u32>)
    requires
        o.wf(),
    ensures
        r@ == term_universe_spec(*o, raws.deep_view()),
        r@.no_duplicates(),
        o.resolves_all(r@),
{
    let ghost graws = raws.deep_view();
    proof {
        assert(forall|j: int| 0 <= j < raws@.len() ==> (#[trigger] raws@[j])@ == graws[j]);
    }
    let n = raws.len();
    let mut acc: Vec<u32> = Vec::new();
    let mut i: usize = 0;
    while i < n
        invariant
            o.wf(),
            i <= n,
            n == raws@.len(),
            graws == raws.deep_view(),
            forall|j: int| 0 <= j < raws@.len() ==> (#[trigger] raws@[j])@ == graws[j],
            acc@ == recognized_codes(*o, graws.take(i as int)),
            o.resolves_all(acc@),
        decreases n - i,
    {
        proof {
            assert(graws.take(i + 1).drop_last() =~= graws.take(i as int));
            assert(graws.take(i + 1).last() == graws[i as int]);
        }
        match parse_code(&raws[i]) {
            Some(v) => {
                if o.resolves(v) {
                    acc.push(v);
                }
            },
            None => {},
        }
        i += 1;
    }
    proof {
        assert(graws.take(n as int) =~= graws);
    }
    let r = dedup_ids(&acc);
    proof {
        assert forall|k: int| 0 <= k < r@.len() implies o.contains_term(#[trigger] r@[k]) by {
            assert(acc@.contains(r@[k]));
            let w = choose|w: int| 0 <= w < acc@.len() && acc@[w] == r@[k];
            assert(o.contains_term(acc@[w]));
        }
    }
    r
}

/// Whether the symbol list holds the needle.
fn contains_view(hay: &Vec<Vec<u8>>, needle: &Vec<u8>) -> (r: bool)
    ensures
        r == hay.deep_view().contains(needle@),
{
    let ghost ghay = hay.deep_view();
    proof {
        assert(forall|j: int| 0 <= j < hay@.len() ==> (#[trigger] hay@[j])@ == ghay[j]);
    }
    let n = hay.len();
    let mut i: usize = 0;
    while i < n
        invariant
            i <= n,
            n == hay@.len(),
            ghay == hay.deep_view(),
            forall|j: int| 0 <= j < hay@.len() ==> (#[trigger] hay@[j])@ == ghay[j],
            forall|j: int| 0 <= j < i ==> #[trigger] ghay[j] != needle@,
        decreases n - i,
    {
        if bytes_equal(&hay[i], needle) {
            proof {
                assert(ghay[i as int] == needle@);
            }
            return true;
        }
        i += 1;
    }
    false
}

/// The symbol list with repeated symbols dropped: first occurrences, in
/// order.
pub open spec fn dedup_views(s: Seq<Seq<u8>>) -> Seq<Seq<u8>>
    decreases s.len(),
{
    if s.len() == 0 {
        Seq::empty()
    } else {
        let pre = dedup_views(s.drop_last());
        if pre.contains(s.last()) {
            pre
        } else {
            pre.push(s.last())
        }
    }
}

/// Deduplication of symbol lists yields a duplicate-free list with the same
/// members.
pub proof fn lemma_dedup_views_props(s: Seq<Seq<u8>>)
    ensures
        dedup_views(s).no_duplicates(),
        forall|x: Seq<u8>| dedup_views(s).contains(x) == s.contains(x),
    decreases s.len(),
{
    broadcast use vstd::seq_lib::group_seq_properties;

    if s.len() > 0 {
        lemma_dedup_views_props(s.drop_last());
        assert(s =~= s.drop_last().push(s.last()));
    }
}

/// Drops every repeated gene symbol, keeping first occurrences in order: the
/// gene universe the trials draw from, so a draw without replacement never
/// repeats a symbol.
pub fn dedup_genes(src: &Vec<Vec<u8>>) -> (r: Vec<Vec<u8>>)
    ensures
        r.deep_view() == dedup_views(src.deep_view()),
        r.deep_view().no_duplicates(),
        forall|x: Seq<u8>| r.deep_view().contains(x) == src.deep_view().contains(x),
{
    let ghost gsrc = src.deep_view();
    proof {
        assert(forall|j: int| 0 <= j < src@.len() ==> (#[trigger] src@[j])@ == gsrc[j]);
    }
    let n = src.len();
    let mut out: Vec<Vec<u8>> = Vec::new();
    let mut i: usize = 0;
    while i < n
        invariant
            i <= n,
            n == src@.len(),
            gsrc == src.deep_view(),
            forall|j: int| 0 <= j < src@.len() ==> (#[trigger] src@[j])@ == gsrc[j],
            out.deep_view() == dedup_views(gsrc.take(i as int)),
        decreases n - i,
    {
        proof {
            assert(gsrc.take(i + 1).drop_last() =~= gsrc.take(i as int));
            assert(gsrc.take(i + 1).last() == gsrc[i as int]);
        }
        let ghost pre = out.deep_view();
        if !contains_view(&out, &src[i]) {
            let copy = clone_bytes(&src[i]);
            out.push(copy);
            proof {
                assert(out.deep_view() =~= pre.push(gsrc[i as int]));
            }
        }
        i += 1;
    }
    proof {
        assert(gsrc.take(n as int) =~= gsrc);
        lemma_dedup_views_props(gsrc);
    }
    out
}

/// A draw of `k` distinct members of the term universe.
pub open spec fn valid_term_draw(universe: Seq<u32>, k: int, d: Seq<u32>) -> bool {
    &&& d.no_duplicates()
    &&& d.len() == k
    &&& forall|j: int| 0 <= j < d.len() ==> universe.contains(#[trigger] d[j])
}

/// A draw of `k` distinct indices below `n`.
pub open spec fn valid_index_draw(n: int, k: int, d: Seq<usize>) -> bool {
    &&& d.no_duplicates()
    &&& d.len() == k
    &&& forall|j: int| 0 <= j < d.len() ==> #[trigger] d[j] < n
}

/// Every trial score is the aggregate of the hit profile against some valid
/// draw from the term universe.
pub open spec fn trial_scores_ok<A: ScoreAggregator>(
    o: Ontology,
    hit: Seq<u32>,
    universe: Seq<u32>,
    k: int,
    scores: Seq<u64>,
) -> bool {
    forall|i: int|
        0 <= i < scores.len() ==> exists|d: Seq<u32>|
            valid_term_draw(universe, k, d) && #[trigger] scores[i] == A::spec_aggregate(
                matrix_spec(o, hit, d),
            )
}

/// The pooled hit count comes from one valid draw of gene indices per trial.
pub open spec fn gene_draws_ok(
    gu: Seq<Seq<u8>>,
    n_trials: int,
    k: int,
    hit: Seq<u8>,
    matches: int,
) -> bool {
    exists|ds: Seq<Seq<usize>>|
        {
            &&& ds.len() == n_trials
            &&& forall|i: int|
                0 <= i < ds.len() ==> valid_index_draw(gu.len() as int, k, #[trigger] ds[i])
            &&& matches == total_hits(gu, ds, hit)
        }
}

/// How many scores reach the observed score.
pub open spec fn count_geq(scores: Seq<u64>, x: u64) -> int
    decreases scores.len(),
{
    if scores.len() == 0 {
        0
    } else {
        count_geq(scores.drop_last(), x) + if scores.last() >= x {
            1int
        } else {
            0int
        }
    }
}

/// The count never exceeds the number of scores.
pub proof fn lemma_count_geq_range(scores: Seq<u64>, x: u64)
    ensures
        0 <= count_geq(scores, x) <= scores.len(),
    decreases scores.len(),
{
    if scores.len() > 0 {
        lemma_count_geq_range(scores.drop_last(), x);
    }
}

/// How many draws of one trial name the hit gene.
pub open spec fn hit_count(gu: Seq<Seq<u8>>, d: Seq<usize>, hit: Seq<u8>) -> int
    decreases d.len(),
{
    if d.len() == 0 {
        0
    } else {
        hit_count(gu, d.drop_last(), hit) + if gu[d.last() as int] == hit {
            1int
        } else {
            0int
        }
    }
}

/// The hit counts of all trials, pooled.
pub open spec fn total_hits(gu: Seq<Seq<u8>>, draws: Seq<Seq<usize>>, hit: Seq<u8>) -> int
    decreases draws.len(),
{
    if draws.len() == 0 {
        0
    } else {
        total_hits(gu, draws.drop_last(), hit) + hit_count(gu, draws.last(), hit)
    }
}

/// Counts the drawn indices naming the hit gene. With a duplicate-free
/// universe and a draw without replacement, at most one draw of a trial can.
fn count_gene_hits(gu_vec: &Vec<Vec<u8>>, draw: &Vec<usize>, hit: &Vec<u8>) -> (c: u64)
    requires
        gu_vec.deep_view().no_duplicates(),
        draw@.no_duplicates(),
        forall|j: int| 0 <= j < draw@.len() ==> #[trigger] draw@[j] < gu_vec@.len(),
    ensures
        c == hit_count(gu_vec.deep_view(), draw@, hit@),
        c <= 1,
{
    let ghost gu = gu_vec.deep_view();
    proof {
        assert(forall|j: int| 0 <= j < gu_vec@.len() ==> (#[trigger] gu_vec@[j])@ == gu[j]);
    }
    let n = draw.len();
    let mut c: u64 = 0;
    let mut i: usize = 0;
    while i < n
        invariant
            i <= n,
            n == draw@.len(),
            gu == gu_vec.deep_view(),
            gu.no_duplicates(),
            draw@.no_duplicates(),
            forall|j: int| 0 <= j < draw@.len() ==> #[trigger] draw@[j] < gu_vec@.len(),
            forall|j: int| 0 <= j < gu_vec@.len() ==> (#[trigger] gu_vec@[j])@ == gu[j],
            c == hit_count(gu, draw@.take(i as int), hit@),
            c <= 1,
            (c == 1) == exists|p: int| 0 <= p < i && gu[#[trigger] draw@[p] as int] == hit@,
        decreases n - i,
    {
        proof {
            assert(draw@.take(i + 1).drop_last() =~= draw@.take(i as int));
            assert(draw@.take(i + 1).last() == draw@[i as int]);
        }
        if bytes_equal(&gu_vec[draw[i]], hit) {
            proof {
                assert(gu[draw@[i as int] as int] == hit@);
                if c == 1 {
                    let p = choose|p: int| 0 <= p < i && gu[#[trigger] draw@[p] as int] == hit@;
                    assert(gu[draw@[p] as int] == gu[draw@[i as int] as int]);
                    assert(draw@[p] != draw@[i as int]);
                    assert(false);
                }
            }
            c = c + 1;
        }
        i += 1;
    }
    proof {
        assert(draw@.take(n as int) =~= draw@);
    }
    c
}

/// The two p-values one estimation run produced, with the raw material they
/// came from: every trial's score and the pooled count of hit-gene draws.
pub struct PValuePair {
    pub pheno_p: Ratio,
    pub gene_p: Ratio,
    pub scores: Vec<u64>,
    pub gene_matches: u64,
}

/// Runs the Monte Carlo trials and forms both p-values exactly.
///
/// Each trial draws `num_hpo_terms` distinct terms from the term universe
/// and `num_query_genes` distinct gene symbols from the gene universe,
/// scores the random profile against the hit profile, and pools the gene
/// draws over all trials. `phenoP = (|scores >= observed| + 1) /
/// (iterations + 1)` and `geneP = (|pooled draws = hit gene| + 1) /
/// (iterations + 1)`; both are Laplace-smoothed, so neither is ever zero.
/// A universe smaller than the requested draw is resource exhaustion.
pub fn calc_p_vals<A: ScoreAggregator>(
    o: &Ontology,
    agg: &A,
    hit_set: &TermSet,
    hit_gene: &Vec<u8>,
    sim_score: u64,
    term_universe: &Vec<u32>,
    gene_universe: &Vec<Vec<u8>>,
    num_hpo_terms: usize,
    num_query_genes: usize,
    iterations: u32,
    rng: &mut SimRng,
) -> (r: Result<PValuePair, SimError>)
    requires
        o.wf(),
        hit_set.wf(),
        o.resolves_all(hit_set@),
        term_universe@.no_duplicates(),
        o.resolves_all(term_universe@),
        gene_universe.deep_view().no_duplicates(),
    ensures
        match r {
            Ok(out) => {
                &&& num_hpo_terms <= term_universe@.len()
                &&& num_query_genes <= gene_universe@.len()
                &&& out.scores@.len() == iterations
                &&& trial_scores_ok::<A>(
                    *o,
                    hit_set@,
                    term_universe@,
                    num_hpo_terms as int,
                    out.scores@,
                )
                &&& gene_draws_ok(
                    gene_universe.deep_view(),
                    iterations as int,
                    num_query_genes as int,
                    hit_gene@,
                    out.gene_matches as int,
                )
                &&& out.gene_matches <= iterations
                &&& out.pheno_p.num == count_geq(out.scores@, sim_score) + 1
                &&& out.pheno_p.den == iterations + 1
                &&& out.pheno_p.num >= 1 && out.pheno_p.wf()
                &&& out.gene_p.num == out.gene_matches + 1
                &&& out.gene_p.den == iterations + 1
                &&& out.gene_p.num >= 1 && out.gene_p.wf()
            },
            Err(e) => e == SimError::ResourceExhaustion && (num_hpo_terms > term_universe@.len()
                || num_query_genes > gene_universe@.len()),
        },
{
    if num_hpo_terms > term_universe.len() {
        return Err(SimError::ResourceExhaustion);
    }
    if num_query_genes > gene_universe.len() {
        return Err(SimError::ResourceExhaustion);
    }
    let jac = CustomJaccardIC {  };
    let mut scores: Vec<u64> = Vec::new();
    let mut gene_matches: u64 = 0;
    let ghost mut gdraws: Seq<Seq<usize>> = Seq::empty();
    let mut it: u32 = 0;
    while it < iterations
        invariant
            o.wf(),
            hit_set.wf(),
            o.resolves_all(hit_set@),
            term_universe@.no_duplicates(),
            o.resolves_all(term_universe@),
            gene_universe.deep_view().no_duplicates(),
            num_hpo_terms <= term_universe@.len(),
            num_query_genes <= gene_universe@.len(),
            it <= iterations,
            scores@.len() == it,
            forall|i: int|
                0 <= i < it ==> exists|d: Seq<u32>|
                    valid_term_draw(term_universe@, num_hpo_terms as int, d)
                        && #[trigger] scores@[i] == A::spec_aggregate(matrix_spec(*o, hit_set@, d)),
            gdraws.len() == it,
            forall|i: int|
                0 <= i < gdraws.len() ==> valid_index_draw(
                    gene_universe@.len() as int,
                    num_query_genes as int,
                    #[trigger] gdraws[i],
                ),
            gene_matches == total_hits(gene_universe.deep_view(), gdraws, hit_gene@),
            gene_matches <= it,
        decreases iterations - it,
    {
        let draw = match sample_terms(rng, term_universe, num_hpo_terms) {
            Ok(d) => d,
            Err(_) => {
                proof {
                    assert(false);
                }
                return Err(SimError::ResourceExhaustion);
            },
        };
        let dset = TermSet { ids: draw };
        proof {
            assert forall|j: int| 0 <= j < dset@.len() implies o.contains_term(
                #[trigger] dset@[j],
            ) by {
                assert(term_universe@.contains(dset@[j]));
                let w = choose|w: int| 0 <= w < term_universe@.len() && term_universe@[w]
                    == dset@[j];
                assert(o.contains_term(term_universe@[w]));
            }
        }
        let sc = group_similarity(agg, o, &jac, hit_set, &dset);
        let ghost pre_scores = scores@;
        scores.push(sc);
        proof {
            assert(valid_term_draw(term_universe@, num_hpo_terms as int, dset@) && scores@[
            it as int] == A::spec_aggregate(matrix_spec(*o, hit_set@, dset@)));
            assert(forall|i: int| 0 <= i < it ==> #[trigger] scores@[i] == pre_scores[i]);
        }
        let gidx = match sample_indices(rng, gene_universe.len(), num_query_genes) {
            Ok(v) => v,
            Err(_) => {
                proof {
                    assert(false);
                }
                return Err(SimError::ResourceExhaustion);
            },
        };
        let c = count_gene_hits(gene_universe, &gidx, hit_gene);
        gene_matches = gene_matches + c;
        proof {
            let ghost pre_draws = gdraws;
            gdraws = gdraws.push(gidx@);
            assert(gdraws.drop_last() =~= pre_draws);
            assert(gdraws.last() == gidx@);
            assert(forall|i: int| 0 <= i < pre_draws.len() ==> #[trigger] gdraws[i]
                == pre_draws[i]);
        }
        it += 1;
    }
    let n_scores = scores.len();
    let mut cnt: u64 = 0;
    let mut i: usize = 0;
    while i < n_scores
        invariant
            i <= n_scores,
            n_scores == scores@.len(),
            cnt == count_geq(scores@.take(i as int), sim_score),
            cnt <= i,
        decreases n_scores - i,
    {
        proof {
            assert(scores@.take(i + 1).drop_last() =~= scores@.take(i as int));
            assert(scores@.take(i + 1).last() == scores@[i as int]);
        }
        if scores[i] >= sim_score {
            cnt = cnt + 1;
        }
        i += 1;
    }
    proof {
        assert(scores@.take(n_scores as int) =~= scores@);
        lemma_count_geq_range(scores@, sim_score);
        assert(gene_universe.deep_view().len() == gene_universe@.len());
        assert(gene_draws_ok(
            gene_universe.deep_view(),
            iterations as int,
            num_query_genes as int,
            hit_gene@,
            gene_matches as int,
        )) by {
            assert(gdraws.len() == iterations as int);
            assert(forall|i: int|
                0 <= i < gdraws.len() ==> valid_index_draw(
                    gene_universe.deep_view().len() as int,
                    num_query_genes as int,
                    #[trigger] gdraws[i],
                ));
            assert(gene_matches == total_hits(gene_universe.deep_view(), gdraws, hit_gene@));
        }
    }
    let den: u64 = (iterations as u64) + 1;
    let pheno_p = Ratio { num: cnt + 1, den };
    let gene_p = Ratio { num: gene_matches + 1, den };
    Ok(PValuePair { pheno_p, gene_p, scores, gene_matches })
}

/// What one significance estimation produced: both exact p-values, the raw
/// trial scores, the pooled hit-gene count, the cohort parameters for the
/// chi-square combination, and the per-trial term count after clamping.
pub struct SignificanceOutcome {
    pub pheno_p: Ratio,
    pub gene_p: Ratio,
    pub scores: Vec<u64>,
    pub gene_matches: u64,
    pub params: BrownParams,
    pub num_terms_used: usize,
}

/// The per-trial term count after the documented truncation to at most 10,
/// which bounds the cost of a trial; a truncation, not an error.
pub open spec fn clamped_terms(num_hpo_terms: usize) -> int {
    if num_hpo_terms > 10 {
        10
    } else {
        num_hpo_terms as int
    }
}

/// Estimates how significant an observed match score and candidate gene are.
///
/// Validates the background label first (an unknown label is fatal), clamps
/// the per-trial term count to 10, filters the term universe to terms the
/// ontology recognizes, drops repeated gene symbols, and runs the trials.
/// The result carries both exact p-values and the cohort's pre-fit scale and
/// degrees of freedom; the caller combines them into
/// `-log10(1 - ChiSquareCdf(-2 (ln phenoP + ln geneP) / scale, dof))`.
#[verifier::rlimit(80)]
pub fn calc_simpheny_score<A: ScoreAggregator>(
    o: &Ontology,
    agg: &A,
    hit_terms: Vec<u32>,
    hit_gene: &Vec<u8>,
    sim_score: u64,
    num_query_genes: usize,
    num_hpo_terms: usize,
    data_bg: &Vec<u8>,
    iterations: u32,
    term_codes: &Vec<Vec<u8>>,
    gene_symbols: &Vec<Vec<u8>>,
    rng: &mut SimRng,
) -> (r: Result<SignificanceOutcome, SimError>)
    requires
        o.wf(),
    ensures
        ({
            let hit = dedup_spec(hit_terms@);
            let tuniv = term_universe_spec(*o, term_codes.deep_view());
            let guniv = dedup_views(gene_symbols.deep_view());
            let k = clamped_terms(num_hpo_terms);
            let label_ok = data_bg@ == udn_label() || data_bg@ == clinvar_label();
            match r {
                Err(e) => {
                    &&& (e == SimError::ConfigurationError) == !label_ok
                    &&& (e == SimError::DataError) == (label_ok && !o.resolves_all(hit))
                    &&& (e == SimError::ResourceExhaustion) == (label_ok && o.resolves_all(hit)
                        && (k > tuniv.len() || num_query_genes > guniv.len()))
                },
                Ok(out) => {
                    &&& label_ok
                    &&& o.resolves_all(hit)
                    &&& k <= tuniv.len()
                    &&& num_query_genes <= guniv.len()
                    &&& out.num_terms_used == k
                    &&& data_bg@ == udn_label() ==> out.params == brown_params_spec(
                        BackgroundProfile::Udn,
                    )
                    &&& data_bg@ == clinvar_label() ==> out.params == brown_params_spec(
                        BackgroundProfile::Clinvar,
                    )
                    &&& out.params.scale_num >= 1 && out.params.scale_den >= 1
                        && out.params.dof_num >= 1 && out.params.dof_den >= 1
                    &&& out.scores@.len() == iterations
                    &&& trial_scores_ok::<A>(*o, hit, tuniv, k, out.scores@)
                    &&& gene_draws_ok(
                        guniv,
                        iterations as int,
                        num_query_genes as int,
                        hit_gene@,
                        out.gene_matches as int,
                    )
                    &&& out.gene_matches <= iterations
                    &&& out.pheno_p.num == count_geq(out.scores@, sim_score) + 1
                    &&& out.pheno_p.den == iterations + 1
                    &&& out.pheno_p.num >= 1 && out.pheno_p.wf()
                    &&& out.gene_p.num == out.gene_matches + 1
                    &&& out.gene_p.den == iterations + 1
                    &&& out.gene_p.num >= 1 && out.gene_p.wf()
                },
            }
        }),
{
    let profile = match parse_profile(data_bg) {
        Ok(p) => p,
        Err(e) => {
            return Err(e);
        },
    };
    let params = brown_params(profile);
    let k: usize = if num_hpo_terms > 10 {
        10
    } else {
        num_hpo_terms
    };
    let hit_set = TermSet::new(hit_terms);
    if !resolves_all_exec(o, &hit_set.ids) {
        return Err(SimError::DataError);
    }
    let tuniv = build_term_universe(o, term_codes);
    let guniv = dedup_genes(gene_symbols);
    let pv = match calc_p_vals(
        o,
        agg,
        &hit_set,
        hit_gene,
        sim_score,
        &tuniv,
        &guniv,
        k,
        num_query_genes,
        iterations,
        rng,
    ) {
        Ok(pv) => pv,
        Err(e) => {
            return Err(e);
        },
    };
    Ok(
        SignificanceOutcome {
            pheno_p: pv.pheno_p,
            gene_p: pv.gene_p,
            scores: pv.scores,
            gene_matches: pv.gene_matches,
            params,
            num_terms_used: k,
        },
    )
}

} // verus!
