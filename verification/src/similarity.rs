//! The pairwise term similarity metric: an information-content Jaccard ratio
//! over ancestor closures, with a correction that avoids counting a term's own
//! information content twice when one term subsumes the other.

use vstd::prelude::*;

verus! {

use crate::ontology::{
    Ontology,
    MAX_TERMS,
    lemma_ic_sum_inclusion_exclusion,
    lemma_ic_sum_monotone,
    lemma_ic_sum_nonneg,
    lemma_ic_sum_remove,
    contains_id,
};
use crate::ratio::Ratio;

/// Information-content mass of the common ancestors of `a` and `b`.
pub open spec fn sim_inter(o: Ontology, a: u32, b: u32) -> int {
    o.set_ic(o.anc_set(a).intersect(o.anc_set(b)))
}

/// The correction added to the union mass: when one term is an ancestor of
/// the other, only the descendant's own information content is added once
/// more; otherwise both terms' are.
pub open spec fn sim_correction(o: Ontology, a: u32, b: u32) -> int {
    if o.anc_set(b).contains(a) {
        o.ic_of(b) as int
    } else if o.anc_set(a).contains(b) {
        o.ic_of(a) as int
    } else {
        o.ic_of(a) + o.ic_of(b)
    }
}

/// Corrected information-content mass of the union of the two closures: the
/// denominator of the similarity ratio.
pub open spec fn sim_union(o: Ontology, a: u32, b: u32) -> int {
    o.set_ic(o.anc_set(a).union(o.anc_set(b))) + sim_correction(o, a, b)
}

/// Numerator of the similarity of `a` and `b`.
pub open spec fn sim_num(o: Ontology, a: u32, b: u32) -> int {
    if a == b {
        1
    } else if sim_union(o, a, b) == 0 {
        0
    } else {
        sim_inter(o, a, b)
    }
}

/// Denominator of the similarity of `a` and `b`.
pub open spec fn sim_den(o: Ontology, a: u32, b: u32) -> int {
    if a == b {
        1
    } else if sim_union(o, a, b) == 0 {
        1
    } else {
        sim_union(o, a, b)
    }
}

/// The pairwise similarity metric.
pub struct CustomJaccardIC {}

impl CustomJaccardIC {
    /// The similarity of two resolvable terms, as an exact rational.
    ///
    /// Identical terms score `1/1` whatever their information content; a pair
    /// whose corrected union mass is zero scores `0/1`; every other pair
    /// scores common mass over corrected union mass.
    pub fn calculate(&self, o: &Ontology, a: u32, b: u32) -> (r: Ratio)
        requires
            o.wf(),
            o.contains_term(a),
            o.contains_term(b),
        ensures
            r.num == sim_num(*o, a, b),
            r.den == sim_den(*o, a, b),
            r.wf(),
    {
        if a == b {
            return Ratio::one();
        }
        let ia = match o.find_term(a) {
            Some(i) => i,
            None => 0,
        };
        let ib = match o.find_term(b) {
            Some(i) => i,
            None => 0,
        };
        let av: &Vec<u32> = &o.terms[ia].ancestors;
        let bv: &Vec<u32> = &o.terms[ib].ancestors;
        proof {
            o.lemma_entry(a);
            o.lemma_entry(b);
            assert(o.entry_wf(o.entry_spec(a)));
            assert(o.entry_wf(o.entry_spec(b)));
        }
        let inter = o.intersect_ic_sum(av, bv);
        let sum_a = o.closure_ic_sum(av);
        let sum_b = o.closure_ic_sum(bv);
        let ghost aset = o.anc_set(a);
        let ghost bset = o.anc_set(b);
        proof {
            lemma_ic_sum_inclusion_exclusion(o.terms@, aset, bset);
            assert(forall|x: u32| aset.intersect(bset).contains(x) ==> bset.contains(x));
            lemma_ic_sum_monotone(o.terms@, aset.intersect(bset), bset);
            o.lemma_set_ic_fits(aset.union(bset));
        }
        let union_base = sum_a + (sum_b - inter);
        proof {
            assert(union_base == o.set_ic(aset.union(bset)));
            assert((MAX_TERMS as int) * (MAX_TERMS as int) + 2 * (MAX_TERMS as int) == u64::MAX
                as int) by (nonlinear_arith);
        }
        let found_a = contains_id(bv, a);
        let found_b = contains_id(av, b);
        let ic_a = o.ic_value(a);
        let ic_b = o.ic_value(b);
        let den = if found_a {
            union_base + (ic_b as u64)
        } else if found_b {
            union_base + (ic_a as u64)
        } else {
            union_base + (ic_a as u64) + (ic_b as u64)
        };
        proof {
            assert(den == sim_union(*o, a, b));
        }
        if den == 0 {
            return Ratio::zero();
        }
        proof {
            assert(forall|x: u32| aset.intersect(bset).contains(x) ==> aset.union(bset).contains(
                x,
            ));
            lemma_ic_sum_monotone(o.terms@, aset.intersect(bset), aset.union(bset));
        }
        Ratio { num: inter, den }
    }
}

/// Every term is perfectly similar to itself, whatever its information
/// content: the similarity of `x` with `x` is exactly one.
pub proof fn lemma_similarity_self(o: Ontology, x: u32)
    ensures
        sim_num(o, x, x) == 1,
        sim_den(o, x, x) == 1,
{
}

/// The similarity is symmetric in its two arguments, and always lies in the
/// unit interval: `0 <= num <= den`.
pub proof fn lemma_similarity_symmetric(o: Ontology, a: u32, b: u32)
    requires
        o.wf(),
        o.contains_term(a),
        o.contains_term(b),
    ensures
        sim_num(o, a, b) == sim_num(o, b, a),
        sim_den(o, a, b) == sim_den(o, b, a),
        0 <= sim_num(o, a, b) <= sim_den(o, a, b),
{
    if a != b {
        assert(o.anc_set(a).union(o.anc_set(b)) =~= o.anc_set(b).union(o.anc_set(a)));
        assert(o.anc_set(a).intersect(o.anc_set(b)) =~= o.anc_set(b).intersect(o.anc_set(a)));
        if o.anc_set(b).contains(a) && o.anc_set(a).contains(b) {
            lemma_no_mutual_ancestors(o, a, b);
        }
        assert(sim_correction(o, a, b) == sim_correction(o, b, a));
        lemma_ic_sum_nonneg(o.terms@, o.anc_set(a).intersect(o.anc_set(b)));
        assert(forall|x: u32|
            o.anc_set(a).intersect(o.anc_set(b)).contains(x) ==> o.anc_set(a).union(
                o.anc_set(b),
            ).contains(x));
        lemma_ic_sum_monotone(
            o.terms@,
            o.anc_set(a).intersect(o.anc_set(b)),
            o.anc_set(a).union(o.anc_set(b)),
        );
    }
}

/// Two distinct terms are never ancestors of each other: the hierarchy has no
/// cycles.
pub proof fn lemma_no_mutual_ancestors(o: Ontology, a: u32, b: u32)
    requires
        o.wf(),
        o.contains_term(a),
        o.contains_term(b),
        a != b,
        o.anc_set(b).contains(a),
    ensures
        !o.anc_set(a).contains(b),
{
    o.lemma_entry(a);
    o.lemma_entry(b);
    let eb = o.entry_spec(b);
    let k = choose|k: int| 0 <= k < eb.ancestors@.len() && eb.ancestors@[k] == a;
    assert(eb.ancestors@[k] == a);
    assert(o.closure_ordered(eb));
    assert(!o.anc_seq(a).contains(b));
}

/// When `a` is a strict ancestor of `b`, the union mass counts `IC(a)`
/// exactly once: the denominator is `IC(a)`, plus the mass of `b`'s closure
/// without `a`, plus the single corrective `IC(b)`.
pub proof fn lemma_strict_ancestor_counts_once(o: Ontology, a: u32, b: u32)
    requires
        o.wf(),
        o.contains_term(a),
        o.contains_term(b),
        a != b,
        o.anc_set(b).contains(a),
    ensures
        o.anc_set(a).subset_of(o.anc_set(b)),
        sim_union(o, a, b) == o.ic_of(a) + o.set_ic(o.anc_set(b).remove(a)) + o.ic_of(b),
{
    o.lemma_entry(a);
    o.lemma_entry(b);
    let eb = o.entry_spec(b);
    let k = choose|k: int| 0 <= k < eb.ancestors@.len() && eb.ancestors@[k] == a;
    assert(eb.ancestors@[k] == a);
    assert(o.closure_ordered(eb));
    assert(o.anc_set(a).subset_of(o.anc_set(b)));
    assert(o.anc_set(a).union(o.anc_set(b)) =~= o.anc_set(b));
    lemma_ic_sum_remove(o.terms@, o.anc_set(b), a, o.ids().index_of(a));
    assert(o.set_ic(o.anc_set(b)) == o.ic_of(a) + o.set_ic(o.anc_set(b).remove(a)));
    assert(sim_correction(o, a, b) == o.ic_of(b) as int);
}

} // verus!
