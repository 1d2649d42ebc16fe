use pheno_matcher::ontology::{Ontology, TermEntry};
use pheno_matcher::ratio::{Ratio, SIM_SCALE};
use pheno_matcher::similarity::CustomJaccardIC;
use pheno_matcher::SimError;

fn entry(id: u32, ic: u32, ancestors: Vec<u32>) -> TermEntry {
    TermEntry { id, ic, ancestors }
}

/// Root 1 (IC 1), children 2 (IC 4) and 3 (IC 6), grandchild 4 (IC 10)
/// under 2.
fn small_ontology() -> Ontology {
    Ontology::new(vec![
        entry(1, 1, vec![1]),
        entry(2, 4, vec![2, 1]),
        entry(3, 6, vec![3, 1]),
        entry(4, 10, vec![4, 2, 1]),
    ])
    .unwrap()
}

#[test]
fn similarity_of_a_term_with_itself_is_one() {
    let o = small_ontology();
    let jac = CustomJaccardIC {};
    for t in [1u32, 2, 3, 4] {
        let r = jac.calculate(&o, t, t);
        assert_eq!(r.num, 1);
        assert_eq!(r.den, 1);
        assert_eq!(r.to_scaled(), SIM_SCALE);
    }
}

#[test]
fn similarity_is_symmetric_and_in_unit_interval() {
    let o = small_ontology();
    let jac = CustomJaccardIC {};
    for a in [1u32, 2, 3, 4] {
        for b in [1u32, 2, 3, 4] {
            let ab = jac.calculate(&o, a, b);
            let ba = jac.calculate(&o, b, a);
            assert_eq!(ab.num, ba.num);
            assert_eq!(ab.den, ba.den);
            assert!(ab.num <= ab.den);
            assert!(ab.den >= 1);
        }
    }
}

#[test]
fn sibling_terms_share_only_the_root() {
    let o = small_ontology();
    let jac = CustomJaccardIC {};
    // closures {2,1} and {3,1}: intersection mass 1, union mass 11,
    // correction 4 + 6 since neither subsumes the other.
    let r = jac.calculate(&o, 2, 3);
    assert_eq!(r.num, 1);
    assert_eq!(r.den, 21);
}

#[test]
fn strict_ancestor_union_counts_its_ic_once() {
    let o = small_ontology();
    let jac = CustomJaccardIC {};
    // 2 is a strict ancestor of 4. The union is 4's own closure {4,2,1}
    // with mass 15 = IC(2) counted exactly once + the rest, and the
    // correction adds only IC(4): 15 + 10 = 25, never 15 + 4 + 10.
    let r = jac.calculate(&o, 2, 4);
    assert_eq!(r.den, 25);
    assert_eq!(r.num, 5);
}

#[test]
fn zero_information_pair_scores_zero_not_nan() {
    let o = Ontology::new(vec![entry(1, 0, vec![1]), entry(2, 0, vec![2, 1]), entry(
        3,
        0,
        vec![3, 1],
    )])
    .unwrap();
    let jac = CustomJaccardIC {};
    let r = jac.calculate(&o, 2, 3);
    assert_eq!(r.num, 0);
    assert_eq!(r.den, 1);
    assert_eq!(r.to_scaled(), 0);
}

#[test]
fn ratio_scales_with_floor() {
    let third = Ratio { num: 1, den: 3 };
    assert_eq!(third.to_scaled(), 333_333);
    let one = Ratio { num: 7, den: 7 };
    assert_eq!(one.to_scaled(), SIM_SCALE);
    let zero = Ratio { num: 0, den: 5 };
    assert_eq!(zero.to_scaled(), 0);
}

#[test]
fn builder_rejects_duplicate_ids() {
    let r = Ontology::new(vec![entry(1, 1, vec![1]), entry(1, 2, vec![1])]);
    assert_eq!(r.err(), Some(SimError::DataError));
}

#[test]
fn builder_rejects_closure_without_self() {
    let r = Ontology::new(vec![entry(1, 1, vec![1]), entry(2, 1, vec![1])]);
    assert_eq!(r.err(), Some(SimError::DataError));
}

#[test]
fn builder_rejects_unresolved_ancestor() {
    let r = Ontology::new(vec![entry(1, 1, vec![1, 9])]);
    assert_eq!(r.err(), Some(SimError::DataError));
}

#[test]
fn builder_rejects_cycles() {
    let r = Ontology::new(vec![entry(1, 1, vec![1, 2]), entry(2, 1, vec![2, 1])]);
    assert_eq!(r.err(), Some(SimError::DataError));
}

#[test]
fn builder_rejects_missing_transitivity() {
    // 3's closure holds 2 but not 2's ancestor 1.
    let r = Ontology::new(vec![
        entry(1, 1, vec![1]),
        entry(2, 1, vec![2, 1]),
        entry(3, 1, vec![3, 2]),
    ]);
    assert_eq!(r.err(), Some(SimError::DataError));
}

#[test]
fn builder_accepts_well_formed_entries() {
    assert!(Ontology::new(vec![
        entry(1, 1, vec![1]),
        entry(2, 4, vec![2, 1]),
        entry(4, 10, vec![4, 2, 1]),
    ])
    .is_ok());
}

#[test]
fn db_path_names_the_association_database() {
    assert_eq!(pheno_matcher::get_db_path(), "/hpoAssociations/hpo.db");
}
