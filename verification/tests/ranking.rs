use pheno_matcher::group::FunSimAvg;
use pheno_matcher::ontology::{Ontology, TermEntry};
use pheno_matcher::population::{clean_population_field, Individual};
use pheno_matcher::rank::{calc_scores, create_ranked_vec, ScoredId};
use pheno_matcher::ratio::SIM_SCALE;
use pheno_matcher::termset::{parse_terms, TermSet};
use pheno_matcher::SimError;

fn entry(id: u32, ic: u32, ancestors: Vec<u32>) -> TermEntry {
    TermEntry { id, ic, ancestors }
}

fn small_ontology() -> Ontology {
    Ontology::new(vec![
        entry(1, 1, vec![1]),
        entry(2, 4, vec![2, 1]),
        entry(3, 6, vec![3, 1]),
        entry(4, 10, vec![4, 2, 1]),
    ])
    .unwrap()
}

fn individual(id: &str, terms: &str) -> Individual {
    Individual {
        id: id.as_bytes().to_vec(),
        terms: terms.as_bytes().to_vec(),
        genes: Vec::new(),
        diagnosis: Vec::new(),
        hpo_names: Vec::new(),
    }
}

#[test]
fn scores_point_two_nine_five_rank_three_one_two() {
    // Similarities [0.2, 0.9, 0.5] in fixed-point units rank [3, 1, 2].
    let scored = vec![
        ScoredId { id: b"a".to_vec(), score: 200_000 },
        ScoredId { id: b"b".to_vec(), score: 900_000 },
        ScoredId { id: b"c".to_vec(), score: 500_000 },
    ];
    let ranked = create_ranked_vec(scored);
    let find = |id: &[u8]| ranked.iter().find(|r| r.id == id).unwrap().rank;
    assert_eq!(find(b"a"), 3);
    assert_eq!(find(b"b"), 1);
    assert_eq!(find(b"c"), 2);
    // and the ranks are exactly the permutation 1..=N in list order
    for (i, rec) in ranked.iter().enumerate() {
        assert_eq!(rec.rank, i + 1);
    }
}

#[test]
fn ties_order_by_id_ascending() {
    let scored = vec![
        ScoredId { id: b"zeta".to_vec(), score: 500_000 },
        ScoredId { id: b"alpha".to_vec(), score: 500_000 },
        ScoredId { id: b"mid".to_vec(), score: 500_000 },
    ];
    let ranked = create_ranked_vec(scored);
    assert_eq!(ranked[0].id, b"alpha".to_vec());
    assert_eq!(ranked[1].id, b"mid".to_vec());
    assert_eq!(ranked[2].id, b"zeta".to_vec());
}

#[test]
fn empty_population_yields_empty_ranking() {
    let o = small_ontology();
    let query = TermSet::new(vec![2, 4]);
    let population: Vec<Individual> = Vec::new();
    let r = calc_scores(&o, &FunSimAvg {}, &query, &population).unwrap();
    assert!(r.is_empty());
}

#[test]
fn ranks_follow_group_similarity() {
    let o = small_ontology();
    let query = TermSet::new(vec![4]);
    let population = vec![
        individual("UDN:1", "HP:0000003"),
        individual("UDN:2", "HP:0000004"),
        individual("UDN:3", "HP:0000002"),
    ];
    let r = calc_scores(&o, &FunSimAvg {}, &query, &population).unwrap();
    assert_eq!(r.len(), 3);
    // the exact self-match tops the list
    assert_eq!(r[0].id, b"UDN:2".to_vec());
    assert_eq!(r[0].rank, 1);
    assert_eq!(r[0].score, SIM_SCALE);
    // the parent of the query term beats the unrelated sibling:
    // sim(4,2) = 5/25 and sim(4,3) = 1/37 in information-content mass
    assert_eq!(r[1].id, b"UDN:3".to_vec());
    assert_eq!(r[1].score, 200_000);
    assert_eq!(r[2].id, b"UDN:1".to_vec());
    assert_eq!(r[2].score, 27_027);
}

#[test]
fn malformed_record_is_a_data_error() {
    let o = small_ontology();
    let query = TermSet::new(vec![2]);
    let population = vec![individual("UDN:1", "HP:0000002"), individual("UDN:2", "0000003")];
    let r = calc_scores(&o, &FunSimAvg {}, &query, &population);
    assert_eq!(r.err(), Some(SimError::DataError));
}

#[test]
fn unresolved_record_is_a_data_error() {
    let o = small_ontology();
    let query = TermSet::new(vec![2]);
    let population = vec![individual("UDN:1", "HP:0000099")];
    let r = calc_scores(&o, &FunSimAvg {}, &query, &population);
    assert_eq!(r.err(), Some(SimError::DataError));
}

#[test]
fn term_field_parses_prefixed_codes() {
    let v = parse_terms(&b"HP:0000002; HP:0000004".to_vec()).unwrap();
    assert_eq!(v, vec![2, 4]);
}

#[test]
fn term_field_without_prefix_is_rejected() {
    assert_eq!(parse_terms(&b"0000002".to_vec()).err(), Some(SimError::DataError));
}

#[test]
fn empty_term_field_is_rejected() {
    assert_eq!(parse_terms(&b"".to_vec()).err(), Some(SimError::DataError));
}

#[test]
fn term_field_with_bad_digits_is_rejected() {
    assert_eq!(parse_terms(&b"HP:00x2".to_vec()).err(), Some(SimError::DataError));
    assert_eq!(parse_terms(&b"HP:".to_vec()).err(), Some(SimError::DataError));
    assert_eq!(parse_terms(&b"HP:99999999999".to_vec()).err(), Some(SimError::DataError));
}

#[test]
fn repeated_terms_collapse_into_a_set() {
    let v = parse_terms(&b"HP:0000002; HP:0000002; HP:0000003".to_vec()).unwrap();
    let s = TermSet::new(v);
    assert_eq!(s.len(), 2);
}

#[test]
fn population_fields_are_normalized() {
    assert_eq!(clean_population_field(&b"NONE".to_vec()), b"".to_vec());
    assert_eq!(clean_population_field(&b"None".to_vec()), b"".to_vec());
    assert_eq!(clean_population_field(&b"none".to_vec()), b"".to_vec());
    assert_eq!(clean_population_field(&b"N.O.NE".to_vec()), b"".to_vec());
    assert_eq!(
        clean_population_field(&b"HP:0000002; HP:0000003.".to_vec()),
        b"HP:0000002; HP:0000003".to_vec()
    );
    assert_eq!(clean_population_field(&b"BRCA1".to_vec()), b"BRCA1".to_vec());
}
