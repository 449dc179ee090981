use std::collections::BTreeMap;

use crsec_simulation::metrics::{
    adoption, count_qualified_holders, n_distinct_norms, n_distinct_of_type, typed_adoption,
    MetricCounts,
};
use crsec_simulation::norm::{NormType, PersonalNorm};

fn db(rows: &[(u64, &[(&str, bool)])]) -> BTreeMap<u64, Vec<PersonalNorm>> {
    let mut m = BTreeMap::new();
    for &(id, norms) in rows {
        let v = norms
            .iter()
            .map(|&(c, q)| PersonalNorm::new(c, 50, NormType::Injunctive, q, q))
            .collect();
        m.insert(id, v);
    }
    m
}

fn rate(holders: usize, population: usize) -> f64 {
    if population == 0 {
        0.0
    } else {
        holders as f64 / population as f64
    }
}

#[test]
fn adoption_rate_uses_canonical_key() {
    let m = db(&[
        (0, &[("No smoking indoors", true)]),
        (1, &[("indoors, no smoking", true)]),
        (2, &[("you should not be smoking indoors", true)]),
    ]);
    let a = adoption(&m);
    let r = rate(a.holders, a.population);
    assert!((r - 1.0).abs() < 1e-12, "rate={r}");
    assert!(a.key.unwrap().contains("smoking"));
}

#[test]
fn unqualified_norms_excluded() {
    let m = db(&[(0, &[("a rule", false)]), (1, &[("a rule", true)])]);
    let a = adoption(&m);
    assert!((rate(a.holders, a.population) - 0.5).abs() < 1e-12);
    assert_eq!(n_distinct_norms(&m), 1);
}

#[test]
fn adoption_of_empty_and_normless_societies() {
    let empty: BTreeMap<u64, Vec<PersonalNorm>> = BTreeMap::new();
    let a = adoption(&empty);
    assert_eq!((a.holders, a.population), (0, 0));
    assert!(a.key.is_none());
    let m = db(&[(0, &[]), (1, &[("x", false)])]);
    let b = adoption(&m);
    assert_eq!((b.holders, b.population), (0, 2));
    assert!(b.key.is_none());
    assert_eq!(n_distinct_norms(&m), 0);
}

#[test]
fn adoption_ties_go_to_the_greatest_key() {
    let m = db(&[(0, &[("alpha rule", true)]), (1, &[("beta rule", true)])]);
    let a = adoption(&m);
    assert_eq!(a.holders, 1);
    assert_eq!(a.key.unwrap(), "beta rule");
    let m2 = db(&[
        (0, &[("alpha rule", true), ("beta rule", true)]),
        (1, &[("alpha rule", true)]),
        (2, &[("alpha rule", true), ("rule alpha", true)]),
    ]);
    let a2 = adoption(&m2);
    assert_eq!(a2.holders, 3);
    assert_eq!(a2.key.unwrap(), "alpha rule");
    assert_eq!(n_distinct_norms(&m2), 2);
}

#[test]
fn metric_counts_of_a_round() {
    let mut m = db(&[
        (0, &[("no smoking indoors", true)]),
        (1, &[("indoors no smoking", true)]),
        (2, &[("keep quiet", false)]),
        (3, &[]),
    ]);
    m.get_mut(&0)
        .unwrap()
        .push(PersonalNorm::new("people greet newcomers", 60, NormType::Descriptive, true, true));
    let c = MetricCounts::compute(&m, 3, 5, 7);
    assert_eq!(c.t, 7);
    assert_eq!(c.complied, 3);
    assert_eq!(c.n_conflicts, 5);
    assert_eq!(c.population, 4);
    assert_eq!(c.adopters, 2);
    assert_eq!(c.n_distinct_norms, 2);
    assert_eq!(c.n_qualified_holders, 2);
    assert_eq!(c.adopters_injunctive, 2);
    assert_eq!(c.adopters_descriptive, 1);
    assert_eq!(c.n_distinct_injunctive, 1);
    assert_eq!(c.n_distinct_descriptive, 1);
    assert_eq!(count_qualified_holders(&m), 2);
    let d = typed_adoption(&m, NormType::Descriptive);
    assert_eq!(d.key.unwrap(), "greet newcomers");
    assert_eq!(n_distinct_of_type(&m, NormType::Injunctive), 1);
}
