use std::collections::BTreeMap;

use crsec_simulation::config::CanonicalMode;
use crsec_simulation::norm::{NormType, PersonalNorm};
use crsec_simulation::world::{canonical_key, AgentProfile, Canonicalizer, CrsecWorld};

#[test]
fn canonical_key_collapses_paraphrases() {
    let a = canonical_key("People should not smoke indoors.");
    let b = canonical_key("No smoking indoors!");
    assert!(a.contains("indoors"));
    assert!(b.contains("indoors"));
    assert!(a.contains("smoke"));
    assert!(b.contains("smoking"));
}

#[test]
fn canonical_key_is_order_invariant() {
    assert_eq!(canonical_key("keep quiet library"), canonical_key("library quiet keep"));
}

#[test]
fn canonical_key_never_empty() {
    assert!(!canonical_key("the a is to").is_empty());
}

#[test]
fn rule_mode_is_byte_identical_to_canonical_key() {
    let mut c = Canonicalizer::rule();
    for s in ["People should not smoke indoors.", "keep quiet in the library", "the a is to"] {
        assert_eq!(c.canonicalize(s), canonical_key(s));
    }
}

#[test]
fn llm_mode_merges_lexically_disjoint_paraphrases() {
    let mut c = Canonicalizer::llm(|a: &str, b: &str| {
        let smoke = |s: &str| s.contains("smok") || s.contains("cigarette") || s.contains("tobacco");
        smoke(a) && smoke(b)
    });
    let k1 = c.canonicalize("no smoking indoors");
    let k2 = c.canonicalize("please refrain from cigarettes inside");
    assert_eq!(k1, k2);
    let k3 = c.canonicalize("keep the library quiet");
    assert_ne!(k1, k3);
}

#[test]
fn llm_mode_falls_back_to_rule_key_on_exact_match() {
    let mut c = Canonicalizer::llm(|_a: &str, _b: &str| false);
    let k1 = c.canonicalize("no smoking indoors");
    let k2 = c.canonicalize("indoors, no smoking");
    assert_eq!(k1, k2);
}

#[test]
fn canonical_key_exact_values() {
    assert_eq!(canonical_key("No smoking indoors!"), "indoors smoking");
    assert_eq!(canonical_key("you should not be smoking indoors"), "indoors smoking");
    assert_eq!(canonical_key("Keep the LIBRARY quiet, keep it quiet."), "keep library quiet");
    assert_eq!(canonical_key("  The  A   is  TO "), "the a is to");
    assert_eq!(canonical_key(""), "");
    assert_eq!(canonical_key("..."), "...");
}

#[test]
fn canonicalizer_modes_and_registration() {
    let c = Canonicalizer::rule();
    assert_eq!(c.mode(), CanonicalMode::Deterministic);
    let mut l = Canonicalizer::from_mode(CanonicalMode::Llm, |_a: &str, _b: &str| true);
    assert_eq!(l.mode(), CanonicalMode::Llm);
    let first = l.canonicalize("keep the library quiet");
    assert_eq!(first, "keep library quiet");
    // the judge finds everything the same as the first representative
    assert_eq!(l.canonicalize("no smoking indoors"), "keep library quiet");
    let mut d = Canonicalizer::from_mode(CanonicalMode::Deterministic, |_a: &str, _b: &str| true);
    assert_eq!(d.canonicalize("no smoking indoors"), "indoors smoking");
}

fn world_of(rows: &[(u64, &[(&str, bool)])]) -> CrsecWorld {
    let mut agents = BTreeMap::new();
    let mut db = BTreeMap::new();
    for &(id, norms) in rows {
        agents.insert(id, AgentProfile::new("someone", false, vec![]));
        let v: Vec<PersonalNorm> = norms
            .iter()
            .map(|&(c, q)| PersonalNorm::new(c, 50, NormType::Injunctive, q, q))
            .collect();
        db.insert(id, v);
    }
    CrsecWorld::new(agents, db, 200)
}

#[test]
fn qualified_sets_bucket_by_key() {
    let w = world_of(&[
        (0, &[("No smoking indoors", true), ("tip the staff", false)]),
        (1, &[("indoors, no smoking", true), ("keep quiet", true)]),
        (2, &[]),
    ]);
    assert_eq!(w.n(), 3);
    assert_eq!(w.qualified_norms(0).len(), 1);
    assert_eq!(w.qualified_norms(1).len(), 2);
    assert_eq!(w.qualified_norms(7).len(), 0);
    assert_eq!(
        w.qualified_canonical_set(),
        vec!["indoors smoking".to_string(), "keep quiet".to_string()]
    );
    let mut c = Canonicalizer::rule();
    assert_eq!(w.qualified_canonical_set_with(&mut c), w.qualified_canonical_set());
    assert_eq!(w.norm_db_ref().len(), 3);
}

#[test]
fn agent_profile_new_keeps_fields() {
    let p = AgentProfile::new("Alex", true, vec!["quiet".to_string()]);
    assert_eq!(p.description, "Alex");
    assert!(p.is_entrepreneur);
    assert_eq!(p.preferences, vec!["quiet".to_string()]);
}
