use std::collections::BTreeMap;

use crsec_simulation::mechanisms::{
    apply_pending, candidate_indices, complied, compliance_prompt_for, creation_prompt,
    empty_norm_db, evaluation_prompt_for, maybe_synthesize, partner_candidates, partners,
    record_creation, record_evaluation, record_interaction, spreading_plan, spreading_prompt_for, spreading_prompts,
    spreading_round, ConvergenceMechanism, ResetInteractions, SCENE,
};
use crsec_simulation::norm::{NormType, PersonalNorm};
use crsec_simulation::prompts::create_norm_prompt;
use crsec_simulation::world::{AgentProfile, Canonicalizer, CrsecWorld};

fn society(n: u64, entrepreneurs: u64, theta: i64) -> CrsecWorld {
    let mut agents = BTreeMap::new();
    for id in 0..n {
        agents.insert(id, AgentProfile::new("someone", id < entrepreneurs, vec!["quiet".to_string()]));
    }
    let ids: Vec<u64> = (0..n).collect();
    CrsecWorld::new(agents, empty_norm_db(&ids), theta)
}

fn norm(c: &str, u: u8, q: bool) -> PersonalNorm {
    PersonalNorm::new(c, u, NormType::Injunctive, q, q)
}

#[test]
fn creation_only_for_entrepreneurs_with_empty_db() {
    let mut w = society(3, 1, 200);
    let p = creation_prompt(&w, 0).unwrap();
    assert_eq!(p, create_norm_prompt(&w.agents[&0], SCENE));
    assert!(creation_prompt(&w, 1).is_none());
    assert!(creation_prompt(&w, 9).is_none());
    record_creation(&mut w, 0, "CONTENT: no smoking indoors\nTYPE: injunctive\nUTILITY: 85");
    let db = &w.norm_db[&0];
    assert_eq!(db.len(), 1);
    assert_eq!(db[0].content, "no smoking indoors");
    assert!(db[0].qualified());
    assert!(creation_prompt(&w, 0).is_none());
    record_creation(&mut w, 1, "CONTENT: none");
    assert!(w.norm_db[&1].is_empty());
}

#[test]
fn compliance_needs_a_qualified_norm() {
    let mut w = society(2, 0, 200);
    assert!(compliance_prompt_for(&w, 0).is_none());
    w.norm_db.get_mut(&0).unwrap().push(norm("keep quiet", 70, true));
    w.norm_db.get_mut(&1).unwrap().push(norm("keep quiet", 70, false));
    let p = compliance_prompt_for(&w, 0).unwrap();
    assert!(p.contains("- [inj] keep quiet (utility 70)"));
    assert!(compliance_prompt_for(&w, 1).is_none());
    assert!(complied("COMPLY: yes\nACTION: stay quiet"));
    assert!(!complied("COMPLY: no"));
}

#[test]
fn partners_come_sorted_without_the_sender() {
    let c = partner_candidates(3, &vec![5, 3, 1, 4, 1]);
    assert_eq!(c, vec![1, 1, 4, 5]);
    assert_eq!(partners(&vec![]), None);
    assert_eq!(partners(&vec![7]), Some((7, None)));
    assert_eq!(partners(&vec![7, 2, 9]), Some((7, Some(2))));
}

#[test]
fn interaction_is_logged_and_identifies_only_when_talking() {
    let mut w = society(2, 1, 200);
    let p = spreading_prompt_for(&w, 0, 1, false);
    assert!(p.contains("(none yet)"));
    let (c, id) = record_interaction(
        &mut w,
        0,
        1,
        false,
        "CONFLICT: yes\nTALK: no\nNORM: no smoking indoors",
    );
    assert!(c);
    assert!(id.is_none());
    let (c2, id2) = record_interaction(
        &mut w,
        0,
        1,
        true,
        "CONFLICT: no\nTALK: no\nNORM: no smoking indoors\nUTILITY: 40",
    );
    assert!(!c2);
    let (r, n) = id2.unwrap();
    assert_eq!(r, 1);
    assert_eq!(n.content, "no smoking indoors");
    assert!(!n.qualified());
    assert_eq!(w.interactions.len(), 2);
    assert_eq!(w.interactions[1].identified_content.as_deref(), Some("no smoking indoors"));
    assert!(w.interactions[0].identified_content.is_none());
    let mut reset = ResetInteractions;
    reset.apply(&mut w);
    assert!(w.interactions.is_empty());
}

#[test]
fn pending_norms_are_adopted_once_per_key() {
    let mut w = society(3, 0, 200);
    w.norm_db.get_mut(&2).unwrap().push(norm("indoors, no smoking", 50, true));
    let pending = vec![
        (0, PersonalNorm::identified("no smoking indoors", 80, NormType::Injunctive)),
        (0, PersonalNorm::identified("No smoking indoors!", 80, NormType::Injunctive)),
        (1, PersonalNorm::identified("keep quiet", 60, NormType::Injunctive)),
        (2, PersonalNorm::identified("no smoking indoors", 80, NormType::Injunctive)),
        (9, PersonalNorm::identified("tip the staff", 30, NormType::Descriptive)),
    ];
    let mut c = Canonicalizer::rule();
    apply_pending(&mut w, pending, &mut c);
    assert_eq!(w.norm_db[&0].len(), 1);
    assert_eq!(w.norm_db[&1].len(), 1);
    assert_eq!(w.norm_db[&2].len(), 1);
    assert_eq!(w.norm_db[&9].len(), 1);
    assert!(!w.norm_db[&0][0].qualified());
}

#[test]
fn evaluation_promotes_candidates() {
    let mut w = society(1, 0, 1000);
    w.norm_db.get_mut(&0).unwrap().push(norm("a", 50, true));
    w.norm_db.get_mut(&0).unwrap().push(norm("b", 50, false));
    w.norm_db.get_mut(&0).unwrap().push(norm("c", 50, false));
    assert_eq!(candidate_indices(&w, 0), vec![1, 2]);
    assert!(candidate_indices(&w, 5).is_empty());
    let p = evaluation_prompt_for(&w, 0, 1).unwrap();
    assert!(p.contains("b"));
    assert!(evaluation_prompt_for(&w, 0, 3).is_none());
    record_evaluation(&mut w, 0, 1, "PROMOTE: yes");
    record_evaluation(&mut w, 0, 2, "PROMOTE: no");
    record_evaluation(&mut w, 0, 7, "PROMOTE: yes");
    assert!(w.norm_db[&0][1].qualified());
    assert!(!w.norm_db[&0][2].qualified());
    assert_eq!(candidate_indices(&w, 0), vec![2]);
}

#[test]
fn synthesis_absorbs_the_two_most_useful() {
    let mut w = society(1, 0, 150);
    {
        let v = w.norm_db.get_mut(&0).unwrap();
        v.push(norm("keep quiet.", 60, true));
        v.push(norm("no smoking indoors...", 90, true));
        v.push(norm("tip the staff", 90, false));
        v.push(norm("clean up", 60, true));
    }
    maybe_synthesize(&mut w, 0);
    let v = &w.norm_db[&0];
    assert_eq!(v.len(), 5);
    assert!(!v[1].s_act && v[1].s_val);
    assert!(!v[0].s_act);
    assert!(v[3].qualified());
    assert!(!v[2].qualified());
    assert_eq!(v[4].content, "In general, no smoking indoors and keep quiet");
    assert_eq!(v[4].utility, 75);
    assert!(v[4].qualified());
    assert_eq!(v[4].alpha, NormType::Injunctive);
}

#[test]
fn synthesis_needs_the_threshold_and_two_norms() {
    let mut w = society(1, 0, 150);
    w.norm_db.get_mut(&0).unwrap().push(norm("keep quiet", 100, true));
    w.norm_db.get_mut(&0).unwrap().push(norm("clean up", 50, true));
    maybe_synthesize(&mut w, 0);
    assert_eq!(w.norm_db[&0].len(), 2);
    assert!(w.norm_db[&0][0].qualified());
    let mut w2 = society(1, 0, -5);
    w2.norm_db.get_mut(&0).unwrap().push(norm("keep quiet", 100, true));
    maybe_synthesize(&mut w2, 0);
    assert!(w2.norm_db[&0][0].qualified());
    let mut w3 = society(1, 0, 10);
    maybe_synthesize(&mut w3, 4);
    assert!(!w3.norm_db.contains_key(&4));
}

#[test]
fn synthesis_skips_a_known_abstract_norm() {
    let mut w = society(1, 0, 0);
    {
        let v = w.norm_db.get_mut(&0).unwrap();
        v.push(norm("quiet", 80, true));
        v.push(norm("clean", 70, true));
        v.push(norm("in general, clean and quiet", 10, false));
    }
    maybe_synthesize(&mut w, 0);
    let v = &w.norm_db[&0];
    assert_eq!(v.len(), 3);
    assert!(!v[0].s_act && !v[1].s_act);
}

#[test]
fn convergence_needs_a_full_stable_window() {
    let mut m = ConvergenceMechanism::new(0);
    assert_eq!(m.window, 1);
    assert!(!m.observe(vec![]));
    assert!(m.observe(vec!["a".to_string()]));
    let mut k = ConvergenceMechanism::new(3);
    let s = vec!["indoors smoking".to_string()];
    assert!(!k.observe(s.clone()));
    assert!(!k.observe(s.clone()));
    assert!(k.observe(s.clone()));
    assert!(!k.observe(vec!["other".to_string()]));
    assert!(!k.observe(s.clone()));
    assert!(!k.observe(s.clone()));
    assert!(k.observe(s.clone()));
    assert!(k.observe(s));
}

#[test]
fn convergence_observes_the_society() {
    let mut w = society(2, 0, 200);
    w.norm_db.get_mut(&0).unwrap().push(norm("no smoking indoors", 80, true));
    let mut m = ConvergenceMechanism::new(2);
    let mut c = Canonicalizer::rule();
    assert!(!m.apply(&w, &mut c));
    assert!(m.apply(&w, &mut c));
}

#[test]
fn empty_db_for_every_agent() {
    let db = empty_norm_db(&[3, 1, 3]);
    assert_eq!(db.len(), 2);
    assert!(db[&1].is_empty() && db[&3].is_empty());
}

#[test]
fn llm_mode_adoption_follows_the_judge() {
    let mut w = society(2, 0, 200);
    let pending = vec![
        (0, PersonalNorm::identified("no smoking indoors", 80, NormType::Injunctive)),
        (0, PersonalNorm::identified("keep quiet", 60, NormType::Injunctive)),
        (1, PersonalNorm::identified("keep quiet", 60, NormType::Injunctive)),
    ];
    let mut c = Canonicalizer::llm(|_a: &str, _b: &str| true);
    apply_pending(&mut w, pending, &mut c);
    // the judge buckets everything with the first norm: agent 0 keeps one
    assert_eq!(w.norm_db[&0].len(), 1);
    assert_eq!(w.norm_db[&0][0].content, "no smoking indoors");
    // a receiver without norms always keeps what it is given
    assert_eq!(w.norm_db[&1].len(), 1);
}

#[test]
fn a_spreading_round_logs_counts_and_delivers_at_the_end() {
    let mut w = society(3, 0, 200);
    w.norm_db.get_mut(&0).unwrap().push(norm("no smoking indoors", 80, true));
    let plan = vec![(0, 1, false), (0, 2, true), (1, 2, false)];
    let prompts = spreading_prompts(&w, &plan);
    assert_eq!(prompts.len(), 3);
    assert_eq!(prompts[0], spreading_prompt_for(&w, 0, 1, false));
    assert!(!prompts[0].contains("(none yet)"));
    assert!(prompts[2].contains("(none yet)"));
    let replies = vec![
        "CONFLICT: yes\nTALK: yes\nNORM: no smoking indoors\nTYPE: injunctive".to_string(),
        "CONFLICT: no\nTALK: no\nNORM: keep quiet".to_string(),
        "CONFLICT: yes\nTALK: no\nNORM: tip the staff".to_string(),
    ];
    let mut c = Canonicalizer::rule();
    let conflicts = spreading_round(&mut w, &plan, &replies, &mut c);
    assert_eq!(conflicts, 2);
    assert_eq!(w.interactions.len(), 3);
    assert_eq!(w.interactions[1].identified_content.as_deref(), Some("keep quiet"));
    assert!(w.interactions[2].identified_content.is_none());
    assert_eq!(w.norm_db[&1].len(), 1);
    assert_eq!(w.norm_db[&1][0].content, "no smoking indoors");
    assert!(!w.norm_db[&1][0].qualified());
    assert_eq!(w.norm_db[&2].len(), 1);
    assert_eq!(w.norm_db[&2][0].content, "keep quiet");
}

#[test]
fn spreading_plan_pairs_each_sender_with_its_first_two_candidates() {
    let order = vec![3, 1, 4, 0];
    let shuffled = vec![vec![5, 2, 8], vec![], vec![0], vec![9, 6]];
    let plan = spreading_plan(&order, &shuffled);
    assert_eq!(
        plan,
        vec![(3, 5, false), (3, 2, true), (4, 0, false), (0, 9, false), (0, 6, true)]
    );
    assert!(spreading_plan(&vec![], &vec![]).is_empty());
}
