//! A whole society driven through rounds of the life cycle with the scripted
//! replies, on a ring network, without a model.
use crsec_simulation::mechanisms::{
    candidate_indices, complied, compliance_prompt_for, creation_prompt,
    empty_norm_db, evaluation_prompt_for, maybe_synthesize, partner_candidates,
    record_creation, record_evaluation, spreading_plan, spreading_prompts, spreading_round,
    ConvergenceMechanism,
    ResetInteractions,
};
use crsec_simulation::metrics::MetricCounts;
use crsec_simulation::reproduce_mock::{scripted_reply, DESCRIPTIVE_NORM, INJUNCTIVE_NORM};
use crsec_simulation::simulation::{agent_ids, init_agents};
use crsec_simulation::world::{canonical_key, Canonicalizer, CrsecWorld, NoJudge};

fn round(
    w: &mut CrsecWorld,
    canon: &mut Canonicalizer<NoJudge>,
    conv: &mut ConvergenceMechanism,
    n: u64,
    t: usize,
) -> (MetricCounts, bool) {
    ResetInteractions.apply(w);
    let ids: Vec<u64> = (0..n).collect();
    for &id in &ids {
        if let Some(p) = creation_prompt(w, id) {
            record_creation(w, id, &scripted_reply(&p));
        }
    }
    let mut complied_n = 0;
    for &id in &ids {
        if let Some(p) = compliance_prompt_for(w, id) {
            if complied(&scripted_reply(&p)) {
                complied_n += 1;
            }
        }
    }
    let mut shuffled = Vec::new();
    for &s in &ids {
        let neighbors = vec![(s + 1) % n, (s + n - 1) % n, s];
        shuffled.push(partner_candidates(s, &neighbors));
    }
    let plan = spreading_plan(&ids, &shuffled);
    let replies: Vec<String> = spreading_prompts(w, &plan).iter().map(|p| scripted_reply(p)).collect();
    let conflicts = spreading_round(w, &plan, &replies, canon);
    assert_eq!(w.interactions.len(), plan.len());
    for &id in &ids {
        for ci in candidate_indices(w, id) {
            if let Some(p) = evaluation_prompt_for(w, id, ci) {
                record_evaluation(w, id, ci, &scripted_reply(&p));
            }
        }
        maybe_synthesize(w, id);
    }
    let stable = conv.apply(w, canon);
    (MetricCounts::compute(&w.norm_db, complied_n, conflicts, t), stable)
}

fn society(n: usize, entrepreneurs: usize) -> CrsecWorld {
    let agents = init_agents(n, entrepreneurs);
    let ids = agent_ids(n);
    CrsecWorld::new(agents, empty_norm_db(&ids), i64::MAX)
}

#[test]
fn scripted_society_adopts_the_norm_and_converges() {
    let n = 6;
    let mut w = society(n, 1);
    let mut canon = Canonicalizer::rule();
    let mut conv = ConvergenceMechanism::new(3);
    let start = MetricCounts::compute(&w.norm_db, 0, 0, 0);
    assert_eq!(start.adopters, 0);
    let mut history = vec![start];
    let mut stopped_at = None;
    for t in 1..=30 {
        let (m, stable) = round(&mut w, &mut canon, &mut conv, n as u64, t);
        history.push(m);
        if stable {
            stopped_at = Some(t);
            break;
        }
    }
    let last = history.last().unwrap();
    assert_eq!(last.population, n);
    assert_eq!(last.adopters, n, "every agent holds the norm");
    assert_eq!(last.adopters_injunctive, n);
    assert!(stopped_at.unwrap() < 30);
    // conflicts occur only while senders hold no norm: they fall to zero
    let peak = history.iter().map(|m| m.n_conflicts).max().unwrap();
    assert!(peak > 0);
    assert_eq!(last.n_conflicts, 0);
    // injunctive emerges no later than descriptive
    let first_full = |f: &dyn Fn(&MetricCounts) -> usize| history.iter().position(|m| f(m) == n);
    let inj = first_full(&|m| m.adopters_injunctive).unwrap();
    let des = first_full(&|m| m.adopters_descriptive).unwrap_or(usize::MAX);
    assert!(inj <= des);
    // no agent holds two norms of one key
    for ns in w.norm_db.values() {
        for i in 0..ns.len() {
            for j in (i + 1)..ns.len() {
                assert_ne!(canonical_key(&ns[i].content), canonical_key(&ns[j].content));
            }
        }
    }
    assert!(w.norm_db.values().all(|ns| ns.iter().any(|x| x.content == INJUNCTIVE_NORM)));
    assert!(w.norm_db.values().any(|ns| ns.iter().any(|x| x.content == DESCRIPTIVE_NORM)));
}
