use crsec_simulation::reproduce::{run_shape, type_label};
use crsec_simulation::norm::NormType;
use crsec_simulation::simulation::{agent_ids, init_agents, persona, preferences};

#[test]
fn agents_are_dealt_round_robin() {
    let a = init_agents(8, 3);
    assert_eq!(a.len(), 8);
    assert_eq!(a[&0].description, "Alex, an outgoing regular who dislikes loud noise");
    assert_eq!(a[&6].description, a[&0].description);
    assert_eq!(a[&7].preferences, vec!["wants a clean shared space", "dislikes loud phone calls"]);
    assert!(a[&2].is_entrepreneur);
    assert!(!a[&3].is_entrepreneur);
    let b = init_agents(2, 5);
    assert!(b[&0].is_entrepreneur && b[&1].is_entrepreneur);
    assert_eq!(persona(5), "Frankie, a friendly newcomer still learning the norms");
    assert_eq!(preferences(4), vec!["prefers calm and order", "dislikes clutter"]);
    assert_eq!(agent_ids(4), vec![0, 1, 2, 3]);
}

#[test]
fn reproduction_shapes() {
    let q = run_shape(8, 16, 2, true);
    assert_eq!((q.population, q.rounds, q.entrepreneurs, q.convergence_window), (6, 12, 2, 13));
    let f = run_shape(8, 16, 10, false);
    assert_eq!((f.population, f.rounds, f.entrepreneurs, f.convergence_window), (8, 16, 8, 17));
    let z = run_shape(3, 0, 1, false);
    assert_eq!(z.convergence_window, 2);
    assert_eq!(type_label(NormType::Injunctive), "inj");
}
