use crsec_simulation::config::{parse_canonical_mode, parse_network, CanonicalMode, Network};

#[test]
fn network_names_and_labels() {
    assert_eq!(parse_network(" WS "), Ok(Network::WattsStrogatz));
    assert_eq!(parse_network("smallworld"), Ok(Network::WattsStrogatz));
    assert_eq!(parse_network("Erdos-Renyi"), Ok(Network::ErdosRenyi));
    assert_eq!(parse_network("random"), Ok(Network::ErdosRenyi));
    assert_eq!(parse_network("scalefree"), Ok(Network::BarabasiAlbert));
    for n in [Network::WattsStrogatz, Network::ErdosRenyi, Network::BarabasiAlbert] {
        assert_eq!(parse_network(n.label()), Ok(n));
    }
    assert_eq!(Network::ErdosRenyi.label(), "er");
}

#[test]
fn unknown_network_is_refused() {
    assert_eq!(
        parse_network("grid"),
        Err("不正なネットワーク: \"grid\" (ws / er / ba のいずれか)".to_string())
    );
}

#[test]
fn canonical_mode_names_and_labels() {
    assert_eq!(parse_canonical_mode("rule"), Ok(CanonicalMode::Deterministic));
    assert_eq!(parse_canonical_mode(" Rules"), Ok(CanonicalMode::Deterministic));
    assert_eq!(parse_canonical_mode("LLM"), Ok(CanonicalMode::Llm));
    for m in [CanonicalMode::Deterministic, CanonicalMode::Llm] {
        assert_eq!(parse_canonical_mode(m.label()), Ok(m));
    }
    assert_eq!(
        parse_canonical_mode("fuzzy"),
        Err("不正な canonical-mode: \"fuzzy\" (deterministic / llm)".to_string())
    );
}
