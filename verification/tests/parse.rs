use crsec_simulation::norm::NormType;
use crsec_simulation::parse::{
    created_norm, field, identified_norm, promote_decision, same_norm, utility, yes,
};

#[test]
fn field_is_case_insensitive() {
    let t = "Conflict: yes\nNORM: no smoking";
    assert_eq!(field(t, "conflict"), Some("yes"));
    assert_eq!(field(t, "NORM"), Some("no smoking"));
}

#[test]
fn yes_parses_first_word() {
    assert!(yes("TALK: yes, definitely", "TALK"));
    assert!(!yes("TALK: no way", "TALK"));
    assert!(!yes("", "TALK"));
}

#[test]
fn utility_clamps_and_defaults() {
    assert_eq!(utility("UTILITY: 80", "UTILITY"), 80);
    assert_eq!(utility("UTILITY: 0", "UTILITY"), 1);
    assert_eq!(utility("UTILITY: 999", "UTILITY"), 100);
    assert_eq!(utility("UTILITY: n/a", "UTILITY"), 50);
}

#[test]
fn identified_norm_none_when_absent() {
    assert!(identified_norm("NORM: none\nTYPE: inj").is_none());
    let n = identified_norm("NORM: no smoking indoors\nTYPE: injunctive\nUTILITY: 70").unwrap();
    assert_eq!(n.content, "no smoking indoors");
    assert_eq!(n.alpha, NormType::Injunctive);
    assert!(!n.qualified());
}

#[test]
fn promote_decision_consensus_and_explicit() {
    assert!(promote_decision("PROMOTE: yes"));
    assert!(!promote_decision("PROMOTE: no"));
    assert!(promote_decision("CONSISTENT: yes\nTYPE_OK: yes\nDUPLICATE: no\nCONFLICTS: no"));
    assert!(!promote_decision("CONSISTENT: yes\nTYPE_OK: yes\nDUPLICATE: yes\nCONFLICTS: no"));
}

#[test]
fn field_takes_the_first_line_and_trims() {
    let t = "  note: ignore\n  Key :  first value  \nKEY: second";
    assert_eq!(field(t, "key"), Some("first value"));
    assert_eq!(field(t, "missing"), None);
    assert_eq!(field("\r\nA: b\r\n", "A"), Some("b"));
}

#[test]
fn yes_accepts_the_yes_words() {
    for w in ["yes", "True", "1"] {
        let t = format!("K: {w}.");
        assert!(yes(&t, "K"), "{w}");
    }
    for w in ["y", "COMPLY", "promote"] {
        let t = format!("K: {w}");
        assert!(!yes(&t, "K"), "{w}");
    }
    assert!(!yes("K: nope", "K"));
    assert!(!yes("K:", "K"));
}

#[test]
fn utility_reads_the_first_number() {
    assert_eq!(utility("UTILITY: about 75 or 80", "UTILITY"), 75);
    assert_eq!(utility("UTILITY: 99999999999", "UTILITY"), 100);
    assert_eq!(utility("nothing", "UTILITY"), 50);
}

#[test]
fn created_norm_is_qualified_and_defaults() {
    let n = created_norm("CONTENT: keep the library quiet\nUTILITY: 30").unwrap();
    assert_eq!(n.content, "keep the library quiet");
    assert_eq!(n.alpha, NormType::Injunctive);
    assert_eq!(n.utility, 30);
    assert!(n.qualified());
    let m = created_norm("NORM: tip the staff\nTYPE: descriptive").unwrap();
    assert_eq!(m.content, "tip the staff");
    assert_eq!(m.alpha, NormType::Descriptive);
    assert_eq!(m.utility, 50);
    assert!(created_norm("CONTENT: \"None\"").is_none());
    assert_eq!(created_norm("CONTENT: N/A").unwrap().content, "N/A");
    assert!(created_norm("nothing here").is_none());
}

#[test]
fn identified_norm_reads_norm_only_and_defaults_to_descriptive() {
    let n = identified_norm("NORM: greet newcomers").unwrap();
    assert_eq!(n.content, "greet newcomers");
    assert_eq!(n.alpha, NormType::Descriptive);
    assert_eq!(n.utility, 50);
    assert!(identified_norm("CONTENT: keep quiet").is_none());
    assert!(identified_norm("NORM:   \nCONTENT: ignored").is_none());
}

#[test]
fn same_norm_reads_the_verdict() {
    assert!(same_norm("SAME: yes"));
    assert!(!same_norm("SAME: no"));
    assert!(!same_norm("no verdict"));
}
