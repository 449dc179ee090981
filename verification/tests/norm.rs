use crsec_simulation::norm::{NormType, PersonalNorm};

#[test]
fn qualified_requires_both_flags() {
    assert!(PersonalNorm::created("c", 50, NormType::Injunctive).qualified());
    assert!(!PersonalNorm::identified("c", 50, NormType::Injunctive).qualified());
    let mut n = PersonalNorm::new("c", 50, NormType::Descriptive, true, false);
    assert!(!n.qualified());
    n.promote();
    assert!(n.qualified());
}

#[test]
fn utility_is_clamped() {
    assert_eq!(PersonalNorm::created("c", 0, NormType::Descriptive).utility, 1);
    assert_eq!(PersonalNorm::created("c", 200, NormType::Descriptive).utility, 100);
}

#[test]
fn norm_type_parse_loose() {
    assert_eq!(NormType::parse_loose("Injunctive"), NormType::Injunctive);
    assert_eq!(NormType::parse_loose("one should..."), NormType::Injunctive);
    assert_eq!(NormType::parse_loose("descriptive"), NormType::Descriptive);
    assert_eq!(NormType::parse_loose("people tend to"), NormType::Descriptive);
}

#[test]
fn parse_loose_reads_ought_and_ignores_must() {
    assert_eq!(NormType::parse_loose("  MUST  "), NormType::Descriptive);
    assert_eq!(NormType::parse_loose("  INJ  "), NormType::Injunctive);
    assert_eq!(NormType::parse_loose("you ought to"), NormType::Injunctive);
    assert_eq!(NormType::parse_loose(""), NormType::Descriptive);
}

#[test]
fn norm_type_labels() {
    assert_eq!(NormType::Descriptive.label(), "des");
    assert_eq!(NormType::Injunctive.label(), "inj");
}

#[test]
fn deactivate_unqualifies_and_keeps_the_rest() {
    let mut n = PersonalNorm::created("no smoking indoors", 70, NormType::Injunctive);
    n.deactivate();
    assert!(!n.qualified());
    assert!(!n.s_act);
    assert!(n.s_val);
    assert_eq!(n.content, "no smoking indoors");
    assert_eq!(n.utility, 70);
}

#[test]
fn new_keeps_flags_and_clamps_in_range() {
    let n = PersonalNorm::new("x", 55, NormType::Descriptive, false, true);
    assert_eq!(n.utility, 55);
    assert!(!n.s_act);
    assert!(n.s_val);
    let m = PersonalNorm::identified("x", 100, NormType::Injunctive);
    assert_eq!(m.utility, 100);
    assert!(!m.s_act && !m.s_val);
    assert_eq!(m.duplicate(), m);
}
