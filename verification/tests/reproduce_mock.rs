use crsec_simulation::reproduce_mock::{
    same_norm_reply, scripted_reply, spreading_reply, COMPLY_MARK, CREATE_MARK, DESCRIPTIVE_NORM,
    EVAL_MARK, INJUNCTIVE_NORM, OBSERVE_MARK, SAME_MARK, SPREAD_MARK,
};

#[test]
fn conversation_always_spreads_injunctive() {
    let early = spreading_reply("CONVERSATION ...\n(none yet)\n... Analyse the interaction");
    assert!(early.contains("injunctive"));
    assert!(early.contains(INJUNCTIVE_NORM));
    assert!(early.contains("CONFLICT: yes"));
    let late = spreading_reply("CONVERSATION ...\n- [inj] no smoking indoors (utility 85)\n... Analyse");
    assert!(late.contains("injunctive"));
    assert!(late.contains("CONFLICT: no"));
}

#[test]
fn observation_spreads_descriptive_only_after_norm_internalised() {
    let after = spreading_reply(&format!(
        "{OBSERVE_MARK} ...\n- [inj] no smoking indoors (utility 85)\n... Analyse"
    ));
    assert!(after.contains("descriptive"));
    assert!(after.contains(DESCRIPTIVE_NORM));
    let before = spreading_reply(&format!("{OBSERVE_MARK} ...\n(none yet)\n... Analyse"));
    assert!(before.contains("injunctive"));
    assert!(before.contains(INJUNCTIVE_NORM));
}

#[test]
fn same_norm_reply_buckets_synonyms() {
    let p = format!(
        "{SAME_MARK}\nNorm A: \"no smoking indoors\"\nNorm B: \"please refrain from cigarettes inside\""
    );
    assert!(same_norm_reply(&p).contains("yes"));
    let q = format!("{SAME_MARK}\nNorm A: \"no smoking indoors\"\nNorm B: \"keep the library quiet\"");
    assert!(same_norm_reply(&q).contains("no"));
}

#[test]
fn spreading_replies_are_exact() {
    assert_eq!(
        spreading_reply("x (none yet)"),
        "CONFLICT: yes\nTALK: yes\nNORM: no smoking indoors\nTYPE: injunctive\nUTILITY: 85"
    );
    assert_eq!(
        spreading_reply("OBSERVING another member; - [inj] rule"),
        "CONFLICT: no\nTALK: yes\nNORM: people greet newcomers warmly\nTYPE: descriptive\nUTILITY: 60"
    );
}

#[test]
fn same_norm_reply_counts_separate_occurrences() {
    assert_eq!(same_norm_reply("smoking and smokers"), "SAME: yes");
    assert_eq!(same_norm_reply("smoking only"), "SAME: no");
    assert_eq!(same_norm_reply("greet and welcome"), "SAME: yes");
    assert_eq!(same_norm_reply("greeting greeters"), "SAME: yes");
    assert_eq!(same_norm_reply("nothing alike"), "SAME: no");
}

#[test]
fn scripted_reply_answers_each_operation() {
    let c = scripted_reply(&format!("... {CREATE_MARK} ..."));
    assert_eq!(c, "CONTENT: no smoking indoors\nTYPE: injunctive\nUTILITY: 85");
    let k = scripted_reply(&format!("... {COMPLY_MARK} ..."));
    assert_eq!(k, "COMPLY: yes\nACTION: I refrain from smoking indoors.");
    let s = scripted_reply(&format!("{SPREAD_MARK} (none yet)"));
    assert!(s.contains("CONFLICT: yes"));
    let e = scripted_reply(&format!("{EVAL_MARK}"));
    assert!(e.ends_with("PROMOTE: yes"));
    let q = scripted_reply(&format!("{SAME_MARK} smoking / smoke"));
    assert_eq!(q, "SAME: yes");
    assert_eq!(scripted_reply("hello"), "none");
}
