//! The scripted replies of the offline reproduction client.
//!
//! A deterministic caricature of the norm life cycle that reproduces the
//! qualitative findings without a live model: the entrepreneurs' injunctive
//! norm spreads first through conversations and observations; a descriptive
//! norm is identified only by observers of a sender that already holds a
//! norm, so it emerges later; conflicts occur only while the sender holds no
//! norm yet (rise then fall).  The reply is read off the prompt: which
//! operation it asks for, and whether the sender already holds a norm.
use vstd::prelude::*;

use crate::text::{chars_of, contains, contains_lit, occurs_twice, occurs_twice_lit, push_str};

verus! {

/// Marks a creation prompt.
pub const CREATE_MARK: &'static str = "propose ONE social norm";

/// Marks a compliance prompt.
pub const COMPLY_MARK: &'static str = "Decide on your next action";

/// Marks a spreading prompt.
pub const SPREAD_MARK: &'static str = "Analyse the interaction";

/// Marks an evaluation prompt.
pub const EVAL_MARK: &'static str = "Run four sanity checks";

/// Marks a sameness prompt.
pub const SAME_MARK: &'static str = "express the SAME underlying norm";

/// Marks a prompt whose sender holds no qualified norm yet.
pub const NO_NORMS_MARK: &'static str = "(none yet)";

/// Marks an observation (rather than a conversation).
pub const OBSERVE_MARK: &'static str = "OBSERVING another member";

/// The core injunctive norm (created by the entrepreneurs; emerges first).
pub const INJUNCTIVE_NORM: &'static str = "no smoking indoors";

/// The descriptive norm (identified once a norm is held; emerges later).
pub const DESCRIPTIVE_NORM: &'static str = "people greet newcomers warmly";

/// The reply to a spreading prompt.
///
/// An observation of a sender that already holds a norm identifies the
/// descriptive norm, without conflict.  Any other interaction (every
/// conversation, and observing a sender without norms) passes on the
/// injunctive norm, with a conflict exactly when the sender holds no norm.
pub open spec fn spreading_reply_view(prompt: Seq<char>) -> Seq<char> {
    let has_norm = !contains(prompt, NO_NORMS_MARK@);
    if contains(prompt, OBSERVE_MARK@) && has_norm {
        "CONFLICT: no\nTALK: yes\nNORM: "@ + DESCRIPTIVE_NORM@ + "\nTYPE: descriptive\nUTILITY: 60"@
    } else {
        "CONFLICT: "@ + (if has_norm {
            "no"@
        } else {
            "yes"@
        }) + "\nTALK: yes\nNORM: "@ + INJUNCTIVE_NORM@ + "\nTYPE: injunctive\nUTILITY: 85"@
    }
}

/// The two descriptions of a sameness prompt are both about smoking.
pub open spec fn about_smoking(prompt: Seq<char>) -> bool {
    occurs_twice(prompt, "smok"@) || (contains(prompt, "smok"@) && contains(prompt, "cigarette"@))
}

/// The two descriptions of a sameness prompt are both about greeting.
pub open spec fn about_greeting(prompt: Seq<char>) -> bool {
    occurs_twice(prompt, "greet"@) || (contains(prompt, "greet"@) && contains(prompt, "welcome"@))
}

/// The reply to a sameness prompt: the same norm when both descriptions are
/// about smoking or both about greeting.
pub open spec fn same_norm_reply_view(prompt: Seq<char>) -> Seq<char> {
    if about_smoking(prompt) || about_greeting(prompt) {
        "SAME: yes"@
    } else {
        "SAME: no"@
    }
}

/// The scripted reply to any prompt, chosen by the operation it asks for.
pub open spec fn scripted_reply_view(prompt: Seq<char>) -> Seq<char> {
    if contains(prompt, CREATE_MARK@) {
        "CONTENT: "@ + INJUNCTIVE_NORM@ + "\nTYPE: injunctive\nUTILITY: 85"@
    } else if contains(prompt, COMPLY_MARK@) {
        "COMPLY: yes\nACTION: I refrain from smoking indoors."@
    } else if contains(prompt, SPREAD_MARK@) {
        spreading_reply_view(prompt)
    } else if contains(prompt, EVAL_MARK@) {
        "CONSISTENT: yes\nDUPLICATE: no\nTYPE_OK: yes\nCONFLICTS: no\nPROMOTE: yes"@
    } else if contains(prompt, SAME_MARK@) {
        same_norm_reply_view(prompt)
    } else {
        "none"@
    }
}

/// The reply to a spreading prompt (see [`spreading_reply_view`]).
pub fn spreading_reply(prompt: &str) -> (r: String)
    ensures
        r@ == spreading_reply_view(prompt@),
{
    let p = chars_of(prompt);
    let observing = contains_lit(&p, OBSERVE_MARK);
    let has_norm = !contains_lit(&p, NO_NORMS_MARK);
    let mut r = String::new();
    if observing && has_norm {
        push_str(&mut r, "CONFLICT: no\nTALK: yes\nNORM: ");
        push_str(&mut r, DESCRIPTIVE_NORM);
        push_str(&mut r, "\nTYPE: descriptive\nUTILITY: 60");
    } else {
        push_str(&mut r, "CONFLICT: ");
        if has_norm {
            push_str(&mut r, "no");
        } else {
            push_str(&mut r, "yes");
        }
        push_str(&mut r, "\nTALK: yes\nNORM: ");
        push_str(&mut r, INJUNCTIVE_NORM);
        push_str(&mut r, "\nTYPE: injunctive\nUTILITY: 85");
    }
    r
}

/// The reply to a sameness prompt (see [`same_norm_reply_view`]).
pub fn same_norm_reply(prompt: &str) -> (r: String)
    ensures
        r@ == same_norm_reply_view(prompt@),
{
    let p = chars_of(prompt);
    proof {
        reveal_strlit("smok");
        reveal_strlit("greet");
    }
    let smoke = occurs_twice_lit(&p, "smok") || (contains_lit(&p, "smok") && contains_lit(
        &p,
        "cigarette",
    ));
    let greet = occurs_twice_lit(&p, "greet") || (contains_lit(&p, "greet") && contains_lit(
        &p,
        "welcome",
    ));
    if smoke || greet {
        "SAME: yes".to_owned()
    } else {
        "SAME: no".to_owned()
    }
}

/// The scripted reply to any prompt (see [`scripted_reply_view`]).
pub fn scripted_reply(prompt: &str) -> (r: String)
    ensures
        r@ == scripted_reply_view(prompt@),
{
    let p = chars_of(prompt);
    if contains_lit(&p, CREATE_MARK) {
        let mut r = String::new();
        push_str(&mut r, "CONTENT: ");
        push_str(&mut r, INJUNCTIVE_NORM);
        push_str(&mut r, "\nTYPE: injunctive\nUTILITY: 85");
        r
    } else if contains_lit(&p, COMPLY_MARK) {
        "COMPLY: yes\nACTION: I refrain from smoking indoors.".to_owned()
    } else if contains_lit(&p, SPREAD_MARK) {
        spreading_reply(prompt)
    } else if contains_lit(&p, EVAL_MARK) {
        "CONSISTENT: yes\nDUPLICATE: no\nTYPE_OK: yes\nCONFLICTS: no\nPROMOTE: yes".to_owned()
    } else if contains_lit(&p, SAME_MARK) {
        same_norm_reply(prompt)
    } else {
        "none".to_owned()
    }
}

} // verus!
