//! Prompts of the norm life-cycle operations (create, comply, spread,
//! evaluate, judge sameness).
//!
//! Each prompt asks for a line-based `KEY: value` reply that
//! [`crate::parse`] reads.  A prompt is a deterministic function of the state
//! it describes, so equal states give equal prompts (and equal cached
//! replies).
use vstd::prelude::*;

use crate::norm::{NormType, PersonalNorm};
use crate::text::{decimal, decimal_string, join, join_strings, push_str};
use crate::world::AgentProfile;

verus! {

/// The norms behind a slice of references.
pub open spec fn derefs(ns: Seq<&PersonalNorm>) -> Seq<PersonalNorm> {
    ns.map_values(|n: &PersonalNorm| *n)
}

/// One digest line: `- [<type>] <content> (utility <u>)`.
pub open spec fn norm_line(n: PersonalNorm) -> Seq<char> {
    "- ["@ + n.alpha.label_view() + "] "@ + n.content@ + " (utility "@ + decimal(n.utility as nat)
        + ")"@
}

/// The digest of a norm set: `(none yet)` when empty, else the lines of its
/// first `max_items` norms joined by newlines.
pub open spec fn norm_digest_view(ns: Seq<PersonalNorm>, max_items: nat) -> Seq<char> {
    if ns.len() == 0 {
        "(none yet)"@
    } else {
        let k = if ns.len() < max_items {
            ns.len()
        } else {
            max_items
        };
        join(ns.take(k as int).map_values(|n: PersonalNorm| norm_line(n)), "\n"@)
    }
}

fn norm_line_exec(n: &PersonalNorm) -> (s: String)
    ensures
        s@ == norm_line(*n),
{
    let mut s = String::new();
    push_str(&mut s, "- [");
    push_str(&mut s, n.alpha.label());
    push_str(&mut s, "] ");
    push_str(&mut s, n.content.as_str());
    push_str(&mut s, " (utility ");
    let u = decimal_string(n.utility as u64);
    push_str(&mut s, u.as_str());
    push_str(&mut s, ")");
    s
}

/// Folds a norm set into a short bulleted list for a prompt.
pub fn norm_digest(norms: &[&PersonalNorm], max_items: usize) -> (s: String)
    ensures
        s@ == norm_digest_view(derefs(norms@), max_items as nat),
{
    if norms.len() == 0 {
        return "(none yet)".to_owned();
    }
    let k = if norms.len() < max_items {
        norms.len()
    } else {
        max_items
    };
    let ghost ns = derefs(norms@);
    let mut lines: Vec<String> = Vec::new();
    let mut i: usize = 0;
    while i < k
        invariant
            k <= norms@.len(),
            i <= k,
            ns == derefs(norms@),
            lines@.map_values(|t: String| t@) == ns.take(i as int).map_values(
                |n: PersonalNorm| norm_line(n),
            ),
        decreases k - i,
    {
        let l = norm_line_exec(norms[i]);
        let ghost l0 = lines@;
        lines.push(l);
        proof {
            assert(ns[i as int] == *norms@[i as int]);
            assert(lines@.map_values(|t: String| t@) =~= l0.map_values(|t: String| t@).push(norm_line(ns[i as int])));
            assert(ns.take(i + 1).map_values(|n: PersonalNorm| norm_line(n)) =~= ns.take(i as int).map_values(|n: PersonalNorm| norm_line(n)).push(norm_line(ns[i as int])));
            assert(lines@.map_values(|t: String| t@) =~= ns.take(i + 1).map_values(
                |n: PersonalNorm| norm_line(n),
            ));
        }
        i = i + 1;
    }
    proof {
        assert(ns.take(k as int).map_values(|n: PersonalNorm| norm_line(n)) == lines@.map_values(|t: String| t@));
    }
    join_strings(&lines, "\n")
}

/// The digest of preferences: `(no strong preferences)` when empty, else
/// joined by `"; "`.
pub open spec fn pref_digest_view(prefs: Seq<String>) -> Seq<char> {
    if prefs.len() == 0 {
        "(no strong preferences)"@
    } else {
        join(prefs.map_values(|t: String| t@), "; "@)
    }
}

/// Folds preferences into a short string for a prompt.
pub fn pref_digest(prefs: &Vec<String>) -> (s: String)
    ensures
        s@ == pref_digest_view(prefs@),
{
    if prefs.len() == 0 {
        "(no strong preferences)".to_owned()
    } else {
        join_strings(prefs, "; ")
    }
}

/// The CreateNorm prompt (see [`create_norm_prompt`]).
pub open spec fn create_norm_prompt_view(profile: AgentProfile, scene: Seq<char>) -> Seq<char> {
    "You are a member of a small community. Persona: "@ + profile.description@
        + "\nYour preferences: "@ + pref_digest_view(profile.preferences@)
        + "\nShared scene/context: "@ + scene
        + "\n\nAs a norm entrepreneur, propose ONE social norm for this community that reflects your values and would reduce conflict.\nReply in EXACTLY this format, nothing else:\nCONTENT: <a single short rule, e.g. 'no smoking indoors'>\nTYPE: <injunctive or descriptive>\nUTILITY: <an integer from 1 to 100 for how useful this norm is>"@
}

/// CreateNorm: a norm entrepreneur proposes one initial norm.  The reply
/// carries `CONTENT`, `TYPE` and `UTILITY`.
pub fn create_norm_prompt(profile: &AgentProfile, scene: &str) -> (s: String)
    ensures
        s@ == create_norm_prompt_view(*profile, scene@),
{
    let mut s = String::new();
    push_str(&mut s, "You are a member of a small community. Persona: ");
    push_str(&mut s, profile.description.as_str());
    push_str(&mut s, "\nYour preferences: ");
    let prefs = pref_digest(&profile.preferences);
    push_str(&mut s, prefs.as_str());
    push_str(&mut s, "\nShared scene/context: ");
    push_str(&mut s, scene);
    push_str(
        &mut s,
        "\n\nAs a norm entrepreneur, propose ONE social norm for this community that reflects your values and would reduce conflict.\nReply in EXACTLY this format, nothing else:\nCONTENT: <a single short rule, e.g. 'no smoking indoors'>\nTYPE: <injunctive or descriptive>\nUTILITY: <an integer from 1 to 100 for how useful this norm is>",
    );
    s
}

/// The compliance prompt (see [`compliance_prompt`]).
pub open spec fn compliance_prompt_view(
    profile: AgentProfile,
    qualified: Seq<PersonalNorm>,
    scene: Seq<char>,
) -> Seq<char> {
    "You are a community member. Persona: "@ + profile.description@
        + "\nThe social norms you currently hold (qualified):\n"@ + norm_digest_view(qualified, 6)
        + "\nCurrent scene: "@ + scene
        + "\n\nDecide on your next action. You should follow your qualified norms.\nReply in EXACTLY this format, nothing else:\nCOMPLY: <yes if your action follows the norms, no otherwise>\nACTION: <a single short sentence describing what you do>"@
}

/// GenerateNormativePlan: the agent chooses an action under its qualified
/// norms.  The reply carries `COMPLY` and `ACTION`.
pub fn compliance_prompt(profile: &AgentProfile, qualified: &[&PersonalNorm], scene: &str) -> (s:
    String)
    ensures
        s@ == compliance_prompt_view(*profile, derefs(qualified@), scene@),
{
    let mut s = String::new();
    push_str(&mut s, "You are a community member. Persona: ");
    push_str(&mut s, profile.description.as_str());
    push_str(&mut s, "\nThe social norms you currently hold (qualified):\n");
    let d = norm_digest(qualified, 6);
    push_str(&mut s, d.as_str());
    push_str(&mut s, "\nCurrent scene: ");
    push_str(&mut s, scene);
    push_str(
        &mut s,
        "\n\nDecide on your next action. You should follow your qualified norms.\nReply in EXACTLY this format, nothing else:\nCOMPLY: <yes if your action follows the norms, no otherwise>\nACTION: <a single short sentence describing what you do>",
    );
    s
}

/// The opening line of a spreading prompt.
pub open spec fn spreading_mode_view(is_observation: bool) -> Seq<char> {
    if is_observation {
        "You are OBSERVING another member's behaviour (no direct conversation)."@
    } else {
        "You are about to have a CONVERSATION with another member."@
    }
}

/// The spreading prompt (see [`spreading_prompt`]).
pub open spec fn spreading_prompt_view(
    sender: AgentProfile,
    receiver: AgentProfile,
    sender_qualified: Seq<PersonalNorm>,
    is_observation: bool,
    scene: Seq<char>,
) -> Seq<char> {
    spreading_mode_view(is_observation) + "\nYour persona (sender): "@ + sender.description@
        + "; preferences: "@ + pref_digest_view(sender.preferences@)
        + "\nThe other member (receiver): "@ + receiver.description@ + "; preferences: "@
        + pref_digest_view(receiver.preferences@) + "\nNorms you (sender) hold and may convey:\n"@
        + norm_digest_view(sender_qualified, 4) + "\nCurrent scene: "@ + scene
        + "\n\nAnalyse the interaction. Reply in EXACTLY this format, nothing else:\nCONFLICT: <yes if your values/behaviour clash with the other member, no otherwise>\nTALK: <yes if you decide to start a conversation about it, no otherwise>\nNORM: <the single normative rule the receiver would identify, or 'none'>\nTYPE: <injunctive or descriptive>\nUTILITY: <an integer from 1 to 100>"@
}

/// Spreading, in one call: conflict detection, the decision to talk and the
/// identification of normative information.  The reply carries
/// `CONFLICT`, `TALK`, `NORM`, `TYPE` and `UTILITY`.
pub fn spreading_prompt(
    sender: &AgentProfile,
    receiver: &AgentProfile,
    sender_qualified: &[&PersonalNorm],
    is_observation: bool,
    scene: &str,
) -> (s: String)
    ensures
        s@ == spreading_prompt_view(
            *sender,
            *receiver,
            derefs(sender_qualified@),
            is_observation,
            scene@,
        ),
{
    let mut s = String::new();
    if is_observation {
        push_str(&mut s, "You are OBSERVING another member's behaviour (no direct conversation).");
    } else {
        push_str(&mut s, "You are about to have a CONVERSATION with another member.");
    }
    push_str(&mut s, "\nYour persona (sender): ");
    push_str(&mut s, sender.description.as_str());
    push_str(&mut s, "; preferences: ");
    let sp = pref_digest(&sender.preferences);
    push_str(&mut s, sp.as_str());
    push_str(&mut s, "\nThe other member (receiver): ");
    push_str(&mut s, receiver.description.as_str());
    push_str(&mut s, "; preferences: ");
    let rp = pref_digest(&receiver.preferences);
    push_str(&mut s, rp.as_str());
    push_str(&mut s, "\nNorms you (sender) hold and may convey:\n");
    let d = norm_digest(sender_qualified, 4);
    push_str(&mut s, d.as_str());
    push_str(&mut s, "\nCurrent scene: ");
    push_str(&mut s, scene);
    push_str(
        &mut s,
        "\n\nAnalyse the interaction. Reply in EXACTLY this format, nothing else:\nCONFLICT: <yes if your values/behaviour clash with the other member, no otherwise>\nTALK: <yes if you decide to start a conversation about it, no otherwise>\nNORM: <the single normative rule the receiver would identify, or 'none'>\nTYPE: <injunctive or descriptive>\nUTILITY: <an integer from 1 to 100>",
    );
    s
}

/// The evaluation prompt (see [`evaluation_prompt`]).
pub open spec fn evaluation_prompt_view(
    profile: AgentProfile,
    candidate: PersonalNorm,
    existing_qualified: Seq<PersonalNorm>,
) -> Seq<char> {
    "You are a community member evaluating a newly identified candidate norm before internalising it. Persona: "@
        + profile.description@ + "\nCandidate norm: \""@ + candidate.content@ + "\" (type "@
        + candidate.alpha.label_view() + ", utility "@ + decimal(candidate.utility as nat)
        + ")\nNorms you already hold (qualified):\n"@ + norm_digest_view(existing_qualified, 6)
        + "\n\nRun four sanity checks and decide whether to adopt the candidate as a qualified norm.\nReply in EXACTLY this format, nothing else:\nCONSISTENT: <yes if it is internally consistent and plausible>\nDUPLICATE: <yes if it duplicates a norm you already hold>\nTYPE_OK: <yes if its declared type is appropriate>\nCONFLICTS: <yes if it conflicts with your existing qualified norms>\nPROMOTE: <yes to adopt it as a qualified norm, no to discard>"@
}

/// EvaluateNorm, in one call: the four sanity checks (consistency,
/// duplication, type, conflict) and the promotion verdict.  The reply
/// carries `CONSISTENT`, `DUPLICATE`, `TYPE_OK`, `CONFLICTS` and `PROMOTE`.
pub fn evaluation_prompt(
    profile: &AgentProfile,
    candidate: &PersonalNorm,
    existing_qualified: &[&PersonalNorm],
) -> (s: String)
    ensures
        s@ == evaluation_prompt_view(*profile, *candidate, derefs(existing_qualified@)),
{
    let mut s = String::new();
    push_str(
        &mut s,
        "You are a community member evaluating a newly identified candidate norm before internalising it. Persona: ",
    );
    push_str(&mut s, profile.description.as_str());
    push_str(&mut s, "\nCandidate norm: \"");
    push_str(&mut s, candidate.content.as_str());
    push_str(&mut s, "\" (type ");
    push_str(&mut s, candidate.alpha.label());
    push_str(&mut s, ", utility ");
    let u = decimal_string(candidate.utility as u64);
    push_str(&mut s, u.as_str());
    push_str(&mut s, ")\nNorms you already hold (qualified):\n");
    let d = norm_digest(existing_qualified, 6);
    push_str(&mut s, d.as_str());
    push_str(
        &mut s,
        "\n\nRun four sanity checks and decide whether to adopt the candidate as a qualified norm.\nReply in EXACTLY this format, nothing else:\nCONSISTENT: <yes if it is internally consistent and plausible>\nDUPLICATE: <yes if it duplicates a norm you already hold>\nTYPE_OK: <yes if its declared type is appropriate>\nCONFLICTS: <yes if it conflicts with your existing qualified norms>\nPROMOTE: <yes to adopt it as a qualified norm, no to discard>",
    );
    s
}

/// The sameness prompt (see [`same_norm_prompt`]).
pub open spec fn same_norm_prompt_view(a: Seq<char>, b: Seq<char>) -> Seq<char> {
    "You compare two short statements of social norms and decide whether they express the SAME underlying norm (same prescribed/observed behaviour), ignoring wording, word order, articles, and subject.\nNorm A: \""@
        + a + "\"\nNorm B: \""@ + b
        + "\"\n\nReply in EXACTLY this format, nothing else:\nSAME: <yes if they are the same norm, no otherwise>"@
}

/// Canonical identity by the model: do two statements express the same
/// norm?  The reply carries `SAME`.
pub fn same_norm_prompt(a: &str, b: &str) -> (s: String)
    ensures
        s@ == same_norm_prompt_view(a@, b@),
{
    let mut s = String::new();
    push_str(
        &mut s,
        "You compare two short statements of social norms and decide whether they express the SAME underlying norm (same prescribed/observed behaviour), ignoring wording, word order, articles, and subject.\nNorm A: \"",
    );
    push_str(&mut s, a);
    push_str(&mut s, "\"\nNorm B: \"");
    push_str(&mut s, b);
    push_str(
        &mut s,
        "\"\n\nReply in EXACTLY this format, nothing else:\nSAME: <yes if they are the same norm, no otherwise>",
    );
    s
}

} // verus!
