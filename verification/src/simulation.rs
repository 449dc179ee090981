//! The initial society: agent ids, profiles and entrepreneurs.
//!
//! Profiles are dealt round robin from six personas and six preference
//! sets; the first agents are the norm entrepreneurs.  Norm databases start
//! empty: creating norms is left to the model.
use vstd::prelude::*;

use std::collections::BTreeMap;

use crate::world::{strs_of, AgentProfile};

verus! {

/// The persona dealt to the agent at place `i` (round robin over six).
pub open spec fn persona_view(i: nat) -> Seq<char> {
    let k = i % 6;
    if k == 0 {
        "Alex, an outgoing regular who dislikes loud noise"@
    } else if k == 1 {
        "Blair, a quiet patron who values tidiness"@
    } else if k == 2 {
        "Casey, a sociable visitor who enjoys lively chatter"@
    } else if k == 3 {
        "Devin, a thoughtful local who cares about fairness"@
    } else if k == 4 {
        "Erin, a busy professional who prefers calm spaces"@
    } else {
        "Frankie, a friendly newcomer still learning the norms"@
    }
}

/// The preferences dealt to the agent at place `i` (round robin over six):
/// the source of the initial value conflicts.
pub open spec fn preferences_view(i: nat) -> Seq<Seq<char>> {
    let k = i % 6;
    if k == 0 {
        seq!["dislikes smoking indoors"@, "prefers quiet"@]
    } else if k == 1 {
        seq!["wants a clean shared space"@, "dislikes loud phone calls"@]
    } else if k == 2 {
        seq!["enjoys music and chatter"@, "tolerant of smoking"@]
    } else if k == 3 {
        seq!["values tipping the staff"@, "dislikes queue-jumping"@]
    } else if k == 4 {
        seq!["prefers calm and order"@, "dislikes clutter"@]
    } else {
        seq!["easygoing"@, "open to any house rule"@]
    }
}

/// The persona of the agent at place `i`.
pub fn persona(i: usize) -> (r: &'static str)
    ensures
        r@ == persona_view(i as nat),
{
    let k = i % 6;
    if k == 0 {
        "Alex, an outgoing regular who dislikes loud noise"
    } else if k == 1 {
        "Blair, a quiet patron who values tidiness"
    } else if k == 2 {
        "Casey, a sociable visitor who enjoys lively chatter"
    } else if k == 3 {
        "Devin, a thoughtful local who cares about fairness"
    } else if k == 4 {
        "Erin, a busy professional who prefers calm spaces"
    } else {
        "Frankie, a friendly newcomer still learning the norms"
    }
}

/// The two strings `a`, `b`.
fn pair(a: &str, b: &str) -> (r: Vec<String>)
    ensures
        strs_of(r@) == seq![a@, b@],
{
    let mut r: Vec<String> = Vec::new();
    r.push(a.to_owned());
    r.push(b.to_owned());
    proof {
        assert(strs_of(r@) =~= seq![a@, b@]);
    }
    r
}

/// The preferences of the agent at place `i`.
pub fn preferences(i: usize) -> (r: Vec<String>)
    ensures
        strs_of(r@) == preferences_view(i as nat),
{
    let k = i % 6;
    if k == 0 {
        pair("dislikes smoking indoors", "prefers quiet")
    } else if k == 1 {
        pair("wants a clean shared space", "dislikes loud phone calls")
    } else if k == 2 {
        pair("enjoys music and chatter", "tolerant of smoking")
    } else if k == 3 {
        pair("values tipping the staff", "dislikes queue-jumping")
    } else if k == 4 {
        pair("prefers calm and order", "dislikes clutter")
    } else {
        pair("easygoing", "open to any house rule")
    }
}

/// The agent ids `0, 1, …, population - 1`.
pub fn agent_ids(population: usize) -> (r: Vec<u64>)
    ensures
        r@.len() == population,
        forall|i: int| 0 <= i < population ==> #[trigger] r@[i] == i,
{
    let mut r: Vec<u64> = Vec::new();
    let mut i: usize = 0;
    while i < population
        invariant
            i <= population,
            r@.len() == i,
            forall|j: int| 0 <= j < i ==> #[trigger] r@[j] == j,
        decreases population - i,
    {
        r.push(i as u64);
        i = i + 1;
    }
    r
}

/// The profiles of a society of `population` agents with ids
/// `0..population`: agent `a` gets persona and preferences `a` (round robin),
/// and the first `min(entrepreneurs, population)` agents are the norm
/// entrepreneurs.
pub fn init_agents(population: usize, entrepreneurs: usize) -> (r: BTreeMap<u64, AgentProfile>)
    ensures
        forall|a: u64| #[trigger] r@.contains_key(a) <==> a < population,
        forall|a: u64|
            #[trigger] r@.contains_key(a) ==> {
                &&& r@[a].description@ == persona_view(a as nat)
                &&& strs_of(r@[a].preferences@) == preferences_view(a as nat)
                &&& r@[a].is_entrepreneur == (a < entrepreneurs)
            },
{
    let mut m: BTreeMap<u64, AgentProfile> = BTreeMap::new();
    let mut i: usize = 0;
    while i < population
        invariant
            i <= population,
            forall|a: u64| #[trigger] m@.contains_key(a) <==> a < i,
            forall|a: u64|
                #[trigger] m@.contains_key(a) ==> {
                    &&& m@[a].description@ == persona_view(a as nat)
                    &&& strs_of(m@[a].preferences@) == preferences_view(a as nat)
                    &&& m@[a].is_entrepreneur == (a < entrepreneurs)
                },
        decreases population - i,
    {
        let p = AgentProfile::new(persona(i), i < entrepreneurs, preferences(i));
        m.insert(i as u64, p);
        i = i + 1;
    }
    m
}

} // verus!
