//! The norm life cycle as decisions between model calls.
//!
//! Each round every agent passes through creation, compliance, spreading and
//! evaluation; convergence then checks whether the society's qualified norm
//! set has stopped changing.  The model calls themselves happen in the
//! driver: here each step is split into the prompt it needs (from the state)
//! and the update a reply causes (from state and reply to the next state).
use vstd::prelude::*;

use std::collections::BTreeMap;

use crate::config::CanonicalMode;
use crate::norm::{clamp_utility, PersonalNorm};
use crate::parse::{
    created_content, created_from, created_norm, identified_from, identified_norm, norm_content,
    promote_decision, promote_view, yes, yes_view,
};
use crate::text::{
    chars_of, contains_text, join, lemma_contains_text_in, lemma_join_has_piece, lemma_sorted_unique,
    push_str, strictly_sorted, string_of, trim_end_len, trim_end_matches,
};
use crate::prompts::{
    compliance_prompt, compliance_prompt_view, create_norm_prompt, create_norm_prompt_view,
    norm_digest_view, norm_line,
    evaluation_prompt, evaluation_prompt_view, spreading_prompt, spreading_prompt_view,
};
use crate::world::{
    canon_run, canonical_key, canonical_key_view, canonical_outcome, db_keys, lemma_canon_run_push, qualified_pred, registered, registry_extends,
    strs_of, AgentProfile, Canonicalizer, CrsecWorld, InteractionEvent, NormJudge,
};

verus! {

/// The shared scene every prompt describes.
pub const SCENE: &'static str = "a shared community café where members gather, talk, and observe one another";

/// The norm lists of a database, by agent.
pub open spec fn db_view(m: Map<u64, Vec<PersonalNorm>>) -> Map<u64, Seq<PersonalNorm>> {
    m.map_values(|v: Vec<PersonalNorm>| v@)
}

/// Agent `id`'s norm list (empty when it has none).
pub open spec fn norms_of(m: Map<u64, Vec<PersonalNorm>>, id: u64) -> Seq<PersonalNorm> {
    if m.contains_key(id) {
        m[id]@
    } else {
        Seq::empty()
    }
}

/// Agent `id`'s qualified norms.
pub open spec fn qualified_of(m: Map<u64, Vec<PersonalNorm>>, id: u64) -> Seq<PersonalNorm> {
    norms_of(m, id).filter(qualified_pred())
}

/// The database after giving agent `id` the norm list `ns`.
pub open spec fn with_norms(
    m: Map<u64, Seq<PersonalNorm>>,
    id: u64,
    ns: Seq<PersonalNorm>,
) -> Map<u64, Seq<PersonalNorm>> {
    m.insert(id, ns)
}

/// Takes agent `id`'s norm list out of the database (empty if it has none).
fn take_norms(world: &mut CrsecWorld, id: u64) -> (r: Vec<PersonalNorm>)
    ensures
        r@ == norms_of(old(world).norm_db@, id),
        final(world).norm_db@ == old(world).norm_db@.remove(id),
        final(world).agents@ == old(world).agents@,
        final(world).interactions@ == old(world).interactions@,
        final(world).synth_threshold == old(world).synth_threshold,
{
    match world.norm_db.remove(&id) {
        Some(v) => v,
        None => Vec::new(),
    }
}

/// Puts agent `id`'s norm list back.
fn put_norms(world: &mut CrsecWorld, id: u64, ns: Vec<PersonalNorm>)
    ensures
        final(world).norm_db@ == old(world).norm_db@.insert(id, ns),
        final(world).agents@ == old(world).agents@,
        final(world).interactions@ == old(world).interactions@,
        final(world).synth_threshold == old(world).synth_threshold,
{
    world.norm_db.insert(id, ns);
}

/// Gives agent `id` the norm list `ns`.
fn set_norms(world: &mut CrsecWorld, id: u64, ns: Vec<PersonalNorm>)
    ensures
        db_view(final(world).norm_db@) == with_norms(db_view(old(world).norm_db@), id, ns@),
        final(world).agents@ == old(world).agents@,
        final(world).interactions@ == old(world).interactions@,
        final(world).synth_threshold == old(world).synth_threshold,
{
    let ghost before = world.norm_db@;
    put_norms(world, id, ns);
    proof {
        assert(db_view(world.norm_db@) =~= with_norms(db_view(before), id, ns@));
    }
}

// ------------------------------------------------------------------------
// PreStep: reset the round's log
// ------------------------------------------------------------------------

/// Clears the round's conversation and observation log (`PreStep`).
pub struct ResetInteractions;

impl ResetInteractions {
    /// Empties the interaction log and leaves the rest of the state as it is.
    pub fn apply(&mut self, world: &mut CrsecWorld)
        ensures
            final(world).interactions@.len() == 0,
            final(world).agents@ == old(world).agents@,
            final(world).norm_db@ == old(world).norm_db@,
            final(world).synth_threshold == old(world).synth_threshold,
    {
        world.interactions.clear();
    }
}

// ------------------------------------------------------------------------
// Environment: creation
// ------------------------------------------------------------------------

/// The CreateNorm prompt for agent `id`: only a norm entrepreneur whose norm
/// database is empty (or absent) creates a norm; `None` for anyone else.
pub fn creation_prompt(world: &CrsecWorld, id: u64) -> (r: Option<String>)
    ensures
        match r {
            Some(p) => world.agents@.contains_key(id) && world.agents@[id].is_entrepreneur
                && norms_of(world.norm_db@, id).len() == 0 && p@ == create_norm_prompt_view(
                world.agents@[id],
                SCENE@,
            ),
            None => !world.agents@.contains_key(id) || !world.agents@[id].is_entrepreneur
                || norms_of(world.norm_db@, id).len() > 0,
        },
{
    let profile = match world.agents.get(&id) {
        Some(p) => p,
        None => return None,
    };
    let db_empty = match world.norm_db.get(&id) {
        Some(v) => v.len() == 0,
        None => true,
    };
    if profile.is_entrepreneur && db_empty {
        Some(create_norm_prompt(profile, SCENE))
    } else {
        None
    }
}

/// Applies a CreateNorm reply: the created norm (qualified at once) is
/// appended to agent `id`'s database; a reply without a norm changes nothing.
pub fn record_creation(world: &mut CrsecWorld, id: u64, reply: &str)
    ensures
        final(world).agents@ == old(world).agents@,
        final(world).interactions@ == old(world).interactions@,
        final(world).synth_threshold == old(world).synth_threshold,
        created_content(reply@) is None ==> final(world).norm_db@ == old(
            world,
        ).norm_db@,
        created_content(reply@) is Some ==> exists|n: PersonalNorm|
            created_from(reply@, n) && db_view(final(world).norm_db@) == with_norms(
                db_view(old(world).norm_db@),
                id,
                norms_of(old(world).norm_db@, id).push(n),
            ),
{
    match created_norm(reply) {
        Some(norm) => {
            let ghost n = norm;
            let mut v = take_norms(world, id);
            v.push(norm);
            set_norms(world, id, v);
            proof {
                assert(db_view(world.norm_db@) =~= with_norms(
                    db_view(old(world).norm_db@),
                    id,
                    norms_of(old(world).norm_db@, id).push(n),
                ));
            }
        },
        None => {},
    }
}

// ------------------------------------------------------------------------
// Decision: compliance
// ------------------------------------------------------------------------

/// The compliance prompt for agent `id`: only an agent holding a qualified
/// norm acts under its norms; `None` for anyone else.
pub fn compliance_prompt_for(world: &CrsecWorld, id: u64) -> (r: Option<String>)
    ensures
        match r {
            Some(p) => world.agents@.contains_key(id) && qualified_of(world.norm_db@, id).len() > 0
                && p@ == compliance_prompt_view(
                world.agents@[id],
                qualified_of(world.norm_db@, id),
                SCENE@,
            ),
            None => !world.agents@.contains_key(id) || qualified_of(world.norm_db@, id).len() == 0,
        },
{
    let profile = match world.agents.get(&id) {
        Some(p) => p,
        None => return None,
    };
    let qualified = world.qualified_norms(id);
    if qualified.len() == 0 {
        return None;
    }
    let p = compliance_prompt(profile, qualified.as_slice(), SCENE);
    proof {
        assert(crate::prompts::derefs(qualified@) == qualified_of(world.norm_db@, id));
    }
    Some(p)
}

/// The compliance prompt tells the agent every norm it holds as qualified
/// (the digest shows up to six): when the agent has at most six qualified
/// norms, the digest line of each of them appears in the prompt.
pub proof fn law_compliance_prompt_lists_every_qualified_norm(
    profile: AgentProfile,
    m: Map<u64, Vec<PersonalNorm>>,
    id: u64,
    j: int,
)
    requires
        0 <= j < norms_of(m, id).len(),
        norms_of(m, id)[j].is_qualified(),
        qualified_of(m, id).len() <= 6,
    ensures
        contains_text(
            compliance_prompt_view(profile, qualified_of(m, id), SCENE@),
            norm_line(norms_of(m, id)[j]),
        ),
{
    let all = norms_of(m, id);
    let n = all[j];
    let q = qualified_of(m, id);
    all.lemma_filter_contains(qualified_pred(), j);
    assert(q.contains(n));
    let k = choose|k: int| 0 <= k < q.len() && q[k] == n;
    assert(q.take(q.len() as int) =~= q);
    let lines = q.map_values(|x: PersonalNorm| norm_line(x));
    assert(lines[k] == norm_line(n));
    lemma_join_has_piece(lines, "\n"@, k);
    let d = norm_digest_view(q, 6);
    assert(d == join(lines, "\n"@));
    let i = choose|i: int|
        {
            &&& 0 <= i && i + lines[k].len() <= d.len()
            &&& #[trigger] d.subrange(i, i + lines[k].len()) == lines[k]
            &&& (i == 0 || (i >= "\n"@.len() && d.subrange(i - "\n"@.len(), i) == "\n"@))
            &&& (i + lines[k].len() == d.len() || (i + lines[k].len() + "\n"@.len() <= d.len()
                && d.subrange(i + lines[k].len(), i + lines[k].len() + "\n"@.len()) == "\n"@))
        };
    assert(d.subrange(i, i + norm_line(n).len()) == norm_line(n));
    let a = "You are a community member. Persona: "@ + profile.description@
        + "\nThe social norms you currently hold (qualified):\n"@;
    let b = "\nCurrent scene: "@ + SCENE@
        + "\n\nDecide on your next action. You should follow your qualified norms.\nReply in EXACTLY this format, nothing else:\nCOMPLY: <yes if your action follows the norms, no otherwise>\nACTION: <a single short sentence describing what you do>"@;
    lemma_contains_text_in(a, d, b, norm_line(n));
    assert(compliance_prompt_view(profile, q, SCENE@) =~= a + d + b);
}

/// Whether a compliance reply complies (`COMPLY` answered yes).
pub fn complied(reply: &str) -> (r: bool)
    ensures
        r == yes_view(reply@, "COMPLY"@),
{
    yes(reply, "COMPLY")
}

// ------------------------------------------------------------------------
// Interaction: spreading
// ------------------------------------------------------------------------

/// `a <= b` on agent ids.
pub open spec fn id_leq() -> spec_fn(u64, u64) -> bool {
    |a: u64, b: u64| a <= b
}

/// `x` is not the sender.
pub open spec fn not_id(sender: u64) -> spec_fn(u64) -> bool {
    |x: u64| x != sender
}

/// The sender's possible partners: its neighbours other than itself, in
/// ascending order (the order the random shuffle then starts from).
pub fn partner_candidates(sender: u64, neighbors: &Vec<u64>) -> (r: Vec<u64>)
    ensures
        vstd::relations::sorted_by(r@, id_leq()),
        r@.to_multiset() == neighbors@.filter(not_id(sender)).to_multiset(),
{
    broadcast use vstd::seq_lib::group_to_multiset_ensures;

    let mut r: Vec<u64> = Vec::new();
    let mut i: usize = 0;
    while i < neighbors.len()
        invariant
            i <= neighbors.len(),
            vstd::relations::sorted_by(r@, id_leq()),
            r@.to_multiset() == neighbors@.take(i as int).filter(not_id(sender)).to_multiset(),
        decreases neighbors.len() - i,
    {
        let x = neighbors[i];
        proof {
            assert(neighbors@.take(i + 1) =~= neighbors@.take(i as int).push(x));
            neighbors@.take(i as int).lemma_filter_push(x, not_id(sender));
        }
        if x != sender {
            let mut p: usize = 0;
            while p < r.len() && r[p] <= x
                invariant
                    p <= r.len(),
                    forall|k: int| 0 <= k < p ==> r@[k] <= x,
                decreases r.len() - p,
            {
                p = p + 1;
            }
            let ghost r0 = r@;
            r.insert(p, x);
            proof {
                assert(r@ =~= r0.insert(p as int, x));
                vstd::seq_lib::to_multiset_insert(r0, p as int, x);
                let f = neighbors@.take(i as int).filter(not_id(sender));
                assert(not_id(sender)(x));
                assert(neighbors@.take(i + 1).filter(not_id(sender)) == f.push(x));
                vstd::seq_lib::to_multiset_build(f, x);
                assert forall|a: int, b: int| 0 <= a < b < r@.len() implies #[trigger] id_leq()(r@[a], r@[b]) by {
                    if b < p {
                        assert(r@[a] == r0[a] && r@[b] == r0[b]);
                    } else if b == p {
                        assert(r@[a] == r0[a]);
                    } else if a < p {
                        assert(r@[a] == r0[a] && r@[b] == r0[b - 1]);
                        if p < r0.len() {
                            assert(!(r0[p as int] <= x));
                            assert(id_leq()(r0[p as int], r0[b - 1]) || b - 1 == p);
                        }
                    } else if a == p {
                        assert(r@[b] == r0[b - 1]);
                        assert(!(r0[p as int] <= x));
                        assert(id_leq()(r0[p as int], r0[b - 1]) || b - 1 == p);
                    } else {
                        assert(r@[a] == r0[a - 1] && r@[b] == r0[b - 1]);
                        assert(id_leq()(r0[a - 1], r0[b - 1]));
                    }
                }
            }
        }
        i = i + 1;
    }
    proof {
        assert(neighbors@.take(neighbors.len() as int) =~= neighbors@);
    }
    r
}

/// The partners among the shuffled candidates: the first is the
/// conversation partner, the second (if any) the observed one; `None` for an
/// isolated sender.
pub fn partners(shuffled: &Vec<u64>) -> (r: Option<(u64, Option<u64>)>)
    ensures
        shuffled@.len() == 0 ==> r is None,
        shuffled@.len() == 1 ==> r == Some((shuffled@[0], None::<u64>)),
        shuffled@.len() >= 2 ==> r == Some((shuffled@[0], Some(shuffled@[1]))),
{
    if shuffled.len() == 0 {
        None
    } else if shuffled.len() == 1 {
        Some((shuffled[0], None))
    } else {
        Some((shuffled[0], Some(shuffled[1])))
    }
}

/// The spreading prompt of one interaction from `sender` to `receiver`.
pub fn spreading_prompt_for(world: &CrsecWorld, sender: u64, receiver: u64, is_observation: bool) -> (r:
    String)
    requires
        world.agents@.contains_key(sender),
        world.agents@.contains_key(receiver),
    ensures
        r@ == spreading_prompt_view(
            world.agents@[sender],
            world.agents@[receiver],
            qualified_of(world.norm_db@, sender),
            is_observation,
            SCENE@,
        ),
{
    let sp = world.agents.get(&sender).unwrap();
    let rp = world.agents.get(&receiver).unwrap();
    let qualified = world.qualified_norms(sender);
    let p = spreading_prompt(sp, rp, qualified.as_slice(), is_observation, SCENE);
    proof {
        assert(crate::prompts::derefs(qualified@) == qualified_of(world.norm_db@, sender));
    }
    p
}

/// Applies a spreading reply: records the interaction in the round's log and
/// returns whether a conflict was detected and the norm the receiver
/// identified.  A norm is identified only when the interaction happens (an
/// observation, or a conversation the sender decided to have).
pub fn record_interaction(
    world: &mut CrsecWorld,
    sender: u64,
    receiver: u64,
    is_observation: bool,
    reply: &str,
) -> (r: (bool, Option<(u64, PersonalNorm)>))
    ensures
        r.0 == yes_view(reply@, "CONFLICT"@),
        match r.1 {
            Some((id, n)) => id == receiver && (is_observation || yes_view(reply@, "TALK"@))
                && identified_from(reply@, n),
            None => !(is_observation || yes_view(reply@, "TALK"@)) || norm_content(reply@, "NORM"@)
                is None,
        },
        final(world).interactions@.len() == old(world).interactions@.len() + 1,
        final(world).interactions@.take(old(world).interactions@.len() as int) == old(
            world,
        ).interactions@,
        ({
            let e = final(world).interactions@.last();
            &&& e.sender == sender
            &&& e.receiver == receiver
            &&& e.is_observation == is_observation
            &&& e.conflict == r.0
            &&& match r.1 {
                Some((_, n)) => e.identified_content is Some && e.identified_content->0@
                    == n.content@,
                None => e.identified_content is None,
            }
        }),
        final(world).agents@ == old(world).agents@,
        final(world).norm_db@ == old(world).norm_db@,
        final(world).synth_threshold == old(world).synth_threshold,
{
    let conflict = yes(reply, "CONFLICT");
    let talk = is_observation || yes(reply, "TALK");
    let identified = if talk {
        match identified_norm(reply) {
            Some(n) => Some((receiver, n)),
            None => None,
        }
    } else {
        None
    };
    let content = match &identified {
        Some((_, n)) => Some(n.content.clone()),
        None => None,
    };
    let ghost i0 = world.interactions@;
    world.interactions.push(
        InteractionEvent { sender, receiver, is_observation, conflict, identified_content: content },
    );
    proof {
        assert(world.interactions@.take(i0.len() as int) =~= i0);
    }
    (conflict, identified)
}


/// Whether `ns` already holds a norm with the canonical key of `n`
/// (qualified or not).
pub open spec fn holds_same(ns: Seq<PersonalNorm>, n: PersonalNorm) -> bool {
    exists|i: int|
        0 <= i < ns.len() && canonical_key_view((#[trigger] ns[i]).content@) == canonical_key_view(
            n.content@,
        )
}

/// Agent `id`'s list in a database view (empty when it has none).
pub open spec fn list_of(db: Map<u64, Seq<PersonalNorm>>, id: u64) -> Seq<PersonalNorm> {
    if db.contains_key(id) {
        db[id]
    } else {
        Seq::empty()
    }
}

/// Delivering `n` to agent `id`: the agent gets a list (empty if it had
/// none), with `n` appended when `keep`.
pub open spec fn deliver(
    db: Map<u64, Seq<PersonalNorm>>,
    id: u64,
    n: PersonalNorm,
    keep: bool,
) -> Map<u64, Seq<PersonalNorm>> {
    let ns = list_of(db, id);
    db.insert(
        id,
        if keep {
            ns.push(n)
        } else {
            ns
        },
    )
}

/// Delivering the pending norms in order, the `i`-th kept when `keep[i]`.
pub open spec fn deliver_all(
    db: Map<u64, Seq<PersonalNorm>>,
    pending: Seq<(u64, PersonalNorm)>,
    keep: Seq<bool>,
) -> Map<u64, Seq<PersonalNorm>>
    decreases pending.len(),
{
    if pending.len() == 0 {
        db
    } else {
        let last = pending.last();
        deliver(
            deliver_all(db, pending.drop_last(), keep.drop_last()),
            last.0,
            last.1,
            keep.last(),
        )
    }
}

/// Rule-based adoption of `n` by agent `id`: appended unless the agent
/// already holds a norm with the same canonical key.
pub open spec fn adopt(db: Map<u64, Seq<PersonalNorm>>, id: u64, n: PersonalNorm) -> Map<
    u64,
    Seq<PersonalNorm>,
> {
    deliver(db, id, n, !holds_same(list_of(db, id), n))
}

/// Rule-based adoption of the pending norms, in order.
pub open spec fn adopt_all(db: Map<u64, Seq<PersonalNorm>>, pending: Seq<(u64, PersonalNorm)>) -> Map<
    u64,
    Seq<PersonalNorm>,
>
    decreases pending.len(),
{
    if pending.len() == 0 {
        db
    } else {
        adopt(adopt_all(db, pending.drop_last()), pending.last().0, pending.last().1)
    }
}

/// No two norms of `ns` share a canonical key.
pub open spec fn keys_distinct(ns: Seq<PersonalNorm>) -> bool {
    forall|i: int, j: int|
        0 <= i < j < ns.len() ==> canonical_key_view((#[trigger] ns[i]).content@)
            != canonical_key_view((#[trigger] ns[j]).content@)
}

/// One adoption only extends lists: each agent's list is kept, possibly with
/// `n` appended.
proof fn lemma_adopt_extends(db: Map<u64, Seq<PersonalNorm>>, id: u64, n: PersonalNorm, a: u64)
    ensures
        list_of(adopt(db, id, n), a) == list_of(db, a) || list_of(adopt(db, id, n), a) == list_of(
            db,
            a,
        ).push(n),
        adopt(db, id, n).contains_key(a) <==> db.contains_key(a) || a == id,
{
}

/// A norm held (by key) before an adoption is still held after it.
proof fn lemma_adopt_keeps_held(
    db: Map<u64, Seq<PersonalNorm>>,
    id: u64,
    n: PersonalNorm,
    a: u64,
    m: PersonalNorm,
)
    requires
        holds_same(list_of(db, a), m),
    ensures
        holds_same(list_of(adopt(db, id, n), a), m),
{
    lemma_adopt_extends(db, id, n, a);
    let ns = list_of(db, a);
    let q = choose|q: int|
        0 <= q < ns.len() && canonical_key_view((#[trigger] ns[q]).content@) == canonical_key_view(
            m.content@,
        );
    let ns2 = list_of(adopt(db, id, n), a);
    assert(ns2[q] == ns[q]);
}

/// Spreading delivers: after the round's identified norms are adopted (rule
/// mode), every receiver holds a norm with the canonical key of each norm
/// delivered to it.
pub proof fn law_adopted_norms_are_held(db: Map<u64, Seq<PersonalNorm>>, pending: Seq<(u64, PersonalNorm)>)
    ensures
        forall|i: int|
            0 <= i < pending.len() ==> holds_same(
                list_of(adopt_all(db, pending), (#[trigger] pending[i]).0),
                pending[i].1,
            ),
    decreases pending.len(),
{
    if pending.len() > 0 {
        let init = pending.drop_last();
        let (id, n) = pending.last();
        law_adopted_norms_are_held(db, init);
        let before = adopt_all(db, init);
        assert forall|i: int| 0 <= i < pending.len() implies holds_same(
            list_of(adopt_all(db, pending), (#[trigger] pending[i]).0),
            pending[i].1,
        ) by {
            if i < pending.len() - 1 {
                assert(pending[i] == init[i]);
                lemma_adopt_keeps_held(before, id, n, pending[i].0, pending[i].1);
            } else {
                let ns = list_of(before, id);
                if !holds_same(ns, n) {
                    let ns2 = ns.push(n);
                    assert(ns2[ns.len() as int] == n);
                    assert(list_of(adopt(before, id, n), id) == ns2);
                }
            }
        }
    }
}

/// Spreading never duplicates a norm: if no agent holds two norms with one
/// canonical key, none does after the round's norms are adopted (rule mode).
pub proof fn law_adoption_keeps_keys_distinct(
    db: Map<u64, Seq<PersonalNorm>>,
    pending: Seq<(u64, PersonalNorm)>,
)
    requires
        forall|a: u64| #[trigger] db.contains_key(a) ==> keys_distinct(db[a]),
    ensures
        forall|a: u64|
            #[trigger] adopt_all(db, pending).contains_key(a) ==> keys_distinct(
                adopt_all(db, pending)[a],
            ),
    decreases pending.len(),
{
    if pending.len() > 0 {
        let init = pending.drop_last();
        let (id, n) = pending.last();
        law_adoption_keeps_keys_distinct(db, init);
        let before = adopt_all(db, init);
        assert forall|a: u64| #[trigger] adopt(before, id, n).contains_key(a) implies keys_distinct(
            adopt(before, id, n)[a],
        ) by {
            let ns = list_of(before, a);
            assert(keys_distinct(ns));
            if a == id && !holds_same(ns, n) {
                let ns2 = ns.push(n);
                assert forall|i: int, j: int| 0 <= i < j < ns2.len() implies canonical_key_view(
                    (#[trigger] ns2[i]).content@,
                ) != canonical_key_view((#[trigger] ns2[j]).content@) by {
                    assert(ns2[i] == ns[i]);
                    if j < ns.len() {
                        assert(ns2[j] == ns[j]);
                    }
                }
            }
        }
    }
}

/// The descriptions of `ns`, in order.
pub open spec fn contents_of(ns: Seq<PersonalNorm>) -> Seq<Seq<char>> {
    ns.map_values(|n: PersonalNorm| n.content@)
}

/// A possible outcome of delivering `n` to a receiver holding `ns`, with
/// canonicalizer `c0` (`c1` afterwards): `canon` gives `n` a key `k`, then
/// gives the receiver's norms keys `ks` in order, stopping at the first equal
/// to `k`; `n` is kept exactly when none is.
pub open spec fn delivery_outcome<J: NormJudge>(
    c0: Canonicalizer<J>,
    ns: Seq<PersonalNorm>,
    n: PersonalNorm,
    keep: bool,
    c1: Canonicalizer<J>,
) -> bool {
    exists|k: Seq<char>, ks: Seq<Seq<char>>|
        #![trigger canon_run(c0, seq![n.content@] + contents_of(ns).take(ks.len() as int), seq![k] + ks, c1)]
        {
            &&& ks.len() <= ns.len()
            &&& canon_run(c0, seq![n.content@] + contents_of(ns).take(ks.len() as int), seq![k] + ks, c1)
            &&& forall|i: int| 0 <= i < ks.len() - 1 ==> ks[i] != k
            &&& keep <==> (ks.len() == ns.len() && forall|i: int| 0 <= i < ks.len() ==> ks[i] != k)
            &&& !keep ==> ks.len() > 0 && ks.last() == k
        }
}

/// A possible outcome of delivering the pending norms in order, the `i`-th
/// kept when `keep[i]`, with canonicalizer `c0` (`c1` afterwards).
pub open spec fn delivery_run<J: NormJudge>(
    c0: Canonicalizer<J>,
    db: Map<u64, Seq<PersonalNorm>>,
    pending: Seq<(u64, PersonalNorm)>,
    keep: Seq<bool>,
    c1: Canonicalizer<J>,
) -> bool
    decreases pending.len(),
{
    if pending.len() == 0 {
        keep.len() == 0 && c1 == c0
    } else {
        &&& keep.len() == pending.len()
        &&& exists|m: Canonicalizer<J>|
            delivery_run(c0, db, pending.drop_last(), keep.drop_last(), m)
                && #[trigger] delivery_outcome(
                m,
                list_of(deliver_all(db, pending.drop_last(), keep.drop_last()), pending.last().0),
                pending.last().1,
                keep.last(),
                c1,
            )
    }
}

/// A delivery run followed by one more delivery is a delivery run.
proof fn lemma_delivery_run_push<J: NormJudge>(
    c0: Canonicalizer<J>,
    db: Map<u64, Seq<PersonalNorm>>,
    pending: Seq<(u64, PersonalNorm)>,
    keep: Seq<bool>,
    m: Canonicalizer<J>,
    x: (u64, PersonalNorm),
    kx: bool,
    c1: Canonicalizer<J>,
)
    requires
        delivery_run(c0, db, pending, keep, m),
        delivery_outcome(m, list_of(deliver_all(db, pending, keep), x.0), x.1, kx, c1),
    ensures
        delivery_run(c0, db, pending.push(x), keep.push(kx), c1),
{
    assert(pending.push(x).drop_last() =~= pending);
    assert(keep.push(kx).drop_last() =~= keep);
    assert(keep.len() == pending.len());
    assert(pending.push(x).last() == x);
    assert(keep.push(kx).last() == kx);
    assert(delivery_run(c0, db, pending.push(x).drop_last(), keep.push(kx).drop_last(), m)
        && delivery_outcome(
        m,
        list_of(
            deliver_all(db, pending.push(x).drop_last(), keep.push(kx).drop_last()),
            pending.push(x).last().0,
        ),
        pending.push(x).last().1,
        keep.push(kx).last(),
        c1,
    ));
}

/// Delivers one identified norm to its receiver, unless the receiver already
/// holds a norm that `canon` buckets with it.
fn deliver_one<J: NormJudge>(
    world: &mut CrsecWorld,
    receiver: u64,
    norm: PersonalNorm,
    canon: &mut Canonicalizer<J>,
)
    requires
        old(canon).wf(),
        old(canon).judge_ready(),
    ensures
        final(canon).wf(),
        final(canon).judge_ready(),
        final(canon).mode_view() == old(canon).mode_view(),
        registry_extends(old(canon).registry_view(), final(canon).registry_view()),
        final(world).agents@ == old(world).agents@,
        final(world).interactions@ == old(world).interactions@,
        final(world).synth_threshold == old(world).synth_threshold,
        exists|keep: bool|
            #![trigger deliver(db_view(old(world).norm_db@), receiver, norm, keep)]
            db_view(final(world).norm_db@) == deliver(db_view(old(world).norm_db@), receiver, norm, keep)
                && (list_of(db_view(old(world).norm_db@), receiver).len() == 0 ==> keep)
                && delivery_outcome(
                *old(canon),
                list_of(db_view(old(world).norm_db@), receiver),
                norm,
                keep,
                *final(canon),
            ),
        old(canon).mode_view() == CanonicalMode::Deterministic ==> db_view(final(world).norm_db@)
            == adopt(db_view(old(world).norm_db@), receiver, norm),
{
    let ghost db0 = db_view(world.norm_db@);
    let ghost mode = canon.mode_view();
    let ghost c0 = *canon;
    let mut v = take_norms(world, receiver);
    proof {
        assert(v@ == list_of(db0, receiver));
    }
    let key = canon.canonicalize(norm.content.as_str());
    let ghost mut ks: Seq<Seq<char>> = Seq::empty();
    proof {
        lemma_canon_run_push(c0, Seq::empty(), Seq::empty(), c0, norm.content@, key@, *canon);
        assert(Seq::<Seq<char>>::empty().push(norm.content@) =~= seq![norm.content@] + contents_of(
            v@,
        ).take(0));
        assert(Seq::<Seq<char>>::empty().push(key@) =~= seq![key@] + ks);
    }
    let mut found = false;
    let mut j: usize = 0;
    while j < v.len() && !found
        invariant
            j <= v.len(),
            canon.wf(),
            canon.judge_ready(),
            canon.mode_view() == mode,
            registry_extends(old(canon).registry_view(), canon.registry_view()),
            mode == CanonicalMode::Deterministic ==> key@ == canonical_key_view(norm.content@),
            found ==> j > 0,
            c0 == *old(canon),
            ks.len() == j,
            canon_run(c0, seq![norm.content@] + contents_of(v@).take(j as int), seq![key@] + ks, *canon),
            !found ==> forall|i: int| 0 <= i < j ==> ks[i] != key@,
            found ==> ks[j - 1] == key@ && forall|i: int| 0 <= i < j - 1 ==> ks[i] != key@,
            mode == CanonicalMode::Deterministic ==> (found <==> exists|i: int|
                0 <= i < j && canonical_key_view((#[trigger] v@[i]).content@)
                    == canonical_key_view(norm.content@)),
        decreases v.len() - j,
    {
        let ghost regb = canon.registry_view();
        let ghost cb = *canon;
        let k = canon.canonicalize(v[j].content.as_str());
        proof {
            assert forall|i: int| 0 <= i < old(canon).registry_view().len() implies canon.registry_view()[i]
                == #[trigger] old(canon).registry_view()[i] by {
                assert(regb[i] == old(canon).registry_view()[i]);
            }
            lemma_canon_run_push(
                c0,
                seq![norm.content@] + contents_of(v@).take(j as int),
                seq![key@] + ks,
                cb,
                v@[j as int].content@,
                k@,
                *canon,
            );
            assert((seq![norm.content@] + contents_of(v@).take(j as int)).push(v@[j as int].content@)
                =~= seq![norm.content@] + contents_of(v@).take(j + 1));
            assert((seq![key@] + ks).push(k@) =~= seq![key@] + ks.push(k@));
            ks = ks.push(k@);
        }
        if k == key {
            found = true;
        }
        j = j + 1;
    }
    proof {
        if mode == CanonicalMode::Deterministic && !found {
            assert forall|i: int| 0 <= i < v@.len() implies canonical_key_view(
                (#[trigger] v@[i]).content@,
            ) != canonical_key_view(norm.content@) by {}
        }
    }
    let ghost keep = !found;
    if !found {
        v.push(norm);
    }
    let ghost nv = v@;
    set_norms(world, receiver, v);
    proof {
        assert(db_view(world.norm_db@) == deliver(db0, receiver, norm, keep));
        assert(list_of(db0, receiver).len() == 0 ==> keep);
        if found {
            assert(ks.last() == key@);
        } else {
            assert(ks.len() == list_of(db0, receiver).len());
        }
        assert(canon_run(c0, seq![norm.content@] + contents_of(list_of(db0, receiver)).take(ks.len() as int), seq![key@] + ks, *canon));
        assert(delivery_outcome(c0, list_of(db0, receiver), norm, keep, *canon));
    }
}

/// Delivers the norms identified during a round, in order, once every
/// interaction is done (so no identification of the round feeds another).
/// A receiver keeps a norm only if it holds no norm that `canon` buckets with
/// it (qualified or not); in rule mode that is exactly [`adopt_all`].
#[verifier::spinoff_prover]
#[verifier::rlimit(40)]
pub fn apply_pending<J: NormJudge>(
    world: &mut CrsecWorld,
    pending: Vec<(u64, PersonalNorm)>,
    canon: &mut Canonicalizer<J>,
)
    requires
        old(canon).wf(),
        old(canon).judge_ready(),
    ensures
        final(canon).wf(),
        final(canon).judge_ready(),
        final(canon).mode_view() == old(canon).mode_view(),
        registry_extends(old(canon).registry_view(), final(canon).registry_view()),
        final(world).agents@ == old(world).agents@,
        final(world).interactions@ == old(world).interactions@,
        final(world).synth_threshold == old(world).synth_threshold,
        exists|keep: Seq<bool>|
            #![trigger deliver_all(db_view(old(world).norm_db@), pending@, keep)]
            {
                &&& keep.len() == pending@.len()
                &&& db_view(final(world).norm_db@) == deliver_all(
                    db_view(old(world).norm_db@),
                    pending@,
                    keep,
                )
                &&& forall|i: int|
                    0 <= i < pending@.len() && list_of(
                        deliver_all(db_view(old(world).norm_db@), pending@.take(i), keep.take(i)),
                        (#[trigger] pending@[i]).0,
                    ).len() == 0 ==> keep[i]
                &&& delivery_run(*old(canon), db_view(old(world).norm_db@), pending@, keep, *final(canon))
            },
        old(canon).mode_view() == CanonicalMode::Deterministic ==> db_view(final(world).norm_db@)
            == adopt_all(db_view(old(world).norm_db@), pending@),
{
    let ghost db0 = db_view(world.norm_db@);
    let ghost mode = canon.mode_view();
    let ghost c0 = *canon;
    let ghost mut keep: Seq<bool> = Seq::empty();
    let mut i: usize = 0;
    proof {
        assert(pending@.take(0) =~= Seq::<(u64, PersonalNorm)>::empty());
    }
    while i < pending.len()
        invariant
            i <= pending.len(),
            canon.wf(),
            canon.judge_ready(),
            canon.mode_view() == mode,
            mode == old(canon).mode_view(),
            registry_extends(old(canon).registry_view(), canon.registry_view()),
            world.agents@ == old(world).agents@,
            world.interactions@ == old(world).interactions@,
            world.synth_threshold == old(world).synth_threshold,
            db0 == db_view(old(world).norm_db@),
            keep.len() == i,
            db_view(world.norm_db@) == deliver_all(db0, pending@.take(i as int), keep),
            forall|q: int|
                0 <= q < i && list_of(
                    deliver_all(db0, pending@.take(q), keep.take(q)),
                    (#[trigger] pending@[q]).0,
                ).len() == 0 ==> keep[q],
            c0 == *old(canon),
            delivery_run(c0, db0, pending@.take(i as int), keep, *canon),
            mode == CanonicalMode::Deterministic ==> db_view(world.norm_db@) == adopt_all(
                db0,
                pending@.take(i as int),
            ),
        decreases pending.len() - i,
    {
        let receiver = pending[i].0;
        let norm = pending[i].1.duplicate();
        let ghost dbb = db_view(world.norm_db@);
        let ghost regb = canon.registry_view();
        let ghost cb = *canon;
        deliver_one(world, receiver, norm, canon);
        proof {
            let k = choose|k: bool|
                #![trigger deliver(dbb, receiver, norm, k)]
                db_view(world.norm_db@) == deliver(dbb, receiver, norm, k) && (list_of(dbb, receiver).len()
                    == 0 ==> k) && delivery_outcome(cb, list_of(dbb, receiver), norm, k, *canon);
            lemma_delivery_run_push(
                c0,
                db0,
                pending@.take(i as int),
                keep,
                cb,
                pending@[i as int],
                k,
                *canon,
            );
            assert(pending@.take(i as int).push(pending@[i as int]) =~= pending@.take(i + 1));
            let t0 = pending@.take(i as int);
            let t1 = pending@.take(i + 1);
            assert(t1.drop_last() =~= t0);
            assert(t1.last() == pending@[i as int]);
            assert(keep.push(k).drop_last() =~= keep);
            let old_keep = keep;
            keep = keep.push(k);
            assert(keep.take(i as int) =~= old_keep);
            assert(pending@.take(i as int) =~= t0);
            assert forall|q: int|
                0 <= q < i + 1 && list_of(
                    deliver_all(db0, pending@.take(q), keep.take(q)),
                    (#[trigger] pending@[q]).0,
                ).len() == 0 implies keep[q] by {
                if q < i {
                    assert(keep.take(q) =~= old_keep.take(q));
                }
            }
            assert forall|q: int| 0 <= q < old(canon).registry_view().len() implies canon.registry_view()[q]
                == #[trigger] old(canon).registry_view()[q] by {
                assert(regb[q] == old(canon).registry_view()[q]);
            }
        }
        i = i + 1;
    }
    proof {
        assert(pending@.take(pending.len() as int) =~= pending@);
    }
}

// ------------------------------------------------------------------------
// Interaction: a whole round of contacts
// ------------------------------------------------------------------------

/// The log entry of the contact `c = (sender, receiver, is_observation)`
/// answered by `text`.
pub open spec fn event_of(e: InteractionEvent, c: (u64, u64, bool), text: Seq<char>) -> bool {
    let talk = c.2 || yes_view(text, "TALK"@);
    &&& e.sender == c.0
    &&& e.receiver == c.1
    &&& e.is_observation == c.2
    &&& e.conflict == yes_view(text, "CONFLICT"@)
    &&& match (if talk {
        norm_content(text, "NORM"@)
    } else {
        None
    }) {
        Some(k) => e.identified_content is Some && e.identified_content->0@ == k,
        None => e.identified_content is None,
    }
}

/// The number of replies that report a conflict.
pub open spec fn conflict_count(replies: Seq<Seq<char>>) -> nat
    decreases replies.len(),
{
    if replies.len() == 0 {
        0
    } else {
        conflict_count(replies.drop_last()) + if yes_view(replies.last(), "CONFLICT"@) {
            1nat
        } else {
            0nat
        }
    }
}

/// Whether a reply reports a conflict (`CONFLICT` answered yes).
pub open spec fn reports_conflict() -> spec_fn(Seq<char>) -> bool {
    |r: Seq<char>| yes_view(r, "CONFLICT"@)
}

/// The conflict count is the number of replies whose `CONFLICT` answer is
/// yes, whatever else they say (whether or not they identify a norm): a
/// reply reporting a conflict adds one to the count of the replies before
/// it, and any other reply adds nothing.
pub proof fn law_every_reported_conflict_counts(replies: Seq<Seq<char>>, r: Seq<char>)
    ensures
        conflict_count(replies) == replies.filter(reports_conflict()).len(),
        yes_view(r, "CONFLICT"@) ==> conflict_count(replies.push(r)) == conflict_count(replies) + 1,
        !yes_view(r, "CONFLICT"@) ==> conflict_count(replies.push(r)) == conflict_count(replies),
    decreases replies.len(),
{
    reveal(Seq::filter);
    if replies.len() > 0 {
        law_every_reported_conflict_counts(replies.drop_last(), r);
    }
    assert(replies.push(r).drop_last() =~= replies);
}

/// `p` lists, in order, the norms the receivers of the contacts `plan`
/// identify in the replies (see [`record_interaction`]).
pub open spec fn identified_in(
    plan: Seq<(u64, u64, bool)>,
    replies: Seq<Seq<char>>,
    p: Seq<(u64, PersonalNorm)>,
) -> bool
    decreases plan.len(),
{
    if plan.len() == 0 {
        p.len() == 0
    } else {
        let c = plan.last();
        let text = replies[plan.len() - 1];
        if (c.2 || yes_view(text, "TALK"@)) && norm_content(text, "NORM"@) is Some {
            &&& p.len() > 0
            &&& p.last().0 == c.1
            &&& identified_from(text, p.last().1)
            &&& identified_in(plan.drop_last(), replies.drop_last(), p.drop_last())
        } else {
            identified_in(plan.drop_last(), replies.drop_last(), p)
        }
    }
}

/// The contacts of `sender` with its shuffled partner candidates: a
/// conversation with the first, an observation of the second.
pub open spec fn contacts_view(sender: u64, shuffled: Seq<u64>) -> Seq<(u64, u64, bool)> {
    if shuffled.len() == 0 {
        seq![]
    } else if shuffled.len() == 1 {
        seq![(sender, shuffled[0], false)]
    } else {
        seq![(sender, shuffled[0], false), (sender, shuffled[1], true)]
    }
}

/// The contacts of a round: each sender of `order` in turn, with its
/// shuffled candidates.
pub open spec fn plan_view(order: Seq<u64>, shuffled: Seq<Seq<u64>>) -> Seq<(u64, u64, bool)>
    decreases order.len(),
{
    if order.len() == 0 {
        seq![]
    } else {
        plan_view(order.drop_last(), shuffled.drop_last()) + contacts_view(
            order.last(),
            shuffled.last(),
        )
    }
}

/// The round's contact plan: for each sender in activation order, a
/// conversation with its first shuffled candidate and an observation of its
/// second (a sender without candidates has none).
pub fn spreading_plan(order: &Vec<u64>, shuffled: &Vec<Vec<u64>>) -> (plan: Vec<(u64, u64, bool)>)
    requires
        order@.len() == shuffled@.len(),
    ensures
        plan@ == plan_view(order@, shuffled@.map_values(|v: Vec<u64>| v@)),
{
    let ghost sh = shuffled@.map_values(|v: Vec<u64>| v@);
    let mut plan: Vec<(u64, u64, bool)> = Vec::new();
    let mut i: usize = 0;
    proof {
        assert(order@.take(0) =~= Seq::<u64>::empty());
    }
    while i < order.len()
        invariant
            i <= order.len(),
            order@.len() == shuffled@.len(),
            sh == shuffled@.map_values(|v: Vec<u64>| v@),
            plan@ == plan_view(order@.take(i as int), sh.take(i as int)),
        decreases order.len() - i,
    {
        let ghost p0 = plan@;
        let s = order[i];
        let c = &shuffled[i];
        proof {
            assert(order@.take(i + 1).drop_last() =~= order@.take(i as int));
            assert(sh.take(i + 1).drop_last() =~= sh.take(i as int));
            assert(order@.take(i + 1).last() == s);
            assert(sh.take(i + 1).last() == c@);
        }
        if c.len() >= 1 {
            plan.push((s, c[0], false));
        }
        if c.len() >= 2 {
            plan.push((s, c[1], true));
        }
        proof {
            assert(plan@ =~= p0 + contacts_view(s, c@));
        }
        i = i + 1;
    }
    proof {
        assert(order@.take(order@.len() as int) =~= order@);
        assert(sh.take(sh.len() as int) =~= sh);
    }
    plan
}

/// The spreading prompts of a round's contacts `(sender, receiver,
/// is_observation)`, all made from the state at the start of the round.
pub fn spreading_prompts(world: &CrsecWorld, plan: &Vec<(u64, u64, bool)>) -> (r: Vec<String>)
    requires
        forall|i: int|
            0 <= i < plan@.len() ==> world.agents@.contains_key((#[trigger] plan@[i]).0)
                && world.agents@.contains_key(plan@[i].1),
    ensures
        r@.len() == plan@.len(),
        forall|i: int|
            0 <= i < plan@.len() ==> (#[trigger] r@[i])@ == spreading_prompt_view(
                world.agents@[plan@[i].0],
                world.agents@[plan@[i].1],
                qualified_of(world.norm_db@, plan@[i].0),
                plan@[i].2,
                SCENE@,
            ),
{
    let mut r: Vec<String> = Vec::new();
    let mut i: usize = 0;
    while i < plan.len()
        invariant
            i <= plan.len(),
            r@.len() == i,
            forall|q: int|
                0 <= q < plan@.len() ==> world.agents@.contains_key((#[trigger] plan@[q]).0)
                    && world.agents@.contains_key(plan@[q].1),
            forall|q: int|
                0 <= q < i ==> (#[trigger] r@[q])@ == spreading_prompt_view(
                    world.agents@[plan@[q].0],
                    world.agents@[plan@[q].1],
                    qualified_of(world.norm_db@, plan@[q].0),
                    plan@[q].2,
                    SCENE@,
                ),
        decreases plan.len() - i,
    {
        let (s, t, obs) = plan[i];
        proof {
            assert(world.agents@.contains_key(plan@[i as int].0));
        }
        r.push(spreading_prompt_for(world, s, t, obs));
        i = i + 1;
    }
    r
}

/// The Interaction phase's update from the replies to its contacts: every
/// contact is logged in order, the conflicts are counted, and only then are
/// the identified norms delivered (so no identification of the round feeds
/// another; in rule mode exactly [`adopt_all`]).  Returns the number of
/// conflicts.
pub fn spreading_round<J: NormJudge>(
    world: &mut CrsecWorld,
    plan: &Vec<(u64, u64, bool)>,
    replies: &Vec<String>,
    canon: &mut Canonicalizer<J>,
) -> (conflicts: usize)
    requires
        plan@.len() == replies@.len(),
        old(canon).wf(),
        old(canon).judge_ready(),
    ensures
        conflicts == conflict_count(strs_of(replies@)),
        final(world).interactions@.len() == old(world).interactions@.len() + plan@.len(),
        final(world).interactions@.take(old(world).interactions@.len() as int) == old(
            world,
        ).interactions@,
        forall|q: int|
            0 <= q < plan@.len() ==> event_of(
                #[trigger] final(world).interactions@[old(world).interactions@.len() + q],
                plan@[q],
                strs_of(replies@)[q],
            ),
        final(world).agents@ == old(world).agents@,
        final(world).synth_threshold == old(world).synth_threshold,
        final(canon).wf(),
        final(canon).judge_ready(),
        final(canon).mode_view() == old(canon).mode_view(),
        registry_extends(old(canon).registry_view(), final(canon).registry_view()),
        exists|p: Seq<(u64, PersonalNorm)>|
            #![trigger identified_in(plan@, strs_of(replies@), p)]
            {
                &&& identified_in(plan@, strs_of(replies@), p)
                &&& exists|keep: Seq<bool>|
                    keep.len() == p.len() && db_view(final(world).norm_db@) == #[trigger] deliver_all(
                        db_view(old(world).norm_db@),
                        p,
                        keep,
                    ) && delivery_run(*old(canon), db_view(old(world).norm_db@), p, keep, *final(canon))
                &&& old(canon).mode_view() == CanonicalMode::Deterministic ==> db_view(
                    final(world).norm_db@,
                ) == adopt_all(db_view(old(world).norm_db@), p)
            },
{
    let ghost log0 = world.interactions@;
    let ghost rs = strs_of(replies@);
    let mut conflicts: usize = 0;
    let mut pending: Vec<(u64, PersonalNorm)> = Vec::new();
    let mut i: usize = 0;
    proof {
        assert(plan@.take(0) =~= Seq::<(u64, u64, bool)>::empty());
        assert(rs.take(0) =~= Seq::<Seq<char>>::empty());
        assert(world.interactions@.take(log0.len() as int) =~= log0);
    }
    while i < plan.len()
        invariant
            i <= plan.len(),
            plan@.len() == replies@.len(),
            rs == strs_of(replies@),
            log0 == old(world).interactions@,
            world.agents@ == old(world).agents@,
            world.norm_db@ == old(world).norm_db@,
            world.synth_threshold == old(world).synth_threshold,
            *canon == *old(canon),
            conflicts <= i,
            conflicts == conflict_count(rs.take(i as int)),
            world.interactions@.len() == log0.len() + i,
            world.interactions@.take(log0.len() as int) == log0,
            forall|q: int|
                0 <= q < i ==> event_of(
                    #[trigger] world.interactions@[log0.len() + q],
                    plan@[q],
                    rs[q],
                ),
            identified_in(plan@.take(i as int), rs.take(i as int), pending@),
        decreases plan.len() - i,
    {
        let (s, t, obs) = plan[i];
        let ghost before = world.interactions@;
        let ghost p0 = pending@;
        let (c, id) = record_interaction(world, s, t, obs, replies[i].as_str());
        proof {
            assert(rs[i as int] == replies@[i as int]@);
            let e = world.interactions@.last();
            assert(world.interactions@[log0.len() + i] == e);
            assert forall|q: int| 0 <= q < i implies event_of(
                #[trigger] world.interactions@[log0.len() + q],
                plan@[q],
                rs[q],
            ) by {
                assert(world.interactions@[log0.len() + q] == before[log0.len() + q]);
            }
            assert(world.interactions@.take(log0.len() as int) =~= log0) by {
                assert forall|q: int| 0 <= q < log0.len() implies world.interactions@[q] == log0[q] by {
                    assert(world.interactions@[q] == before[q]);
                    assert(before.take(log0.len() as int)[q] == before[q]);
                }
            }
            assert(plan@.take(i + 1).drop_last() =~= plan@.take(i as int));
            assert(rs.take(i + 1).drop_last() =~= rs.take(i as int));
            assert(plan@.take(i + 1).last() == plan@[i as int]);
            assert(rs.take(i + 1).last() == rs[i as int]);
            assert(plan@.take(i + 1).len() - 1 == i);
            assert(rs.take(i + 1)[i as int] == rs[i as int]);
        }
        if c {
            conflicts = conflicts + 1;
        }
        match id {
            Some(x) => {
                pending.push(x);
                proof {
                    assert(pending@.drop_last() =~= p0);
                }
            },
            None => {},
        }
        i = i + 1;
    }
    proof {
        assert(plan@.take(plan@.len() as int) =~= plan@);
        assert(rs.take(rs.len() as int) =~= rs);
    }
    let ghost p = pending@;
    apply_pending(world, pending, canon);
    proof {
        assert(identified_in(plan@, strs_of(replies@), p));
    }
    conflicts
}

// ------------------------------------------------------------------------
// PostStep: evaluation
// ------------------------------------------------------------------------

/// The indices of agent `id`'s unqualified norms (the candidates to
/// evaluate), ascending.
pub fn candidate_indices(world: &CrsecWorld, id: u64) -> (r: Vec<usize>)
    ensures
        forall|k: int| 0 <= k < r@.len() ==> (#[trigger] r@[k]) < norms_of(world.norm_db@, id).len(),
        forall|k: int, l: int| 0 <= k < l < r@.len() ==> (#[trigger] r@[k]) < (#[trigger] r@[l]),
        forall|i: int|
            0 <= i < norms_of(world.norm_db@, id).len() ==> (!norms_of(
                world.norm_db@,
                id,
            )[i].is_qualified() <==> r@.contains(i as usize)),
{
    let mut r: Vec<usize> = Vec::new();
    match world.norm_db.get(&id) {
        Some(v) => {
            let mut i: usize = 0;
            while i < v.len()
                invariant
                    i <= v.len(),
                    v@ == norms_of(world.norm_db@, id),
                    forall|k: int| 0 <= k < r@.len() ==> (#[trigger] r@[k]) < i,
                    forall|k: int, l: int| 0 <= k < l < r@.len() ==> (#[trigger] r@[k]) < (#[trigger] r@[l]),
                    forall|j: int| 0 <= j < i ==> (!v@[j].is_qualified() <==> r@.contains(j as usize)),
                decreases v.len() - i,
            {
                let ghost r0 = r@;
                if !v[i].qualified() {
                    r.push(i);
                    proof {
                        assert(r@[r0.len() as int] == i);
                        assert forall|j: int| 0 <= j < i + 1 implies (!v@[j].is_qualified() <==> r@.contains(j as usize)) by {
                            if j < i {
                                if r0.contains(j as usize) {
                                    let k = choose|k: int| 0 <= k < r0.len() && r0[k] == j as usize;
                                    assert(r@[k] == j as usize);
                                }
                                if r@.contains(j as usize) {
                                    let k = choose|k: int| 0 <= k < r@.len() && r@[k] == j as usize;
                                    if k < r0.len() {
                                        assert(r0[k] == j as usize);
                                    }
                                }
                            }
                        }
                    }
                } else {
                    proof {
                        assert(!r@.contains(i as usize));
                    }
                }
                i = i + 1;
            }
        },
        None => {},
    }
    r
}

/// The evaluation prompt of agent `id`'s norm `ci` against its qualified
/// norms; `None` when the agent or the norm does not exist.
pub fn evaluation_prompt_for(world: &CrsecWorld, id: u64, ci: usize) -> (r: Option<String>)
    ensures
        match r {
            Some(p) => world.agents@.contains_key(id) && ci < norms_of(world.norm_db@, id).len()
                && p@ == evaluation_prompt_view(
                world.agents@[id],
                norms_of(world.norm_db@, id)[ci as int],
                qualified_of(world.norm_db@, id),
            ),
            None => !world.agents@.contains_key(id) || ci >= norms_of(world.norm_db@, id).len(),
        },
{
    let profile = match world.agents.get(&id) {
        Some(p) => p,
        None => return None,
    };
    let candidate = match world.norm_db.get(&id) {
        Some(v) => {
            if ci < v.len() {
                &v[ci]
            } else {
                return None;
            }
        },
        None => return None,
    };
    let existing = world.qualified_norms(id);
    let p = evaluation_prompt(profile, candidate, existing.as_slice());
    proof {
        assert(crate::prompts::derefs(existing@) == qualified_of(world.norm_db@, id));
    }
    Some(p)
}

/// `n` after passing evaluation: active and valid, all else unchanged.
pub open spec fn promoted(n: PersonalNorm) -> PersonalNorm {
    PersonalNorm { s_act: true, s_val: true, ..n }
}

/// Applies an evaluation reply: a promoted candidate becomes qualified; any
/// other reply changes nothing.
pub fn record_evaluation(world: &mut CrsecWorld, id: u64, ci: usize, reply: &str)
    ensures
        final(world).agents@ == old(world).agents@,
        final(world).interactions@ == old(world).interactions@,
        final(world).synth_threshold == old(world).synth_threshold,
        (promote_view(reply@) && ci < norms_of(old(world).norm_db@, id).len()) ==> db_view(
            final(world).norm_db@,
        ) == with_norms(
            db_view(old(world).norm_db@),
            id,
            norms_of(old(world).norm_db@, id).update(
                ci as int,
                promoted(norms_of(old(world).norm_db@, id)[ci as int]),
            ),
        ),
        !(promote_view(reply@) && ci < norms_of(old(world).norm_db@, id).len())
            ==> final(world).norm_db@ == old(world).norm_db@,
{
    if !promote_decision(reply) {
        return;
    }
    let in_range = match world.norm_db.get(&id) {
        Some(v) => ci < v.len(),
        None => false,
    };
    if !in_range {
        return;
    }
    let mut v = take_norms(world, id);
    let mut n = v.remove(ci);
    n.promote();
    v.insert(ci, n);
    let ghost nv = v@;
    set_norms(world, id, v);
    proof {
        let old_ns = norms_of(old(world).norm_db@, id);
        let target = old_ns.update(ci as int, promoted(old_ns[ci as int]));
        assert(nv =~= target);
    }
}


/// The summed utility of the qualified norms of `ns`.
pub open spec fn qualified_utility(ns: Seq<PersonalNorm>) -> int
    decreases ns.len(),
{
    if ns.len() == 0 {
        0
    } else {
        qualified_utility(ns.drop_last()) + if ns.last().is_qualified() {
            ns.last().utility as int
        } else {
            0
        }
    }
}

/// What one norm adds to the qualified utility.
pub open spec fn counted_utility(n: PersonalNorm) -> int {
    if n.is_qualified() {
        n.utility as int
    } else {
        0
    }
}

/// Replacing one norm changes the qualified utility by what the new norm
/// counts less what the old one counted.
proof fn lemma_qualified_utility_update(ns: Seq<PersonalNorm>, i: int, n: PersonalNorm)
    requires
        0 <= i < ns.len(),
    ensures
        qualified_utility(ns.update(i, n)) == qualified_utility(ns) - counted_utility(ns[i])
            + counted_utility(n),
    decreases ns.len(),
{
    let u = ns.update(i, n);
    if i == ns.len() - 1 {
        assert(u.drop_last() =~= ns.drop_last());
    } else {
        assert(u.drop_last() =~= ns.drop_last().update(i, n));
        lemma_qualified_utility_update(ns.drop_last(), i, n);
    }
}

/// Only qualified norms weigh on synthesis: a norm list without a qualified
/// norm has no qualified utility, and swapping one unqualified norm for
/// another (of any utility) changes neither the qualified utility nor
/// whether synthesis is due, for every threshold.
pub proof fn law_unqualified_norms_never_count(ns: Seq<PersonalNorm>, i: int, n: PersonalNorm, theta: i64)
    requires
        0 <= i < ns.len(),
        !ns[i].is_qualified(),
        !n.is_qualified(),
    ensures
        qualified_utility(ns.update(i, n)) == qualified_utility(ns),
        synthesis_due(ns.update(i, n), theta) == synthesis_due(ns, theta),
        (forall|k: int| 0 <= k < ns.len() ==> !(#[trigger] ns[k]).is_qualified()) ==> qualified_utility(
            ns,
        ) == 0,
{
    lemma_qualified_utility_update(ns, i, n);
    let u = ns.update(i, n);
    if synthesis_due(ns, theta) {
        let (a, b) = choose|a: int, b: int|
            0 <= a < ns.len() && 0 <= b < ns.len() && a != b && (#[trigger] ns[a]).is_qualified()
                && (#[trigger] ns[b]).is_qualified();
        assert(u[a] == ns[a] && u[b] == ns[b]);
    }
    if synthesis_due(u, theta) {
        let (a, b) = choose|a: int, b: int|
            0 <= a < u.len() && 0 <= b < u.len() && a != b && (#[trigger] u[a]).is_qualified()
                && (#[trigger] u[b]).is_qualified();
        assert(u[a] == ns[a] && u[b] == ns[b]);
    }
    if forall|k: int| 0 <= k < ns.len() ==> !(#[trigger] ns[k]).is_qualified() {
        lemma_no_qualified_no_utility(ns);
    }
}

/// A list without a qualified norm has no qualified utility.
proof fn lemma_no_qualified_no_utility(ns: Seq<PersonalNorm>)
    requires
        forall|k: int| 0 <= k < ns.len() ==> !(#[trigger] ns[k]).is_qualified(),
    ensures
        qualified_utility(ns) == 0,
    decreases ns.len(),
{
    if ns.len() > 0 {
        let t = ns.drop_last();
        assert forall|k: int| 0 <= k < t.len() implies !(#[trigger] t[k]).is_qualified() by {
            assert(t[k] == ns[k]);
        }
        lemma_no_qualified_no_utility(t);
        assert(!ns[ns.len() - 1].is_qualified());
    }
}

/// Norm `i` ranks before norm `j`: a higher utility, or the same utility
/// and an earlier place.
pub open spec fn ranks_before(ns: Seq<PersonalNorm>, i: int, j: int) -> bool {
    ns[i].utility > ns[j].utility || (ns[i].utility == ns[j].utility && i < j)
}

/// Among the first `n` norms, `i0` is the qualified norm that ranks first.
pub open spec fn ranks_first(ns: Seq<PersonalNorm>, n: int, i0: int) -> bool {
    &&& 0 <= i0 < n
    &&& ns[i0].is_qualified()
    &&& forall|j: int|
        0 <= j < n && j != i0 && (#[trigger] ns[j]).is_qualified() ==> ranks_before(ns, i0, j)
}

/// Among the first `n` norms, `i1` is the qualified norm that ranks next
/// after `i0`.
pub open spec fn ranks_second(ns: Seq<PersonalNorm>, n: int, i0: int, i1: int) -> bool {
    &&& 0 <= i1 < n
    &&& i1 != i0
    &&& ns[i1].is_qualified()
    &&& forall|j: int|
        0 <= j < n && j != i0 && j != i1 && (#[trigger] ns[j]).is_qualified() ==> ranks_before(
            ns,
            i1,
            j,
        )
}

/// Long-term synthesis is due: the qualified norms' summed utility exceeds
/// θ and there are at least two of them.
pub open spec fn synthesis_due(ns: Seq<PersonalNorm>, theta: i64) -> bool {
    &&& qualified_utility(ns) > theta
    &&& exists|a: int, b: int|
        0 <= a < ns.len() && 0 <= b < ns.len() && a != b && (#[trigger] ns[a]).is_qualified()
            && (#[trigger] ns[b]).is_qualified()
}

/// Some norm of `ns` is qualified exactly when its qualified norms are not
/// none.
proof fn lemma_some_qualified(ns: Seq<PersonalNorm>)
    ensures
        (exists|a: int| 0 <= a < ns.len() && (#[trigger] ns[a]).is_qualified()) <==> ns.filter(
            qualified_pred(),
        ).len() >= 1,
    decreases ns.len(),
{
    reveal(Seq::filter);
    if ns.len() > 0 {
        let t = ns.drop_last();
        lemma_some_qualified(t);
        if exists|a: int| 0 <= a < t.len() && (#[trigger] t[a]).is_qualified() {
            let a = choose|a: int| 0 <= a < t.len() && (#[trigger] t[a]).is_qualified();
            assert(ns[a] == t[a]);
        }
        if exists|a: int| 0 <= a < ns.len() && (#[trigger] ns[a]).is_qualified() {
            let a = choose|a: int| 0 <= a < ns.len() && (#[trigger] ns[a]).is_qualified();
            if a < ns.len() - 1 {
                assert(t[a] == ns[a]);
            }
        }
    }
}

/// Two distinct norms of `ns` are qualified exactly when it has at least two
/// qualified norms.
proof fn lemma_two_qualified(ns: Seq<PersonalNorm>)
    ensures
        (exists|a: int, b: int|
            0 <= a < ns.len() && 0 <= b < ns.len() && a != b && (#[trigger] ns[a]).is_qualified()
                && (#[trigger] ns[b]).is_qualified()) <==> ns.filter(qualified_pred()).len() >= 2,
    decreases ns.len(),
{
    reveal(Seq::filter);
    if ns.len() > 0 {
        let t = ns.drop_last();
        let l = ns.len() - 1;
        lemma_two_qualified(t);
        lemma_some_qualified(t);
        if exists|a: int, b: int|
            0 <= a < t.len() && 0 <= b < t.len() && a != b && (#[trigger] t[a]).is_qualified()
                && (#[trigger] t[b]).is_qualified() {
            let (a, b) = choose|a: int, b: int|
                0 <= a < t.len() && 0 <= b < t.len() && a != b && (#[trigger] t[a]).is_qualified()
                    && (#[trigger] t[b]).is_qualified();
            assert(ns[a] == t[a] && ns[b] == t[b]);
        }
        if ns[l].is_qualified() && exists|a: int| 0 <= a < t.len() && (#[trigger] t[a]).is_qualified() {
            let a = choose|a: int| 0 <= a < t.len() && (#[trigger] t[a]).is_qualified();
            assert(ns[a] == t[a]);
            assert(ns[a].is_qualified() && ns[l].is_qualified() && a != l);
        }
        if exists|a: int, b: int|
            0 <= a < ns.len() && 0 <= b < ns.len() && a != b && (#[trigger] ns[a]).is_qualified()
                && (#[trigger] ns[b]).is_qualified() {
            let (a, b) = choose|a: int, b: int|
                0 <= a < ns.len() && 0 <= b < ns.len() && a != b && (#[trigger] ns[a]).is_qualified()
                    && (#[trigger] ns[b]).is_qualified();
            if a < l && b < l {
                assert(t[a] == ns[a] && t[b] == ns[b]);
            } else if a < l {
                assert(t[a] == ns[a]);
            } else {
                assert(t[b] == ns[b]);
            }
        }
    }
}

/// When synthesis is due: exactly when the agent holds at least two
/// qualified norms and their utilities (those of the qualified norms only)
/// sum to more than θ.
pub proof fn law_synthesis_due_exactly(ns: Seq<PersonalNorm>, theta: i64)
    ensures
        synthesis_due(ns, theta) <==> (ns.filter(qualified_pred()).len() >= 2 && qualified_utility(ns)
            > theta),
        ns.filter(qualified_pred()).len() < 2 ==> !synthesis_due(ns, theta),
        qualified_utility(ns) <= theta ==> !synthesis_due(ns, theta),
{
    lemma_two_qualified(ns);
}

/// Synthesis combines the two most useful qualified norms: two distinct
/// qualified norms, the first at least as useful as the second (and earlier
/// on a tie), and every other qualified norm at most as useful as the
/// second (and later on a tie).
pub proof fn law_synthesis_takes_the_two_most_useful(ns: Seq<PersonalNorm>, i0: int, i1: int)
    requires
        ranks_first(ns, ns.len() as int, i0),
        ranks_second(ns, ns.len() as int, i0, i1),
    ensures
        i0 != i1,
        ns[i0].is_qualified() && ns[i1].is_qualified(),
        ns[i1].utility <= ns[i0].utility,
        ns[i1].utility == ns[i0].utility ==> i0 < i1,
        forall|k: int|
            0 <= k < ns.len() && k != i0 && k != i1 && (#[trigger] ns[k]).is_qualified() ==> ns[k].utility
                <= ns[i1].utility && (ns[k].utility == ns[i1].utility ==> i1 < k),
{
    assert(ranks_before(ns, i0, i1));
}

/// `n` absorbed into an abstract norm: inactive, all else unchanged.
pub open spec fn deactivated(n: PersonalNorm) -> PersonalNorm {
    PersonalNorm { s_act: false, ..n }
}

/// The description of the abstract norm of two norms.
pub open spec fn abstract_content(c0: Seq<char>, c1: Seq<char>) -> Seq<char> {
    "In general, "@ + trim_end_matches(c0, '.') + " and "@ + trim_end_matches(c1, '.')
}

/// The utility of the abstract norm of two norms: their mean, at most 100.
pub open spec fn abstract_utility(u0: u8, u1: u8) -> u8 {
    if (u0 + u1) / 2 > 100 {
        100
    } else {
        ((u0 + u1) / 2) as u8
    }
}

/// Some norm of `ns` (qualified or not) has canonical key `k`.
pub open spec fn holds_key_of(ns: Seq<PersonalNorm>, k: Seq<char>) -> bool {
    exists|i: int| 0 <= i < ns.len() && canonical_key_view((#[trigger] ns[i]).content@) == k
}

/// `r` is `ns` after synthesising norms `i0` and `i1`: both are deactivated,
/// and their abstract norm (qualified, of the type of `i0`) is appended
/// unless a norm with its canonical key is already there.
pub open spec fn synthesis_result(ns: Seq<PersonalNorm>, i0: int, i1: int, r: Seq<PersonalNorm>) -> bool {
    let d = ns.update(i0, deactivated(ns[i0])).update(i1, deactivated(ns[i1]));
    let c = abstract_content(ns[i0].content@, ns[i1].content@);
    if holds_key_of(d, canonical_key_view(c)) {
        r == d
    } else {
        &&& r.len() == d.len() + 1
        &&& r.drop_last() == d
        &&& r.last().content@ == c
        &&& r.last().utility == clamp_utility(abstract_utility(ns[i0].utility, ns[i1].utility))
        &&& r.last().alpha == ns[i0].alpha
        &&& r.last().s_act
        &&& r.last().s_val
    }
}

/// Synthesis never duplicates a norm: if no two norms of an agent share a
/// canonical key, none do after two of them are synthesised.
pub proof fn law_synthesis_keeps_keys_distinct(ns: Seq<PersonalNorm>, i0: int, i1: int, r: Seq<PersonalNorm>)
    requires
        keys_distinct(ns),
        0 <= i0 < ns.len(),
        0 <= i1 < ns.len(),
        synthesis_result(ns, i0, i1, r),
    ensures
        keys_distinct(r),
{
    let d = ns.update(i0, deactivated(ns[i0])).update(i1, deactivated(ns[i1]));
    let c = abstract_content(ns[i0].content@, ns[i1].content@);
    if !holds_key_of(d, canonical_key_view(c)) {
        assert forall|i: int, j: int| 0 <= i < j < r.len() implies canonical_key_view(
            (#[trigger] r[i]).content@,
        ) != canonical_key_view((#[trigger] r[j]).content@) by {
            assert(r[i] == r.drop_last()[i]);
            if j < d.len() {
                assert(r[j] == r.drop_last()[j]);
                assert(d[i].content == ns[i].content && d[j].content == ns[j].content);
            } else {
                assert(r[j] == r.last());
            }
        }
    } else {
        assert forall|i: int, j: int| 0 <= i < j < r.len() implies canonical_key_view(
            (#[trigger] r[i]).content@,
        ) != canonical_key_view((#[trigger] r[j]).content@) by {
            assert(d[i].content == ns[i].content && d[j].content == ns[j].content);
        }
    }
}

/// Synthesis absorbs its sources: afterwards neither of the two synthesised
/// norms is qualified, every other norm is as it was, and the appended
/// abstract norm (if any) is qualified.
pub proof fn law_synthesis_retires_sources(ns: Seq<PersonalNorm>, i0: int, i1: int, r: Seq<PersonalNorm>)
    requires
        0 <= i0 < ns.len(),
        0 <= i1 < ns.len(),
        i0 != i1,
        synthesis_result(ns, i0, i1, r),
    ensures
        !r[i0].is_qualified(),
        !r[i1].is_qualified(),
        forall|i: int| 0 <= i < ns.len() && i != i0 && i != i1 ==> #[trigger] r[i] == ns[i],
        r.len() > ns.len() ==> r.last().is_qualified(),
{
    let d = ns.update(i0, deactivated(ns[i0])).update(i1, deactivated(ns[i1]));
    let c = abstract_content(ns[i0].content@, ns[i1].content@);
    if !holds_key_of(d, canonical_key_view(c)) {
        assert(r[i0] == r.drop_last()[i0]);
        assert(r[i1] == r.drop_last()[i1]);
        assert forall|i: int| 0 <= i < ns.len() && i != i0 && i != i1 implies #[trigger] r[i] == ns[i] by {
            assert(r[i] == r.drop_last()[i]);
        }
    }
}

/// The two qualified norms of `ns` that rank first (by utility, then by
/// place), when `ns` has at least two qualified norms, and the summed utility
/// of its qualified norms.
fn top_two(ns: &Vec<PersonalNorm>) -> (r: (Option<(usize, usize)>, u128))
    ensures
        r.1 == qualified_utility(ns@),
        match r.0 {
            Some((i0, i1)) => ranks_first(ns@, ns@.len() as int, i0 as int) && ranks_second(
                ns@,
                ns@.len() as int,
                i0 as int,
                i1 as int,
            ),
            None => !exists|a: int, b: int|
                0 <= a < ns@.len() && 0 <= b < ns@.len() && a != b && (#[trigger] ns@[a]).is_qualified()
                    && (#[trigger] ns@[b]).is_qualified(),
        },
{
    let mut total: u128 = 0;
    let mut best0: Option<usize> = None;
    let mut best1: Option<usize> = None;
    let mut j: usize = 0;
    proof {
        assert(ns@.take(0) =~= Seq::<PersonalNorm>::empty());
    }
    while j < ns.len()
        invariant
            j <= ns.len(),
            total == qualified_utility(ns@.take(j as int)),
            total <= 255 * j,
            best0 is None ==> forall|i: int| 0 <= i < j ==> !(#[trigger] ns@[i]).is_qualified(),
            best1 is None ==> forall|i: int|
                0 <= i < j && (#[trigger] ns@[i]).is_qualified() ==> best0 == Some(i as usize),
            match best0 {
                Some(b0) => ranks_first(ns@, j as int, b0 as int),
                None => best1 is None,
            },
            match best1 {
                Some(b1) => best0 is Some && ranks_second(ns@, j as int, best0->0 as int, b1 as int),
                None => true,
            },
        decreases ns.len() - j,
    {
        proof {
            assert(ns@.take(j + 1).drop_last() =~= ns@.take(j as int));
            assert(ns@.take(j + 1).last() == ns@[j as int]);
        }
        if ns[j].qualified() {
            let u = ns[j].utility;
            total = total + u as u128;
            match best0 {
                None => {
                    best0 = Some(j);
                },
                Some(b0) => {
                    if u > ns[b0].utility {
                        best1 = Some(b0);
                        best0 = Some(j);
                    } else {
                        match best1 {
                            None => {
                                best1 = Some(j);
                            },
                            Some(b1) => {
                                if u > ns[b1].utility {
                                    best1 = Some(j);
                                }
                            },
                        }
                    }
                },
            }
        }
        j = j + 1;
    }
    proof {
        assert(ns@.take(ns.len() as int) =~= ns@);
    }
    match (best0, best1) {
        (Some(b0), Some(b1)) => (Some((b0, b1)), total),
        _ => (None, total),
    }
}

/// Long-term synthesis for agent `id` (`PostStep`, after evaluation): when
/// the summed utility of its qualified norms exceeds θ and it has at least
/// two, the two that rank first are deactivated and absorbed into one
/// abstract, qualified norm (unless a norm with that norm's canonical key is
/// already held).  Nothing changes otherwise.
pub fn maybe_synthesize(world: &mut CrsecWorld, id: u64)
    ensures
        final(world).agents@ == old(world).agents@,
        final(world).interactions@ == old(world).interactions@,
        final(world).synth_threshold == old(world).synth_threshold,
        !synthesis_due(norms_of(old(world).norm_db@, id), old(world).synth_threshold)
            ==> final(world).norm_db@ == old(world).norm_db@,
        synthesis_due(norms_of(old(world).norm_db@, id), old(world).synth_threshold) ==> exists|
            i0: int,
            i1: int,
            r: Seq<PersonalNorm>,
        |
            #![trigger synthesis_result(norms_of(old(world).norm_db@, id), i0, i1, r)]
            {
                &&& ranks_first(
                    norms_of(old(world).norm_db@, id),
                    norms_of(old(world).norm_db@, id).len() as int,
                    i0,
                )
                &&& ranks_second(
                    norms_of(old(world).norm_db@, id),
                    norms_of(old(world).norm_db@, id).len() as int,
                    i0,
                    i1,
                )
                &&& synthesis_result(norms_of(old(world).norm_db@, id), i0, i1, r)
                &&& db_view(final(world).norm_db@) == with_norms(db_view(old(world).norm_db@), id, r)
            },
{
    let ghost ns = norms_of(world.norm_db@, id);
    let theta = world.synth_threshold;
    let (top, total) = match world.norm_db.get(&id) {
        Some(v) => top_two(v),
        None => {
            proof {
                assert(ns.len() == 0);
            }
            return;
        },
    };
    let over = if theta < 0 {
        true
    } else {
        total > theta as u128
    };
    let (i0, i1) = match top {
        Some(p) => p,
        None => {
            return;
        },
    };
    if !over {
        return;
    }
    let mut v = take_norms(world, id);
    let b0 = trim_end_len(&chars_of(v[i0].content.as_str()), '.');
    let c0 = string_of(&chars_of(v[i0].content.as_str()), 0, b0);
    let b1 = trim_end_len(&chars_of(v[i1].content.as_str()), '.');
    let c1 = string_of(&chars_of(v[i1].content.as_str()), 0, b1);
    let mut a = String::new();
    push_str(&mut a, "In general, ");
    push_str(&mut a, c0.as_str());
    push_str(&mut a, " and ");
    push_str(&mut a, c1.as_str());
    let u0 = v[i0].utility;
    let u1 = v[i1].utility;
    let t0 = v[i0].alpha;
    let m: u16 = (u0 as u16 + u1 as u16) / 2;
    let au: u8 = if m > 100 {
        100
    } else {
        m as u8
    };
    let mut n0 = v[i0].duplicate();
    n0.deactivate();
    v[i0] = n0;
    let mut n1 = v[i1].duplicate();
    n1.deactivate();
    v[i1] = n1;
    let ghost d = v@;
    proof {
        assert(d =~= ns.update(i0 as int, deactivated(ns[i0 as int])).update(
            i1 as int,
            deactivated(ns[i1 as int]),
        ));
        assert(a@ =~= abstract_content(ns[i0 as int].content@, ns[i1 as int].content@));
    }
    let key = canonical_key(a.as_str());
    let mut found = false;
    let mut j: usize = 0;
    while j < v.len() && !found
        invariant
            j <= v.len(),
            v@ == d,
            key@ == canonical_key_view(a@),
            found <==> exists|q: int|
                0 <= q < j && canonical_key_view((#[trigger] d[q]).content@) == key@,
        decreases v.len() - j,
    {
        let k = canonical_key(v[j].content.as_str());
        if k == key {
            found = true;
        }
        j = j + 1;
    }
    if !found {
        let n = PersonalNorm::created(a.as_str(), au, t0);
        v.push(n);
    }
    let ghost r = v@;
    proof {
        assert(synthesis_result(ns, i0 as int, i1 as int, r)) by {
            if found {
                assert(holds_key_of(d, canonical_key_view(a@)));
            } else {
                assert(!holds_key_of(d, canonical_key_view(a@)));
                assert(r.drop_last() =~= d);
            }
        }
    }
    set_norms(world, id, v);
}

// ------------------------------------------------------------------------
// PostStep: convergence
// ------------------------------------------------------------------------

/// The convergence history after observing `current`: the last `window`
/// observations.
pub open spec fn next_history(
    history: Seq<Seq<Seq<char>>>,
    current: Seq<Seq<char>>,
    window: nat,
) -> Seq<Seq<Seq<char>>> {
    let h = history.push(current);
    if h.len() > window {
        h.drop_first()
    } else {
        h
    }
}

/// Stable: `window` observations kept, all equal to a non-empty `current`.
pub open spec fn stable_view(
    history: Seq<Seq<Seq<char>>>,
    current: Seq<Seq<char>>,
    window: nat,
) -> bool {
    history.len() >= window && current.len() > 0 && forall|i: int|
        0 <= i < history.len() ==> #[trigger] history[i] == current
}

/// `k` rounds in a row observing `c`, from history `h`.
pub open spec fn observe_repeat(
    h: Seq<Seq<Seq<char>>>,
    c: Seq<Seq<char>>,
    window: nat,
    k: nat,
) -> Seq<Seq<Seq<char>>>
    decreases k,
{
    if k == 0 {
        h
    } else {
        next_history(observe_repeat(h, c, window, (k - 1) as nat), c, window)
    }
}

/// The history never holds more than `window` observations.
pub proof fn law_history_bounded(h: Seq<Seq<Seq<char>>>, c: Seq<Seq<char>>, window: nat)
    requires
        window >= 1,
        h.len() <= window,
    ensures
        next_history(h, c, window).len() <= window,
{
}

/// After `k <= window` observations of `c`, the history holds
/// `min(|h| + k, window)` observations, the last `k` of them `c`.
proof fn lemma_observe_repeat(h: Seq<Seq<Seq<char>>>, c: Seq<Seq<char>>, window: nat, k: nat)
    requires
        window >= 1,
        h.len() <= window,
        k <= window,
    ensures
        observe_repeat(h, c, window, k).len() == if h.len() + k < window {
            h.len() + k
        } else {
            window
        },
        forall|i: int|
            observe_repeat(h, c, window, k).len() - k <= i < observe_repeat(h, c, window, k).len()
                ==> #[trigger] observe_repeat(h, c, window, k)[i] == c,
    decreases k,
{
    if k > 0 {
        let k1 = (k - 1) as nat;
        lemma_observe_repeat(h, c, window, k1);
        let o = observe_repeat(h, c, window, k1);
        let p = o.push(c);
        let o2 = observe_repeat(h, c, window, k);
        assert(o2 == next_history(o, c, window));
        if p.len() > window {
            assert(o2 == p.drop_first());
            assert forall|i: int| o2.len() - k <= i < o2.len() implies #[trigger] o2[i] == c by {
                assert(o2[i] == p[i + 1]);
                if i + 1 < o.len() {
                    assert(p[i + 1] == o[i + 1]);
                }
            }
        } else {
            assert(o2 == p);
            assert forall|i: int| o2.len() - k <= i < o2.len() implies #[trigger] o2[i] == c by {
                if i < o.len() {
                    assert(p[i] == o[i]);
                }
            }
        }
    }
}

/// Convergence: once the same non-empty qualified set has been observed
/// `window` rounds in a row the run is stable, whatever was observed before.
pub proof fn law_stable_after_window(h: Seq<Seq<Seq<char>>>, c: Seq<Seq<char>>, window: nat)
    requires
        window >= 1,
        h.len() <= window,
        c.len() > 0,
    ensures
        stable_view(observe_repeat(h, c, window, window), c, window),
{
    lemma_observe_repeat(h, c, window, window);
}

/// Convergence needs a full window: within the first `window - 1` rounds of
/// a run (empty history) the run is never stable.
pub proof fn law_not_stable_before_window(c: Seq<Seq<char>>, window: nat, k: nat)
    requires
        window >= 1,
        k < window,
    ensures
        !stable_view(observe_repeat(Seq::empty(), c, window, k), c, window),
{
    lemma_observe_repeat(Seq::empty(), c, window, k);
}

/// The history after observing the sets `ss` in order, starting empty (a
/// fresh mechanism, see [`ConvergenceMechanism::new`]).
pub open spec fn history_of(ss: Seq<Seq<Seq<char>>>, window: nat) -> Seq<Seq<Seq<char>>>
    decreases ss.len(),
{
    if ss.len() == 0 {
        seq![]
    } else {
        next_history(history_of(ss.drop_last(), window), ss.last(), window)
    }
}

/// The history holds the last `window` observations.
proof fn lemma_history_of(ss: Seq<Seq<Seq<char>>>, window: nat)
    requires
        window >= 1,
    ensures
        history_of(ss, window) == ss.subrange(
            if ss.len() > window {
                ss.len() - window
            } else {
                0
            },
            ss.len() as int,
        ),
    decreases ss.len(),
{
    if ss.len() > 0 {
        let t = ss.drop_last();
        lemma_history_of(t, window);
        let lo: int = if t.len() > window {
            t.len() - window
        } else {
            0
        };
        let p = t.subrange(lo, t.len() as int).push(ss.last());
        assert(p =~= ss.subrange(lo, ss.len() as int));
        if p.len() > window {
            assert(p.drop_first() =~= ss.subrange(ss.len() - window, ss.len() as int));
        }
    } else {
        assert(ss.subrange(0, 0) =~= Seq::<Seq<Seq<char>>>::empty());
    }
}

/// Convergence over a whole run: after a fresh mechanism with window `W`
/// has observed the sets `S_1, …, S_k`, the run is stable exactly when
/// `k ≥ W`, `S_k` is non-empty and the last `W` sets all equal `S_k`.
pub proof fn law_convergence_over_a_run(ss: Seq<Seq<Seq<char>>>, window: nat)
    requires
        window >= 1,
        ss.len() > 0,
    ensures
        stable_view(history_of(ss, window), ss.last(), window) <==> (ss.len() >= window
            && ss.last().len() > 0 && forall|i: int|
            ss.len() - window <= i < ss.len() ==> #[trigger] ss[i] == ss.last()),
{
    lemma_history_of(ss, window);
    let h = history_of(ss, window);
    if ss.len() >= window && ss.last().len() > 0 && (forall|i: int|
        ss.len() - window <= i < ss.len() ==> #[trigger] ss[i] == ss.last()) {
        assert forall|i: int| 0 <= i < h.len() implies #[trigger] h[i] == ss.last() by {
            assert(h[i] == ss[ss.len() - window + i]);
        }
    }
    if stable_view(h, ss.last(), window) {
        assert forall|i: int| ss.len() - window <= i < ss.len() implies #[trigger] ss[i] == ss.last() by {
            assert(h[i - (ss.len() - window)] == ss[i]);
        }
    }
}

/// The society's qualified canonical keys, strictly sorted.
pub open spec fn canonical_list(m: Map<u64, Vec<PersonalNorm>>) -> Seq<Seq<char>> {
    choose|r: Seq<Seq<char>>| strictly_sorted(r) && r.to_set() == db_keys(m)
}

/// Stops the run once the society's qualified canonical norm set has stayed
/// the same for `window` rounds (`PostStep`, after evaluation).
pub struct ConvergenceMechanism {
    /// The stability window K.
    pub window: usize,
    history: Vec<Vec<String>>,
}

impl ConvergenceMechanism {
    /// The stability window: the value of the field `window` (closed, since
    /// the history field is private).
    pub closed spec fn window_view(&self) -> usize {
        self.window
    }

    /// The observations kept (the last `window` ones), oldest first.
    pub closed spec fn history_view(&self) -> Seq<Seq<Seq<char>>> {
        self.history@.map_values(|h: Vec<String>| strs_of(h@))
    }

    /// A mechanism with window `max(window, 1)` and no observation yet.
    pub fn new(window: usize) -> (r: Self)
        ensures
            r.window_view() == if window < 1 {
                1
            } else {
                window
            },
            r.history_view().len() == 0,
    {
        let w = if window < 1 {
            1
        } else {
            window
        };
        ConvergenceMechanism { window: w, history: Vec::new() }
    }

    /// The mechanism's step (`PostStep`, after evaluation): observes the
    /// society's qualified canonical set under `canon` and says whether the
    /// run is stable and should stop.  With a rule-mode canonicalizer the
    /// observed set is exactly [`canonical_list`].
    pub fn apply<J: NormJudge>(&mut self, world: &CrsecWorld, canon: &mut Canonicalizer<J>) -> (r:
        bool)
        requires
            old(canon).wf(),
            old(canon).judge_ready(),
        ensures
            final(canon).wf(),
            final(canon).judge_ready(),
            final(canon).mode_view() == old(canon).mode_view(),
            registry_extends(old(canon).registry_view(), final(canon).registry_view()),
            final(self).window_view() == old(self).window_view(),
            exists|c: Seq<Seq<char>>|
                #![trigger next_history(old(self).history_view(), c, old(self).window_view() as nat)]
                {
                    &&& strictly_sorted(c)
                    &&& canonical_outcome(*old(canon), world.norm_db@, c, *final(canon))
                    &&& (c.len() == 0 <==> db_keys(world.norm_db@) =~= Set::empty())
                    &&& old(canon).mode_view() == CanonicalMode::Llm ==> forall|w: Seq<char>|
                        #[trigger] c.contains(w) ==> registered(final(canon).registry_view(), w)
                    &&& final(self).history_view() == next_history(
                        old(self).history_view(),
                        c,
                        old(self).window_view() as nat,
                    )
                    &&& r == stable_view(final(self).history_view(), c, old(self).window_view() as nat)
                },
            old(canon).mode_view() == CanonicalMode::Deterministic ==> {
                &&& final(self).history_view() == next_history(
                    old(self).history_view(),
                    canonical_list(world.norm_db@),
                    old(self).window_view() as nat,
                )
                &&& r == stable_view(
                    final(self).history_view(),
                    canonical_list(world.norm_db@),
                    old(self).window_view() as nat,
                )
            },
    {
        let current = world.qualified_canonical_set_with(canon);
        proof {
            assert forall|w: Seq<char>| #[trigger] strs_of(current@).contains(w) implies strs_of(
                current@,
            ).to_set().contains(w) by {}
            if canon.mode_view() == CanonicalMode::Deterministic {
                let c = canonical_list(world.norm_db@);
                assert(strictly_sorted(strs_of(current@)) && strs_of(current@).to_set() == db_keys(
                    world.norm_db@,
                ));
                lemma_sorted_unique(c, strs_of(current@));
            }
        }
        self.observe(current)
    }

    /// Records this round's qualified canonical set and says whether the run
    /// is stable: the last `window` sets are all this non-empty set.
    pub fn observe(&mut self, current: Vec<String>) -> (r: bool)
        ensures
            final(self).window_view() == old(self).window_view(),
            final(self).history_view() == next_history(
                old(self).history_view(),
                strs_of(current@),
                old(self).window_view() as nat,
            ),
            r == stable_view(final(self).history_view(), strs_of(current@), old(self).window_view() as nat),
    {
        let ghost cur = strs_of(current@);
        let ghost h0 = self.history_view();
        let n = current.len();
        let mut copy: Vec<String> = Vec::new();
        let mut i: usize = 0;
        while i < n
            invariant
                n == current@.len(),
                i <= n,
                strs_of(copy@) == strs_of(current@).take(i as int),
            decreases n - i,
        {
            let ghost c0 = copy@;
            copy.push(current[i].clone());
            proof {
                assert(strs_of(copy@) =~= strs_of(c0).push(current@[i as int]@));
                assert(strs_of(current@).take(i + 1) =~= strs_of(current@).take(i as int).push(current@[i as int]@));
            }
            i = i + 1;
        }
        proof {
            assert(strs_of(current@).take(n as int) =~= strs_of(current@));
        }
        self.history.push(copy);
        proof {
            assert(self.history_view() =~= h0.push(cur));
        }
        if self.history.len() > self.window {
            let ghost h1 = self.history@;
            self.history.remove(0);
            proof {
                assert(self.history@ =~= h1.drop_first());
                assert(self.history_view() =~= h0.push(cur).drop_first());
            }
        }
        let ghost h = self.history_view();
        assert(h == next_history(h0, cur, self.window as nat));
        if self.history.len() < self.window || current.len() == 0 {
            return false;
        }
        let mut k: usize = 0;
        while k < self.history.len()
            invariant
                k <= self.history@.len(),
                h == self.history_view(),
                h == next_history(h0, cur, self.window as nat),
                h0 == old(self).history_view(),
                self.window == old(self).window,
                cur == strs_of(current@),
                h.len() >= self.window,
                current@.len() > 0,
                forall|j: int| 0 <= j < k ==> h[j] == cur,
            decreases self.history@.len() - k,
        {
            if !same_strings(&self.history[k], &current) {
                proof {
                    assert(h[k as int] == strs_of(self.history@[k as int]@));
                    assert(h[k as int] != cur);
                }
                return false;
            }
            k = k + 1;
        }
        true
    }
}

/// `a == b` as string lists.
fn same_strings(a: &Vec<String>, b: &Vec<String>) -> (r: bool)
    ensures
        r == (strs_of(a@) == strs_of(b@)),
{
    if a.len() != b.len() {
        proof {
            assert(strs_of(a@).len() != strs_of(b@).len());
        }
        return false;
    }
    let mut i: usize = 0;
    while i < a.len()
        invariant
            a.len() == b.len(),
            i <= a.len(),
            forall|j: int| 0 <= j < i ==> a@[j]@ == b@[j]@,
        decreases a.len() - i,
    {
        if a[i] != b[i] {
            proof {
                assert(strs_of(a@)[i as int] != strs_of(b@)[i as int]);
            }
            return false;
        }
        i = i + 1;
    }
    proof {
        assert(strs_of(a@) =~= strs_of(b@));
    }
    true
}

/// An empty norm database for the agents `ids`.
pub fn empty_norm_db(ids: &[u64]) -> (r: BTreeMap<u64, Vec<PersonalNorm>>)
    ensures
        r@.dom() == ids@.to_set(),
        forall|a: u64| #[trigger] r@.contains_key(a) ==> r@[a]@.len() == 0,
{
    let mut m: BTreeMap<u64, Vec<PersonalNorm>> = BTreeMap::new();
    let mut i: usize = 0;
    while i < ids.len()
        invariant
            i <= ids.len(),
            m@.dom() == ids@.take(i as int).to_set(),
            forall|a: u64| #[trigger] m@.contains_key(a) ==> m@[a]@.len() == 0,
        decreases ids.len() - i,
    {
        m.insert(ids[i], Vec::new());
        proof {
            assert(ids@.take(i + 1) =~= ids@.take(i as int).push(ids@[i as int]));
            ids@.take(i as int).lemma_push_to_set_commute(ids@[i as int]);
        }
        i = i + 1;
    }
    proof {
        assert(ids@.take(ids.len() as int) =~= ids@);
    }
    m
}

} // verus!
