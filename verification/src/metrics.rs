//! Measures of norm emergence, as counts.
//!
//! Adoption is measured on canonical keys, so that paraphrases of one norm
//! count as one norm.  The rates the driver reports are these counts divided
//! by the population.
use vstd::prelude::*;

use std::collections::BTreeMap;

use crate::norm::{NormType, PersonalNorm};
use crate::text::{lex_lt, strictly_sorted};
use crate::world::{canonical_key, canonical_key_view, canonical_set, db_keys, norm_keys, strs_of};
use vstd::std_specs::btree::spec_btree_map_iter;
use vstd::std_specs::iter::IteratorSpec;

verus! {

/// The agents that hold a qualified norm with canonical key `k`.
pub open spec fn holders(m: Map<u64, Vec<PersonalNorm>>, k: Seq<char>) -> Set<u64> {
    m.dom().filter(|a: u64| norm_keys(m[a]@).contains(k))
}

/// Whether `ns` has a qualified norm.
pub open spec fn has_qualified(ns: Seq<PersonalNorm>) -> bool {
    exists|i: int| 0 <= i < ns.len() && (#[trigger] ns[i]).is_qualified()
}

/// The agents that hold at least one qualified norm.
pub open spec fn qualified_holders(m: Map<u64, Vec<PersonalNorm>>) -> Set<u64> {
    m.dom().filter(|a: u64| has_qualified(m[a]@))
}

/// The agents among the first `j` of `ks` that satisfy `p`, one step on.
proof fn lemma_take_filter_step(ks: Seq<u64>, j: int, p: spec_fn(u64) -> bool)
    requires
        ks.no_duplicates(),
        0 <= j < ks.len(),
    ensures
        !ks.take(j).to_set().contains(ks[j]),
        ks.take(j + 1).to_set().filter(p) == (if p(ks[j]) {
            ks.take(j).to_set().filter(p).insert(ks[j])
        } else {
            ks.take(j).to_set().filter(p)
        }),
        ks.take(j).to_set().filter(p).finite(),
{
    assert(ks.take(j + 1) =~= ks.take(j).push(ks[j]));
    ks.take(j).lemma_push_to_set_commute(ks[j]);
    if ks.take(j).to_set().contains(ks[j]) {
        let q = choose|q: int| 0 <= q < ks.take(j).len() && ks.take(j)[q] == ks[j];
        assert(ks[q] == ks[j]);
    }
    assert(ks.take(j + 1).to_set().filter(p) =~= (if p(ks[j]) {
        ks.take(j).to_set().filter(p).insert(ks[j])
    } else {
        ks.take(j).to_set().filter(p)
    }));
    vstd::seq_lib::seq_to_set_is_finite(ks.take(j));
    ks.take(j).to_set().lemma_len_filter(p);
}

/// Whether `ns` holds a qualified norm with canonical key `k`.
fn holds_key(ns: &Vec<PersonalNorm>, k: &String) -> (r: bool)
    ensures
        r == norm_keys(ns@).contains(k@),
{
    let mut i: usize = 0;
    while i < ns.len()
        invariant
            i <= ns.len(),
            forall|q: int|
                0 <= q < i ==> !((#[trigger] ns@[q]).is_qualified()
                    && crate::world::canonical_key_view(ns@[q].content@) == k@),
        decreases ns.len() - i,
    {
        if ns[i].qualified() {
            let c = canonical_key(ns[i].content.as_str());
            if c == *k {
                return true;
            }
        }
        i = i + 1;
    }
    false
}

/// Whether `ns` holds a qualified norm.
fn holds_qualified(ns: &Vec<PersonalNorm>) -> (r: bool)
    ensures
        r == has_qualified(ns@),
{
    let mut i: usize = 0;
    while i < ns.len()
        invariant
            i <= ns.len(),
            forall|q: int| 0 <= q < i ==> !(#[trigger] ns@[q]).is_qualified(),
        decreases ns.len() - i,
    {
        if ns[i].qualified() {
            return true;
        }
        i = i + 1;
    }
    false
}

/// The number of agents holding a qualified norm with canonical key `k`.
fn count_holders(norm_db: &BTreeMap<u64, Vec<PersonalNorm>>, k: &String) -> (r: usize)
    ensures
        r == holders(norm_db@, k@).len(),
        holders(norm_db@, k@).finite(),
        r <= norm_db@.len(),
{
    let n = norm_db.len();
    let ghost p = |a: u64| norm_keys(norm_db@[a]@).contains(k@);
    let mut c: usize = 0;
    let vals = norm_db.values();
    let ghost g = vals.remaining();
    let ghost ks = choose|ks: Seq<u64>|
        ks.to_set() == norm_db@.dom() && ks.no_duplicates() && g == ks.map(
            |i: int, a: u64| &norm_db@[a],
        );
    proof {
        assert(crate::world::is_value_seq(norm_db@, g));
        ks.unique_seq_to_set();
        assert(ks.take(0).to_set().filter(p) =~= Set::empty());
    }
    for ns in it: vals
        invariant
            it.seq() == g,
            g == ks.map(|i: int, a: u64| &norm_db@[a]),
            ks.no_duplicates(),
            ks.to_set() == norm_db@.dom(),
            ks.len() == n,
            n == norm_db@.len(),
            p == (|a: u64| norm_keys(norm_db@[a]@).contains(k@)),
            c <= it.index(),
            c == ks.take(it.index()).to_set().filter(p).len(),
    {
        let ghost j = it.index();
        proof {
            lemma_take_filter_step(ks, j, p);
            assert(g[j] == ns);
        }
        if holds_key(ns, k) {
            c = c + 1;
        }
    }
    proof {
        assert(ks.take(ks.len() as int) =~= ks);
        assert(ks.to_set().filter(p) =~= holders(norm_db@, k@));
        vstd::seq_lib::seq_to_set_is_finite(ks);
        ks.to_set().lemma_len_filter(p);
    }
    c
}

/// The number of agents holding at least one qualified norm.
pub fn count_qualified_holders(norm_db: &BTreeMap<u64, Vec<PersonalNorm>>) -> (r: usize)
    ensures
        r == qualified_holders(norm_db@).len(),
        qualified_holders(norm_db@).finite(),
{
    let n = norm_db.len();
    let ghost p = |a: u64| has_qualified(norm_db@[a]@);
    let mut c: usize = 0;
    let vals = norm_db.values();
    let ghost g = vals.remaining();
    let ghost ks = choose|ks: Seq<u64>|
        ks.to_set() == norm_db@.dom() && ks.no_duplicates() && g == ks.map(
            |i: int, a: u64| &norm_db@[a],
        );
    proof {
        assert(crate::world::is_value_seq(norm_db@, g));
        ks.unique_seq_to_set();
        assert(ks.take(0).to_set().filter(p) =~= Set::empty());
    }
    for ns in it: vals
        invariant
            it.seq() == g,
            g == ks.map(|i: int, a: u64| &norm_db@[a]),
            ks.no_duplicates(),
            ks.to_set() == norm_db@.dom(),
            ks.len() == n,
            n == norm_db@.len(),
            p == (|a: u64| has_qualified(norm_db@[a]@)),
            c <= it.index(),
            c == ks.take(it.index()).to_set().filter(p).len(),
    {
        let ghost j = it.index();
        proof {
            lemma_take_filter_step(ks, j, p);
            assert(g[j] == ns);
        }
        if holds_qualified(ns) {
            c = c + 1;
        }
    }
    proof {
        assert(ks.take(ks.len() as int) =~= ks);
        assert(ks.to_set().filter(p) =~= qualified_holders(norm_db@));
        vstd::seq_lib::seq_to_set_is_finite(ks);
        ks.to_set().lemma_len_filter(p);
    }
    c
}

/// Every holder of a canonical key holds a qualified norm, so no key is
/// adopted by more agents than hold qualified norms at all, nor by more than
/// the population.
pub proof fn law_adopters_within_qualified_holders(m: Map<u64, Vec<PersonalNorm>>, k: Seq<char>)
    requires
        m.dom().finite(),
    ensures
        holders(m, k).subset_of(qualified_holders(m)),
        holders(m, k).len() <= qualified_holders(m).len(),
        qualified_holders(m).len() <= m.dom().len(),
{
    assert forall|a: u64| holders(m, k).contains(a) implies qualified_holders(m).contains(a) by {
        let ns = m[a]@;
        let i = choose|i: int|
            0 <= i < ns.len() && (#[trigger] ns[i]).is_qualified() && k == canonical_key_view(
                ns[i].content@,
            );
        assert(has_qualified(ns));
    }
    m.dom().lemma_len_filter(|a: u64| has_qualified(m[a]@));
    vstd::set_lib::lemma_len_subset(holders(m, k), qualified_holders(m));
}

/// The most adopted norm: the canonical key held (as a qualified norm) by
/// the most agents, how many hold it, and the population.
pub struct Adoption {
    /// How many agents hold the most adopted key.
    pub holders: usize,
    /// The number of agents in the database.
    pub population: usize,
    /// The most adopted key; among equally adopted keys the greatest in
    /// string order.  `None` when no agent holds a qualified norm.
    pub key: Option<String>,
}

/// The adoption of the most adopted norm; the adoption rate is
/// `holders / population` (0 for an empty population).
pub fn adoption(norm_db: &BTreeMap<u64, Vec<PersonalNorm>>) -> (r: Adoption)
    ensures
        r.population == norm_db@.len(),
        r.holders <= r.population,
        r.key is None <==> db_keys(norm_db@) =~= Set::empty(),
        r.key is None ==> r.holders == 0,
        match r.key {
            Some(key) => {
                &&& db_keys(norm_db@).contains(key@)
                &&& r.holders == holders(norm_db@, key@).len()
                &&& forall|k: Seq<char>|
                    #[trigger] db_keys(norm_db@).contains(k) ==> holders(norm_db@, k).len()
                        <= r.holders && (holders(norm_db@, k).len() == r.holders ==> k == key@
                        || lex_lt(k, key@))
            },
            None => true,
        },
{
    let population = norm_db.len();
    let keys = canonical_set(norm_db);
    let ghost ks = strs_of(keys@);
    let mut best: Option<usize> = None;
    let mut best_count: usize = 0;
    let mut i: usize = 0;
    while i < keys.len()
        invariant
            i <= keys.len(),
            ks == strs_of(keys@),
            strictly_sorted(ks),
            population == norm_db@.len(),
            best_count <= population,
            best is None <==> i == 0,
            best is None ==> best_count == 0,
            match best {
                Some(b) => b < i && best_count == holders(norm_db@, ks[b as int]).len() && forall|
                    j: int,
                | 0 <= j < i ==> holders(norm_db@, #[trigger] ks[j]).len() <= best_count && (
                holders(norm_db@, ks[j]).len() == best_count ==> j <= b),
                None => true,
            },
        decreases keys.len() - i,
    {
        let c = count_holders(norm_db, &keys[i]);
        proof {
            assert(ks[i as int] == keys@[i as int]@);
        }
        let take = match best {
            Some(_) => c >= best_count,
            None => true,
        };
        if take {
            best = Some(i);
            best_count = c;
        }
        i = i + 1;
    }
    proof {
        assert(ks.to_set() == db_keys(norm_db@));
    }
    match best {
        Some(b) => {
            let key = keys[b].clone();
            proof {
                assert(ks.to_set().contains(ks[b as int]));
                assert forall|k: Seq<char>| #[trigger] db_keys(norm_db@).contains(k) implies holders(
                    norm_db@,
                    k,
                ).len() <= best_count && (holders(norm_db@, k).len() == best_count ==> k
                    == keys@[b as int]@ || lex_lt(k, keys@[b as int]@)) by {
                    assert(ks.to_set().contains(k));
                    let j = choose|j: int| 0 <= j < ks.len() && ks[j] == k;
                    assert(holders(norm_db@, ks[j]).len() <= best_count);
                    if holders(norm_db@, k).len() == best_count && j != b {
                        assert(lex_lt(ks[j], ks[b as int]));
                    }
                }
            }
            Adoption { holders: best_count, population, key: Some(key) }
        },
        None => {
            proof {
                assert(ks.len() == 0);
                assert(db_keys(norm_db@) =~= Set::empty()) by {
                    assert forall|k: Seq<char>| !db_keys(norm_db@).contains(k) by {
                        if db_keys(norm_db@).contains(k) {
                            assert(ks.to_set().contains(k));
                        }
                    }
                }
            }
            Adoption { holders: 0, population, key: None }
        },
    }
}

/// The number of distinct canonical keys among the society's qualified
/// norms (a measure of diversity and convergence).
pub fn n_distinct_norms(norm_db: &BTreeMap<u64, Vec<PersonalNorm>>) -> (r: usize)
    ensures
        db_keys(norm_db@).finite(),
        r == db_keys(norm_db@).len(),
{
    let keys = canonical_set(norm_db);
    proof {
        let ks = strs_of(keys@);
        assert forall|a: int, b: int| 0 <= a < ks.len() && 0 <= b < ks.len() && a != b implies ks[a]
            != ks[b] by {
            if a < b {
                assert(lex_lt(ks[a], ks[b]));
                crate::text::lemma_lex_irrefl(ks[a]);
            } else {
                assert(lex_lt(ks[b], ks[a]));
                crate::text::lemma_lex_irrefl(ks[a]);
            }
        }
        assert(ks.no_duplicates());
        ks.unique_seq_to_set();
        vstd::seq_lib::seq_to_set_is_finite(ks);
    }
    keys.len()
}

/// One round's measures, as counts (a row of the metrics table).
pub struct MetricCounts {
    /// The round t.
    pub t: usize,
    /// How many agents hold the most adopted norm.
    pub adopters: usize,
    /// The number of agents in the database.
    pub population: usize,
    /// How many agents complied with their norms this round.
    pub complied: usize,
    /// The conflicts detected this round.
    pub n_conflicts: usize,
    /// The distinct canonical qualified norms.
    pub n_distinct_norms: usize,
    /// The agents holding at least one qualified norm.
    pub n_qualified_holders: usize,
    /// How many agents hold the most adopted injunctive norm.
    pub adopters_injunctive: usize,
    /// How many agents hold the most adopted descriptive norm.
    pub adopters_descriptive: usize,
    /// The distinct canonical qualified injunctive norms.
    pub n_distinct_injunctive: usize,
    /// The distinct canonical qualified descriptive norms.
    pub n_distinct_descriptive: usize,
}

impl MetricCounts {
    /// The measures of the state `norm_db` at round `t`, with the round's
    /// compliance and conflict counts.
    pub fn compute(
        norm_db: &BTreeMap<u64, Vec<PersonalNorm>>,
        complied: usize,
        n_conflicts: usize,
        t: usize,
    ) -> (r: MetricCounts)
        ensures
            r.t == t,
            r.complied == complied,
            r.n_conflicts == n_conflicts,
            r.population == norm_db@.len(),
            r.n_distinct_norms == db_keys(norm_db@).len(),
            r.n_qualified_holders == qualified_holders(norm_db@).len(),
            r.n_distinct_injunctive == typed_db_keys(norm_db@, NormType::Injunctive).len(),
            r.n_distinct_descriptive == typed_db_keys(norm_db@, NormType::Descriptive).len(),
            r.adopters <= r.n_qualified_holders,
            r.n_qualified_holders <= r.population,
            r.adopters_injunctive <= r.population,
            r.adopters_descriptive <= r.population,
            typed_db_keys(norm_db@, NormType::Injunctive) =~= Set::empty() ==> r.adopters_injunctive == 0,
            !(typed_db_keys(norm_db@, NormType::Injunctive) =~= Set::empty()) ==> exists|key: Seq<char>|
                #[trigger] typed_db_keys(norm_db@, NormType::Injunctive).contains(key) && r.adopters_injunctive
                    == typed_holders(norm_db@, NormType::Injunctive, key).len() && forall|k: Seq<char>|
                    #[trigger] typed_db_keys(norm_db@, NormType::Injunctive).contains(k) ==> typed_holders(
                        norm_db@,
                        NormType::Injunctive,
                        k,
                    ).len() <= r.adopters_injunctive,
            typed_db_keys(norm_db@, NormType::Descriptive) =~= Set::empty() ==> r.adopters_descriptive == 0,
            !(typed_db_keys(norm_db@, NormType::Descriptive) =~= Set::empty()) ==> exists|key: Seq<char>|
                #[trigger] typed_db_keys(norm_db@, NormType::Descriptive).contains(key) && r.adopters_descriptive
                    == typed_holders(norm_db@, NormType::Descriptive, key).len() && forall|k: Seq<char>|
                    #[trigger] typed_db_keys(norm_db@, NormType::Descriptive).contains(k) ==> typed_holders(
                        norm_db@,
                        NormType::Descriptive,
                        k,
                    ).len() <= r.adopters_descriptive,
            db_keys(norm_db@) =~= Set::empty() ==> r.adopters == 0,
            !(db_keys(norm_db@) =~= Set::empty()) ==> exists|key: Seq<char>|
                #[trigger] db_keys(norm_db@).contains(key) && r.adopters == holders(norm_db@, key).len()
                    && forall|k: Seq<char>|
                    #[trigger] db_keys(norm_db@).contains(k) ==> holders(norm_db@, k).len()
                        <= r.adopters,
    {
        let a = adoption(norm_db);
        proof {
            broadcast use vstd::std_specs::btree::group_btree_axioms;

            match a.key {
                Some(k) => law_adopters_within_qualified_holders(norm_db@, k@),
                None => law_adopters_within_qualified_holders(norm_db@, Seq::empty()),
            }
        }
        let ai = typed_adoption(norm_db, NormType::Injunctive);
        let ad = typed_adoption(norm_db, NormType::Descriptive);
        MetricCounts {
            t,
            adopters: a.holders,
            population: a.population,
            complied,
            n_conflicts,
            n_distinct_norms: n_distinct_norms(norm_db),
            n_qualified_holders: count_qualified_holders(norm_db),
            adopters_injunctive: ai.holders,
            adopters_descriptive: ad.holders,
            n_distinct_injunctive: n_distinct_of_type(norm_db, NormType::Injunctive),
            n_distinct_descriptive: n_distinct_of_type(norm_db, NormType::Descriptive),
        }
    }
}

// ------------------------------------------------------------------------
// Measures by norm type
// ------------------------------------------------------------------------

/// The canonical keys of the qualified norms of type `t` in `ns`.
pub open spec fn typed_norm_keys(ns: Seq<PersonalNorm>, t: NormType) -> Set<Seq<char>> {
    Set::new(
        |k: Seq<char>|
            exists|i: int|
                0 <= i < ns.len() && (#[trigger] ns[i]).is_qualified() && ns[i].alpha == t && k
                    == canonical_key_view(ns[i].content@),
    )
}

/// The canonical keys of the qualified norms of type `t` of every agent.
pub open spec fn typed_db_keys(m: Map<u64, Vec<PersonalNorm>>, t: NormType) -> Set<Seq<char>> {
    Set::new(
        |k: Seq<char>| exists|a: u64| m.contains_key(a) && typed_norm_keys(#[trigger] m[a]@, t).contains(k),
    )
}

/// The agents that hold a qualified norm of type `t` with canonical key `k`.
pub open spec fn typed_holders(m: Map<u64, Vec<PersonalNorm>>, t: NormType, k: Seq<char>) -> Set<u64> {
    m.dom().filter(|a: u64| typed_norm_keys(m[a]@, t).contains(k))
}

/// The norms of `ns` of type `t`, in order.
fn of_type(ns: &Vec<PersonalNorm>, t: NormType) -> (r: Vec<PersonalNorm>)
    ensures
        norm_keys(r@) == typed_norm_keys(ns@, t),
{
    let mut r: Vec<PersonalNorm> = Vec::new();
    let mut i: usize = 0;
    while i < ns.len()
        invariant
            i <= ns.len(),
            norm_keys(r@) == typed_norm_keys(ns@.take(i as int), t),
        decreases ns.len() - i,
    {
        let ghost r0 = r@;
        let ghost t0 = ns@.take(i as int);
        let ghost t1 = ns@.take(i + 1);
        proof {
            assert(t1 =~= t0.push(ns@[i as int]));
        }
        if ns[i].alpha == t {
            r.push(ns[i].duplicate());
            proof {
                assert(norm_keys(r@) =~= typed_norm_keys(t1, t)) by {
                    assert forall|k: Seq<char>| norm_keys(r@).contains(k) implies typed_norm_keys(t1, t).contains(k) by {
                        let q = choose|q: int| 0 <= q < r@.len() && (#[trigger] r@[q]).is_qualified() && k == canonical_key_view(r@[q].content@);
                        if q < r0.len() {
                            assert(r@[q] == r0[q]);
                            assert(norm_keys(r0).contains(k));
                            let p = choose|p: int| 0 <= p < t0.len() && (#[trigger] t0[p]).is_qualified() && t0[p].alpha == t && k == canonical_key_view(t0[p].content@);
                            assert(t1[p] == t0[p]);
                        } else {
                            assert(t1[i as int] == ns@[i as int]);
                        }
                    }
                    assert forall|k: Seq<char>| typed_norm_keys(t1, t).contains(k) implies norm_keys(r@).contains(k) by {
                        let p = choose|p: int| 0 <= p < t1.len() && (#[trigger] t1[p]).is_qualified() && t1[p].alpha == t && k == canonical_key_view(t1[p].content@);
                        if p < i {
                            assert(t0[p] == t1[p]);
                            assert(typed_norm_keys(t0, t).contains(k));
                            let q = choose|q: int| 0 <= q < r0.len() && (#[trigger] r0[q]).is_qualified() && k == canonical_key_view(r0[q].content@);
                            assert(r@[q] == r0[q]);
                        } else {
                            assert(r@[r0.len() as int] == ns@[i as int]);
                        }
                    }
                }
            }
        } else {
            proof {
                assert(norm_keys(r@) =~= typed_norm_keys(t1, t)) by {
                    assert forall|k: Seq<char>| typed_norm_keys(t1, t).contains(k) implies typed_norm_keys(t0, t).contains(k) by {
                        let p = choose|p: int| 0 <= p < t1.len() && (#[trigger] t1[p]).is_qualified() && t1[p].alpha == t && k == canonical_key_view(t1[p].content@);
                        assert(p != i);
                        assert(t0[p] == t1[p]);
                    }
                    assert forall|k: Seq<char>| typed_norm_keys(t0, t).contains(k) implies typed_norm_keys(t1, t).contains(k) by {
                        let p = choose|p: int| 0 <= p < t0.len() && (#[trigger] t0[p]).is_qualified() && t0[p].alpha == t && k == canonical_key_view(t0[p].content@);
                        assert(t1[p] == t0[p]);
                    }
                }
            }
        }
        i = i + 1;
    }
    proof {
        assert(ns@.take(ns.len() as int) =~= ns@);
    }
    r
}

/// The database of the norms of type `t` only (same agents).
fn typed_db(norm_db: &BTreeMap<u64, Vec<PersonalNorm>>, t: NormType) -> (r: BTreeMap<
    u64,
    Vec<PersonalNorm>,
>)
    ensures
        r@.dom() == norm_db@.dom(),
        forall|a: u64|
            #[trigger] r@.contains_key(a) ==> norm_keys(r@[a]@) == typed_norm_keys(norm_db@[a]@, t),
{
    broadcast use vstd::std_specs::btree::group_btree_axioms;

    let mut r: BTreeMap<u64, Vec<PersonalNorm>> = BTreeMap::new();
    let entries = norm_db.iter();
    let ghost g = entries.remaining();
    for kv in it: entries
        invariant
            it.seq() == g,
            g == spec_btree_map_iter(norm_db).remaining(),
            forall|a: u64| #[trigger] r@.contains_key(a) ==> norm_db@.contains_key(a),
            forall|q: int| 0 <= q < it.index() ==> r@.contains_key(*(#[trigger] g[q]).0),
            forall|a: u64|
                #[trigger] r@.contains_key(a) ==> norm_keys(r@[a]@) == typed_norm_keys(norm_db@[a]@, t),
    {
        let (a, ns) = kv;
        let ghost j = it.index();
        proof {
            assert(g[j] == kv);
            assert(norm_db@.contains_key(*a) && norm_db@[*a] == *ns);
        }
        r.insert(*a, of_type(ns, t));
    }
    proof {
        assert forall|a: u64| norm_db@.contains_key(a) implies r@.contains_key(a) by {
            assert(g.contains((&a, &norm_db@[a])));
            let q = choose|q: int| 0 <= q < g.len() && g[q] == (&a, &norm_db@[a]);
            assert(r@.contains_key(*g[q].0));
        }
        assert(r@.dom() =~= norm_db@.dom());
    }
    r
}

/// The typed database carries the typed keys and holders.
proof fn lemma_typed_db(m: Map<u64, Vec<PersonalNorm>>, r: Map<u64, Vec<PersonalNorm>>, t: NormType)
    requires
        r.dom() == m.dom(),
        forall|a: u64| #[trigger] r.contains_key(a) ==> norm_keys(r[a]@) == typed_norm_keys(m[a]@, t),
    ensures
        db_keys(r) == typed_db_keys(m, t),
        forall|k: Seq<char>| #[trigger] holders(r, k) == typed_holders(m, t, k),
{
    assert forall|k: Seq<char>| db_keys(r).contains(k) <==> typed_db_keys(m, t).contains(k) by {
        if db_keys(r).contains(k) {
            let a = choose|a: u64| r.contains_key(a) && norm_keys(#[trigger] r[a]@).contains(k);
            assert(typed_norm_keys(m[a]@, t).contains(k));
        }
        if typed_db_keys(m, t).contains(k) {
            let a = choose|a: u64| m.contains_key(a) && typed_norm_keys(#[trigger] m[a]@, t).contains(k);
            assert(r.contains_key(a));
            assert(norm_keys(r[a]@).contains(k));
        }
    }
    assert(db_keys(r) =~= typed_db_keys(m, t));
    assert forall|k: Seq<char>| #[trigger] holders(r, k) == typed_holders(m, t, k) by {
        assert(holders(r, k) =~= typed_holders(m, t, k));
    }
}

/// The adoption of the most adopted norm of type `t` (see [`adoption`]).
pub fn typed_adoption(norm_db: &BTreeMap<u64, Vec<PersonalNorm>>, t: NormType) -> (r: Adoption)
    ensures
        r.population == norm_db@.len(),
        r.holders <= r.population,
        r.key is None <==> typed_db_keys(norm_db@, t) =~= Set::empty(),
        r.key is None ==> r.holders == 0,
        match r.key {
            Some(key) => {
                &&& typed_db_keys(norm_db@, t).contains(key@)
                &&& r.holders == typed_holders(norm_db@, t, key@).len()
                &&& forall|k: Seq<char>|
                    #[trigger] typed_db_keys(norm_db@, t).contains(k) ==> typed_holders(
                        norm_db@,
                        t,
                        k,
                    ).len() <= r.holders && (typed_holders(norm_db@, t, k).len() == r.holders ==> k
                        == key@ || lex_lt(k, key@))
            },
            None => true,
        },
{
    let d = typed_db(norm_db, t);
    let a = adoption(&d);
    proof {
        lemma_typed_db(norm_db@, d@, t);
        assert(d@.len() == norm_db@.len());
    }
    Adoption { holders: a.holders, population: norm_db.len(), key: a.key }
}

/// The number of distinct canonical keys among the society's qualified norms
/// of type `t`.
pub fn n_distinct_of_type(norm_db: &BTreeMap<u64, Vec<PersonalNorm>>, t: NormType) -> (r: usize)
    ensures
        typed_db_keys(norm_db@, t).finite(),
        r == typed_db_keys(norm_db@, t).len(),
{
    let d = typed_db(norm_db, t);
    proof {
        lemma_typed_db(norm_db@, d@, t);
    }
    n_distinct_norms(&d)
}

} // verus!
