//! The society's state (agent profiles, personal norm databases, the round's
//! interaction log) and the canonical identity of norms.
//!
//! Agents are fixed nodes identified by `u64`; what changes is each agent's
//! norm database.  Paraphrases of one norm are bucketed by [`canonical_key`],
//! a deterministic keyword-set normalisation, or by a [`Canonicalizer`] that
//! may also consult a sameness judge.
use vstd::prelude::*;

use std::collections::BTreeMap;

use crate::config::CanonicalMode;
use crate::norm::PersonalNorm;
use vstd::std_specs::btree::increasing_seq;
use vstd::std_specs::cmp::OrdSpec;
use vstd::std_specs::iter::IteratorSpec;
use crate::text::{
    chars_of, string_of, eq_lit, has_piece, insert_sorted, join, join_exec, lemma_join_has_piece, lemma_sorted_unique, lower, lower_vec, runs,
    runs_of, seqs_of, sorted_distinct, strictly_sorted,
};

verus! {

// ------------------------------------------------------------------------
// Canonical norm identity (deterministic, rule based)
// ------------------------------------------------------------------------

/// The English function words dropped by the canonical normalisation.
pub open spec fn is_stopword(t: Seq<char>) -> bool {
    ||| t == "a"@ || t == "an"@ || t == "the"@ || t == "is"@ || t == "are"@ || t == "was"@
    ||| t == "were"@ || t == "be"@ || t == "been"@ || t == "being"@ || t == "to"@ || t == "of"@
    ||| t == "in"@ || t == "on"@ || t == "at"@ || t == "for"@ || t == "and"@ || t == "or"@
    ||| t == "but"@ || t == "with"@ || t == "without"@ || t == "you"@ || t == "your"@ || t == "we"@
    ||| t == "our"@ || t == "they"@ || t == "their"@ || t == "should"@ || t == "shall"@
    ||| t == "must"@ || t == "ought"@ || t == "do"@ || t == "does"@ || t == "not"@ || t == "no"@
    ||| t == "people"@ || t == "one"@ || t == "everyone"@ || t == "always"@ || t == "never"@
    ||| t == "that"@ || t == "this"@ || t == "it"@ || t == "its"@ || t == "as"@ || t == "by"@
    ||| t == "from"@ || t == "when"@ || t == "while"@ || t == "than"@
}

/// Whether a word is a content word (not a stopword).
pub open spec fn content_word() -> spec_fn(Seq<char>) -> bool {
    |t: Seq<char>| !is_stopword(t)
}

/// The content words of a norm description: its ASCII-alphanumeric words,
/// lowercased, without stopwords, in order of occurrence.
pub open spec fn key_words(content: Seq<char>) -> Seq<Seq<char>> {
    runs(lower(content), true).filter(content_word())
}

/// The canonical key of a norm description: its distinct content words in
/// ascending order, joined by single spaces; when it has no content word, its
/// lowercased whitespace-separated words joined by single spaces.
pub open spec fn canonical_key_view(content: Seq<char>) -> Seq<char> {
    let ws = key_words(content);
    if ws.len() == 0 {
        join(runs(lower(content), false), seq![' '])
    } else {
        join(sorted_distinct(ws), seq![' '])
    }
}

fn is_stopword_exec(t: &Vec<char>) -> (r: bool)
    ensures
        r == is_stopword(t@),
{
    eq_lit(t, "a") || eq_lit(t, "an") || eq_lit(t, "the") || eq_lit(t, "is") || eq_lit(t, "are")
        || eq_lit(t, "was") || eq_lit(t, "were") || eq_lit(t, "be") || eq_lit(t, "been") || eq_lit(
        t,
        "being",
    ) || eq_lit(t, "to") || eq_lit(t, "of") || eq_lit(t, "in") || eq_lit(t, "on") || eq_lit(
        t,
        "at",
    ) || eq_lit(t, "for") || eq_lit(t, "and") || eq_lit(t, "or") || eq_lit(t, "but") || eq_lit(
        t,
        "with",
    ) || eq_lit(t, "without") || eq_lit(t, "you") || eq_lit(t, "your") || eq_lit(t, "we")
        || eq_lit(t, "our") || eq_lit(t, "they") || eq_lit(t, "their") || eq_lit(t, "should")
        || eq_lit(t, "shall") || eq_lit(t, "must") || eq_lit(t, "ought") || eq_lit(t, "do")
        || eq_lit(t, "does") || eq_lit(t, "not") || eq_lit(t, "no") || eq_lit(t, "people")
        || eq_lit(t, "one") || eq_lit(t, "everyone") || eq_lit(t, "always") || eq_lit(t, "never")
        || eq_lit(t, "that") || eq_lit(t, "this") || eq_lit(t, "it") || eq_lit(t, "its") || eq_lit(
        t,
        "as",
    ) || eq_lit(t, "by") || eq_lit(t, "from") || eq_lit(t, "when") || eq_lit(t, "while")
        || eq_lit(t, "than")
}

/// Normalises a norm description to its deterministic canonical key:
/// lowercase, split at non-alphanumerics, drop stopwords, deduplicate, sort
/// and join with spaces.  Paraphrases differing in word order, articles or
/// subject fall on one key without any model call.
pub fn canonical_key(content: &str) -> (r: String)
    ensures
        r@ == canonical_key_view(content@),
{
    let lowered = lower_vec(&chars_of(content));
    let toks = runs_of(&lowered, true);
    let ghost all = seqs_of(toks@);
    let mut words: Vec<Vec<char>> = Vec::new();
    let mut i: usize = 0;
    while i < toks.len()
        invariant
            i <= toks.len(),
            all == seqs_of(toks@),
            all == runs(lower(content@), true),
            strictly_sorted(seqs_of(words@)),
            seqs_of(words@).to_set() == all.take(i as int).filter(content_word()).to_set(),
        decreases toks.len() - i,
    {
        let ghost before = all.take(i as int);
        proof {
            assert(all.take(i + 1) =~= before.push(all[i as int]));
            assert(all.take(i + 1) =~= before.push(all[i as int]));
            before.lemma_filter_push(all[i as int], content_word());
        }
        if !is_stopword_exec(&toks[i]) {
            let w = toks[i].clone();
            proof {
                assert(w@ == all[i as int]);
                let f = before.filter(content_word());
                assert(all.take(i + 1).last() == w@);
                assert(content_word()(w@));
                assert(all.take(i + 1).filter(content_word()) == f.push(w@));
                f.lemma_push_to_set_commute(w@);
            }
            insert_sorted(&mut words, w);
        } else {
            proof {
                assert(all.take(i + 1).filter(content_word()) =~= before.filter(content_word()));
            }
        }
        i = i + 1;
    }
    proof {
        assert(all.take(toks.len() as int) =~= all);
    }
    if words.len() == 0 {
        proof {
            let ws = key_words(content@);
            if ws.len() > 0 {
                assert(ws.to_set().contains(ws[0]));
            }
        }
        let spaced = runs_of(&lowered, false);
        join_exec(&spaced, ' ')
    } else {
        proof {
            let ws = key_words(content@);
            assert(ws.len() > 0) by {
                let w0 = seqs_of(words@)[0];
                assert(seqs_of(words@).to_set().contains(w0));
            }
            let r = sorted_distinct(ws);
            assert(strictly_sorted(r) && r.to_set() == ws.to_set());
            lemma_sorted_unique(r, seqs_of(words@));
        }
        join_exec(&words, ' ')
    }
}



/// The canonical key depends only on the set of content words: two
/// descriptions with the same (non-empty) set of content words, in any order
/// and with any repetitions, stopwords, case or punctuation, have the same
/// key.
pub proof fn law_key_depends_on_word_set(a: Seq<char>, b: Seq<char>)
    requires
        key_words(a).len() > 0,
        key_words(a).to_set() == key_words(b).to_set(),
    ensures
        canonical_key_view(a) == canonical_key_view(b),
{
    let wa = key_words(a);
    let wb = key_words(b);
    assert(wa.to_set().contains(wa[0]));
    assert(wb.to_set().contains(wa[0]));
    assert(wb.len() > 0);
    assert(sorted_distinct(wa) == sorted_distinct(wb));
}

/// No content word is lost: every ASCII-alphanumeric word of a description
/// that is not a stopword (whatever its length, digits included) appears,
/// lowercased, as one of the space-separated words of its canonical key.
pub proof fn law_key_keeps_every_content_word(content: Seq<char>, j: int)
    requires
        0 <= j < runs(lower(content), true).len(),
        !is_stopword(runs(lower(content), true)[j]),
    ensures
        has_piece(canonical_key_view(content), runs(lower(content), true)[j], seq![' ']),
{
    let all = runs(lower(content), true);
    let w = all[j];
    all.lemma_filter_contains(content_word(), j);
    let ws = key_words(content);
    assert(ws.contains(w));
    assert(ws.len() > 0);
    crate::text::lemma_sorted_distinct_exists(ws);
    let r = sorted_distinct(ws);
    assert(ws.to_set().contains(w));
    assert(r.to_set().contains(w));
    let k = choose|k: int| 0 <= k < r.len() && r[k] == w;
    lemma_join_has_piece(r, seq![' '], k);
}

/// What the key is made of: when a description has a content word, its key
/// is the space-joined, strictly ascending list of exactly its distinct
/// lowercased ASCII-alphanumeric words that are not stopwords.
pub proof fn law_key_is_its_sorted_content_words(content: Seq<char>, j: int)
    requires
        0 <= j < runs(lower(content), true).len(),
        !is_stopword(runs(lower(content), true)[j]),
    ensures
        exists|l: Seq<Seq<char>>|
            {
                &&& strictly_sorted(l)
                &&& forall|w: Seq<char>| #[trigger]
                    l.contains(w) <==> (runs(lower(content), true).contains(w) && !is_stopword(w))
                &&& canonical_key_view(content) == join(l, seq![' '])
            },
{
    let all = runs(lower(content), true);
    all.lemma_filter_contains(content_word(), j);
    let ws = key_words(content);
    assert(ws.contains(all[j]));
    crate::text::lemma_sorted_distinct_exists(ws);
    let l = sorted_distinct(ws);
    assert forall|w: Seq<char>| #[trigger]
        l.contains(w) <==> (all.contains(w) && !is_stopword(w)) by {
        if l.contains(w) {
            assert(l.to_set().contains(w));
            assert(ws.to_set().contains(w));
            all.lemma_filter_contains_rev(content_word(), w);
            let k = choose|k: int| 0 <= k < ws.len() && ws[k] == w;
            all.lemma_filter_pred(content_word(), k);
        }
        if all.contains(w) && !is_stopword(w) {
            let k = choose|k: int| 0 <= k < all.len() && all[k] == w;
            all.lemma_filter_contains(content_word(), k);
            assert(ws.to_set().contains(w));
            assert(l.to_set().contains(w));
        }
    }
}

/// The canonical key of a description with any non-whitespace character is
/// never empty (a description made only of stopwords keys to its own words).
pub proof fn law_key_never_empty(content: Seq<char>, i: int)
    requires
        0 <= i < content.len(),
        !crate::text::is_whitespace(content[i]),
    ensures
        canonical_key_view(content).len() > 0,
{
    let l = lower(content);
    let ws = key_words(content);
    if ws.len() > 0 {
        let r = sorted_distinct(ws);
        assert(ws.to_set().contains(ws[0]));
        crate::text::lemma_sorted_distinct_exists(ws);
        assert(r.to_set().contains(ws[0]));
        assert(r.len() > 0);
        assert(r.to_set().contains(r.last()));
        assert(ws.to_set().contains(r.last()));
        let k = choose|k: int| 0 <= k < ws.len() && ws[k] == r.last();
        let all = runs(l, true);
        assert(ws.contains(ws[k]));
        all.lemma_filter_contains_rev(content_word(), ws[k]);
        let j = choose|j: int| 0 <= j < all.len() && all[j] == ws[k];
        crate::text::lemma_runs_nonempty(l, true);
        assert(all[j].len() > 0);
        crate::text::lemma_join_last(r, seq![' ']);
    } else {
        crate::text::lemma_lower_whitespace(content[i]);
        assert(l[i] == crate::text::lower_char(content[i]));
        crate::text::lemma_runs_exist(l, false, i);
        crate::text::lemma_runs_nonempty(l, false);
        let sp = runs(l, false);
        assert(sp.last() == sp[sp.len() - 1]);
        crate::text::lemma_join_last(sp, seq![' ']);
    }
}

// ------------------------------------------------------------------------
// Canonicalizer (rule = deterministic / llm = judged sameness)
// ------------------------------------------------------------------------

/// A judge of whether two norm descriptions state the same norm.
///
/// Implemented by every `Fn(&str, &str) -> bool` closure (in production a
/// cached model call) and by [`NoJudge`], which never judges two norms the
/// same.
pub trait NormJudge {
    /// The judge may be asked any pair of descriptions.
    spec fn ready(&self) -> bool;

    /// `r` is a possible verdict of the judge on `(a, b)`.
    spec fn says(&self, a: Seq<char>, b: Seq<char>, r: bool) -> bool;

    /// Asks whether `a` and `b` state the same norm.
    fn same(&self, a: &str, b: &str) -> (r: bool)
        requires
            self.ready(),
        ensures
            self.says(a@, b@, r),
    ;
}

/// The judge of the rule-based mode: it is never consulted and never judges
/// two descriptions the same.
pub struct NoJudge;

impl NormJudge for NoJudge {
    open spec fn ready(&self) -> bool {
        true
    }

    open spec fn says(&self, a: Seq<char>, b: Seq<char>, r: bool) -> bool {
        !r
    }

    fn same(&self, a: &str, b: &str) -> (r: bool) {
        false
    }
}

impl<F: Fn(&str, &str) -> bool> NormJudge for F {
    open spec fn ready(&self) -> bool {
        forall|x: &str, y: &str| call_requires(*self, (x, y))
    }

    open spec fn says(&self, a: Seq<char>, b: Seq<char>, r: bool) -> bool {
        exists|x: &str, y: &str| x@ == a && y@ == b && call_ensures(*self, (x, y), r)
    }

    fn same(&self, a: &str, b: &str) -> (r: bool) {
        (self)(a, b)
    }
}

/// Buckets norm descriptions into canonical keys (`--canonical-mode`).
///
/// - Rule mode: [`canonical_key`] itself, without any judge call.
/// - Llm mode: keeps a registry of representative descriptions with their
///   rule keys.  A description whose rule key is registered gets that key; one
///   that the judge finds the same as a representative gets that
///   representative's key; any other is registered as a new representative
///   under its own rule key.
pub struct Canonicalizer<J> {
    mode: CanonicalMode,
    registry: Vec<(String, String)>,
    judge: Option<J>,
}

impl Canonicalizer<NoJudge> {
    /// The rule-based canonicalizer (the default; never calls a judge).
    pub fn rule() -> (r: Self)
        ensures
            r.wf(),
            r.mode_view() == CanonicalMode::Deterministic,
            r.registry_view().len() == 0,
            r.judge_ready(),
            forall|a: Seq<char>, b: Seq<char>, x: bool| #[trigger] r.judge_says(a, b, x) == !x,
    {
        Canonicalizer { mode: CanonicalMode::Deterministic, registry: Vec::new(), judge: None }
    }
}

/// `new` keeps the entries of `old` in front.
pub open spec fn registry_extends(
    old: Seq<(Seq<char>, Seq<char>)>,
    new: Seq<(Seq<char>, Seq<char>)>,
) -> bool {
    old.len() <= new.len() && forall|i: int| 0 <= i < old.len() ==> new[i] == #[trigger] old[i]
}

/// `key` is the key of a registered representative.
pub open spec fn registered(reg: Seq<(Seq<char>, Seq<char>)>, key: Seq<char>) -> bool {
    exists|i: int| 0 <= i < reg.len() && (#[trigger] reg[i]).1 == key
}

/// `r` and `c1` are a possible outcome of canonicalizing `content` with
/// `c0` (see [`Canonicalizer::canonicalize`]): the mode and the judge stay;
/// rule mode gives the rule key; llm mode gives the registered rule key if
/// there is one, else the key of the first representative the judge finds
/// the same, else registers `content` under its rule key.
pub open spec fn canonicalizes<J: NormJudge>(
    c0: Canonicalizer<J>,
    content: Seq<char>,
    r: Seq<char>,
    c1: Canonicalizer<J>,
) -> bool {
    let own = canonical_key_view(content);
    let reg = c0.registry_view();
    &&& c1.mode_view() == c0.mode_view()
    &&& c1.judge_ready() == c0.judge_ready()
    &&& forall|a: Seq<char>, b: Seq<char>, x: bool|
        #[trigger] c1.judge_says(a, b, x) == c0.judge_says(a, b, x)
    &&& if c0.mode_view() == CanonicalMode::Deterministic {
        r == own && c1.registry_view() == reg
    } else if exists|i: int| 0 <= i < reg.len() && (#[trigger] reg[i]).1 == own {
        r == own && c1.registry_view() == reg
    } else {
        ||| {
            &&& r == own
            &&& c1.registry_view() == reg.push((content, own))
            &&& forall|i: int| 0 <= i < reg.len() ==> c0.judge_says((#[trigger] reg[i]).0, content, false)
        }
        ||| exists|i: int|
            {
                &&& 0 <= i < reg.len()
                &&& r == (#[trigger] reg[i]).1
                &&& c1.registry_view() == reg
                &&& c0.judge_says(reg[i].0, content, true)
                &&& forall|k: int| 0 <= k < i ==> c0.judge_says((#[trigger] reg[k]).0, content, false)
            }
    }
}

/// `ks` and `c1` are a possible outcome of canonicalizing the descriptions
/// `cs` in order, starting from `c0`.
pub open spec fn canon_run<J: NormJudge>(
    c0: Canonicalizer<J>,
    cs: Seq<Seq<char>>,
    ks: Seq<Seq<char>>,
    c1: Canonicalizer<J>,
) -> bool
    decreases cs.len(),
{
    if cs.len() == 0 {
        ks.len() == 0 && c1 == c0
    } else {
        &&& ks.len() == cs.len()
        &&& exists|m: Canonicalizer<J>|
            canon_run(c0, cs.drop_last(), ks.drop_last(), m) && #[trigger] canonicalizes(
                m,
                cs.last(),
                ks.last(),
                c1,
            )
    }
}

/// A run followed by one more canonicalization is a run.
pub proof fn lemma_canon_run_push<J: NormJudge>(
    c0: Canonicalizer<J>,
    cs: Seq<Seq<char>>,
    ks: Seq<Seq<char>>,
    m: Canonicalizer<J>,
    x: Seq<char>,
    k: Seq<char>,
    c1: Canonicalizer<J>,
)
    requires
        canon_run(c0, cs, ks, m),
        canonicalizes(m, x, k, c1),
    ensures
        canon_run(c0, cs.push(x), ks.push(k), c1),
{
    assert(cs.push(x).drop_last() =~= cs);
    assert(ks.push(k).drop_last() =~= ks);
    assert(ks.len() == cs.len());
    assert(cs.push(x).last() == x);
    assert(ks.push(k).last() == k);
    assert(canon_run(c0, cs.push(x).drop_last(), ks.push(k).drop_last(), m) && canonicalizes(
        m,
        cs.push(x).last(),
        ks.push(k).last(),
        c1,
    ));
}

/// Two runs in a row are a run.
pub proof fn lemma_canon_run_concat<J: NormJudge>(
    c0: Canonicalizer<J>,
    a: Seq<Seq<char>>,
    ka: Seq<Seq<char>>,
    m: Canonicalizer<J>,
    b: Seq<Seq<char>>,
    kb: Seq<Seq<char>>,
    c1: Canonicalizer<J>,
)
    requires
        canon_run(c0, a, ka, m),
        canon_run(m, b, kb, c1),
    ensures
        canon_run(c0, a + b, ka + kb, c1),
    decreases b.len(),
{
    if b.len() == 0 {
        assert(a + b =~= a);
        assert(ka + kb =~= ka);
    } else {
        let mid = choose|mid: Canonicalizer<J>|
            canon_run(m, b.drop_last(), kb.drop_last(), mid) && #[trigger] canonicalizes(
                mid,
                b.last(),
                kb.last(),
                c1,
            );
        lemma_canon_run_concat(c0, a, ka, m, b.drop_last(), kb.drop_last(), mid);
        assert((a + b.drop_last()).push(b.last()) =~= a + b);
        assert((ka + kb.drop_last()).push(kb.last()) =~= ka + kb);
        lemma_canon_run_push(c0, a + b.drop_last(), ka + kb.drop_last(), mid, b.last(), kb.last(), c1);
    }
}

impl<J: NormJudge> Canonicalizer<J> {
    /// The mode.
    pub closed spec fn mode_view(&self) -> CanonicalMode {
        self.mode
    }

    /// The registered `(representative, key)` pairs, in registration order.
    pub closed spec fn registry_view(&self) -> Seq<(Seq<char>, Seq<char>)> {
        self.registry@.map_values(|p: (String, String)| (p.0@, p.1@))
    }

    /// The judge can be consulted on any pair.
    pub closed spec fn judge_ready(&self) -> bool {
        match self.judge {
            Some(j) => j.ready(),
            None => true,
        }
    }

    /// `r` is a possible verdict of the judge on `(a, b)`.
    pub closed spec fn judge_says(&self, a: Seq<char>, b: Seq<char>, r: bool) -> bool {
        match self.judge {
            Some(j) => j.says(a, b, r),
            None => !r,
        }
    }

    /// Well-formed: every registered key is the rule key of its
    /// representative, the keys are distinct, and the rule mode registers
    /// nothing.
    pub closed spec fn wf(&self) -> bool {
        &&& forall|i: int|
            0 <= i < self.registry@.len() ==> (#[trigger] self.registry@[i]).1@ == canonical_key_view(
                self.registry@[i].0@,
            )
        &&& forall|i: int, j: int|
            0 <= i < j < self.registry@.len() ==> (#[trigger] self.registry@[i]).1@
                != (#[trigger] self.registry@[j]).1@
        &&& self.mode == CanonicalMode::Deterministic ==> self.registry@.len() == 0
    }

    /// The judged canonicalizer: `judge(a, b)` says whether `a` and `b` are
    /// the same norm.
    pub fn llm(judge: J) -> (r: Self)
        ensures
            r.wf(),
            r.mode_view() == CanonicalMode::Llm,
            r.registry_view().len() == 0,
            r.judge_ready() == judge.ready(),
            forall|a: Seq<char>, b: Seq<char>, x: bool|
                #[trigger] r.judge_says(a, b, x) == judge.says(a, b, x),
    {
        Canonicalizer { mode: CanonicalMode::Llm, registry: Vec::new(), judge: Some(judge) }
    }

    /// Builds the canonicalizer of `mode` (the judge serves the llm mode only).
    pub fn from_mode(mode: CanonicalMode, judge: J) -> (r: Self)
        ensures
            r.wf(),
            r.mode_view() == mode,
            r.registry_view().len() == 0,
            r.judge_ready() == judge.ready(),
            forall|a: Seq<char>, b: Seq<char>, x: bool|
                #[trigger] r.judge_says(a, b, x) == judge.says(a, b, x),
    {
        match mode {
            CanonicalMode::Deterministic => Canonicalizer {
                mode: CanonicalMode::Deterministic,
                registry: Vec::new(),
                judge: Some(judge),
            },
            CanonicalMode::Llm => Self::llm(judge),
        }
    }

    /// The mode.
    pub fn mode(&self) -> (r: CanonicalMode)
        ensures
            r == self.mode_view(),
    {
        self.mode
    }

    /// The canonical key of `content`.
    ///
    /// Rule mode: exactly `canonical_key(content)`.  Llm mode: the registered
    /// key equal to the rule key if there is one; otherwise the key of the
    /// first representative the judge finds the same; otherwise `content` is
    /// registered as a new representative and its rule key is returned.
    pub fn canonicalize(&mut self, content: &str) -> (r: String)
        requires
            old(self).wf(),
            old(self).judge_ready(),
        ensures
            final(self).wf(),
            final(self).judge_ready(),
            final(self).mode_view() == old(self).mode_view(),
            registry_extends(old(self).registry_view(), final(self).registry_view()),
            final(self).mode_view() == CanonicalMode::Llm ==> registered(final(self).registry_view(), r@),
            canonicalizes(*old(self), content@, r@, *final(self)),
    {
        let own = canonical_key(content);
        match self.mode {
            CanonicalMode::Deterministic => {
                return own;
            },
            CanonicalMode::Llm => {},
        }
        let ghost reg = self.registry_view();
        let n = self.registry.len();
        let mut i: usize = 0;
        while i < n
            invariant
                n == self.registry@.len(),
                i <= n,
                *self == *old(self),
                self.wf(),
                self.judge_ready(),
                self.mode == CanonicalMode::Llm,
                reg == self.registry_view(),
                own@ == canonical_key_view(content@),
                forall|k: int| 0 <= k < i ==> (#[trigger] reg[k]).1 != own@,
            decreases n - i,
        {
            if self.registry[i].1 == own {
                proof {
                    assert(reg[i as int].1 == own@);
                    assert(registered(reg, own@));
                }
                return own;
            }
            i = i + 1;
        }
        proof {
            assert forall|k: int| 0 <= k < reg.len() implies (#[trigger] reg[k]).1 != own@ by {}
        }
        if let Some(j) = &self.judge {
            let mut k: usize = 0;
            while k < n
                invariant
                    n == self.registry@.len(),
                    k <= n,
                    *self == *old(self),
                    self.wf(),
                    self.judge_ready(),
                    self.mode == CanonicalMode::Llm,
                    reg == self.registry_view(),
                    own@ == canonical_key_view(content@),
                    forall|m: int| 0 <= m < reg.len() ==> (#[trigger] reg[m]).1 != own@,
                    self.judge == Some(*j),
                    j.ready(),
                    forall|m: int| 0 <= m < k ==> j.says((#[trigger] reg[m]).0, content@, false),
                decreases n - k,
            {
                let rep = self.registry[k].0.as_str();
                if j.same(rep, content) {
                    let key = self.registry[k].1.clone();
                    proof {
                        assert(key@ == reg[k as int].1);
                        assert(old(self).judge_says(reg[k as int].0, content@, true));
                        assert(!(exists|i: int| 0 <= i < reg.len() && (#[trigger] reg[i]).1 == own@));
                        assert(registered(reg, key@));
                    }
                    return key;
                }
                k = k + 1;
            }
        }
        let ghost old_registry = self.registry@;
        self.registry.push((content.to_owned(), own.clone()));
        proof {
            assert(self.registry_view() =~= reg.push((content@, own@)));
            assert(self.registry_view()[n as int].1 == own@);
            assert(registered(self.registry_view(), own@));
            assert forall|a: int, b: int|
                0 <= a < b < self.registry@.len() implies (#[trigger] self.registry@[a]).1@
                != (#[trigger] self.registry@[b]).1@ by {
                if b == n {
                    assert(reg[a].1 != own@);
                } else {
                    assert(old_registry[a] == self.registry@[a]);
                    assert(old_registry[b] == self.registry@[b]);
                }
            }
            assert forall|a: int| 0 <= a < self.registry@.len() implies (
            #[trigger] self.registry@[a]).1@ == canonical_key_view(self.registry@[a].0@) by {
                if a < n {
                    assert(old_registry[a] == self.registry@[a]);
                }
            }
        }
        own
    }
}



// ------------------------------------------------------------------------
// Agents and the society's state
// ------------------------------------------------------------------------

/// The profile G of one agent (described to the model in prompts).
#[derive(Clone, Debug)]
pub struct AgentProfile {
    /// G: name, character and background in natural language.
    pub description: String,
    /// Whether the agent is a norm entrepreneur (holds and drives a norm).
    pub is_entrepreneur: bool,
    /// Preferences (for or against smoking, noise, tipping, ...): the source
    /// of the initial value conflicts.
    pub preferences: Vec<String>,
}

impl AgentProfile {
    /// A profile.
    pub fn new(description: &str, is_entrepreneur: bool, preferences: Vec<String>) -> (r: Self)
        ensures
            r.description@ == description@,
            r.is_entrepreneur == is_entrepreneur,
            r.preferences == preferences,
    {
        AgentProfile { description: description.to_owned(), is_entrepreneur, preferences }
    }
}

/// One conversation or observation of the current round (cleared at the
/// start of each round).
#[derive(Clone, Debug)]
pub struct InteractionEvent {
    /// The sender (speaker, or the observed agent).
    pub sender: u64,
    /// The receiver (partner, or observer).
    pub receiver: u64,
    /// An observation (true) or a conversation (false).
    pub is_observation: bool,
    /// Whether a conflict was detected.
    pub conflict: bool,
    /// The norm description the receiver identified, if any.
    pub identified_content: Option<String>,
}

/// The state the norm life cycle updates: agent profiles, each agent's
/// personal norm database and the round's interaction log.  The engine's
/// clock and the social-network graph are kept beside it by the driver.
pub struct CrsecWorld {
    /// Each agent's profile, by agent id.
    pub agents: BTreeMap<u64, AgentProfile>,
    /// Each agent's norm database (the quintuples), by agent id.
    pub norm_db: BTreeMap<u64, Vec<PersonalNorm>>,
    /// The conversations and observations of the current round.
    pub interactions: Vec<InteractionEvent>,
    /// Long-term synthesis threshold θ on the summed utility of an agent's
    /// qualified norms: synthesis happens when the sum exceeds it.
    pub synth_threshold: i64,
}

/// The qualified norms of a database.
pub open spec fn qualified_pred() -> spec_fn(PersonalNorm) -> bool {
    |n: PersonalNorm| n.is_qualified()
}

/// The canonical keys of the qualified norms in `ns`.
pub open spec fn norm_keys(ns: Seq<PersonalNorm>) -> Set<Seq<char>> {
    Set::new(
        |k: Seq<char>|
            exists|i: int|
                0 <= i < ns.len() && (#[trigger] ns[i]).is_qualified() && k == canonical_key_view(
                    ns[i].content@,
                ),
    )
}

/// The canonical keys of the qualified norms of every agent.
pub open spec fn db_keys(m: Map<u64, Vec<PersonalNorm>>) -> Set<Seq<char>> {
    Set::new(|k: Seq<char>| exists|a: u64| m.contains_key(a) && norm_keys(#[trigger] m[a]@).contains(k))
}

/// The canonical keys of the qualified norms of the rows `g`.
pub open spec fn rows_keys(g: Seq<&Vec<PersonalNorm>>) -> Set<Seq<char>> {
    Set::new(|k: Seq<char>| exists|j: int| 0 <= j < g.len() && norm_keys((#[trigger] g[j])@).contains(k))
}

/// `g` lists the values of `m`, one per key.
pub open spec fn is_value_seq(m: Map<u64, Vec<PersonalNorm>>, g: Seq<&Vec<PersonalNorm>>) -> bool {
    exists|ks: Seq<u64>|
        ks.to_set() == m.dom() && ks.no_duplicates() && g == ks.map(|i: int, k: u64| &m[k])
}

/// The character sequences of a vector of strings.
pub open spec fn strs_of(v: Seq<String>) -> Seq<Seq<char>> {
    v.map_values(|s: String| s@)
}

/// The rows of a map's values carry exactly the map's keys.
pub proof fn lemma_rows_keys(m: Map<u64, Vec<PersonalNorm>>, g: Seq<&Vec<PersonalNorm>>)
    requires
        is_value_seq(m, g),
    ensures
        rows_keys(g) == db_keys(m),
{
    let ks = choose|ks: Seq<u64>|
        ks.to_set() == m.dom() && ks.no_duplicates() && g == ks.map(|i: int, k: u64| &m[k]);
    assert forall|k: Seq<char>| rows_keys(g).contains(k) <==> db_keys(m).contains(k) by {
        if rows_keys(g).contains(k) {
            let j = choose|j: int| 0 <= j < g.len() && norm_keys((#[trigger] g[j])@).contains(k);
            assert(ks.to_set().contains(ks[j]));
            assert(m.contains_key(ks[j]) && norm_keys(m[ks[j]]@).contains(k));
        }
        if db_keys(m).contains(k) {
            let a = choose|a: u64| m.contains_key(a) && norm_keys(#[trigger] m[a]@).contains(k);
            assert(ks.to_set().contains(a));
            let j = choose|j: int| 0 <= j < ks.len() && ks[j] == a;
            assert(g[j]@ == m[a]@);
        }
    }
    assert(rows_keys(g) =~= db_keys(m));
}

/// Adds the canonical keys of the qualified norms of `ns` to the strictly
/// sorted `words`.
fn add_norm_keys(words: &mut Vec<Vec<char>>, ns: &Vec<PersonalNorm>)
    requires
        strictly_sorted(seqs_of(old(words)@)),
    ensures
        strictly_sorted(seqs_of(final(words)@)),
        seqs_of(final(words)@).to_set() == seqs_of(old(words)@).to_set().union(norm_keys(ns@)),
{
    let ghost w0 = seqs_of(words@).to_set();
    let mut i: usize = 0;
    while i < ns.len()
        invariant
            i <= ns.len(),
            strictly_sorted(seqs_of(words@)),
            seqs_of(words@).to_set() == w0.union(norm_keys(ns@.take(i as int))),
        decreases ns.len() - i,
    {
        let ghost before = seqs_of(words@).to_set();
        if ns[i].qualified() {
            let k = canonical_key(ns[i].content.as_str());
            let kv = chars_of(k.as_str());
            insert_sorted(words, kv);
            proof {
                assert(norm_keys(ns@.take(i + 1)) =~= norm_keys(ns@.take(i as int)).insert(
                    canonical_key_view(ns@[i as int].content@),
                )) by {
                    assert forall|x: Seq<char>| #![auto] norm_keys(ns@.take(i + 1)).contains(x) implies norm_keys(ns@.take(i as int)).insert(canonical_key_view(ns@[i as int].content@)).contains(x) by {
                        let q = choose|q: int| 0 <= q < ns@.take(i + 1).len() && (#[trigger] ns@.take(i + 1)[q]).is_qualified() && x == canonical_key_view(ns@.take(i + 1)[q].content@);
                        if q < i {
                            assert(ns@.take(i as int)[q] == ns@.take(i + 1)[q]);
                        }
                    }
                    assert forall|x: Seq<char>| #![auto] norm_keys(ns@.take(i as int)).insert(canonical_key_view(ns@[i as int].content@)).contains(x) implies norm_keys(ns@.take(i + 1)).contains(x) by {
                        if norm_keys(ns@.take(i as int)).contains(x) {
                            let q = choose|q: int| 0 <= q < ns@.take(i as int).len() && (#[trigger] ns@.take(i as int)[q]).is_qualified() && x == canonical_key_view(ns@.take(i as int)[q].content@);
                            assert(ns@.take(i + 1)[q] == ns@.take(i as int)[q]);
                        } else {
                            assert(ns@.take(i + 1)[i as int] == ns@[i as int]);
                        }
                    }
                }
                assert(seqs_of(words@).to_set() =~= w0.union(norm_keys(ns@.take(i + 1))));
            }
        } else {
            proof {
                assert(norm_keys(ns@.take(i + 1)) =~= norm_keys(ns@.take(i as int))) by {
                    assert forall|x: Seq<char>| #![auto] norm_keys(ns@.take(i + 1)).contains(x) implies norm_keys(ns@.take(i as int)).contains(x) by {
                        let q = choose|q: int| 0 <= q < ns@.take(i + 1).len() && (#[trigger] ns@.take(i + 1)[q]).is_qualified() && x == canonical_key_view(ns@.take(i + 1)[q].content@);
                        assert(q != i);
                        assert(ns@.take(i as int)[q] == ns@.take(i + 1)[q]);
                    }
                    assert forall|x: Seq<char>| #![auto] norm_keys(ns@.take(i as int)).contains(x) implies norm_keys(ns@.take(i + 1)).contains(x) by {
                        let q = choose|q: int| 0 <= q < ns@.take(i as int).len() && (#[trigger] ns@.take(i as int)[q]).is_qualified() && x == canonical_key_view(ns@.take(i as int)[q].content@);
                        assert(ns@.take(i + 1)[q] == ns@.take(i as int)[q]);
                    }
                }
            }
        }
        i = i + 1;
    }
    proof {
        assert(ns@.take(ns.len() as int) =~= ns@);
    }
}

/// The strings of `words`.
fn strings_of(words: &Vec<Vec<char>>) -> (r: Vec<String>)
    ensures
        strs_of(r@) == seqs_of(words@),
{
    let mut r: Vec<String> = Vec::new();
    let mut i: usize = 0;
    while i < words.len()
        invariant
            i <= words.len(),
            strs_of(r@) == seqs_of(words@).take(i as int),
        decreases words.len() - i,
    {
        let s = string_of(&words[i], 0, words[i].len());
        proof {
            assert(words@[i as int]@.subrange(0, words@[i as int]@.len() as int) =~= words@[i as int]@);
        }
        let ghost r0 = r@;
        r.push(s);
        proof {
            assert(strs_of(r@) =~= strs_of(r0).push(words@[i as int]@));
            assert(seqs_of(words@).take(i + 1) =~= seqs_of(words@).take(i as int).push(words@[i as int]@));
            assert(strs_of(r@) =~= seqs_of(words@).take(i + 1));
        }
        i = i + 1;
    }
    proof {
        assert(seqs_of(words@).take(words.len() as int) =~= seqs_of(words@));
    }
    r
}


/// The descriptions of the qualified norms of `ns`, in order.
pub open spec fn qualified_contents(ns: Seq<PersonalNorm>) -> Seq<Seq<char>>
    decreases ns.len(),
{
    if ns.len() == 0 {
        seq![]
    } else {
        let prev = qualified_contents(ns.drop_last());
        if ns.last().is_qualified() {
            prev.push(ns.last().content@)
        } else {
            prev
        }
    }
}

/// The descriptions of the qualified norms of the agents `ids`, agent by
/// agent.
pub open spec fn society_contents(m: Map<u64, Vec<PersonalNorm>>, ids: Seq<u64>) -> Seq<Seq<char>>
    decreases ids.len(),
{
    if ids.len() == 0 {
        seq![]
    } else {
        society_contents(m, ids.drop_last()) + qualified_contents(m[ids.last()]@)
    }
}

/// Strictly ascending agent ids.
pub open spec fn ascending(ids: Seq<u64>) -> bool {
    forall|i: int, j: int| 0 <= i < j < ids.len() ==> ids[i] < ids[j]
}

/// Agent ids in increasing map order are ascending.
proof fn lemma_increasing_ascending(ids: Seq<u64>)
    requires
        increasing_seq(ids),
    ensures
        ascending(ids),
{
    broadcast use vstd::std_specs::btree::group_btree_axioms, vstd::laws_cmp::group_laws_cmp;

    assert forall|a: int, b: int| 0 <= a < b < ids.len() implies ids[a] < ids[b] by {
        assert(ids[a].cmp_spec(&ids[b]) is Less);
    }
}

/// `c` (sorted, without duplicates) and `c1` are a possible outcome of
/// canonicalizing, with `c0`, every qualified norm of `m`, agent by agent in
/// ascending id order: `c` holds exactly the keys returned.
pub open spec fn canonical_outcome<J: NormJudge>(
    c0: Canonicalizer<J>,
    m: Map<u64, Vec<PersonalNorm>>,
    c: Seq<Seq<char>>,
    c1: Canonicalizer<J>,
) -> bool {
    exists|ids: Seq<u64>, ks: Seq<Seq<char>>|
        #![trigger canon_run(c0, society_contents(m, ids), ks, c1)]
        {
            &&& ascending(ids)
            &&& ids.to_set() == m.dom()
            &&& canon_run(c0, society_contents(m, ids), ks, c1)
            &&& strictly_sorted(c)
            &&& c.to_set() == ks.to_set()
        }
}

/// Adds the keys `canon` gives the qualified norms of `ns`, in order, to the
/// strictly sorted `words`.
fn add_canon_keys<J: NormJudge>(
    words: &mut Vec<Vec<char>>,
    ns: &Vec<PersonalNorm>,
    canon: &mut Canonicalizer<J>,
)
    requires
        strictly_sorted(seqs_of(old(words)@)),
        old(canon).wf(),
        old(canon).judge_ready(),
    ensures
        strictly_sorted(seqs_of(final(words)@)),
        final(canon).wf(),
        final(canon).judge_ready(),
        final(canon).mode_view() == old(canon).mode_view(),
        registry_extends(old(canon).registry_view(), final(canon).registry_view()),
        old(canon).mode_view() == CanonicalMode::Deterministic ==> seqs_of(final(words)@).to_set()
            == seqs_of(old(words)@).to_set().union(norm_keys(ns@)),
        old(canon).mode_view() == CanonicalMode::Llm ==> forall|w: Seq<char>|
            #[trigger] seqs_of(final(words)@).to_set().contains(w) ==> seqs_of(
                old(words)@,
            ).to_set().contains(w) || registered(final(canon).registry_view(), w),
        (seqs_of(final(words)@).to_set() =~= Set::empty()) <==> (seqs_of(old(words)@).to_set()
            =~= Set::empty() && norm_keys(ns@) =~= Set::empty()),
        exists|ks: Seq<Seq<char>>|
            #![trigger canon_run(*old(canon), qualified_contents(ns@), ks, *final(canon))]
            canon_run(*old(canon), qualified_contents(ns@), ks, *final(canon)) && seqs_of(
                final(words)@,
            ).to_set() == seqs_of(old(words)@).to_set().union(ks.to_set()),
{
    let ghost w0 = seqs_of(words@).to_set();
    let ghost reg0 = canon.registry_view();
    let ghost mode = canon.mode_view();
    let ghost c0 = *canon;
    let ghost mut ks: Seq<Seq<char>> = Seq::empty();
    proof {
        assert(ns@.take(0) =~= Seq::<PersonalNorm>::empty());
        assert(w0.union(ks.to_set()) =~= w0);
    }
    let mut i: usize = 0;
    while i < ns.len()
        invariant
            i <= ns.len(),
            strictly_sorted(seqs_of(words@)),
            canon.wf(),
            canon.judge_ready(),
            canon.mode_view() == mode,
            registry_extends(reg0, canon.registry_view()),
            mode == CanonicalMode::Deterministic ==> seqs_of(words@).to_set() == w0.union(
                norm_keys(ns@.take(i as int)),
            ),
            mode == CanonicalMode::Llm ==> forall|w: Seq<char>|
                #[trigger] seqs_of(words@).to_set().contains(w) ==> w0.contains(w) || registered(
                    canon.registry_view(),
                    w,
                ),
            (seqs_of(words@).to_set() =~= Set::empty()) <==> (w0 =~= Set::empty() && norm_keys(
                ns@.take(i as int),
            ) =~= Set::empty()),
            canon_run(c0, qualified_contents(ns@.take(i as int)), ks, *canon),
            seqs_of(words@).to_set() == w0.union(ks.to_set()),
            c0 == *old(canon),
        decreases ns.len() - i,
    {
        proof {
            let nk1 = norm_keys(ns@.take(i + 1));
            let nk0 = norm_keys(ns@.take(i as int));
            let target = if ns@[i as int].is_qualified() {
                nk0.insert(canonical_key_view(ns@[i as int].content@))
            } else {
                nk0
            };
            assert forall|x: Seq<char>| nk1.contains(x) implies target.contains(x) by {
                let q = choose|q: int| 0 <= q < ns@.take(i + 1).len() && (#[trigger] ns@.take(i + 1)[q]).is_qualified() && x == canonical_key_view(ns@.take(i + 1)[q].content@);
                if q < i {
                    assert(ns@.take(i as int)[q] == ns@.take(i + 1)[q]);
                }
            }
            assert forall|x: Seq<char>| target.contains(x) implies nk1.contains(x) by {
                if nk0.contains(x) {
                    let q = choose|q: int| 0 <= q < ns@.take(i as int).len() && (#[trigger] ns@.take(i as int)[q]).is_qualified() && x == canonical_key_view(ns@.take(i as int)[q].content@);
                    assert(ns@.take(i + 1)[q] == ns@.take(i as int)[q]);
                } else {
                    assert(ns@.take(i + 1)[i as int] == ns@[i as int]);
                }
            }
            assert(nk1 =~= target);
            assert(ns@.take(i + 1).drop_last() =~= ns@.take(i as int));
            assert(ns@.take(i + 1).last() == ns@[i as int]);
        }
        if ns[i].qualified() {
            let ghost words0 = seqs_of(words@).to_set();
            let ghost regb = canon.registry_view();
            let ghost cb = *canon;
            let k = canon.canonicalize(ns[i].content.as_str());
            let kv = chars_of(k.as_str());
            insert_sorted(words, kv);
            proof {
                lemma_canon_run_push(
                    c0,
                    qualified_contents(ns@.take(i as int)),
                    ks,
                    cb,
                    ns@[i as int].content@,
                    k@,
                    *canon,
                );
                let ks0 = ks;
                ks = ks.push(k@);
                assert(ks.drop_last() =~= ks0);
                assert(words0 == w0.union(ks0.to_set()));
                assert(seqs_of(words@).to_set() =~= w0.union(ks.to_set())) by {
                    assert forall|x: Seq<char>| ks.to_set().contains(x) <==> (ks.drop_last().to_set().contains(x) || x == k@) by {
                        if ks.to_set().contains(x) {
                            let q = choose|q: int| 0 <= q < ks.len() && ks[q] == x;
                            if q < ks.len() - 1 {
                                assert(ks.drop_last()[q] == x);
                            }
                        }
                        if ks.drop_last().to_set().contains(x) {
                            let q = choose|q: int| 0 <= q < ks.drop_last().len() && ks.drop_last()[q] == x;
                            assert(ks[q] == x);
                        }
                        if x == k@ {
                            assert(ks[ks.len() - 1] == x);
                        }
                    }
                }
                assert(seqs_of(words@).to_set() == words0.insert(k@));
                assert(seqs_of(words@).to_set().contains(k@));
                assert(norm_keys(ns@.take(i + 1)).contains(canonical_key_view(ns@[i as int].content@)));
                if mode == CanonicalMode::Deterministic {
                    assert(seqs_of(words@).to_set() =~= w0.union(norm_keys(ns@.take(i + 1))));
                } else {
                    assert forall|w: Seq<char>| #[trigger] seqs_of(words@).to_set().contains(w) implies w0.contains(w) || registered(canon.registry_view(), w) by {
                        if w != k@ {
                            assert(words0.contains(w));
                            if !w0.contains(w) {
                                let q = choose|q: int| 0 <= q < regb.len() && (#[trigger] regb[q]).1 == w;
                                assert(canon.registry_view()[q] == regb[q]);
                            }
                        }
                    }
                }
            }
        }
        i = i + 1;
    }
    proof {
        assert(ns@.take(ns.len() as int) =~= ns@);
    }
}

/// The canonical keys of every qualified norm in the society, sorted and
/// without duplicates, of a norm database.
pub fn canonical_set(norm_db: &BTreeMap<u64, Vec<PersonalNorm>>) -> (r: Vec<String>)
    ensures
        strictly_sorted(strs_of(r@)),
        strs_of(r@).to_set() == db_keys(norm_db@),
{
    let mut words: Vec<Vec<char>> = Vec::new();
    let vals = norm_db.values();
    let ghost g = vals.remaining();
    proof {
        assert(is_value_seq(norm_db@, g));
        assert(seqs_of(words@).to_set() =~= rows_keys(g.take(0)));
    }
    for ns in it: vals
        invariant
            it.seq() == g,
            strictly_sorted(seqs_of(words@)),
            seqs_of(words@).to_set() == rows_keys(g.take(it.index())),
    {
        let ghost j = it.index();
        add_norm_keys(&mut words, ns);
        proof {
            assert(g[j] == ns);
            assert(rows_keys(g.take(j + 1)) =~= rows_keys(g.take(j)).union(norm_keys(ns@))) by {
                assert forall|x: Seq<char>| #![auto] rows_keys(g.take(j + 1)).contains(x) implies rows_keys(g.take(j)).union(norm_keys(ns@)).contains(x) by {
                    let q = choose|q: int| 0 <= q < g.take(j + 1).len() && norm_keys((#[trigger] g.take(j + 1)[q])@).contains(x);
                    if q < j {
                        assert(g.take(j)[q] == g.take(j + 1)[q]);
                    }
                }
                assert forall|x: Seq<char>| #![auto] rows_keys(g.take(j)).union(norm_keys(ns@)).contains(x) implies rows_keys(g.take(j + 1)).contains(x) by {
                    if rows_keys(g.take(j)).contains(x) {
                        let q = choose|q: int| 0 <= q < g.take(j).len() && norm_keys((#[trigger] g.take(j)[q])@).contains(x);
                        assert(g.take(j + 1)[q] == g.take(j)[q]);
                    } else {
                        assert(g.take(j + 1)[j] == ns);
                    }
                }
            }
        }
    }
    proof {
        assert(g.take(g.len() as int) =~= g);
        lemma_rows_keys(norm_db@, g);
    }
    strings_of(&words)
}


impl CrsecWorld {
    /// The state built from its parts, with an empty interaction log.
    pub fn new(
        agents: BTreeMap<u64, AgentProfile>,
        norm_db: BTreeMap<u64, Vec<PersonalNorm>>,
        synth_threshold: i64,
    ) -> (r: Self)
        ensures
            r.agents@ == agents@,
            r.norm_db@ == norm_db@,
            r.interactions@.len() == 0,
            r.synth_threshold == synth_threshold,
    {
        CrsecWorld { agents, norm_db, interactions: Vec::new(), synth_threshold }
    }

    /// The number N of agents.
    pub fn n(&self) -> (r: usize)
        ensures
            r == self.agents@.len(),
    {
        self.agents.len()
    }

    /// The norm database (read-only).
    pub fn norm_db_ref(&self) -> (r: &BTreeMap<u64, Vec<PersonalNorm>>)
        ensures
            r@ == self.norm_db@,
    {
        &self.norm_db
    }

    /// The qualified norms of agent `id`, in database order (none for an
    /// unknown agent).
    pub fn qualified_norms(&self, id: u64) -> (r: Vec<&PersonalNorm>)
        ensures
            r@.map_values(|n: &PersonalNorm| *n) == (if self.norm_db@.contains_key(id) {
                self.norm_db@[id]@.filter(qualified_pred())
            } else {
                Seq::empty()
            }),
    {
        let mut r: Vec<&PersonalNorm> = Vec::new();
        match self.norm_db.get(&id) {
            Some(v) => {
                let mut i: usize = 0;
                while i < v.len()
                    invariant
                        i <= v.len(),
                        r@.map_values(|n: &PersonalNorm| *n) == v@.take(i as int).filter(
                            qualified_pred(),
                        ),
                    decreases v.len() - i,
                {
                    proof {
                        assert(v@.take(i + 1) =~= v@.take(i as int).push(v@[i as int]));
                        v@.take(i as int).lemma_filter_push(v@[i as int], qualified_pred());
                    }
                    if v[i].qualified() {
                        r.push(&v[i]);
                        proof {
                            assert(r@.map_values(|n: &PersonalNorm| *n) =~= v@.take(
                                i as int,
                            ).filter(qualified_pred()).push(v@[i as int]));
                        }
                    }
                    i = i + 1;
                }
                proof {
                    assert(v@.take(v.len() as int) =~= v@);
                }
            },
            None => {
                proof {
                    assert(r@.map_values(|n: &PersonalNorm| *n) =~= Seq::<PersonalNorm>::empty());
                }
            },
        }
        r
    }

    /// The canonical keys of every qualified norm in the society, sorted and
    /// without duplicates: the basis of adoption and convergence.
    pub fn qualified_canonical_set(&self) -> (r: Vec<String>)
        ensures
            strictly_sorted(strs_of(r@)),
            strs_of(r@).to_set() == db_keys(self.norm_db@),
    {
        canonical_set(&self.norm_db)
    }

    /// [`qualified_canonical_set`](Self::qualified_canonical_set) with the
    /// keys of `canon`.  With a rule-mode canonicalizer it gives exactly the
    /// same set; with the llm mode every key is a registered representative's.
    pub fn qualified_canonical_set_with<J: NormJudge>(&self, canon: &mut Canonicalizer<J>) -> (r:
        Vec<String>)
        requires
            old(canon).wf(),
            old(canon).judge_ready(),
        ensures
            final(canon).wf(),
            final(canon).judge_ready(),
            final(canon).mode_view() == old(canon).mode_view(),
            registry_extends(old(canon).registry_view(), final(canon).registry_view()),
            strictly_sorted(strs_of(r@)),
            old(canon).mode_view() == CanonicalMode::Deterministic ==> strs_of(r@).to_set()
                == db_keys(self.norm_db@),
            old(canon).mode_view() == CanonicalMode::Llm ==> forall|w: Seq<char>|
                #[trigger] strs_of(r@).to_set().contains(w) ==> registered(
                    final(canon).registry_view(),
                    w,
                ),
            strs_of(r@).len() == 0 <==> db_keys(self.norm_db@) =~= Set::empty(),
            canonical_outcome(*old(canon), self.norm_db@, strs_of(r@), *final(canon)),
    {
        broadcast use vstd::std_specs::btree::group_btree_axioms;

        let mut words: Vec<Vec<char>> = Vec::new();
        let vals = self.norm_db.values();
        let ghost g = vals.remaining();
        let ghost reg0 = canon.registry_view();
        let ghost mode = canon.mode_view();
        let ghost c0 = *canon;
        let ghost ids = choose|ks: Seq<u64>|
            increasing_seq(ks) && ks.to_set() == self.norm_db@.dom() && ks.no_duplicates() && g
                == ks.map(|i: int, k: u64| &self.norm_db@[k]);
        let ghost mut kall: Seq<Seq<char>> = Seq::empty();
        proof {
            assert(is_value_seq(self.norm_db@, g));
            assert(seqs_of(words@).to_set() =~= rows_keys(g.take(0)));
            assert(ids.take(0) =~= Seq::<u64>::empty());
            assert(seqs_of(words@).to_set() =~= kall.to_set());
        }
        for ns in it: vals
            invariant
                it.seq() == g,
                strictly_sorted(seqs_of(words@)),
                canon.wf(),
                canon.judge_ready(),
                canon.mode_view() == mode,
                registry_extends(reg0, canon.registry_view()),
                mode == CanonicalMode::Deterministic ==> seqs_of(words@).to_set() == rows_keys(
                    g.take(it.index()),
                ),
                mode == CanonicalMode::Llm ==> forall|w: Seq<char>|
                    #[trigger] seqs_of(words@).to_set().contains(w) ==> registered(
                        canon.registry_view(),
                        w,
                    ),
                (seqs_of(words@).to_set() =~= Set::empty()) <==> (rows_keys(g.take(it.index()))
                    =~= Set::empty()),
                g == ids.map(|i: int, k: u64| &self.norm_db@[k]),
                c0 == *old(canon),
                canon_run(c0, society_contents(self.norm_db@, ids.take(it.index())), kall, *canon),
                seqs_of(words@).to_set() == kall.to_set(),
        {
            let ghost j = it.index();
            let ghost wb = seqs_of(words@).to_set();
            let ghost regb = canon.registry_view();
            let ghost cb = *canon;
            add_canon_keys(&mut words, ns, canon);
            proof {
                assert(g[j] == ns);
                let kn = choose|kn: Seq<Seq<char>>|
                    #![trigger canon_run(cb, qualified_contents(ns@), kn, *canon)]
                    canon_run(cb, qualified_contents(ns@), kn, *canon) && seqs_of(words@).to_set()
                        == wb.union(kn.to_set());
                assert(ns@ == self.norm_db@[ids[j]]@);
                assert(ids.take(j + 1).drop_last() =~= ids.take(j));
                assert(ids.take(j + 1).last() == ids[j]);
                lemma_canon_run_concat(
                    c0,
                    society_contents(self.norm_db@, ids.take(j)),
                    kall,
                    cb,
                    qualified_contents(ns@),
                    kn,
                    *canon,
                );
                let k0 = kall;
                kall = kall + kn;
                assert(seqs_of(words@).to_set() =~= kall.to_set()) by {
                    assert forall|x: Seq<char>| kall.to_set().contains(x) <==> (k0.to_set().contains(x) || kn.to_set().contains(x)) by {
                        if kall.to_set().contains(x) {
                            let q = choose|q: int| 0 <= q < kall.len() && kall[q] == x;
                            if q < k0.len() {
                                assert(k0[q] == x);
                            } else {
                                assert(kn[q - k0.len()] == x);
                            }
                        }
                        if k0.to_set().contains(x) {
                            let q = choose|q: int| 0 <= q < k0.len() && k0[q] == x;
                            assert(kall[q] == x);
                        }
                        if kn.to_set().contains(x) {
                            let q = choose|q: int| 0 <= q < kn.len() && kn[q] == x;
                            assert(kall[q + k0.len()] == x);
                        }
                    }
                }
                assert(rows_keys(g.take(j + 1)) =~= rows_keys(g.take(j)).union(norm_keys(ns@))) by {
                    assert forall|x: Seq<char>| #![auto] rows_keys(g.take(j + 1)).contains(x) implies rows_keys(g.take(j)).union(norm_keys(ns@)).contains(x) by {
                        let q = choose|q: int| 0 <= q < g.take(j + 1).len() && norm_keys((#[trigger] g.take(j + 1)[q])@).contains(x);
                        if q < j {
                            assert(g.take(j)[q] == g.take(j + 1)[q]);
                        }
                    }
                    assert forall|x: Seq<char>| #![auto] rows_keys(g.take(j)).union(norm_keys(ns@)).contains(x) implies rows_keys(g.take(j + 1)).contains(x) by {
                        if rows_keys(g.take(j)).contains(x) {
                            let q = choose|q: int| 0 <= q < g.take(j).len() && norm_keys((#[trigger] g.take(j)[q])@).contains(x);
                            assert(g.take(j + 1)[q] == g.take(j)[q]);
                        } else {
                            assert(g.take(j + 1)[j] == ns);
                        }
                    }
                }
                if mode == CanonicalMode::Llm {
                    assert forall|w: Seq<char>| #[trigger] seqs_of(words@).to_set().contains(w) implies registered(canon.registry_view(), w) by {
                        if wb.contains(w) {
                            let q = choose|q: int| 0 <= q < regb.len() && (#[trigger] regb[q]).1 == w;
                            assert(canon.registry_view()[q] == regb[q]);
                        }
                    }
                }
            }
        }
        proof {
            assert(g.take(g.len() as int) =~= g);
            assert(ids.take(ids.len() as int) =~= ids);
            lemma_increasing_ascending(ids);
            lemma_rows_keys(self.norm_db@, g);
            if seqs_of(words@).len() > 0 {
                assert(seqs_of(words@).to_set().contains(seqs_of(words@)[0]));
            }
        }
        let r = strings_of(&words);
        proof {
            assert(canon_run(c0, society_contents(self.norm_db@, ids), kall, *canon));
            assert(strs_of(r@).to_set() == kall.to_set());
        }
        r
    }
}

} // verus!
